//! Tokens of the Brainfuck language and the parsers that turn them into trees.

use vstd::prelude::*;
use crate::instruction::{Instruction, Value, token_instruction, plain_text};
use crate::token;
use crate::text::{push_char, repeat_char};

verus! {

/// Raised when the square brackets of a program do not pair up.
#[derive(Debug, Clone, Copy, PartialEq, Eq, Structural)]
pub enum ParseError {
    InvalidBracket,
}

/// One of the eight Brainfuck commands.
#[derive(Debug, Clone, Copy, PartialEq, Eq, Structural)]
pub enum Token {
    /// `>`
    Greater,
    /// `<`
    Less,
    /// `+`
    Plus,
    /// `-`
    Minus,
    /// `.`
    Period,
    /// `,`
    Comma,
    /// `[`
    LeftBracket,
    /// `]`
    RightBracket,
}

/// The character that spells each token.
pub open spec fn token_char(t: Token) -> char {
    match t {
        Token::Greater => '>',
        Token::Less => '<',
        Token::Plus => '+',
        Token::Minus => '-',
        Token::Period => '.',
        Token::Comma => ',',
        Token::LeftBracket => '[',
        Token::RightBracket => ']',
    }
}

/// The token a character spells, if it spells one.
pub open spec fn char_token(c: char) -> Option<Token> {
    if exists|t: Token| token_char(t) == c {
        Some(choose|t: Token| token_char(t) == c)
    } else {
        None
    }
}

/// The tokens of a text: the characters that spell a token, in order; every other character is dropped.
pub open spec fn tokens_of(s: Seq<char>) -> Seq<Token>
    decreases s.len(),
{
    if s.len() == 0 {
        Seq::empty()
    } else {
        tokens_of(s.drop_last()) + match char_token(s.last()) {
            Some(t) => seq![t],
            None => Seq::empty(),
        }
    }
}

/// Distinct tokens are spelled by distinct characters.
pub proof fn lemma_token_char_injective(a: Token, b: Token)
    ensures
        token_char(a) == token_char(b) ==> a == b,
{
}

/// The token a command's text repeats: the one whose single command it repeats.
pub open spec fn text_token(i: Instruction) -> Option<Token> {
    match i {
        Instruction::PtrIncrement(_) => Some(Token::Greater),
        Instruction::PtrDecrement(_) => Some(Token::Less),
        Instruction::Add(0, Value::Const(_)) => Some(Token::Plus),
        Instruction::Sub(0, Value::Const(_)) => Some(Token::Minus),
        Instruction::Output(0, _) => Some(Token::Period),
        Instruction::Input(0, _) => Some(Token::Comma),
        _ => None,
    }
}

/// How many times a command's text repeats its token.
pub open spec fn text_count(i: Instruction) -> nat {
    match i {
        Instruction::PtrIncrement(n) | Instruction::PtrDecrement(n) | Instruction::Output(_, n) | Instruction::Input(_, n) => n as nat,
        Instruction::Add(_, Value::Const(n)) | Instruction::Sub(_, Value::Const(n)) => n as nat,
        _ => 0,
    }
}

proof fn lemma_char_token_of(t: Token)
    ensures
        char_token(token_char(t)) == Some(t),
{
    assert(token_char(t) == token_char(t));
    let u = choose|u: Token| token_char(u) == token_char(t);
    lemma_token_char_injective(u, t);
}

proof fn lemma_tokens_of_repeat(t: Token, n: nat)
    ensures
        tokens_of(repeat_char(token_char(t), n)) == Seq::new(n, |_k: int| t),
    decreases n,
{
    lemma_char_token_of(t);
    if n > 0 {
        lemma_tokens_of_repeat(t, (n - 1) as nat);
        assert(repeat_char(token_char(t), n).drop_last() =~= repeat_char(token_char(t), (n - 1) as nat));
        assert(Seq::new(n, |_k: int| t) =~= Seq::new((n - 1) as nat, |_k: int| t) + seq![t]);
    }
}

/// The text of a command reads back as that many copies of the token of its single command.
pub proof fn lemma_text_reads_back(i: Instruction)
    requires
        plain_text(i) is Some,
    ensures
        text_token(i) is Some,
        tokens_of(plain_text(i)->0) == Seq::new(text_count(i), |_k: int| text_token(i)->0),
        token_instruction(text_token(i)->0) is Some,
        text_count(i) > 0 ==> plain_text(token_instruction(text_token(i)->0)->0) == Some(repeat_char(token_char(text_token(i)->0), 1)),
{
    let t = text_token(i)->0;
    lemma_tokens_of_repeat(t, text_count(i));
}

impl Token {
    pub fn from_char(c: char) -> (r: Option<Token>)
        ensures
            r == char_token(c),
    {
        let r = match c {
            '>' => Some(Token::Greater),
            '<' => Some(Token::Less),
            '+' => Some(Token::Plus),
            '-' => Some(Token::Minus),
            '.' => Some(Token::Period),
            ',' => Some(Token::Comma),
            '[' => Some(Token::LeftBracket),
            ']' => Some(Token::RightBracket),
            _ => None,
        };
        proof {
            match r {
                Some(t) => {
                    assert(token_char(t) == c);
                    let u = choose|u: Token| token_char(u) == c;
                    lemma_token_char_injective(t, u);
                },
                None => {
                    assert forall|t: Token| token_char(t) != c by {
                        match t {
                            _ => {},
                        }
                    }
                },
            }
        }
        r
    }

    pub fn as_char(&self) -> (c: char)
        ensures
            c == token_char(*self),
    {
        match self {
            Token::Greater => '>',
            Token::Less => '<',
            Token::Plus => '+',
            Token::Minus => '-',
            Token::Period => '.',
            Token::Comma => ',',
            Token::LeftBracket => '[',
            Token::RightBracket => ']',
        }
    }
}

/// Reading back the character of a token gives the token.
pub proof fn lemma_char_round_trip(t: Token)
    ensures
        char_token(token_char(t)) == Some(t),
{
    let u = choose|u: Token| token_char(u) == token_char(t);
    lemma_token_char_injective(t, u);
}

pub fn tokenize(code: &str) -> (tokens: Vec<Token>)
    ensures
        tokens@ == tokens_of(code@),
{
    broadcast use vstd::string::group_string_axioms;
    let mut tokens: Vec<Token> = Vec::new();
    for c in it: code.chars()
        invariant
            it.seq() == code@,
            tokens@ == tokens_of(code@.take(it.index() as int)),
    {
        let ghost i = it.index();
        assert(code@.take(i + 1).drop_last() =~= code@.take(i as int));
        if let Some(t) = Token::from_char(c) {
            tokens.push(t);
        }
    }
    assert(code@.take(code@.len() as int) =~= code@);
    tokens
}


/// How much a token deepens the nesting of brackets.
pub open spec fn bracket_delta(t: Token) -> int {
    match t {
        Token::LeftBracket => 1,
        Token::RightBracket => -1,
        _ => 0,
    }
}

/// Opening brackets minus closing brackets.
pub open spec fn depth(s: Seq<Token>) -> int
    decreases s.len(),
{
    if s.len() == 0 {
        0
    } else {
        depth(s.drop_last()) + bracket_delta(s.last())
    }
}

/// Every bracket has a partner: no prefix closes more brackets than it opens, and
/// the whole sequence closes as many as it opens.
pub open spec fn balanced(s: Seq<Token>) -> bool {
    &&& depth(s) == 0
    &&& forall|i: int| 0 <= i <= s.len() ==> depth(#[trigger] s.take(i)) >= 0
}

pub proof fn lemma_depth_step(s: Seq<Token>, i: int)
    requires
        0 <= i < s.len(),
    ensures
        depth(s.take(i + 1)) == depth(s.take(i)) + bracket_delta(s[i]),
{
    assert(s.take(i + 1).drop_last() =~= s.take(i));
}

pub proof fn lemma_depth_bound(s: Seq<Token>)
    ensures
        depth(s) <= s.len(),
    decreases s.len(),
{
    if s.len() > 0 {
        lemma_depth_bound(s.drop_last());
    }
}

pub type Nods = Vec<Nod>;

/// A program as a tree: loops hold their bodies, everything else is an instruction.
#[derive(Debug, PartialEq, Eq)]
pub enum Nod {
    Loop(Nods),
    Instruction(Instruction),
}

/// What a tree node is, with loop bodies seen as sequences of such values.
pub enum NodModel {
    Loop(Seq<NodModel>),
    Instruction(Instruction),
}

pub open spec fn nod_model(n: Nod) -> NodModel
    decreases n,
{
    match n {
        Nod::Loop(body) => NodModel::Loop(nods_model(body@)),
        Nod::Instruction(i) => NodModel::Instruction(i),
    }
}

pub open spec fn nods_model(s: Seq<Nod>) -> Seq<NodModel>
    decreases s,
{
    if s.len() == 0 {
        Seq::empty()
    } else {
        nods_model(s.drop_last()).push(nod_model(s.last()))
    }
}

pub proof fn lemma_nods_model_len(s: Seq<Nod>)
    ensures
        nods_model(s).len() == s.len(),
    decreases s.len(),
{
    if s.len() > 0 {
        lemma_nods_model_len(s.drop_last());
    }
}

pub proof fn lemma_nods_model_index(s: Seq<Nod>, k: int)
    requires
        0 <= k < s.len(),
    ensures
        nods_model(s).len() == s.len(),
        nods_model(s)[k] == nod_model(s[k]),
    decreases s.len(),
{
    lemma_nods_model_len(s);
    if k < s.len() - 1 {
        lemma_nods_model_index(s.drop_last(), k);
    }
}

pub proof fn lemma_nods_model_push(s: Seq<Nod>, n: Nod)
    ensures
        nods_model(s.push(n)) == nods_model(s).push(nod_model(n)),
{
    assert(s.push(n).drop_last() =~= s);
}

/// The model of a sequence is the models of its nodes, one by one.
pub proof fn lemma_nods_model_pointwise(s: Seq<Nod>, m: Seq<NodModel>)
    requires
        m.len() == s.len(),
        forall|k: int| 0 <= k < s.len() ==> m[k] == nod_model(#[trigger] s[k]),
    ensures
        nods_model(s) == m,
{
    lemma_nods_model_len(s);
    assert forall|k: int| 0 <= k < s.len() implies nods_model(s)[k] == m[k] by {
        lemma_nods_model_index(s, k);
    }
    assert(nods_model(s) =~= m);
}

/// The token an instruction was read from, for instructions that a single token stands for.
pub open spec fn instruction_token(i: Instruction) -> Option<Token> {
    if exists|t: Token| token_instruction(t) == Some(i) {
        Some(choose|t: Token| token_instruction(t) == Some(i))
    } else {
        None
    }
}

/// The tokens that spell a tree: a loop is its body in brackets.
pub open spec fn nod_tokens(n: Nod) -> Seq<Token>
    decreases n,
{
    match n {
        Nod::Loop(body) => seq![Token::LeftBracket] + nods_tokens(body@) + seq![Token::RightBracket],
        Nod::Instruction(i) => match instruction_token(i) {
            Some(t) => seq![t],
            None => Seq::empty(),
        },
    }
}

pub open spec fn nods_tokens(ns: Seq<Nod>) -> Seq<Token>
    decreases ns,
{
    if ns.len() == 0 {
        Seq::empty()
    } else {
        nods_tokens(ns.drop_last()) + nod_tokens(ns.last())
    }
}

/// Every instruction in the tree is the instruction of a single token, as parsing produces.
pub open spec fn nod_raw(n: Nod) -> bool
    decreases n,
{
    match n {
        Nod::Loop(body) => nods_raw(body@),
        Nod::Instruction(i) => instruction_token(i) is Some,
    }
}

pub open spec fn nods_raw(ns: Seq<Nod>) -> bool
    decreases ns,
{
    if ns.len() == 0 {
        true
    } else {
        nods_raw(ns.drop_last()) && nod_raw(ns.last())
    }
}

proof fn lemma_nods_push(ns: Seq<Nod>, n: Nod)
    ensures
        nods_tokens(ns.push(n)) == nods_tokens(ns) + nod_tokens(n),
        nods_raw(ns.push(n)) == (nods_raw(ns) && nod_raw(n)),
{
    assert(ns.push(n).drop_last() =~= ns);
}

proof fn lemma_token_instruction_inverse(t: Token)
    requires
        token_instruction(t) is Some,
    ensures
        instruction_token(token_instruction(t)->0) == Some(t),
{
    let i = token_instruction(t)->0;
    let u = choose|u: Token| token_instruction(u) == Some(i);
    assert(token_instruction(u) == Some(i));
    match t {
        _ => match u {
            _ => {},
        },
    }
}

/// Parses the items from `pos` up to the bracket that closes the current loop
/// (or the end of the input, at nesting depth zero). On success it returns the
/// items and the position after that bracket.
fn parse_nods(tokens: &Vec<Token>, pos: usize, nesting: usize) -> (r: Result<(Nods, usize), ParseError>)
    requires
        pos <= tokens@.len(),
        depth(tokens@.take(pos as int)) == nesting,
        forall|i: int| 0 <= i <= pos ==> depth(#[trigger] tokens@.take(i)) >= 0,
    ensures
        match r {
            Ok((ns, end)) => {
                &&& pos < end <= tokens@.len() || (nesting == 0 && pos <= end)
                &&& nods_raw(ns@)
                &&& forall|i: int| 0 <= i <= end ==> depth(#[trigger] tokens@.take(i)) >= 0
                &&& if nesting == 0 {
                    &&& end == tokens@.len()
                    &&& nods_tokens(ns@) == tokens@.subrange(pos as int, end as int)
                    &&& depth(tokens@) == 0
                } else {
                    &&& tokens@[end - 1] == Token::RightBracket
                    &&& nods_tokens(ns@) == tokens@.subrange(pos as int, end - 1)
                    &&& depth(tokens@.take(end as int)) == nesting - 1
                }
            },
            Err(_) => !balanced(tokens@),
        },
    decreases tokens@.len() - pos,
{
    let mut nods: Nods = Vec::new();
    let mut i = pos;
    while i < tokens.len()
        invariant
            pos <= i <= tokens@.len(),
            nods_tokens(nods@) == tokens@.subrange(pos as int, i as int),
            nods_raw(nods@),
            depth(tokens@.take(i as int)) == nesting,
            forall|j: int| 0 <= j <= i ==> depth(#[trigger] tokens@.take(j)) >= 0,
        decreases tokens@.len() - i,
    {
        let token = tokens[i];
        proof {
            lemma_depth_step(tokens@, i as int);
            lemma_depth_bound(tokens@.take(i as int));
        }
        match token {
            Token::LeftBracket => {
                let (inner, end) = match parse_nods(tokens, i + 1, nesting + 1) {
                    Ok(x) => x,
                    Err(e) => return Err(e),
                };
                proof {
                    let n = Nod::Loop(inner);
                    lemma_nods_push(nods@, n);
                    assert(tokens@.subrange(pos as int, end as int) =~= tokens@.subrange(pos as int, i as int)
                        + seq![Token::LeftBracket] + tokens@.subrange(i + 1, end - 1) + seq![Token::RightBracket]);
                }
                nods.push(Nod::Loop(inner));
                i = end;
            },
            Token::RightBracket => {
                if nesting == 0 {
                    assert(depth(tokens@.take(i + 1)) < 0);
                    return Err(ParseError::InvalidBracket);
                } else {
                    return Ok((nods, i + 1));
                }
            },
            _ => {
                let ins = Instruction::from_token(&token);
                proof {
                    lemma_token_instruction_inverse(token);
                    lemma_nods_push(nods@, Nod::Instruction(ins->0));
                    assert(tokens@.subrange(pos as int, i + 1) =~= tokens@.subrange(pos as int, i as int).push(token));
                }
                nods.push(Nod::Instruction(ins.unwrap()));
                i = i + 1;
            },
        }
    }
    if nesting == 0 {
        assert(tokens@.take(i as int) =~= tokens@);
        Ok((nods, i))
    } else {
        assert(tokens@.take(i as int) =~= tokens@);
        Err(ParseError::InvalidBracket)
    }
}

impl Nod {
    /// Parses tokens into a tree; fails when the brackets do not pair up.
    pub fn from_tokens(tokens: Vec<Token>) -> (r: Result<Nods, ParseError>)
        ensures
            r is Ok <==> balanced(tokens@),
            r matches Ok(ns) ==> nods_tokens(ns@) == tokens@ && nods_raw(ns@),
    {
        assert(tokens@.take(0) =~= Seq::<Token>::empty());
        match parse_nods(&tokens, 0, 0) {
            Ok((nods, end)) => {
                assert(tokens@.subrange(0, end as int) =~= tokens@);
                Ok(nods)
            },
            Err(e) => Err(e),
        }
    }
}


/// A run of commands, or a loop over a nested tree.
#[derive(Debug, PartialEq, Eq, Hash)]
pub enum ExprKind {
    Instructions(Vec<token::Instruction>),
    While(Node),
}

/// A program as a sequence of runs and loops.
#[derive(Debug, PartialEq, Eq, Hash)]
pub struct Node(pub Vec<ExprKind>);

/// What a run or loop is, with loop bodies seen as sequences of such values.
pub enum ExprModel {
    Instructions(Seq<token::Instruction>),
    While(Seq<ExprModel>),
}

pub open spec fn expr_model(e: ExprKind) -> ExprModel
    decreases e,
{
    match e {
        ExprKind::Instructions(v) => ExprModel::Instructions(v@),
        ExprKind::While(n) => ExprModel::While(exprs_model(n.0@)),
    }
}

pub open spec fn exprs_model(s: Seq<ExprKind>) -> Seq<ExprModel>
    decreases s,
{
    if s.len() == 0 {
        Seq::empty()
    } else {
        exprs_model(s.drop_last()).push(expr_model(s.last()))
    }
}

pub proof fn lemma_exprs_model_len(s: Seq<ExprKind>)
    ensures
        exprs_model(s).len() == s.len(),
    decreases s.len(),
{
    if s.len() > 0 {
        lemma_exprs_model_len(s.drop_last());
    }
}

pub proof fn lemma_exprs_model_index(s: Seq<ExprKind>, k: int)
    requires
        0 <= k < s.len(),
    ensures
        exprs_model(s).len() == s.len(),
        exprs_model(s)[k] == expr_model(s[k]),
    decreases s.len(),
{
    lemma_exprs_model_len(s);
    if k < s.len() - 1 {
        lemma_exprs_model_index(s.drop_last(), k);
    }
}

pub proof fn lemma_exprs_model_push(s: Seq<ExprKind>, e: ExprKind)
    ensures
        exprs_model(s.push(e)) == exprs_model(s).push(expr_model(e)),
{
    assert(s.push(e).drop_last() =~= s);
}

/// A copy of a run or loop, made cell by cell.
pub fn clone_expr(e: &ExprKind) -> (r: ExprKind)
    ensures
        expr_model(r) == expr_model(*e),
    decreases e,
{
    match e {
        ExprKind::Instructions(v) => {
            let mut w: Vec<token::Instruction> = Vec::new();
            let mut i: usize = 0;
            while i < v.len()
                invariant
                    i <= v@.len(),
                    w@ == v@.take(i as int),
                decreases v@.len() - i,
            {
                w.push(v[i]);
                i = i + 1;
                assert(w@ =~= v@.take(i as int));
            }
            assert(v@.take(v@.len() as int) =~= v@);
            ExprKind::Instructions(w)
        },
        ExprKind::While(n) => {
            let mut w: Vec<ExprKind> = Vec::new();
            let mut i: usize = 0;
            assert(n.0@.take(0) =~= Seq::<ExprKind>::empty());
            while i < n.0.len()
                invariant
                    *e == ExprKind::While(*n),
                    i <= n.0@.len(),
                    exprs_model(w@) == exprs_model(n.0@.take(i as int)),
                decreases n.0@.len() - i,
            {
                proof {
                    let node = *n;
                    let whole = *e;
                    assert(whole->While_0 == node);
                    assert(decreases_to!(whole => whole->While_0));
                    assert(decreases_to!(node => node.0));
                    assert(decreases_to!(node.0 => node.0@));
                    assert(decreases_to!(node.0@ => node.0@[i as int]));
                }
                let c = clone_expr(&n.0[i]);
                proof {
                    lemma_exprs_model_push(w@, c);
                    assert(n.0@.take(i + 1).drop_last() =~= n.0@.take(i as int));
                }
                w.push(c);
                i = i + 1;
            }
            assert(n.0@.take(n.0@.len() as int) =~= n.0@);
            ExprKind::While(Node(w))
        },
    }
}

/// The token a command was read from, for commands that a single token stands for.
pub open spec fn command_token(i: token::Instruction) -> Option<Token> {
    if exists|t: Token| token::token_instruction(t) == Some(i) {
        Some(choose|t: Token| token::token_instruction(t) == Some(i))
    } else {
        None
    }
}

/// The tokens of a run of commands.
pub open spec fn commands_tokens(v: Seq<token::Instruction>) -> Seq<Token>
    decreases v.len(),
{
    if v.len() == 0 {
        Seq::empty()
    } else {
        commands_tokens(v.drop_last()) + match command_token(v.last()) {
            Some(t) => seq![t],
            None => Seq::empty(),
        }
    }
}

/// Every command of the run is the command of a single token.
pub open spec fn commands_raw(v: Seq<token::Instruction>) -> bool {
    forall|k: int| 0 <= k < v.len() ==> (#[trigger] command_token(v[k])) is Some
}

pub open spec fn expr_tokens(e: ExprKind) -> Seq<Token>
    decreases e,
{
    match e {
        ExprKind::Instructions(v) => commands_tokens(v@),
        ExprKind::While(n) => seq![Token::LeftBracket] + exprs_tokens(n.0@) + seq![Token::RightBracket],
    }
}

/// The tokens that spell a sequence of runs and loops.
pub open spec fn exprs_tokens(es: Seq<ExprKind>) -> Seq<Token>
    decreases es,
{
    if es.len() == 0 {
        Seq::empty()
    } else {
        exprs_tokens(es.drop_last()) + expr_tokens(es.last())
    }
}

pub open spec fn node_tokens(n: Node) -> Seq<Token> {
    exprs_tokens(n.0@)
}

pub open spec fn expr_parsed(e: ExprKind) -> bool
    decreases e,
{
    match e {
        ExprKind::Instructions(v) => v@.len() > 0 && commands_raw(v@),
        ExprKind::While(n) => exprs_parsed(n.0@),
    }
}

/// The shape parsing gives: runs are not empty, hold single-token commands, and
/// never stand next to each other; loops hold such sequences too.
pub open spec fn exprs_parsed(es: Seq<ExprKind>) -> bool
    decreases es,
{
    if es.len() == 0 {
        true
    } else {
        &&& exprs_parsed(es.drop_last())
        &&& expr_parsed(es.last())
        &&& (es.last() is Instructions && es.len() >= 2 ==> es[es.len() - 2] is While)
    }
}

pub open spec fn node_parsed(n: Node) -> bool {
    exprs_parsed(n.0@)
}

proof fn lemma_exprs_push(es: Seq<ExprKind>, e: ExprKind)
    ensures
        exprs_tokens(es.push(e)) == exprs_tokens(es) + expr_tokens(e),
        exprs_parsed(es.push(e)) == (exprs_parsed(es) && expr_parsed(e)
            && (e is Instructions && es.len() >= 1 ==> es.last() is While)),
{
    assert(es.push(e).drop_last() =~= es);
}

proof fn lemma_command_token_inverse(t: Token)
    requires
        token::token_instruction(t) is Some,
    ensures
        command_token(token::token_instruction(t)->0) == Some(t),
{
    let i = token::token_instruction(t)->0;
    let u = choose|u: Token| token::token_instruction(u) == Some(i);
    assert(token::token_instruction(u) == Some(i));
    match t {
        _ => match u {
            _ => {},
        },
    }
}

/// The commands of the bracket-free tokens between `from` and `to`.
fn run_commands(tokens: &[Token], from: usize, to: usize) -> (v: Vec<token::Instruction>)
    requires
        from <= to <= tokens@.len(),
        forall|k: int| from <= k < to ==> !(tokens@[k] is LeftBracket) && !(tokens@[k] is RightBracket),
    ensures
        commands_tokens(v@) == tokens@.subrange(from as int, to as int),
        commands_raw(v@),
        v@.len() == to - from,
{
    let mut v: Vec<token::Instruction> = Vec::new();
    let mut i = from;
    while i < to
        invariant
            from <= i <= to <= tokens@.len(),
            forall|k: int| from <= k < to ==> !(tokens@[k] is LeftBracket) && !(tokens@[k] is RightBracket),
            commands_tokens(v@) == tokens@.subrange(from as int, i as int),
            commands_raw(v@),
            v@.len() == i - from,
        decreases to - i,
    {
        let t = tokens[i];
        let c = token::Instruction::from_token(&t);
        proof {
            lemma_command_token_inverse(t);
            assert(v@.push(c->0).drop_last() =~= v@);
            assert(tokens@.subrange(from as int, i + 1) =~= tokens@.subrange(from as int, i as int).push(t));
        }
        v.push(c.unwrap());
        i = i + 1;
    }
    v
}

/// Parses the runs and loops from `start` up to the bracket that closes the current
/// loop (or the end, at nesting zero), in tokens whose brackets are known to pair up.
/// Returns the position after that bracket.
fn parse_exprs(tokens: &[Token], start: usize, nesting: usize) -> (r: (usize, Node))
    requires
        balanced(tokens@),
        start <= tokens@.len(),
        depth(tokens@.take(start as int)) == nesting,
    ensures
        node_parsed(r.1),
        if nesting == 0 {
            &&& r.0 == tokens@.len()
            &&& node_tokens(r.1) == tokens@.subrange(start as int, r.0 as int)
        } else {
            &&& start < r.0 <= tokens@.len()
            &&& tokens@[r.0 - 1] == Token::RightBracket
            &&& node_tokens(r.1) == tokens@.subrange(start as int, r.0 - 1)
            &&& depth(tokens@.take(r.0 as int)) == nesting - 1
        },
    decreases tokens@.len() - start,
{
    let mut exprs: Vec<ExprKind> = Vec::new();
    let mut index = start;
    let mut run_start = start;
    while index < tokens.len()
        invariant
            balanced(tokens@),
            start <= run_start <= index <= tokens@.len(),
            depth(tokens@.take(index as int)) == nesting,
            forall|k: int| run_start <= k < index ==> !(tokens@[k] is LeftBracket) && !(tokens@[k] is RightBracket),
            exprs_tokens(exprs@) + tokens@.subrange(run_start as int, index as int)
                == tokens@.subrange(start as int, index as int),
            exprs_parsed(exprs@),
            exprs@.len() > 0 ==> exprs@.last() is While,
        decreases tokens@.len() - index,
    {
        let token = tokens[index];
        proof {
            lemma_depth_step(tokens@, index as int);
            lemma_depth_bound(tokens@.take(index as int));
        }
        match token {
            Token::LeftBracket => {
                if run_start < index {
                    let run = run_commands(tokens, run_start, index);
                    proof {
                        lemma_exprs_push(exprs@, ExprKind::Instructions(run));
                    }
                    exprs.push(ExprKind::Instructions(run));
                } else {
                    assert(tokens@.subrange(run_start as int, index as int) =~= Seq::<Token>::empty());
                    assert(exprs_tokens(exprs@) + Seq::<Token>::empty() =~= exprs_tokens(exprs@));
                }
                let ghost before = exprs@;
                let (end, inner) = parse_exprs(tokens, index + 1, nesting + 1);
                proof {
                    lemma_exprs_push(exprs@, ExprKind::While(inner));
                    assert(tokens@.subrange(start as int, end as int) =~= tokens@.subrange(start as int, index as int)
                        + seq![Token::LeftBracket] + tokens@.subrange(index + 1, end - 1) + seq![Token::RightBracket]);
                    assert(tokens@.subrange(end as int, end as int) =~= Seq::<Token>::empty());
                }
                exprs.push(ExprKind::While(inner));
                proof {
                    assert(exprs_tokens(exprs@) + tokens@.subrange(end as int, end as int) =~= exprs_tokens(exprs@));
                }
                index = end;
                run_start = end;
            },
            Token::RightBracket => {
                assert(tokens@.take(index + 1).len() == index + 1);
                assert(depth(tokens@.take(index + 1)) >= 0);
                if run_start < index {
                    let run = run_commands(tokens, run_start, index);
                    proof {
                        lemma_exprs_push(exprs@, ExprKind::Instructions(run));
                    }
                    exprs.push(ExprKind::Instructions(run));
                } else {
                    assert(tokens@.subrange(run_start as int, index as int) =~= Seq::<Token>::empty());
                    assert(exprs_tokens(exprs@) + Seq::<Token>::empty() =~= exprs_tokens(exprs@));
                }
                return (index + 1, Node(exprs));
            },
            _ => {
                assert(tokens@.subrange(run_start as int, index + 1) =~= tokens@.subrange(run_start as int, index as int).push(token));
                assert(tokens@.subrange(start as int, index + 1) =~= tokens@.subrange(start as int, index as int).push(token));
                index = index + 1;
            },
        }
    }
    assert(tokens@.take(index as int) =~= tokens@);
    if run_start < index {
        let run = run_commands(tokens, run_start, index);
        proof {
            lemma_exprs_push(exprs@, ExprKind::Instructions(run));
        }
        exprs.push(ExprKind::Instructions(run));
    } else {
        assert(tokens@.subrange(run_start as int, index as int) =~= Seq::<Token>::empty());
        assert(exprs_tokens(exprs@) + Seq::<Token>::empty() =~= exprs_tokens(exprs@));
    }
    (index, Node(exprs))
}

impl ExprKind {
    /// Joins two runs into one; `None` unless both are runs.
    pub fn concat(&self, other: &ExprKind) -> (r: Option<ExprKind>)
        ensures
            match (*self, *other) {
                (ExprKind::Instructions(a), ExprKind::Instructions(b)) =>
                    r matches Some(ExprKind::Instructions(c)) && c@ == a@ + b@,
                _ => r is None,
            },
    {
        if let (ExprKind::Instructions(self_instructions), ExprKind::Instructions(other_instructions)) = (self, other) {
            let mut joined: Vec<token::Instruction> = Vec::new();
            let mut i: usize = 0;
            while i < self_instructions.len()
                invariant
                    i <= self_instructions@.len(),
                    joined@ == self_instructions@.take(i as int),
                decreases self_instructions@.len() - i,
            {
                joined.push(self_instructions[i]);
                i = i + 1;
                assert(joined@ =~= self_instructions@.take(i as int));
            }
            let mut j: usize = 0;
            while j < other_instructions.len()
                invariant
                    j <= other_instructions@.len(),
                    joined@ == self_instructions@ + other_instructions@.take(j as int),
                decreases other_instructions@.len() - j,
            {
                joined.push(other_instructions[j]);
                j = j + 1;
                assert(joined@ =~= self_instructions@ + other_instructions@.take(j as int));
            }
            assert(self_instructions@.take(self_instructions@.len() as int) =~= self_instructions@);
            assert(other_instructions@.take(other_instructions@.len() as int) =~= other_instructions@);
            Some(ExprKind::Instructions(joined))
        } else {
            None
        }
    }
}

/// The short text of a run: each command as its count and character, such as `3+`, and
/// `None` for a fused instruction.
pub open spec fn run_text(v: Seq<token::Instruction>) -> Seq<char>
    decreases v.len(),
{
    if v.len() == 0 {
        Seq::empty()
    } else {
        run_text(v.drop_last()) + match token::compressed_text(v.last()) {
            Some(t) => t,
            None => "None"@,
        }
    }
}

pub open spec fn expr_text(e: ExprModel) -> Seq<char>
    decreases e,
{
    match e {
        ExprModel::Instructions(v) => run_text(v),
        ExprModel::While(body) => seq!['['] + node_text(body) + seq![']'],
    }
}

/// The short text of a node: runs as their commands, loops in brackets.
pub open spec fn node_text(ms: Seq<ExprModel>) -> Seq<char>
    decreases ms,
{
    if ms.len() == 0 {
        Seq::empty()
    } else {
        node_text(ms.drop_last()) + expr_text(ms.last())
    }
}

fn push_node_text(out: &mut String, node: &Node)
    ensures
        final(out)@ == old(out)@ + node_text(exprs_model(node.0@)),
    decreases exprs_model(node.0@),
{
    let ghost model = exprs_model(node.0@);
    let ghost start = out@;
    proof {
        lemma_exprs_model_len(node.0@);
        assert(model.take(0) =~= Seq::<ExprModel>::empty());
        assert(start + node_text(model.take(0)) =~= start);
    }
    let mut i: usize = 0;
    while i < node.0.len()
        invariant
            model == exprs_model(node.0@),
            model.len() == node.0@.len(),
            i <= node.0@.len(),
            out@ == start + node_text(model.take(i as int)),
        decreases node.0@.len() - i,
    {
        proof {
            lemma_exprs_model_index(node.0@, i as int);
            assert(model.take(i + 1).drop_last() =~= model.take(i as int));
            assert(model.take(i + 1).last() == model[i as int]);
            assert(node_text(model.take(i + 1)) == node_text(model.take(i as int)) + expr_text(model[i as int]));
        }
        match &node.0[i] {
            ExprKind::Instructions(instructions) => {
                let ghost mid = out@;
                let mut j: usize = 0;
                assert(instructions@.take(0) =~= Seq::<token::Instruction>::empty());
                assert(mid + run_text(instructions@.take(0)) =~= mid);
                while j < instructions.len()
                    invariant
                        j <= instructions@.len(),
                        out@ == mid + run_text(instructions@.take(j as int)),
                    decreases instructions@.len() - j,
                {
                    proof {
                        assert(instructions@.take(j + 1).drop_last() =~= instructions@.take(j as int));
                        assert(instructions@.take(j + 1).last() == instructions@[j as int]);
                    }
                    match instructions[j].to_compressed_string() {
                        Some(text) => out.append(text.as_str()),
                        None => out.append("None"),
                    }
                    j = j + 1;
                    assert(out@ =~= mid + run_text(instructions@.take(j as int)));
                }
                assert(instructions@.take(instructions@.len() as int) =~= instructions@);
            },
            ExprKind::While(while_node) => {
                proof {
                    let m = model[i as int];
                    assert(decreases_to!(model => m));
                    assert(decreases_to!(m => m->While_0));
                }
                push_char(out, '[');
                push_node_text(out, while_node);
                push_char(out, ']');
            },
        }
        i = i + 1;
        assert(out@ =~= start + node_text(model.take(i as int)));
    }
    assert(model.take(node.0@.len() as int) =~= model);
}

impl Node {
    /// The short text of the node, such as `3+[3-]`.
    pub fn to_string(&self) -> (r: String)
        ensures
            r@ == node_text(exprs_model(self.0@)),
    {
        let mut out = String::new();
        push_node_text(&mut out, self);
        assert(out@ =~= node_text(exprs_model(self.0@)));
        out
    }

    pub fn from_source(source: &str) -> (r: Result<Node, ParseError>)
        ensures
            r is Ok <==> balanced(tokens_of(source@)),
            r matches Ok(n) ==> node_tokens(n) == tokens_of(source@) && node_parsed(n),
    {
        let tokens = tokenize(source);
        Node::from_tokens(tokens.as_slice())
    }

    /// Parses tokens into runs and loops; fails when the brackets do not pair up.
    pub fn from_tokens(tokens: &[Token]) -> (r: Result<Node, ParseError>)
        ensures
            r is Ok <==> balanced(tokens@),
            r matches Ok(n) ==> node_tokens(n) == tokens@ && node_parsed(n),
    {
        let mut loop_depth: i128 = 0;
        let mut i: usize = 0;
        assert(tokens@.take(0) =~= Seq::<Token>::empty());
        while i < tokens.len()
            invariant
                i <= tokens@.len(),
                loop_depth == depth(tokens@.take(i as int)),
                forall|j: int| 0 <= j <= i ==> depth(#[trigger] tokens@.take(j)) >= 0,
            decreases tokens@.len() - i,
        {
            proof {
                lemma_depth_step(tokens@, i as int);
                lemma_depth_bound(tokens@.take(i as int));
            }
            match tokens[i] {
                Token::LeftBracket => loop_depth += 1,
                Token::RightBracket => loop_depth -= 1,
                _ => (),
            }
            if loop_depth < 0 {
                return Err(ParseError::InvalidBracket);
            }
            i = i + 1;
        }
        assert(tokens@.take(i as int) =~= tokens@);
        if loop_depth != 0 {
            return Err(ParseError::InvalidBracket);
        }
        let (c, node) = parse_exprs(tokens, 0, 0);
        assert(tokens@.subrange(0, c as int) =~= tokens@);
        Ok(node)
    }
}


/// A program as a syntax tree of commands and loops.
#[derive(Debug, PartialEq, Eq)]
pub enum Ast {
    PtrInc,
    PtrDec,
    Inc,
    Dec,
    Read,
    Write,
    Loop(Vec<Ast>),
    /// A command that is not one of Brainfuck's; a block built from the tree drops it.
    _Invalid,
}

pub open spec fn ast_tokens(a: Ast) -> Seq<Token>
    decreases a,
{
    match a {
        Ast::PtrInc => seq![Token::Greater],
        Ast::PtrDec => seq![Token::Less],
        Ast::Inc => seq![Token::Plus],
        Ast::Dec => seq![Token::Minus],
        Ast::Read => seq![Token::Comma],
        Ast::Write => seq![Token::Period],
        Ast::Loop(body) => seq![Token::LeftBracket] + asts_tokens(body@) + seq![Token::RightBracket],
        Ast::_Invalid => Seq::empty(),
    }
}

/// The tokens that spell a syntax tree.
pub open spec fn asts_tokens(s: Seq<Ast>) -> Seq<Token>
    decreases s,
{
    if s.len() == 0 {
        Seq::empty()
    } else {
        asts_tokens(s.drop_last()) + ast_tokens(s.last())
    }
}

proof fn lemma_asts_push(s: Seq<Ast>, a: Ast)
    ensures
        asts_tokens(s.push(a)) == asts_tokens(s) + ast_tokens(a),
{
    assert(s.push(a).drop_last() =~= s);
}

proof fn lemma_nods_prefix(ns: Seq<Nod>, i: int)
    requires
        0 <= i < ns.len(),
    ensures
        nods_tokens(ns.take(i + 1)) == nods_tokens(ns.take(i)) + nod_tokens(ns[i]),
        nods_raw(ns.take(i + 1)) == (nods_raw(ns.take(i)) && nod_raw(ns[i])),
{
    assert(ns.take(i + 1).drop_last() =~= ns.take(i));
}

proof fn lemma_nods_raw_prefix(ns: Seq<Nod>, i: int)
    requires
        0 <= i <= ns.len(),
        nods_raw(ns),
    ensures
        nods_raw(ns.take(i)),
    decreases ns.len() - i,
{
    if i < ns.len() {
        lemma_nods_raw_prefix(ns, i + 1);
        lemma_nods_prefix(ns, i);
    } else {
        assert(ns.take(i) =~= ns);
    }
}

fn nods_to_asts(nods: &Vec<Nod>) -> (v: Vec<Ast>)
    requires
        nods_raw(nods@),
    ensures
        asts_tokens(v@) == nods_tokens(nods@),
    decreases nods,
{
    let mut v: Vec<Ast> = Vec::new();
    let mut i: usize = 0;
    assert(nods@.take(0) =~= Seq::<Nod>::empty());
    while i < nods.len()
        invariant
            i <= nods@.len(),
            nods_raw(nods@),
            asts_tokens(v@) == nods_tokens(nods@.take(i as int)),
        decreases nods@.len() - i,
    {
        proof {
            lemma_nods_prefix(nods@, i as int);
            lemma_nods_raw_prefix(nods@, i as int + 1);
        }
        let a = match &nods[i] {
            Nod::Loop(body) => {
                proof {
                    assert(decreases_to!(nods => nods@));
                    assert(decreases_to!(nods@ => nods@[i as int]));
                }
                Ast::Loop(nods_to_asts(body))
            },
            Nod::Instruction(ins) => {
                let ghost t = instruction_token(*ins)->0;
                proof {
                    assert(token_instruction(t) == Some(*ins));
                }
                match ins {
                    Instruction::PtrIncrement(_) => Ast::PtrInc,
                    Instruction::PtrDecrement(_) => Ast::PtrDec,
                    Instruction::Add(_, _) => Ast::Inc,
                    Instruction::Sub(_, _) => Ast::Dec,
                    Instruction::Output(_, _) => Ast::Write,
                    _ => Ast::Read,
                }
            },
        };
        proof {
            lemma_asts_push(v@, a);
        }
        v.push(a);
        i = i + 1;
    }
    assert(nods@.take(nods@.len() as int) =~= nods@);
    v
}

/// Parses Brainfuck source into a syntax tree, skipping characters that are not commands.
pub fn parse(source: &str) -> (r: Result<Vec<Ast>, ParseError>)
    ensures
        r is Ok <==> balanced(tokens_of(source@)),
        r matches Ok(v) ==> asts_tokens(v@) == tokens_of(source@),
{
    let tokens = tokenize(source);
    let nods = Nod::from_tokens(tokens)?;
    Ok(nods_to_asts(&nods))
}

} // verus!
