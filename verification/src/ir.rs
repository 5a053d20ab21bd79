//! The block representation used by the main optimizer and the flat interpreter:
//! operations with offsets, loops, and conditionals that run at most once.

use vstd::prelude::*;
use crate::parse::{Ast, ParseError};

verus! {

/// Offsets may be negative; the WebAssembly writer shifts them when it needs non-negative ones.
#[derive(Debug, Clone, Copy, PartialEq, Eq, Structural)]
pub enum Op {
    /// Add(x, offset): [ptr + offset] += x
    Add(i32, i32),
    MovePtr(i32),
    /// Mul(to, x, offset): [ptr + to + offset] += [ptr + offset] * x
    Mul(i32, i32, i32),
    /// Assign(x, offset): [ptr + offset] = x
    Assign(i32, i32),
    Out(i32),
    Input(i32),
    /// Moves the pointer by the given step until it rests on a zero cell.
    Lick(i32),
}

/// What a block item is, with nested blocks seen as sequences of such values.
pub enum ItemModel {
    Op(Op),
    Loop(Seq<ItemModel>),
    If(Seq<ItemModel>),
}

#[derive(Debug, PartialEq, Eq)]
pub enum BlockItem {
    Op(Op),
    Loop(Block),
    If(Block),
}

#[derive(Debug, PartialEq, Eq)]
pub struct Block {
    pub items: Vec<BlockItem>,
}

pub open spec fn item_model(i: BlockItem) -> ItemModel
    decreases i,
{
    match i {
        BlockItem::Op(op) => ItemModel::Op(op),
        BlockItem::Loop(b) => ItemModel::Loop(items_model(b.items@)),
        BlockItem::If(b) => ItemModel::If(items_model(b.items@)),
    }
}

pub open spec fn items_model(s: Seq<BlockItem>) -> Seq<ItemModel>
    decreases s,
{
    if s.len() == 0 {
        Seq::empty()
    } else {
        items_model(s.drop_last()).push(item_model(s.last()))
    }
}

impl View for BlockItem {
    type V = ItemModel;

    open spec fn view(&self) -> ItemModel {
        item_model(*self)
    }
}

impl View for Block {
    type V = Seq<ItemModel>;

    open spec fn view(&self) -> Seq<ItemModel> {
        items_model(self.items@)
    }
}

pub proof fn lemma_items_model_len(s: Seq<BlockItem>)
    ensures
        items_model(s).len() == s.len(),
    decreases s.len(),
{
    if s.len() > 0 {
        lemma_items_model_len(s.drop_last());
    }
}

pub proof fn lemma_items_model_index(s: Seq<BlockItem>, k: int)
    requires
        0 <= k < s.len(),
    ensures
        items_model(s).len() == s.len(),
        items_model(s)[k] == item_model(s[k]),
    decreases s.len(),
{
    lemma_items_model_len(s);
    if k < s.len() - 1 {
        lemma_items_model_index(s.drop_last(), k);
    }
}

pub proof fn lemma_items_model_push(s: Seq<BlockItem>, i: BlockItem)
    ensures
        items_model(s.push(i)) == items_model(s).push(item_model(i)),
{
    assert(s.push(i).drop_last() =~= s);
}

/// The model of a sequence is the models of its items, one by one.
pub proof fn lemma_items_model_pointwise(s: Seq<BlockItem>, m: Seq<ItemModel>)
    requires
        m.len() == s.len(),
        forall|k: int| 0 <= k < s.len() ==> m[k] == item_model(#[trigger] s[k]),
    ensures
        items_model(s) == m,
{
    lemma_items_model_len(s);
    assert forall|k: int| 0 <= k < s.len() implies items_model(s)[k] == m[k] by {
        lemma_items_model_index(s, k);
    }
    assert(items_model(s) =~= m);
}

/// The elements of `v` in reverse order, so that popping gives them front to back.
pub fn reversed<T>(v: Vec<T>) -> (r: Vec<T>)
    ensures
        r@.len() == v@.len(),
        forall|k: int| 0 <= k < v@.len() ==> #[trigger] r@[k] == v@[v@.len() - 1 - k],
{
    let mut src = v;
    let mut out: Vec<T> = Vec::new();
    let n = src.len();
    while src.len() > 0
        invariant
            n == v@.len(),
            src@ == v@.take(src@.len() as int),
            out@.len() == n - src@.len(),
            forall|k: int| 0 <= k < out@.len() ==> #[trigger] out@[k] == v@[n - 1 - k],
        decreases src@.len(),
    {
        let x = src.pop().unwrap();
        out.push(x);
        assert(src@ =~= v@.take(src@.len() as int));
    }
    out
}

pub open spec fn op_is_nop(op: Op) -> bool {
    match op {
        Op::Add(0, _) | Op::Mul(_, 0, _) | Op::MovePtr(0) => true,
        _ => false,
    }
}

/// The offset an operation addresses, for operations that address one.
pub open spec fn op_offset(op: Op) -> Option<i32> {
    match op {
        Op::Add(_, offset) | Op::Mul(_, _, offset) | Op::Assign(_, offset) | Op::Out(offset) | Op::Input(offset) =>
            Some(offset),
        _ => None,
    }
}

/// The operation with its addressed offset replaced.
pub open spec fn with_offset(op: Op, offset: i32) -> Op {
    match op {
        Op::Add(x, _) => Op::Add(x, offset),
        Op::Mul(to, x, _) => Op::Mul(to, x, offset),
        Op::Assign(x, _) => Op::Assign(x, offset),
        Op::Out(_) => Op::Out(offset),
        Op::Input(_) => Op::Input(offset),
        _ => op,
    }
}

impl Op {
    pub fn ptr(of: i32) -> (r: Self)
        ensures
            r == Op::MovePtr(of),
    {
        Op::MovePtr(of)
    }

    pub fn is_nop(&self) -> (r: bool)
        ensures
            r == op_is_nop(*self),
    {
        match self {
            Op::Add(0, _) | Op::Mul(_, 0, _) | Op::MovePtr(0) => true,
            _ => false,
        }
    }

    /// Applies `func` to the addressed offset; `None` for pointer moves and scans.
    pub fn map_offset(self, func: impl FnOnce(i32) -> i32) -> (r: Option<Op>)
        requires
            op_offset(self) matches Some(o) ==> func.requires((o,)),
        ensures
            match op_offset(self) {
                Some(o) => r matches Some(p) && op_offset(p) matches Some(n) && func.ensures((o,), n) && p == with_offset(self, n),
                None => r is None,
            },
    {
        match self {
            Op::Add(x, offset) => { let n = func(offset); Some(Op::Add(x, n)) },
            Op::Mul(to, x, offset) => { let n = func(offset); Some(Op::Mul(to, x, n)) },
            Op::Assign(x, offset) => { let n = func(offset); Some(Op::Assign(x, n)) },
            Op::Out(offset) => { let n = func(offset); Some(Op::Out(n)) },
            Op::Input(offset) => { let n = func(offset); Some(Op::Input(n)) },
            _ => None,
        }
    }

    pub fn offset(self) -> (r: Option<i32>)
        ensures
            r == op_offset(self),
    {
        match self {
            Op::Add(_, offset) => Some(offset),
            Op::Mul(_, _, offset) => Some(offset),
            Op::Assign(_, offset) => Some(offset),
            Op::Out(offset) => Some(offset),
            Op::Input(offset) => Some(offset),
            _ => None,
        }
    }
}

impl BlockItem {
    pub fn is_block(&self) -> (r: bool)
        ensures
            r == (*self is Loop || *self is If),
    {
        match self {
            BlockItem::Loop(_) | BlockItem::If(_) => true,
            _ => false,
        }
    }

    pub fn op(&self) -> (r: Option<Op>)
        ensures
            match *self {
                BlockItem::Op(op) => r == Some(op),
                _ => r is None,
            },
    {
        match self {
            BlockItem::Op(op) => Some(*op),
            _ => None,
        }
    }

    /// Rebuilds a loop or a conditional with `func` applied to its body; `None` for an operation.
    pub fn map_block(&self, func: impl FnOnce(&Block) -> Block) -> (r: Option<Self>)
        requires
            match *self {
                BlockItem::Loop(b) | BlockItem::If(b) => func.requires((&b,)),
                _ => true,
            },
        ensures
            match *self {
                BlockItem::Loop(b) => r matches Some(BlockItem::Loop(nb)) && func.ensures((&b,), nb),
                BlockItem::If(b) => r matches Some(BlockItem::If(nb)) && func.ensures((&b,), nb),
                BlockItem::Op(_) => r is None,
            },
    {
        match self {
            BlockItem::Loop(block) => Some(BlockItem::Loop(func(block))),
            BlockItem::If(block) => Some(BlockItem::If(func(block))),
            _ => None,
        }
    }

    /// Rebuilds an operation with `func` applied to it; `None` for loops and conditionals.
    pub fn map_op(&self, func: impl FnOnce(Op) -> Op) -> (r: Option<Self>)
        requires
            *self matches BlockItem::Op(op) ==> func.requires((op,)),
        ensures
            match *self {
                BlockItem::Op(op) => r matches Some(BlockItem::Op(n)) && func.ensures((op,), n),
                _ => r is None,
            },
    {
        match self {
            BlockItem::Op(op) => Some(BlockItem::Op(func(*op))),
            _ => None,
        }
    }
}

impl Default for Block {
    fn default() -> (r: Self)
        ensures
            r.items@ == Seq::<BlockItem>::empty(),
    {
        Block { items: Vec::new() }
    }
}

/// The block items a syntax tree stands for.
/// The items a command of the syntax tree stands for: one, or none for an invalid command.
pub open spec fn ast_items(a: Ast) -> Seq<ItemModel>
    decreases a,
{
    match a {
        Ast::PtrInc => seq![ItemModel::Op(Op::MovePtr(1))],
        Ast::PtrDec => seq![ItemModel::Op(Op::MovePtr(-1i32))],
        Ast::Inc => seq![ItemModel::Op(Op::Add(1, 0))],
        Ast::Dec => seq![ItemModel::Op(Op::Add(-1i32, 0))],
        Ast::Read => seq![ItemModel::Op(Op::Input(0))],
        Ast::Write => seq![ItemModel::Op(Op::Out(0))],
        Ast::Loop(body) => seq![ItemModel::Loop(asts_model(body@))],
        Ast::_Invalid => Seq::empty(),
    }
}

pub open spec fn asts_model(s: Seq<Ast>) -> Seq<ItemModel>
    decreases s,
{
    if s.len() == 0 {
        Seq::empty()
    } else {
        asts_model(s.drop_last()) + ast_items(s.last())
    }
}

/// The block of a sequence of commands is the blocks of its parts one after the other:
/// where a command stands does not change what it becomes.
pub proof fn lemma_asts_model_concat(a: Seq<Ast>, b: Seq<Ast>)
    ensures
        asts_model(a + b) == asts_model(a) + asts_model(b),
    decreases b.len(),
{
    if b.len() == 0 {
        assert(a + b =~= a);
        assert(asts_model(a) + Seq::<ItemModel>::empty() =~= asts_model(a));
    } else {
        lemma_asts_model_concat(a, b.drop_last());
        assert((a + b).drop_last() =~= a + b.drop_last());
        assert((a + b).last() == b.last());
        assert(asts_model(a) + asts_model(b.drop_last()) + ast_items(b.last())
            =~= asts_model(a) + (asts_model(b.drop_last()) + ast_items(b.last())));
    }
}

/// What each command becomes: `>` and `<` move the pointer by one, `+` and `-` change the
/// cell by one, `,` reads into the cell and `.` writes it, and a loop becomes a loop over the
/// block of its body.
pub proof fn lemma_ast_command_items(a: Ast)
    ensures
        asts_model(seq![a]) == match a {
            Ast::PtrInc => seq![ItemModel::Op(Op::MovePtr(1))],
            Ast::PtrDec => seq![ItemModel::Op(Op::MovePtr(-1i32))],
            Ast::Inc => seq![ItemModel::Op(Op::Add(1, 0))],
            Ast::Dec => seq![ItemModel::Op(Op::Add(-1i32, 0))],
            Ast::Read => seq![ItemModel::Op(Op::Input(0))],
            Ast::Write => seq![ItemModel::Op(Op::Out(0))],
            Ast::Loop(body) => seq![ItemModel::Loop(asts_model(body@))],
            Ast::_Invalid => Seq::<ItemModel>::empty(),
        },
{
    assert(seq![a].drop_last() =~= Seq::<Ast>::empty());
    assert(seq![a].last() == a);
    assert(asts_model(Seq::<Ast>::empty()) == Seq::<ItemModel>::empty());
    assert(asts_model(seq![a]) == asts_model(seq![a].drop_last()) + ast_items(a));
    assert(asts_model(seq![a]) =~= ast_items(a));
}

impl Block {
    pub fn new() -> (r: Self)
        ensures
            r@ == Seq::<ItemModel>::empty(),
            r.items@ == Seq::<BlockItem>::empty(),
    {
        Self::default()
    }

    pub fn from_items(items: Vec<BlockItem>) -> (r: Self)
        ensures
            r.items@ == items@,
    {
        Self { items }
    }

    pub fn push_item(&mut self, item: BlockItem)
        ensures
            final(self).items@ == old(self).items@.push(item),
            final(self)@ == old(self)@.push(item@),
    {
        proof {
            lemma_items_model_push(self.items@, item);
        }
        self.items.push(item)
    }

    /// The block a syntax tree stands for: each command becomes an operation, each loop a loop.
    pub fn from_ast(ast: &[Ast]) -> (r: Self)
        ensures
            r@ == asts_model(ast@),
        decreases ast@,
    {
        let mut block = Block::new();
        let mut i: usize = 0;
        assert(ast@.take(0) =~= Seq::<Ast>::empty());
        while i < ast.len()
            invariant
                i <= ast@.len(),
                block@ == asts_model(ast@.take(i as int)),
            decreases ast@.len() - i,
        {
            let item = match &ast[i] {
                Ast::PtrInc => Some(BlockItem::Op(Op::ptr(1))),
                Ast::PtrDec => Some(BlockItem::Op(Op::ptr(-1))),
                Ast::Inc => Some(BlockItem::Op(Op::Add(1, 0))),
                Ast::Dec => Some(BlockItem::Op(Op::Add(-1, 0))),
                Ast::Read => Some(BlockItem::Op(Op::Input(0))),
                Ast::Write => Some(BlockItem::Op(Op::Out(0))),
                Ast::Loop(loop_items) => {
                    proof {
                        assert(decreases_to!(ast@ => ast@[i as int]));
                    }
                    Some(BlockItem::Loop(Block::from_ast(loop_items.as_slice())))
                },
                Ast::_Invalid => None,
            };
            assert(ast@.take(i + 1).drop_last() =~= ast@.take(i as int));
            assert(ast@.take(i + 1).last() == ast@[i as int]);
            match item {
                Some(item) => {
                    assert(seq![item@] == ast_items(ast@[i as int]));
                    assert(block@.push(item@) =~= block@ + seq![item@]);
                    block.push_item(item);
                },
                None => {
                    assert(block@ + ast_items(ast@[i as int]) =~= block@);
                },
            }
            i = i + 1;
        }
        assert(ast@.take(ast@.len() as int) =~= ast@);
        block
    }
}

} // verus!
