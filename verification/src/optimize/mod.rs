//! Optimizing passes over instruction trees: fusing neighbouring instructions, folding
//! pointer moves into offsets, and turning counting loops into multiplications.

use vstd::prelude::*;
use std::collections::BTreeMap;
use crate::instruction::{Instruction, Value, mergeable, merge_rule, no_action};
use crate::parse::{ExprKind, Node};
use crate::token;

pub mod copy;
pub mod copy_rev;
pub mod merge;
pub mod move_add;
pub mod move_add_rev;
pub mod move_sub;
pub mod move_sub_rev;
pub mod mul_add;
pub mod mul_add_rev;
pub mod set_value;
pub mod sub_copy;
pub mod zeroset;
pub mod rewrites;
use crate::ir::reversed;
use crate::parse::{Nod, NodModel, Nods, nod_model, nods_model, lemma_nods_model_index, lemma_nods_model_len,
    lemma_nods_model_push, lemma_nods_model_pointwise};

verus! {

/// A rewriting rule over runs and loops. Each method gives the rewritten form, or `None` when
/// the rule does not apply.
pub trait Optimizer {
    /// Rewrites one run or loop. A rule that does not rewrite runs or loops leaves them alone.
    fn optimize_expr(&self, expr: &ExprKind) -> (r: Option<ExprKind>)
        default_ensures
            r is None,
    {
        None
    }

    /// Rewrites a whole node. A rule that does not rewrite nodes leaves them alone.
    fn optimize_node(&self, node: &Node) -> (r: Option<Node>)
        default_ensures
            r is None,
    {
        None
    }

    /// Rewrites a loop. A rule that does not rewrite loops leaves them alone.
    fn optimize_while(&self, expr: &ExprKind) -> (r: Option<ExprKind>)
        default_ensures
            r is None,
    {
        None
    }
}

/// The commands of a loop whose body is a single run.
pub open spec fn while_run(e: ExprKind) -> Option<Seq<token::Instruction>> {
    match e {
        ExprKind::While(node) => if node.0@.len() == 1 && node.0@[0] is Instructions {
            Some(node.0@[0]->Instructions_0@)
        } else {
            None
        },
        _ => None,
    }
}

/// `r` is the run `s` when there is one, and `None` otherwise.
pub open spec fn yields_run(r: Option<ExprKind>, s: Option<Seq<token::Instruction>>) -> bool {
    match s {
        Some(s) => r matches Some(ExprKind::Instructions(v)) && v@ == s,
        None => r is None,
    }
}

/// The body of a loop whose body is a single run.
pub fn while_run_of(expr: &ExprKind) -> (r: Option<&Vec<token::Instruction>>)
    ensures
        match while_run(*expr) {
            Some(s) => r matches Some(v) && v@ == s,
            None => r is None,
        },
{
    match expr {
        ExprKind::While(node) => {
            if node.0.len() == 1 {
                match &node.0[0] {
                    ExprKind::Instructions(v) => Some(v),
                    _ => None,
                }
            } else {
                None
            }
        },
        _ => None,
    }
}

/// A run made of the given commands.
pub fn run_of(v: Vec<token::Instruction>) -> (r: Option<ExprKind>)
    ensures
        r matches Some(ExprKind::Instructions(w)) && w@ == v@,
{
    Some(ExprKind::Instructions(v))
}

/// The two instructions at the end fuse, repeatedly, while they can; a fused instruction that
/// does nothing is dropped.
pub open spec fn nod_settle(acc: Seq<NodModel>) -> Seq<NodModel>
    decreases acc.len(),
{
    if acc.len() >= 2 && acc[acc.len() - 2] is Instruction && acc.last() is Instruction
        && mergeable(acc[acc.len() - 2]->Instruction_0, acc.last()->Instruction_0)
        && merge_rule(acc[acc.len() - 2]->Instruction_0, acc.last()->Instruction_0) is Some {
        let m = merge_rule(acc[acc.len() - 2]->Instruction_0, acc.last()->Instruction_0)->0;
        let front = acc.take(acc.len() - 2);
        if no_action(m) {
            nod_settle(front)
        } else {
            nod_settle(front.push(NodModel::Instruction(m)))
        }
    } else {
        acc
    }
}

/// Nodes appended one by one, each fused with what comes before it (loops are left as they are).
pub open spec fn merge_nods(ns: Seq<NodModel>) -> Seq<NodModel>
    decreases ns.len(),
{
    if ns.len() == 0 {
        Seq::empty()
    } else {
        nod_settle(merge_nods(ns.drop_last()).push(ns.last()))
    }
}

fn as_instruction(n: &Nod) -> (r: Option<Instruction>)
    ensures
        match *n {
            Nod::Instruction(i) => r == Some(i),
            _ => r is None,
        },
{
    match n {
        Nod::Instruction(i) => Some(*i),
        _ => None,
    }
}

/// Whether two instructions can be fused without a count leaving its type.
pub(crate) fn can_merge(a: Instruction, b: Instruction) -> (r: bool)
    ensures
        r == mergeable(a, b),
{
    match (a, b) {
        (Instruction::PtrIncrement(x), Instruction::PtrIncrement(y)) => x <= usize::MAX - y,
        (Instruction::PtrDecrement(x), Instruction::PtrDecrement(y)) => x <= usize::MAX - y,
        (Instruction::PtrIncrement(x), Instruction::PtrDecrement(y)) => x <= isize::MAX as usize && y <= isize::MAX as usize,
        (Instruction::PtrDecrement(x), Instruction::PtrIncrement(y)) => x <= isize::MAX as usize && y <= isize::MAX as usize,
        (Instruction::Output(xo, x), Instruction::Output(yo, y)) => xo != yo || x <= usize::MAX - y,
        _ => true,
    }
}

fn settle_nods(out: &mut Vec<Nod>)
    ensures
        nods_model(final(out)@) == nod_settle(nods_model(old(out)@)),
    decreases old(out)@.len(),
{
    let n = out.len();
    proof { lemma_nods_model_len(out@); }
    if n >= 2 {
        proof {
            lemma_nods_model_index(out@, n - 2);
            lemma_nods_model_index(out@, n - 1);
        }
        let back2 = as_instruction(&out[n - 2]);
        let back = as_instruction(&out[n - 1]);
        if let (Some(a), Some(b)) = (back2, back) {
            if can_merge(a, b) {
                if let Some(merged) = a.merge(b) {
                    let ghost before = nods_model(out@);
                    out.pop();
                    out.pop();
                    proof {
                        assert(out@ =~= old(out)@.take(n - 2));
                        assert forall|k: int| 0 <= k < out@.len() implies before.take(n - 2)[k] == nod_model(#[trigger] out@[k]) by {
                            lemma_nods_model_index(old(out)@, k);
                        }
                        lemma_nods_model_pointwise(out@, before.take(n - 2));
                    }
                    if !merged.is_no_action() {
                        proof { lemma_nods_model_push(out@, Nod::Instruction(merged)); }
                        out.push(Nod::Instruction(merged));
                    }
                    settle_nods(out);
                    return;
                }
            }
        }
    }
}

/// Fuses neighbouring instructions of the top level, as far as the fusion rules reach.
pub fn merge_instruction(nodes: Nods) -> (r: Nods)
    ensures
        nods_model(r@) == merge_nods(nods_model(nodes@)),
{
    let ghost model = nods_model(nodes@);
    let mut new_nodes: Nods = Vec::new();
    let mut rest = reversed(nodes);
    proof {
        lemma_nods_model_len(nodes@);
        assert(model.take(0) =~= Seq::<NodModel>::empty());
    }
    let n = rest.len();
    let mut i: usize = 0;
    while i < n
        invariant
            n == nodes@.len(),
            model == nods_model(nodes@),
            model.len() == n,
            i <= n,
            rest@.len() == n - i,
            forall|k: int| 0 <= k < n - i ==> #[trigger] rest@[k] == nodes@[n - 1 - k],
            nods_model(new_nodes@) == merge_nods(model.take(i as int)),
        decreases n - i,
    {
        let node = rest.pop().unwrap();
        proof {
            assert(node == nodes@[i as int]);
            lemma_nods_model_index(nodes@, i as int);
            assert(model.take(i + 1).drop_last() =~= model.take(i as int));
            assert(model.take(i + 1).last() == model[i as int]);
            lemma_nods_model_push(new_nodes@, node);
        }
        new_nodes.push(node);
        settle_nods(&mut new_nodes);
        i = i + 1;
    }
    proof {
        assert(model.take(n as int) =~= model);
    }
    new_nodes
}

/// The fusing of numbered instructions: a fused instruction keeps the number of the first.
pub open spec fn ins_settle(acc: Seq<(usize, Instruction)>) -> Seq<(usize, Instruction)>
    decreases acc.len(),
{
    if acc.len() >= 2 && mergeable(acc[acc.len() - 2].1, acc.last().1)
        && merge_rule(acc[acc.len() - 2].1, acc.last().1) is Some {
        let m = merge_rule(acc[acc.len() - 2].1, acc.last().1)->0;
        let front = acc.take(acc.len() - 2);
        if no_action(m) {
            ins_settle(front)
        } else {
            ins_settle(front.push((acc[acc.len() - 2].0, m)))
        }
    } else {
        acc
    }
}

/// The instructions that address one offset, each with the number it arrived as.
pub struct Instructions {
    inner: Vec<(usize, Instruction)>,
}

impl Instructions {
    pub closed spec fn entries(&self) -> Seq<(usize, Instruction)> {
        self.inner@
    }

    fn from_ins(num: usize, ins: Instruction) -> (r: Self)
        ensures
            r.entries() == seq![(num, ins)],
    {
        let mut inner: Vec<(usize, Instruction)> = Vec::new();
        inner.push((num, ins));
        assert(inner@ =~= seq![(num, ins)]);
        Self { inner }
    }

    fn settle(&mut self)
        ensures
            final(self).entries() == ins_settle(old(self).entries()),
        decreases old(self).entries().len(),
    {
        let n = self.inner.len();
        if n >= 2 {
            let (num, a) = self.inner[n - 2];
            let (_, b) = self.inner[n - 1];
            if can_merge(a, b) {
                if let Some(merged) = a.merge(b) {
                    self.inner.pop();
                    self.inner.pop();
                    assert(self.inner@ =~= old(self).inner@.take(n - 2));
                    if !merged.is_no_action() {
                        self.inner.push((num, merged));
                    }
                    self.settle();
                    return;
                }
            }
        }
    }

    /// Appends an instruction and fuses it with the ones before it, as far as they fuse.
    fn push(&mut self, num: usize, ins: Instruction)
        ensures
            final(self).entries() == ins_settle(old(self).entries().push((num, ins))),
    {
        self.inner.push((num, ins));
        self.settle();
    }

    fn entries_vec(&self) -> (r: Vec<(usize, Instruction)>)
        ensures
            r@ == self.entries(),
    {
        let mut out: Vec<(usize, Instruction)> = Vec::new();
        let mut i: usize = 0;
        while i < self.inner.len()
            invariant
                i <= self.inner@.len(),
                out@ == self.inner@.take(i as int),
            decreases self.inner@.len() - i,
        {
            out.push(self.inner[i]);
            assert(self.inner@.take(i + 1) =~= self.inner@.take(i as int).push(self.inner@[i as int]));
            i = i + 1;
        }
        assert(self.inner@.take(self.inner@.len() as int) =~= self.inner@);
        out
    }

    fn instructions(&self) -> (r: Vec<Instruction>)
        ensures
            r@ == self.entries().map_values(|e: (usize, Instruction)| e.1),
    {
        let mut out: Vec<Instruction> = Vec::new();
        let mut i: usize = 0;
        while i < self.inner.len()
            invariant
                i <= self.inner@.len(),
                out@ == self.inner@.take(i as int).map_values(|e: (usize, Instruction)| e.1),
            decreases self.inner@.len() - i,
        {
            out.push(self.inner[i].1);
            assert(self.inner@.take(i + 1).map_values(|e: (usize, Instruction)| e.1)
                =~= self.inner@.take(i as int).map_values(|e: (usize, Instruction)| e.1).push(self.inner@[i as int].1));
            i = i + 1;
        }
        assert(self.inner@.take(self.inner@.len() as int) =~= self.inner@);
        out
    }
}


pub open spec fn add_isize(x: isize, y: isize) -> isize {
    vstd::wrapping::isize_specs::wrapping_add(x, y)
}

pub open spec fn sub_isize(x: isize, y: isize) -> isize {
    vstd::wrapping::isize_specs::wrapping_sub(x, y)
}

/// Instructions that the offset pass collects: pointer moves, and changes, writes and reads
/// of the current cell.
pub open spec fn collectable(i: Instruction) -> bool {
    match i {
        Instruction::PtrIncrement(_) | Instruction::PtrDecrement(_) => true,
        Instruction::Add(0, Value::Const(_)) | Instruction::Sub(0, Value::Const(_)) => true,
        Instruction::Output(0, _) | Instruction::Input(0, _) => true,
        _ => false,
    }
}

pub open spec fn nod_collectable(n: NodModel) -> bool
    decreases n,
{
    match n {
        NodModel::Loop(body) => all_collectable(body),
        NodModel::Instruction(i) => collectable(i),
    }
}

/// Every instruction, at every depth, is one the offset pass collects.
pub open spec fn all_collectable(ns: Seq<NodModel>) -> bool
    decreases ns,
{
    if ns.len() == 0 {
        true
    } else {
        all_collectable(ns.drop_last()) && nod_collectable(ns.last())
    }
}

proof fn lemma_all_collectable_index(ns: Seq<NodModel>, k: int)
    requires
        all_collectable(ns),
        0 <= k < ns.len(),
    ensures
        nod_collectable(ns[k]),
    decreases ns.len(),
{
    if k < ns.len() - 1 {
        lemma_all_collectable_index(ns.drop_last(), k);
    }
}

pub type OTable = Seq<(isize, Seq<(usize, Instruction)>)>;

/// The collected instructions of a run: the pointer offset so far, the numbered
/// instructions of each addressed offset (ordered by offset, as a sorted map walks them),
/// and how many instructions were collected.
pub struct OState {
    pub ptr: isize,
    pub table: OTable,
    pub count: usize,
}

pub open spec fn empty_state() -> OState {
    OState { ptr: 0, table: Seq::empty(), count: 0 }
}

/// The index of the first entry whose offset is at least `key`.
pub open spec fn opos(t: OTable, key: isize) -> int
    decreases t.len(),
{
    if t.len() == 0 || t[0].0 >= key {
        0
    } else {
        1 + opos(t.drop_first(), key)
    }
}

/// An instruction numbered `id` added to the entry of `key` (fused with what is there).
pub open spec fn table_push(t: OTable, key: isize, id: usize, ins: Instruction) -> OTable {
    let p = opos(t, key);
    if p < t.len() && t[p].0 == key {
        t.update(p, (key, ins_settle(t[p].1.push((id, ins)))))
    } else {
        t.insert(p, (key, seq![(id, ins)]))
    }
}

pub open spec fn state_push(st: OState, ins: Instruction) -> OState {
    let count = (st.count + 1) as usize;
    match ins {
        Instruction::PtrIncrement(n) => OState { ptr: add_isize(st.ptr, n as isize), count: count, ..st },
        Instruction::PtrDecrement(n) => OState { ptr: sub_isize(st.ptr, n as isize), count: count, ..st },
        _ => OState { table: table_push(st.table, st.ptr, count, ins), count: count, ..st },
    }
}

/// A collected instruction put at `offset`.
pub open spec fn placed(ins: Instruction, offset: isize) -> Instruction {
    match ins {
        Instruction::Add(_, v) => Instruction::Add(offset, v),
        Instruction::Sub(_, v) => Instruction::Sub(offset, v),
        Instruction::Output(_, n) => Instruction::Output(offset, n),
        Instruction::Input(_, n) => Instruction::Input(offset, n),
        _ => ins,
    }
}

pub open spec fn place_list(key: isize, l: Seq<(usize, Instruction)>) -> Seq<(usize, Instruction)> {
    l.map_values(|e: (usize, Instruction)| (e.0, placed(e.1, key)))
}

/// Every collected instruction, put at its offset, entry after entry.
pub open spec fn collect(t: OTable) -> Seq<(usize, Instruction)>
    decreases t.len(),
{
    if t.len() == 0 {
        Seq::empty()
    } else {
        collect(t.drop_last()) + place_list(t.last().0, t.last().1)
    }
}

/// `x` inserted before the first element with a larger number.
pub open spec fn insert_by_id(s: Seq<(usize, Instruction)>, x: (usize, Instruction)) -> Seq<(usize, Instruction)>
    decreases s.len(),
{
    if s.len() == 0 {
        seq![x]
    } else if x.0 < s[0].0 {
        seq![x] + s
    } else {
        seq![s[0]] + insert_by_id(s.drop_first(), x)
    }
}

/// The elements ordered by number (an insertion sort; equal numbers keep their order).
pub open spec fn sort_by_id(s: Seq<(usize, Instruction)>) -> Seq<(usize, Instruction)>
    decreases s.len(),
{
    if s.len() == 0 {
        Seq::empty()
    } else {
        insert_by_id(sort_by_id(s.drop_last()), s.last())
    }
}

/// The move that brings the pointer `ptr` cells further, if any.
pub open spec fn move_nodes(ptr: isize) -> Seq<NodModel> {
    if ptr < 0 {
        seq![NodModel::Instruction(Instruction::PtrDecrement((-ptr) as usize))]
    } else if ptr > 0 {
        seq![NodModel::Instruction(Instruction::PtrIncrement(ptr as usize))]
    } else {
        Seq::empty()
    }
}

/// A run written back: its instructions in the order they arrived, each at its offset, then
/// one pointer move.
pub open spec fn into_model(st: OState) -> Seq<NodModel> {
    sort_by_id(collect(st.table)).map_values(|e: (usize, Instruction)| NodModel::Instruction(e.1)) + move_nodes(st.ptr)
}

proof fn lemma_opos(t: OTable, key: isize, p: int)
    requires
        0 <= p <= t.len(),
        forall|j: int| 0 <= j < p ==> t[j].0 < key,
        p == t.len() || t[p].0 >= key,
    ensures
        opos(t, key) == p,
    decreases p,
{
    if p > 0 {
        lemma_opos(t.drop_first(), key, p - 1);
    }
}

proof fn lemma_insert_by_id(s: Seq<(usize, Instruction)>, x: (usize, Instruction), p: int)
    requires
        0 <= p <= s.len(),
        forall|j: int| 0 <= j < p ==> s[j].0 <= x.0,
        p == s.len() || s[p].0 > x.0,
    ensures
        insert_by_id(s, x) == s.insert(p, x),
    decreases p,
{
    if p == 0 {
        if s.len() == 0 {
            assert(s.insert(p, x) =~= seq![x]);
        } else {
            assert(s.insert(p, x) =~= seq![x] + s);
        }
    } else {
        lemma_insert_by_id(s.drop_first(), x, p - 1);
        assert(s.insert(p, x) =~= seq![s[0]] + s.drop_first().insert(p - 1, x));
    }
}

fn sort_entries(v: &Vec<(usize, Instruction)>) -> (r: Vec<(usize, Instruction)>)
    ensures
        r@ == sort_by_id(v@),
{
    let mut out: Vec<(usize, Instruction)> = Vec::new();
    let mut i: usize = 0;
    assert(v@.take(0) =~= Seq::<(usize, Instruction)>::empty());
    while i < v.len()
        invariant
            i <= v@.len(),
            out@ == sort_by_id(v@.take(i as int)),
        decreases v@.len() - i,
    {
        let x = v[i];
        let mut p: usize = 0;
        while p < out.len() && out[p].0 <= x.0
            invariant
                p <= out@.len(),
                forall|j: int| 0 <= j < p ==> out@[j].0 <= x.0,
            decreases out@.len() - p,
        {
            p = p + 1;
        }
        proof {
            lemma_insert_by_id(out@, x, p as int);
            assert(v@.take(i + 1).drop_last() =~= v@.take(i as int));
            assert(v@.take(i + 1).last() == x);
        }
        out.insert(p, x);
        i = i + 1;
    }
    assert(v@.take(v@.len() as int) =~= v@);
    out
}

fn place(ins: Instruction, offset: isize) -> (r: Instruction)
    ensures
        r == placed(ins, offset),
{
    match ins {
        Instruction::Add(_, v) => Instruction::Add(offset, v),
        Instruction::Sub(_, v) => Instruction::Sub(offset, v),
        Instruction::Output(_, n) => Instruction::Output(offset, n),
        Instruction::Input(_, n) => Instruction::Input(offset, n),
        _ => ins,
    }
}

pub(crate) fn push_move(out: &mut Nods, ptr: isize)
    ensures
        nods_model(final(out)@) == nods_model(old(out)@) + move_nodes(ptr),
{
    if ptr < 0 {
        let back: i128 = 0i128 - ptr as i128;
        let n = Nod::Instruction(Instruction::PtrDecrement(back as usize));
        proof { lemma_nods_model_push(out@, n); }
        out.push(n);
    } else if ptr > 0 {
        let n = Nod::Instruction(Instruction::PtrIncrement(ptr as usize));
        proof { lemma_nods_model_push(out@, n); }
        out.push(n);
    } else {
        assert(nods_model(out@) + move_nodes(ptr) =~= nods_model(out@));
    }
}

/// An ordered list of entries read as a table.
pub open spec fn tview(v: Seq<(isize, Vec<(usize, Instruction)>)>) -> OTable {
    v.map_values(|e: (isize, Vec<(usize, Instruction)>)| (e.0, e.1@))
}

/// Offsets that rise along the table.
pub open spec fn keys_rise(t: OTable) -> bool {
    forall|i: int, j: int| 0 <= i < j < t.len() ==> t[i].0 < t[j].0
}

/// The map holds exactly the entries of the table.
pub open spec fn holds_entries(m: Map<isize, Instructions>, t: OTable) -> bool {
    forall|k: isize, l: Seq<(usize, Instruction)>| (m.contains_key(k) && m[k].entries() == l) <==> #[trigger] t.contains((k, l))
}

pub(crate) proof fn lemma_opos_bounds(t: OTable, key: isize)
    ensures
        0 <= opos(t, key) <= t.len(),
        forall|j: int| 0 <= j < opos(t, key) ==> t[j].0 < key,
        opos(t, key) < t.len() ==> t[opos(t, key)].0 >= key,
    decreases t.len(),
{
    if t.len() > 0 && t[0].0 < key {
        lemma_opos_bounds(t.drop_first(), key);
        assert forall|j: int| 0 <= j < opos(t, key) implies t[j].0 < key by {
            if j > 0 {
                assert(t[j] == t.drop_first()[j - 1]);
            }
        }
        if opos(t, key) < t.len() {
            assert(t[opos(t, key)] == t.drop_first()[opos(t, key) - 1]);
        }
    }
}

/// Where a map holds an ordered table, the table has an entry for `key` just where the map does.
proof fn lemma_entries_lookup(m: Map<isize, Instructions>, t: OTable, key: isize)
    requires
        keys_rise(t),
        holds_entries(m, t),
    ensures
        (opos(t, key) < t.len() && t[opos(t, key)].0 == key) <==> m.contains_key(key),
        m.contains_key(key) ==> t[opos(t, key)].1 == m[key].entries(),
        0 <= opos(t, key) <= t.len(),
        forall|j: int| 0 <= j < opos(t, key) ==> t[j].0 < key,
        opos(t, key) < t.len() ==> t[opos(t, key)].0 >= key,
{
    lemma_opos_bounds(t, key);
    let p = opos(t, key);
    if p < t.len() && t[p].0 == key {
        assert(t.contains((key, t[p].1)));
    }
    if m.contains_key(key) {
        assert(t.contains((key, m[key].entries())));
        let j = choose|j: int| 0 <= j < t.len() && t[j] == (key, m[key].entries());
        if j < p {
        } else if j > p {
            assert(t[p].0 < t[j].0);
        }
    }
}

/// Setting the entry of `key` in an ordered table keeps it ordered, and is setting it in the map.
proof fn lemma_entries_set(m: Map<isize, Instructions>, t: OTable, key: isize, e: Instructions)
    requires
        keys_rise(t),
        holds_entries(m, t),
    ensures
        ({
            let p = opos(t, key);
            let n = if p < t.len() && t[p].0 == key { t.update(p, (key, e.entries())) } else { t.insert(p, (key, e.entries())) };
            keys_rise(n) && holds_entries(m.insert(key, e), n)
        }),
{
    lemma_entries_lookup(m, t, key);
    let p = opos(t, key);
    let v = e.entries();
    let found = p < t.len() && t[p].0 == key;
    let n = if found { t.update(p, (key, v)) } else { t.insert(p, (key, v)) };
    let m2 = m.insert(key, e);
    assert(keys_rise(n)) by {
        assert forall|a: int, b: int| 0 <= a < b < n.len() implies n[a].0 < n[b].0 by {
            if found {
                if a != p { assert(n[a] == t[a]); }
                if b != p { assert(n[b] == t[b]); }
            } else {
                if b < p {
                } else if b == p {
                } else if a == p {
                    assert(n[b] == t[b - 1]);
                    assert(t[p].0 <= t[b - 1].0 || b - 1 == p);
                } else if a < p {
                    assert(n[b] == t[b - 1]);
                    assert(t[p].0 <= t[b - 1].0 || b - 1 == p);
                } else {
                    assert(n[a] == t[a - 1] && n[b] == t[b - 1]);
                }
            }
        }
    }
    assert forall|k: isize, w: Seq<(usize, Instruction)>| (m2.contains_key(k) && m2[k].entries() == w) <==> #[trigger] n.contains((k, w)) by {
        if k == key {
            if w == v {
                assert(n[p] == (key, v));
            }
            if n.contains((k, w)) {
                let j = choose|j: int| 0 <= j < n.len() && n[j] == (k, w);
                if j != p {
                    if j < p {
                        assert(n[j] == t[j]);
                        assert(t[j].0 < key);
                    } else if found {
                        assert(n[j] == t[j]);
                        assert(t[p].0 < t[j].0);
                    } else {
                        assert(n[j] == t[j - 1]);
                        assert(t[p].0 <= t[j - 1].0 || j - 1 == p);
                    }
                }
            }
        } else {
            if m.contains_key(k) && m[k].entries() == w {
                assert(t.contains((k, w)));
                let j = choose|j: int| 0 <= j < t.len() && t[j] == (k, w);
                if found {
                    assert(j != p);
                    assert(n[j] == (k, w));
                } else if j < p {
                    assert(n[j] == (k, w));
                } else {
                    assert(n[j + 1] == (k, w));
                }
            }
            if n.contains((k, w)) {
                let j = choose|j: int| 0 <= j < n.len() && n[j] == (k, w);
                if found {
                    assert(j != p);
                    assert(t[j] == (k, w));
                } else if j < p {
                    assert(t[j] == (k, w));
                } else {
                    assert(j != p);
                    assert(t[j - 1] == (k, w));
                }
                assert(t.contains((k, w)));
            }
        }
    }
}

/// Two tables with rising offsets and the same entries are the same table.
proof fn lemma_entries_unique(s1: OTable, s2: OTable)
    requires
        keys_rise(s1),
        keys_rise(s2),
        forall|e: (isize, Seq<(usize, Instruction)>)| s1.contains(e) <==> s2.contains(e),
    ensures
        s1 == s2,
    decreases s1.len(),
{
    if s1.len() == 0 {
        if s2.len() > 0 {
            assert(s2.contains(s2[0]));
        }
        assert(s1 =~= s2);
    } else {
        assert(s1.contains(s1[0]));
        assert(s2.len() > 0);
        assert(s2.contains(s2[0]));
        let j = choose|j: int| 0 <= j < s2.len() && s2[j] == s1[0];
        let i = choose|i: int| 0 <= i < s1.len() && s1[i] == s2[0];
        assert(s1[0].0 <= s1[i].0);
        assert(s2[0].0 <= s2[j].0);
        assert(i == 0);
        let r1 = s1.drop_first();
        let r2 = s2.drop_first();
        assert(keys_rise(r1)) by {
            assert forall|a: int, b: int| 0 <= a < b < r1.len() implies r1[a].0 < r1[b].0 by {
                assert(r1[a] == s1[a + 1] && r1[b] == s1[b + 1]);
            }
        }
        assert(keys_rise(r2)) by {
            assert forall|a: int, b: int| 0 <= a < b < r2.len() implies r2[a].0 < r2[b].0 by {
                assert(r2[a] == s2[a + 1] && r2[b] == s2[b + 1]);
            }
        }
        assert forall|e: (isize, Seq<(usize, Instruction)>)| r1.contains(e) <==> r2.contains(e) by {
            if r1.contains(e) {
                let a = choose|a: int| 0 <= a < r1.len() && r1[a] == e;
                assert(s1[a + 1] == e);
                assert(s1.contains(e));
                let b = choose|b: int| 0 <= b < s2.len() && s2[b] == e;
                assert(s1[0].0 < s1[a + 1].0);
                assert(b != 0);
                assert(r2[b - 1] == e);
            }
            if r2.contains(e) {
                let b = choose|b: int| 0 <= b < r2.len() && r2[b] == e;
                assert(s2[b + 1] == e);
                assert(s2.contains(e));
                let a = choose|a: int| 0 <= a < s1.len() && s1[a] == e;
                assert(s2[0].0 < s2[b + 1].0);
                assert(a != 0);
                assert(r1[a - 1] == e);
            }
        }
        lemma_entries_unique(r1, r2);
        assert(s1 =~= seq![s1[0]] + r1);
        assert(s2 =~= seq![s2[0]] + r2);
    }
}

/// The entry at the first offset not below `key`, in a list of entries.
fn tv_find(tv: &Vec<(isize, Vec<(usize, Instruction)>)>, key: isize) -> (p: usize)
    ensures
        p == opos(tview(tv@), key),
        p <= tv@.len(),
{
    let ghost t = tview(tv@);
    let mut p: usize = 0;
    while p < tv.len() && tv[p].0 < key
        invariant
            t == tview(tv@),
            p <= tv@.len(),
            forall|j: int| 0 <= j < p ==> t[j].0 < key,
        decreases tv@.len() - p,
    {
        p = p + 1;
    }
    proof {
        lemma_opos(t, key, p as int);
    }
    p
}

/// The instructions collected from a run of a tree, as `offset_opt` gathers them: each offset
/// mapped to its instructions (`table` is the same entries in order of offset).
pub struct State {
    pointer_offset: isize,
    offset_map: BTreeMap<isize, Instructions>,
    table: Ghost<OTable>,
    ins_count: usize,
}

impl State {
    pub closed spec fn model(&self) -> OState {
        OState { ptr: self.pointer_offset, table: self.table@, count: self.ins_count }
    }

    pub closed spec fn wf(&self) -> bool {
        keys_rise(self.table@) && holds_entries(self.offset_map@, self.table@)
    }

    fn new() -> (r: Self)
        ensures
            r.wf(),
            r.model() == empty_state(),
    {
        let r = State { pointer_offset: 0, offset_map: BTreeMap::new(), table: Ghost(Seq::empty()), ins_count: 0 };
        assert forall|k: isize, l: Seq<(usize, Instruction)>| (r.offset_map@.contains_key(k) && r.offset_map@[k].entries() == l)
            <==> #[trigger] r.table@.contains((k, l)) by {
            if r.table@.contains((k, l)) {
                let j = choose|j: int| 0 <= j < r.table@.len() && r.table@[j] == (k, l);
            }
        }
        r
    }

    fn push_instruction(&mut self, ins: Instruction)
        requires
            old(self).wf(),
            old(self).model().count < usize::MAX,
            collectable(ins),
        ensures
            final(self).wf(),
            final(self).model() == state_push(old(self).model(), ins),
    {
        broadcast use vstd::std_specs::btree::group_btree_axioms;
        self.ins_count = self.ins_count + 1;
        match ins {
            Instruction::PtrIncrement(inc) => {
                self.pointer_offset = self.pointer_offset.wrapping_add(inc as isize);
            },
            Instruction::PtrDecrement(dec) => {
                self.pointer_offset = self.pointer_offset.wrapping_sub(dec as isize);
            },
            _ => {
                let key = self.pointer_offset;
                let count = self.ins_count;
                let ghost t = self.table@;
                let ghost m = self.offset_map@;
                proof { lemma_entries_lookup(m, t, key); }
                let entry = match self.offset_map.remove(&key) {
                    Some(mut instructions) => {
                        instructions.push(count, ins);
                        instructions
                    },
                    None => Instructions::from_ins(count, ins),
                };
                proof {
                    lemma_entries_set(m, t, key, entry);
                    assert(self.offset_map@.insert(key, entry) =~= m.insert(key, entry));
                }
                self.offset_map.insert(key, entry);
                self.table = Ghost(table_push(t, key, count, ins));
            },
        }
    }

    /// The entries in order of offset.
    fn table_vec(&self) -> (r: Vec<(isize, Vec<(usize, Instruction)>)>)
        requires
            self.wf(),
        ensures
            tview(r@) == self.model().table,
    {
        broadcast use vstd::std_specs::btree::group_btree_axioms;
        let m = &self.offset_map;
        let mut out: Vec<(isize, Vec<(usize, Instruction)>)> = Vec::new();
        let iter = m.iter();
        let ghost all = vstd::std_specs::iter::IteratorSpec::remaining(&iter);
        let ghost keys = all.map_values(|kv: (&isize, &Instructions)| *kv.0);
        assert(vstd::std_specs::btree::increasing_seq(keys));
        assert forall|i: int, j: int| 0 <= i < j < keys.len() implies keys[i] < keys[j] by {
            assert(vstd::std_specs::cmp::OrdSpec::cmp_spec(&keys[i], &keys[j]) is Less);
        }
        for kv in it: iter
            invariant
                tview(out@) == it.seq().take(it.index()).map_values(|kv: (&isize, &Instructions)| (*kv.0, kv.1.entries())),
                it.seq() == all,
        {
            let list = kv.1.entries_vec();
            let ghost before = out@;
            out.push((*kv.0, list));
            assert(tview(out@) =~= tview(before).push((*kv.0, kv.1.entries())));
        }
        let ghost o = tview(out@);
        assert(o.len() == keys.len());
        assert forall|i: int| 0 <= i < o.len() implies o[i] == (*all[i].0, all[i].1.entries()) by {}
        assert(keys_rise(o)) by {
            assert forall|i: int, j: int| 0 <= i < j < o.len() implies o[i].0 < o[j].0 by {
                assert(o[i].0 == keys[i]);
                assert(o[j].0 == keys[j]);
            }
        }
        assert forall|e: (isize, Seq<(usize, Instruction)>)| o.contains(e) <==> self.table@.contains(e) by {
            let (k, l) = e;
            if m@.contains_key(k) && m@[k].entries() == l {
                assert(all.contains((&k, &m@[k])));
                let j = choose|j: int| 0 <= j < all.len() && all[j] == (&k, &m@[k]);
                assert(o[j] == (k, l));
            }
            if o.contains(e) {
                let j = choose|j: int| 0 <= j < o.len() && o[j] == e;
                assert(m@.contains_key(*all[j].0) && m@[*all[j].0] == *all[j].1);
            }
            assert(self.table@.contains((k, l)) <==> (m@.contains_key(k) && m@[k].entries() == l));
        }
        proof { lemma_entries_unique(o, self.table@); }
        out
    }

    /// Every collected instruction with its number, put at its offset, entry after entry.
    fn collected(&self) -> (r: Vec<(usize, Instruction)>)
        requires
            self.wf(),
        ensures
            r@ == collect(self.model().table),
    {
        let ghost t = self.model().table;
        let tv = self.table_vec();
        let mut out: Vec<(usize, Instruction)> = Vec::new();
        let mut k: usize = 0;
        assert(t.take(0) =~= Seq::<(isize, Seq<(usize, Instruction)>)>::empty());
        while k < tv.len()
            invariant
                t == tview(tv@),
                k <= tv@.len(),
                out@ == collect(t.take(k as int)),
            decreases tv@.len() - k,
        {
            let key = tv[k].0;
            let list = &tv[k].1;
            let ghost start = out@;
            let mut j: usize = 0;
            assert(list@.take(0) =~= Seq::<(usize, Instruction)>::empty());
            while j < list.len()
                invariant
                    j <= list@.len(),
                    out@ == start + place_list(key, list@.take(j as int)),
                decreases list@.len() - j,
            {
                let (id, ins) = list[j];
                out.push((id, place(ins, key)));
                assert(place_list(key, list@.take(j + 1)) =~= place_list(key, list@.take(j as int)).push((id, placed(ins, key))));
                j = j + 1;
            }
            proof {
                assert(list@.take(list@.len() as int) =~= list@);
                assert(t.take(k + 1).drop_last() =~= t.take(k as int));
                assert(t[k as int] == (key, list@));
            }
            k = k + 1;
        }
        assert(t.take(tv@.len() as int) =~= t);
        out
    }

    /// The run written back as tree nodes.
    fn into_nodes(self) -> (r: Nods)
        requires
            self.wf(),
        ensures
            nods_model(r@) == into_model(self.model()),
    {
        let all = self.collected();
        let sorted = sort_entries(&all);
        let mut out: Nods = Vec::new();
        let mut i: usize = 0;
        let ghost target = sorted@.map_values(|e: (usize, Instruction)| NodModel::Instruction(e.1));
        assert(target.take(0) =~= Seq::<NodModel>::empty());
        while i < sorted.len()
            invariant
                i <= sorted@.len(),
                target == sorted@.map_values(|e: (usize, Instruction)| NodModel::Instruction(e.1)),
                nods_model(out@) == target.take(i as int),
            decreases sorted@.len() - i,
        {
            let n = Nod::Instruction(sorted[i].1);
            proof {
                lemma_nods_model_push(out@, n);
                assert(target.take(i + 1) =~= target.take(i as int).push(NodModel::Instruction(sorted@[i as int].1)));
            }
            out.push(n);
            i = i + 1;
        }
        assert(target.take(sorted@.len() as int) =~= target);
        push_move(&mut out, self.pointer_offset);
        out
    }

    fn take(&mut self) -> (r: Self)
        requires
            old(self).wf(),
        ensures
            r.wf(),
            final(self).wf(),
            r.model() == old(self).model(),
            final(self).model() == empty_state(),
    {
        let mut a = State::new();
        std::mem::swap(self, &mut a);
        a
    }
}


/// Whether an instruction writes or reads the current cell.
pub open spec fn io_here(i: Instruction) -> bool {
    i matches Instruction::Output(0, _) || i matches Instruction::Input(0, _)
}

/// The run of a loop body is a counting loop: it leaves the pointer where it was, holds no
/// loop and no I/O, and steps its own cell by exactly one.
pub open spec fn loop_shape(st: OState, has_loop: bool, has_io: bool, is_loop: bool) -> bool {
    let p = opos(st.table, 0);
    &&& st.ptr == 0
    &&& !has_loop
    &&& is_loop
    &&& !has_io
    &&& p < st.table.len()
    &&& st.table[p].0 == 0
    &&& st.table[p].1.len() == 1
    &&& (st.table[p].1[0].1 == Instruction::Sub(0, Value::Const(1)) || st.table[p].1[0].1 == Instruction::Add(0, Value::Const(1)))
}

/// What a change of the cell at `key` in a counting loop becomes: an addition (or
/// subtraction) of the counter, times the step when the step is not one. The counter itself
/// gives nothing.
pub open spec fn mul_entry(key: isize, ins: Instruction) -> Seq<NodModel> {
    if key == 0 && (ins == Instruction::Add(0, Value::Const(1)) || ins == Instruction::Sub(0, Value::Const(1))) {
        Seq::empty()
    } else {
        match ins {
            Instruction::Add(_, Value::Const(1)) => seq![NodModel::Instruction(Instruction::Add(key, Value::Memory(0)))],
            Instruction::Add(_, Value::Const(v)) => seq![NodModel::Instruction(Instruction::MulAdd(key, 0, v))],
            Instruction::Sub(_, Value::Const(1)) => seq![NodModel::Instruction(Instruction::Sub(key, Value::Memory(0)))],
            Instruction::Sub(_, Value::Const(v)) => seq![NodModel::Instruction(Instruction::MulSub(key, 0, v))],
            _ => Seq::empty(),
        }
    }
}

pub open spec fn mul_list(key: isize, l: Seq<(usize, Instruction)>) -> Seq<NodModel>
    decreases l.len(),
{
    if l.len() == 0 {
        Seq::empty()
    } else {
        mul_list(key, l.drop_last()) + mul_entry(key, l.last().1)
    }
}

/// A counting loop written as multiplications, offset by offset, ending with the counter cleared.
pub open spec fn mul_table(t: OTable) -> Seq<NodModel>
    decreases t.len(),
{
    if t.len() == 0 {
        Seq::empty()
    } else {
        mul_table(t.drop_last()) + mul_list(t.last().0, t.last().1)
    }
}

pub open spec fn loop_model(t: OTable) -> Seq<NodModel> {
    mul_table(t).push(NodModel::Instruction(Instruction::SetValue(0, Value::Const(0))))
}

/// The nodes of a run finished: a counting loop's body becomes plain instructions (`false`),
/// anything else stays a node sequence that a loop keeps (`true`).
pub open spec fn finish(st: OState, has_loop: bool, has_io: bool, is_loop: bool) -> (Seq<NodModel>, bool) {
    if loop_shape(st, has_loop, has_io, is_loop) {
        (loop_model(st.table), false)
    } else {
        (into_model(st), true)
    }
}

/// The offset pass over the nodes left, with the run collected so far.
pub open spec fn oo_fold(ns: Seq<NodModel>, st: OState, has_loop: bool, has_io: bool, is_loop: bool) -> (Seq<NodModel>, bool)
    decreases ns, 0int,
{
    if ns.len() == 0 {
        finish(st, has_loop, has_io, is_loop)
    } else {
        match ns[0] {
            NodModel::Loop(body) => {
                let sub = oo_items(body, true);
                let piece = into_model(st) + if sub.1 { seq![NodModel::Loop(sub.0)] } else { sub.0 };
                let rest = oo_fold(ns.drop_first(), empty_state(), true, has_io, is_loop);
                (piece + rest.0, rest.1)
            },
            NodModel::Instruction(i) => oo_fold(ns.drop_first(), state_push(st, i), has_loop, has_io || io_here(i), is_loop),
        }
    }
}

pub open spec fn oo_items(ns: Seq<NodModel>, is_loop: bool) -> (Seq<NodModel>, bool)
    decreases ns, 1int,
{
    oo_fold(ns, empty_state(), false, false, is_loop)
}

fn mul_ins(key: isize, ins: Instruction) -> (r: Option<Instruction>)
    ensures
        match r {
            Some(i) => mul_entry(key, ins) == seq![NodModel::Instruction(i)],
            None => mul_entry(key, ins) == Seq::<NodModel>::empty(),
        },
{
    if key == 0 && (matches!(ins, Instruction::Add(0, Value::Const(1))) || matches!(ins, Instruction::Sub(0, Value::Const(1)))) {
        return None;
    }
    match ins {
        Instruction::Add(_, Value::Const(1)) => Some(Instruction::Add(key, Value::Memory(0))),
        Instruction::Add(_, Value::Const(v)) => Some(Instruction::MulAdd(key, 0, v)),
        Instruction::Sub(_, Value::Const(1)) => Some(Instruction::Sub(key, Value::Memory(0))),
        Instruction::Sub(_, Value::Const(v)) => Some(Instruction::MulSub(key, 0, v)),
        _ => None,
    }
}

impl State {
    fn is_counting_loop(&self, has_loop: bool, has_io: bool, is_loop: bool) -> (r: bool)
        requires
            self.wf(),
        ensures
            r == loop_shape(self.model(), has_loop, has_io, is_loop),
    {
        if self.pointer_offset != 0 || has_loop || !is_loop || has_io {
            return false;
        }
        let tv = self.table_vec();
        let p = tv_find(&tv, 0);
        if p < tv.len() && tv[p].0 == 0 {
            let list = &tv[p].1;
            list.len() == 1 && (matches!(list[0].1, Instruction::Sub(0, Value::Const(1)))
                || matches!(list[0].1, Instruction::Add(0, Value::Const(1))))
        } else {
            false
        }
    }

    /// A counting loop's body written as multiplications, then the counter cleared.
    fn into_mul_nodes(self) -> (r: Nods)
        requires
            self.wf(),
        ensures
            nods_model(r@) == loop_model(self.model().table),
    {
        let ghost t = self.model().table;
        let tv = self.table_vec();
        let mut out: Nods = Vec::new();
        let mut k: usize = 0;
        assert(t.take(0) =~= Seq::<(isize, Seq<(usize, Instruction)>)>::empty());
        while k < tv.len()
            invariant
                t == tview(tv@),
                k <= tv@.len(),
                nods_model(out@) == mul_table(t.take(k as int)),
            decreases tv@.len() - k,
        {
            let key = tv[k].0;
            let list = &tv[k].1;
            let ghost start = nods_model(out@);
            let mut j: usize = 0;
            assert(list@.take(0) =~= Seq::<(usize, Instruction)>::empty());
            assert(start + mul_list(key, list@.take(0)) =~= start);
            while j < list.len()
                invariant
                    j <= list@.len(),
                    nods_model(out@) == start + mul_list(key, list@.take(j as int)),
                decreases list@.len() - j,
            {
                let ins = list[j].1;
                proof {
                    assert(list@.take(j + 1).drop_last() =~= list@.take(j as int));
                    assert(list@.take(j + 1).last() == list@[j as int]);
                }
                match mul_ins(key, ins) {
                    Some(i) => {
                        proof { lemma_nods_model_push(out@, Nod::Instruction(i)); }
                        out.push(Nod::Instruction(i));
                        assert(nods_model(out@) =~= start + mul_list(key, list@.take(j + 1)));
                    },
                    None => {
                        assert(nods_model(out@) =~= start + mul_list(key, list@.take(j + 1)));
                    },
                }
                j = j + 1;
            }
            proof {
                assert(list@.take(list@.len() as int) =~= list@);
                assert(t.take(k + 1).drop_last() =~= t.take(k as int));
                assert(t[k as int] == (key, list@));
            }
            k = k + 1;
        }
        assert(t.take(tv@.len() as int) =~= t);
        let zero = Nod::Instruction(Instruction::SetValue(0, Value::Const(0)));
        proof { lemma_nods_model_push(out@, zero); }
        out.push(zero);
        out
    }
}

pub(crate) fn append_nods(out: &mut Nods, more: Nods)
    ensures
        nods_model(final(out)@) == nods_model(old(out)@) + nods_model(more@),
{
    let ghost m = nods_model(more@);
    let ghost start = nods_model(out@);
    let mut rest = reversed(more);
    let n = rest.len();
    proof {
        lemma_nods_model_len(more@);
        assert(m.take(0) =~= Seq::<NodModel>::empty());
        assert(start + m.take(0) =~= start);
    }
    let mut i: usize = 0;
    while i < n
        invariant
            n == more@.len(),
            m == nods_model(more@),
            m.len() == n,
            i <= n,
            rest@.len() == n - i,
            forall|k: int| 0 <= k < n - i ==> #[trigger] rest@[k] == more@[n - 1 - k],
            nods_model(out@) == start + m.take(i as int),
        decreases n - i,
    {
        let node = rest.pop().unwrap();
        proof {
            assert(node == more@[i as int]);
            lemma_nods_model_index(more@, i as int);
            lemma_nods_model_push(out@, node);
            assert(start + m.take(i + 1) =~= (start + m.take(i as int)).push(m[i as int]));
        }
        out.push(node);
        i = i + 1;
    }
    assert(m.take(n as int) =~= m);
}

/// The offset pass over a node sequence. `is_loop` tells that the sequence is a loop body;
/// the flag that comes back tells whether the result still needs the loop around it.
fn offset_inner(nodes: &Nods, is_loop: bool) -> (r: (Nods, bool))
    requires
        all_collectable(nods_model(nodes@)),
    ensures
        (nods_model(r.0@), r.1) == oo_items(nods_model(nodes@), is_loop),
    decreases nods_model(nodes@),
{
    let ghost model = nods_model(nodes@);
    let mut new_nodes: Nods = Vec::new();
    let mut state = State::new();
    let mut has_loop = false;
    let mut has_io = false;
    proof {
        lemma_nods_model_len(nodes@);
        assert(model.skip(0) =~= model);
        assert(Seq::<NodModel>::empty() + oo_fold(model, empty_state(), false, false, is_loop).0
            =~= oo_fold(model, empty_state(), false, false, is_loop).0);
    }
    let mut i: usize = 0;
    while i < nodes.len()
        invariant
            model == nods_model(nodes@),
            model.len() == nodes@.len(),
            all_collectable(model),
            i <= nodes@.len(),
            state.model().count <= i,
            state.wf(),
            (nods_model(new_nodes@) + oo_fold(model.skip(i as int), state.model(), has_loop, has_io, is_loop).0,
                oo_fold(model.skip(i as int), state.model(), has_loop, has_io, is_loop).1) == oo_items(model, is_loop),
        decreases nodes@.len() - i,
    {
        proof {
            lemma_nods_model_index(nodes@, i as int);
            lemma_all_collectable_index(model, i as int);
            assert(model.skip(i as int)[0] == model[i as int]);
            assert(model.skip(i as int).drop_first() =~= model.skip(i + 1));
        }
        let ghost before = nods_model(new_nodes@);
        let ghost st = state.model();
        match &nodes[i] {
            Nod::Loop(loop_nodes) => {
                has_loop = true;
                let taken = state.take();
                let instructions = taken.into_nodes();
                append_nods(&mut new_nodes, instructions);
                proof {
                    assert(decreases_to!(model => model[i as int]));
                }
                let (inner_nodes, keeps_loop) = offset_inner(loop_nodes, true);
                if keeps_loop {
                    let n = Nod::Loop(inner_nodes);
                    proof { lemma_nods_model_push(new_nodes@, n); }
                    new_nodes.push(n);
                } else {
                    append_nods(&mut new_nodes, inner_nodes);
                }
                proof {
                    let sub = oo_items(nods_model(loop_nodes@), true);
                    let piece = into_model(st) + if sub.1 { seq![NodModel::Loop(sub.0)] } else { sub.0 };
                    assert(nods_model(new_nodes@) =~= before + piece);
                    let rest = oo_fold(model.skip(i + 1), empty_state(), true, has_io, is_loop);
                    assert(before + oo_fold(model.skip(i as int), st, has_loop, has_io, is_loop).0
                        =~= nods_model(new_nodes@) + rest.0);
                }
            },
            Nod::Instruction(instruction) => {
                if matches!(instruction, Instruction::Output(0, _)) || matches!(instruction, Instruction::Input(0, _)) {
                    has_io = true;
                }
                state.push_instruction(*instruction);
            },
        }
        i = i + 1;
    }
    proof {
        assert(model.skip(nodes@.len() as int) =~= Seq::<NodModel>::empty());
    }
    if state.is_counting_loop(has_loop, has_io, is_loop) {
        let instructions = state.into_mul_nodes();
        append_nods(&mut new_nodes, instructions);
        (new_nodes, false)
    } else {
        let instructions = state.into_nodes();
        append_nods(&mut new_nodes, instructions);
        (new_nodes, true)
    }
}

/// Folds pointer moves into the offsets of the instructions of each run, puts every run's
/// instructions in arrival order with one pointer move at its end, and writes counting loops
/// (`[->+<]` and the like) as multiplications followed by clearing the counter.
///
/// A loop whose counter steps up (`[+>+<]`) is converted the same way, as an addition of the
/// counter, although such a loop adds the counter's negation; and writes of one cell fused
/// across a write of another cell (`.>.<.`) come out grouped by the first of them. Where
/// neither occurs, the result does what the nodes do (`lemma_offset_opt_keeps_runs`).
pub fn offset_opt(nodes: &Nods) -> (r: Nods)
    requires
        all_collectable(nods_model(nodes@)),
    ensures
        nods_model(r@) == oo_items(nods_model(nodes@), false).0,
{
    let (r, _) = offset_inner(nodes, false);
    r
}


/// An instruction moved `by` cells further: its addressed offsets (and the offsets of the
/// cells it reads) shift, wrapping around in `isize`.
pub open spec fn shifted_by(i: Instruction, by: isize) -> Instruction {
    let v_shift = |v: Value| match v {
        Value::Memory(o) => Value::Memory(add_isize(by, o)),
        Value::Const(_) => v,
    };
    match i {
        Instruction::Add(o, v) => Instruction::Add(add_isize(by, o), v_shift(v)),
        Instruction::Sub(o, v) => Instruction::Sub(add_isize(by, o), v_shift(v)),
        Instruction::MulAdd(to, from, x) => Instruction::MulAdd(add_isize(by, to), add_isize(by, from), x),
        Instruction::MulSub(to, from, x) => Instruction::MulSub(add_isize(by, to), add_isize(by, from), x),
        Instruction::Output(o, n) => Instruction::Output(add_isize(by, o), n),
        Instruction::Input(o, n) => Instruction::Input(add_isize(by, o), n),
        Instruction::SetValue(o, v) => Instruction::SetValue(add_isize(by, o), v_shift(v)),
        _ => i,
    }
}

/// One node appended to nodes whose pointer moves are held back in `offset`: moves add to the
/// offset, other instructions are shifted by it, and a loop first gets the held move.
pub open spec fn simplified_push(acc: (Seq<NodModel>, isize), n: NodModel) -> (Seq<NodModel>, isize) {
    match n {
        NodModel::Loop(_) => (acc.0 + move_nodes(acc.1) + seq![n], 0),
        NodModel::Instruction(Instruction::PtrIncrement(inc)) => (acc.0, add_isize(acc.1, inc as isize)),
        NodModel::Instruction(Instruction::PtrDecrement(dec)) => (acc.0, sub_isize(acc.1, dec as isize)),
        NodModel::Instruction(i) => (acc.0.push(NodModel::Instruction(shifted_by(i, acc.1))), acc.1),
    }
}

/// Nodes whose pointer moves between loops are folded into the offsets of the instructions
/// after them; the held move is written before each loop and at the end.
pub struct SimplifiedNodes {
    nodes: Nods,
    pointer_offset: isize,
}

fn shift_value(v: Value, by: isize) -> (r: Value)
    ensures
        r == match v {
            Value::Memory(o) => Value::Memory(add_isize(by, o)),
            Value::Const(_) => v,
        },
{
    match v {
        Value::Memory(o) => Value::Memory(by.wrapping_add(o)),
        Value::Const(_) => v,
    }
}

impl SimplifiedNodes {
    pub closed spec fn model(&self) -> (Seq<NodModel>, isize) {
        (nods_model(self.nodes@), self.pointer_offset)
    }

    pub fn new() -> (r: Self)
        ensures
            r.model() == (Seq::<NodModel>::empty(), 0isize),
    {
        let r = SimplifiedNodes { nodes: Vec::new(), pointer_offset: 0 };
        assert(nods_model(r.nodes@) =~= Seq::<NodModel>::empty());
        r
    }

    pub fn push_back(&mut self, node: Nod)
        ensures
            final(self).model() == simplified_push(old(self).model(), nod_model(node)),
    {
        match node {
            Nod::Loop(body) => {
                push_move(&mut self.nodes, self.pointer_offset);
                self.pointer_offset = 0;
                let n = Nod::Loop(body);
                proof { lemma_nods_model_push(self.nodes@, n); }
                self.nodes.push(n);
            },
            Nod::Instruction(ins) => {
                let p = self.pointer_offset;
                let shifted = match ins {
                    Instruction::PtrIncrement(inc) => {
                        self.pointer_offset = p.wrapping_add(inc as isize);
                        return;
                    },
                    Instruction::PtrDecrement(dec) => {
                        self.pointer_offset = p.wrapping_sub(dec as isize);
                        return;
                    },
                    Instruction::Add(offset, value) => Instruction::Add(p.wrapping_add(offset), shift_value(value, p)),
                    Instruction::Sub(offset, value) => Instruction::Sub(p.wrapping_add(offset), shift_value(value, p)),
                    Instruction::MulAdd(to, from, value) => Instruction::MulAdd(p.wrapping_add(to), p.wrapping_add(from), value),
                    Instruction::MulSub(to, from, value) => Instruction::MulSub(p.wrapping_add(to), p.wrapping_add(from), value),
                    Instruction::Output(offset, repeat) => Instruction::Output(p.wrapping_add(offset), repeat),
                    Instruction::Input(offset, repeat) => Instruction::Input(p.wrapping_add(offset), repeat),
                    Instruction::SetValue(offset, value) => Instruction::SetValue(p.wrapping_add(offset), shift_value(value, p)),
                };
                let n = Nod::Instruction(shifted);
                proof { lemma_nods_model_push(self.nodes@, n); }
                self.nodes.push(n);
            },
        }
    }

    pub fn into_nodes(self) -> (r: Nods)
        ensures
            nods_model(r@) == self.model().0 + move_nodes(self.model().1),
    {
        let mut nodes = self.nodes;
        push_move(&mut nodes, self.pointer_offset);
        nodes
    }
}

/// Pointer moves folded into offsets, at every depth.
pub open spec fn merge_offsets(ns: Seq<NodModel>) -> Seq<NodModel>
    decreases ns, 1int,
{
    let acc = merge_offsets_fold(ns);
    acc.0 + move_nodes(acc.1)
}

pub open spec fn merge_offsets_fold(ns: Seq<NodModel>) -> (Seq<NodModel>, isize)
    decreases ns, 0int,
{
    if ns.len() == 0 {
        (Seq::empty(), 0)
    } else {
        let n = match ns.last() {
            NodModel::Loop(body) => NodModel::Loop(merge_offsets(body)),
            other => other,
        };
        simplified_push(merge_offsets_fold(ns.drop_last()), n)
    }
}

fn offset_merge(nodes: Nods) -> (r: Nods)
    ensures
        nods_model(r@) == merge_offsets(nods_model(nodes@)),
    decreases nods_model(nodes@),
{
    let ghost model = nods_model(nodes@);
    let mut simplified_nodes = SimplifiedNodes::new();
    let mut rest = reversed(nodes);
    proof {
        lemma_nods_model_len(nodes@);
        assert(model.take(0) =~= Seq::<NodModel>::empty());
    }
    let n = rest.len();
    let mut i: usize = 0;
    while i < n
        invariant
            n == nodes@.len(),
            model == nods_model(nodes@),
            model.len() == n,
            i <= n,
            rest@.len() == n - i,
            forall|k: int| 0 <= k < n - i ==> #[trigger] rest@[k] == nodes@[n - 1 - k],
            simplified_nodes.model() == merge_offsets_fold(model.take(i as int)),
        decreases n - i,
    {
        let node = rest.pop().unwrap();
        proof {
            assert(node == nodes@[i as int]);
            lemma_nods_model_index(nodes@, i as int);
            assert(model.take(i + 1).drop_last() =~= model.take(i as int));
            assert(model.take(i + 1).last() == model[i as int]);
            assert(decreases_to!(model => model[i as int]));
        }
        match node {
            Nod::Loop(loop_nodes) => {
                proof {
                    let m = model[i as int];
                    assert(m == NodModel::Loop(nods_model(loop_nodes@)));
                    assert(decreases_to!(m => m->Loop_0));
                }
                simplified_nodes.push_back(Nod::Loop(offset_merge(loop_nodes)))
            },
            ins_node => simplified_nodes.push_back(ins_node),
        }
        i = i + 1;
    }
    proof {
        assert(model.take(n as int) =~= model);
    }
    simplified_nodes.into_nodes()
}

pub open spec fn is_move(n: NodModel) -> bool {
    n matches NodModel::Instruction(Instruction::PtrIncrement(_)) || n matches NodModel::Instruction(Instruction::PtrDecrement(_))
}

/// Every pointer move, at every depth, moves at least one cell and is the last node of its
/// list or stands right before a loop.
pub open spec fn moves_placed(ns: Seq<NodModel>) -> bool
    decreases ns,
{
    if ns.len() == 0 {
        true
    } else {
        &&& moves_placed(ns.drop_last())
        &&& (ns.drop_last().len() > 0 && is_move(ns.drop_last().last()) ==> ns.last() is Loop)
        &&& match ns.last() {
            NodModel::Instruction(Instruction::PtrIncrement(k)) => k > 0,
            NodModel::Instruction(Instruction::PtrDecrement(k)) => k > 0,
            NodModel::Loop(body) => moves_placed(body),
            _ => true,
        }
    }
}

proof fn lemma_moves_placed_push(a: Seq<NodModel>, x: NodModel)
    ensures
        moves_placed(a.push(x)) == (moves_placed(a) && (a.len() > 0 && is_move(a.last()) ==> x is Loop)
            && match x {
                NodModel::Instruction(Instruction::PtrIncrement(k)) => k > 0,
                NodModel::Instruction(Instruction::PtrDecrement(k)) => k > 0,
                NodModel::Loop(body) => moves_placed(body),
                _ => true,
            }),
{
    assert(a.push(x).drop_last() =~= a);
}

proof fn lemma_offsets_fold_placed(ns: Seq<NodModel>)
    ensures
        moves_placed(merge_offsets_fold(ns).0),
        merge_offsets_fold(ns).0.len() > 0 ==> !is_move(merge_offsets_fold(ns).0.last()),
    decreases ns, 0int,
{
    if ns.len() > 0 {
        lemma_offsets_fold_placed(ns.drop_last());
        let (xs, off) = merge_offsets_fold(ns.drop_last());
        match ns.last() {
            NodModel::Loop(body) => {
                lemma_merge_offsets_placed(body);
                let l = NodModel::Loop(merge_offsets(body));
                if off == 0 {
                    assert(xs + move_nodes(off) + seq![l] =~= xs.push(l));
                    lemma_moves_placed_push(xs, l);
                } else {
                    let m = move_nodes(off)[0];
                    assert(xs + move_nodes(off) + seq![l] =~= xs.push(m).push(l));
                    lemma_moves_placed_push(xs, m);
                    lemma_moves_placed_push(xs.push(m), l);
                }
            },
            NodModel::Instruction(Instruction::PtrIncrement(_)) => {},
            NodModel::Instruction(Instruction::PtrDecrement(_)) => {},
            NodModel::Instruction(i) => {
                lemma_moves_placed_push(xs, NodModel::Instruction(shifted_by(i, off)));
            },
        }
    }
}

/// Folding pointer moves into offsets leaves each pointer move, at every depth, right before
/// a loop or at the end of its list, and never a move by zero.
pub proof fn lemma_merge_offsets_placed(ns: Seq<NodModel>)
    ensures
        moves_placed(merge_offsets(ns)),
    decreases ns, 1int,
{
    lemma_offsets_fold_placed(ns);
    let (xs, off) = merge_offsets_fold(ns);
    if off == 0 {
        assert(xs + move_nodes(off) =~= xs);
    } else {
        let m = move_nodes(off)[0];
        assert(xs + move_nodes(off) =~= xs.push(m));
        lemma_moves_placed_push(xs, m);
    }
}

/// After the node optimizer, each pointer move, at every depth, stands right before a loop or
/// at the end of its list, and moves at least one cell.
pub proof fn lemma_optimize_places_moves(ns: Seq<NodModel>)
    ensures
        moves_placed(merge_offsets(oo_items(ns, false).0)),
{
    lemma_merge_offsets_placed(oo_items(ns, false).0);
}

/// The offset pass, then pointer moves folded into offsets at every depth
/// (`lemma_node_optimize_keeps_runs` says where the result does what the nodes do).
pub fn optimize(nodes: &Nods) -> (r: Nods)
    requires
        all_collectable(nods_model(nodes@)),
    ensures
        nods_model(r@) == merge_offsets(oo_items(nods_model(nodes@), false).0),
{
    let nodes = offset_opt(nodes);
    offset_merge(nodes)
}


/// Whether every instruction of the tree is one the offset pass collects.
pub fn is_collectable(nodes: &Nods) -> (r: bool)
    ensures
        r == all_collectable(nods_model(nodes@)),
    decreases nods_model(nodes@),
{
    let ghost model = nods_model(nodes@);
    proof {
        lemma_nods_model_len(nodes@);
        assert(model.take(0) =~= Seq::<NodModel>::empty());
    }
    let mut i: usize = 0;
    while i < nodes.len()
        invariant
            model == nods_model(nodes@),
            model.len() == nodes@.len(),
            i <= nodes@.len(),
            all_collectable(model.take(i as int)),
        decreases nodes@.len() - i,
    {
        proof {
            lemma_nods_model_index(nodes@, i as int);
            assert(model.take(i + 1).drop_last() =~= model.take(i as int));
            assert(model.take(i + 1).last() == model[i as int]);
        }
        let ok = match &nodes[i] {
            Nod::Loop(loop_nodes) => {
                proof {
                    let m = model[i as int];
                    assert(m == NodModel::Loop(nods_model(loop_nodes@)));
                    assert(decreases_to!(model => m));
                    assert(decreases_to!(m => m->Loop_0));
                }
                is_collectable(loop_nodes)
            },
            Nod::Instruction(instruction) => match instruction {
                Instruction::PtrIncrement(_) | Instruction::PtrDecrement(_) => true,
                Instruction::Add(0, Value::Const(_)) | Instruction::Sub(0, Value::Const(_)) => true,
                Instruction::Output(0, _) | Instruction::Input(0, _) => true,
                _ => false,
            },
        };
        assert(nod_collectable(model[i as int]) == ok);
        if !ok {
            proof {
                assert(!all_collectable(model.take(i + 1)));
                lemma_collectable_prefix(model, i as int + 1);
            }
            return false;
        }
        i = i + 1;
    }
    proof {
        assert(model.take(nodes@.len() as int) =~= model);
    }
    true
}

proof fn lemma_collectable_prefix(ns: Seq<NodModel>, i: int)
    requires
        0 <= i <= ns.len(),
        !all_collectable(ns.take(i)),
    ensures
        !all_collectable(ns),
    decreases ns.len() - i,
{
    if i < ns.len() {
        assert(ns.take(i + 1).drop_last() =~= ns.take(i));
        lemma_collectable_prefix(ns, i + 1);
    } else {
        assert(ns.take(i) =~= ns);
    }
}

} // verus!
