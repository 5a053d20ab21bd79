//! What block operations do to a tape, and what the passes of `opt` keep of it.

use vstd::prelude::*;
use crate::instruction::{Tape, cell, with_cell, wrap, lemma_wrap_add, lemma_wrap_byte};
use crate::ir::{ItemModel, Op, op_is_nop, op_offset, with_offset};
use crate::opt::OpType;
use crate::opt::{op_sum, op_sum_fits, settle, merge_fold, merge_item, merge_items, remove_nop_items, clears_cell,
    clear_item, clear_items, unwrap_item, unwrap_items, if_item, if_items, table_sorted, table_pos, table_lookup,
    table_add, table_assign, op_type_plus, scan, scan_step, mul_table, entry_ops, emit, mul_item, mul_items, fits_i32,
    offset_fold, offset_items, shifted, add_wrapping, lick_free, item_lick_free, nonneg_fold, nonneg_items, flush,
    lowered, ops_model, sub_wrapping, min_i32, optimize_items, lemma_lick_free_push, lemma_lick_free_concat,
    lemma_merge_lick_free, lemma_unwrap_lick_free, lemma_clear_lick_free, lemma_mul_lick_free, lemma_if_lick_free, lick_item, lick_items};

verus! {

/// The effect of one operation on an unbounded tape. A scan (`Lick`) is a loop and has no
/// effect of its own here.
pub open spec fn op_tape(op: Op, t: Tape) -> Tape {
    match op {
        Op::Add(x, o) => with_cell(t, t.ptr + o, wrap(cell(t, o as int) + x)),
        Op::MovePtr(n) => Tape { ptr: t.ptr + n, ..t },
        Op::Mul(to, x, o) => with_cell(t, t.ptr + to + o, wrap(cell(t, to + o) + cell(t, o as int) * x)),
        Op::Assign(x, o) => with_cell(t, t.ptr + o, wrap(x as int)),
        Op::Out(o) => Tape { out: t.out.push(cell(t, o as int)), ..t },
        Op::Input(o) => with_cell(Tape { input: t.input.drop_first(), ..t }, t.ptr + o, t.input[0]),
        Op::Lick(_) => t,
    }
}

/// A block of operations only: no loop, no conditional, no scan.
pub open spec fn straight(items: Seq<ItemModel>) -> bool {
    forall|k: int| 0 <= k < items.len() ==> (#[trigger] items[k] matches ItemModel::Op(op) && !(op is Lick))
}

/// The effect of a straight block: its operations one after the other.
pub open spec fn ops_tape(items: Seq<ItemModel>, t: Tape) -> Tape
    decreases items.len(),
{
    if items.len() == 0 {
        t
    } else {
        match items.last() {
            ItemModel::Op(op) => op_tape(op, ops_tape(items.drop_last(), t)),
            _ => ops_tape(items.drop_last(), t),
        }
    }
}

proof fn lemma_with_same_cell(t: Tape, at: int)
    ensures
        with_cell(t, at, (t.mem)(at)) == t,
{
    assert(with_cell(t, at, (t.mem)(at)).mem =~= t.mem);
    assert(with_cell(t, at, (t.mem)(at)) =~= t);
}

/// An operation that does nothing leaves the tape as it is.
proof fn lemma_nop_tape(op: Op, t: Tape)
    requires
        op_is_nop(op),
    ensures
        op_tape(op, t) == t,
{
    match op {
        Op::Add(x, o) => {
            lemma_wrap_byte(cell(t, o as int));
            lemma_with_same_cell(t, t.ptr + o);
        },
        Op::Mul(to, x, o) => {
            lemma_wrap_byte(cell(t, to + o));
            lemma_with_same_cell(t, t.ptr + to + o);
        },
        _ => {
            assert(op_tape(op, t) =~= t);
        },
    }
}

/// Fusing two operations keeps their joint effect: running the fused operation does what
/// running the first and then the second does, on every tape (scans aside).
pub proof fn lemma_op_add_keeps_effect(a: Op, b: Op, t: Tape)
    requires
        op_sum_fits(a, b),
        op_sum(a, b) is Some,
        !(a is Lick),
    ensures
        op_tape(op_sum(a, b)->0, t) == op_tape(b, op_tape(a, t)),
{
    match (a, b) {
        (Op::Add(n, o), Op::Add(m, f)) if o == f => {
            lemma_wrap_add(cell(t, o as int) + n, m as int);
            assert(op_tape(op_sum(a, b)->0, t).mem =~= op_tape(b, op_tape(a, t)).mem);
            assert(op_tape(op_sum(a, b)->0, t) =~= op_tape(b, op_tape(a, t)));
        },
        (Op::MovePtr(n), Op::MovePtr(m)) => {
            assert(op_tape(op_sum(a, b)->0, t) =~= op_tape(b, op_tape(a, t)));
        },
        (Op::Assign(0, o), Op::Mul(to, x, f)) if o == f => {
            let t1 = op_tape(a, t);
            assert(cell(t1, o as int) == 0);
            lemma_wrap_byte(cell(t1, to + f));
            lemma_with_same_cell(t1, t1.ptr + to + f);
        },
        (Op::Assign(_, o), Op::Assign(_, f)) if o == f => {
            assert(op_tape(op_sum(a, b)->0, t).mem =~= op_tape(b, op_tape(a, t)).mem);
            assert(op_tape(op_sum(a, b)->0, t) =~= op_tape(b, op_tape(a, t)));
        },
        (Op::Assign(x, o), Op::Add(y, f)) if o == f => {
            lemma_wrap_add(x as int, y as int);
            assert(op_tape(op_sum(a, b)->0, t).mem =~= op_tape(b, op_tape(a, t)).mem);
            assert(op_tape(op_sum(a, b)->0, t) =~= op_tape(b, op_tape(a, t)));
        },
        _ => {
            lemma_nop_tape(b, op_tape(a, t));
        },
    }
}


proof fn lemma_ops_tape_push(items: Seq<ItemModel>, op: Op, t: Tape)
    ensures
        ops_tape(items.push(ItemModel::Op(op)), t) == op_tape(op, ops_tape(items, t)),
{
    assert(items.push(ItemModel::Op(op)).drop_last() =~= items);
}

proof fn lemma_ops_tape_front(x: Op, rest: Seq<ItemModel>, t: Tape)
    ensures
        ops_tape(seq![ItemModel::Op(x)] + rest, t) == ops_tape(rest, op_tape(x, t)),
    decreases rest.len(),
{
    if rest.len() == 0 {
        assert(seq![ItemModel::Op(x)] + rest =~= Seq::<ItemModel>::empty().push(ItemModel::Op(x)));
        lemma_ops_tape_push(Seq::<ItemModel>::empty(), x, t);
    } else {
        lemma_ops_tape_front(x, rest.drop_last(), t);
        assert((seq![ItemModel::Op(x)] + rest).drop_last() =~= seq![ItemModel::Op(x)] + rest.drop_last());
        assert((seq![ItemModel::Op(x)] + rest).last() == rest.last());
    }
}

proof fn lemma_straight_push(items: Seq<ItemModel>, item: ItemModel)
    ensures
        straight(items.push(item)) == (straight(items) && (item matches ItemModel::Op(op) && !(op is Lick))),
{
    if straight(items.push(item)) {
        assert forall|k: int| 0 <= k < items.len() implies (#[trigger] items[k] matches ItemModel::Op(op) && !(op is Lick)) by {
            assert(items.push(item)[k] == items[k]);
        }
        assert(items.push(item)[items.len() as int] == item);
    }
}

/// Fusing the operations at the end keeps a straight block straight and keeps its effect.
proof fn lemma_settle_keeps_effect(acc: Seq<ItemModel>, t: Tape)
    requires
        straight(acc),
    ensures
        straight(settle(acc)),
        ops_tape(settle(acc), t) == ops_tape(acc, t),
    decreases acc.len(),
{
    if acc.len() >= 2 && acc[acc.len() - 2] is Op && acc.last() is Op
        && op_sum_fits(acc[acc.len() - 2]->Op_0, acc.last()->Op_0)
        && op_sum(acc[acc.len() - 2]->Op_0, acc.last()->Op_0) is Some {
        let a = acc[acc.len() - 2]->Op_0;
        let b = acc.last()->Op_0;
        let c = op_sum(a, b)->0;
        let front = acc.take(acc.len() - 2);
        assert(acc[acc.len() - 2] matches ItemModel::Op(op) && !(op is Lick));
        assert(acc[acc.len() - 1] matches ItemModel::Op(op) && !(op is Lick));
        assert(straight(front)) by {
            assert forall|k: int| 0 <= k < front.len() implies (#[trigger] front[k] matches ItemModel::Op(op) && !(op is Lick)) by {
                assert(front[k] == acc[k]);
            }
        }
        assert(!(c is Lick));
        lemma_straight_push(front, ItemModel::Op(c));
        lemma_settle_keeps_effect(front.push(ItemModel::Op(c)), t);
        lemma_ops_tape_push(front, c, t);
        lemma_op_add_keeps_effect(a, b, ops_tape(front, t));
        assert(acc.drop_last().drop_last() =~= front);
        assert(acc.drop_last().last() == acc[acc.len() - 2]);
        assert(ops_tape(acc, t) == op_tape(b, ops_tape(acc.drop_last(), t)));
        assert(ops_tape(acc.drop_last(), t) == op_tape(a, ops_tape(acc.drop_last().drop_last(), t)));
    }
}

/// The fold of `merge` keeps a straight block straight and keeps its effect.
proof fn lemma_merge_fold_keeps_effect(start: Seq<ItemModel>, items: Seq<ItemModel>, t: Tape)
    requires
        straight(start),
        straight(items),
    ensures
        straight(merge_fold(start, items)),
        ops_tape(merge_fold(start, items), t) == ops_tape(items, ops_tape(start, t)),
    decreases items.len(),
{
    if items.len() > 0 {
        let rest = items.drop_last();
        assert(straight(rest)) by {
            assert forall|k: int| 0 <= k < rest.len() implies (#[trigger] rest[k] matches ItemModel::Op(op) && !(op is Lick)) by {
                assert(rest[k] == items[k]);
            }
        }
        lemma_merge_fold_keeps_effect(start, rest, t);
        let last = items.last();
        assert(items[items.len() - 1] matches ItemModel::Op(op) && !(op is Lick));
        assert(merge_item(last) == last);
        let acc = merge_fold(start, rest).push(last);
        lemma_straight_push(merge_fold(start, rest), last);
        lemma_settle_keeps_effect(acc, t);
        lemma_ops_tape_push(merge_fold(start, rest), last->Op_0, t);
        lemma_ops_tape_push(rest, last->Op_0, ops_tape(start, t));
        assert(rest.push(last) =~= items);
    }
}

/// Fusing operations keeps the effect of a block without loops and conditionals. At the top
/// level, where the fold starts from a cleared current cell, it does so on tapes whose
/// current cell is zero (memory starts cleared).
pub proof fn lemma_merge_keeps_effect_of_straight_blocks(items: Seq<ItemModel>, is_top_level: bool, t: Tape)
    requires
        straight(items),
        is_top_level ==> cell(t, 0) == 0,
    ensures
        straight(merge_items(items, is_top_level)),
        ops_tape(merge_items(items, is_top_level), t) == ops_tape(items, t),
{
    if is_top_level {
        let a0 = Op::Assign(0, 0);
        let start = seq![ItemModel::Op(a0)];
        assert(straight(start));
        lemma_merge_fold_keeps_effect(start, items, t);
        assert(start =~= Seq::<ItemModel>::empty().push(ItemModel::Op(a0)));
        lemma_ops_tape_push(Seq::<ItemModel>::empty(), a0, t);
        lemma_wrap_byte(0u8);
        lemma_with_same_cell(t, t.ptr);
        assert(op_tape(a0, t) == t);
        let r = merge_fold(start, items);
        if r.len() > 0 && r[0] == ItemModel::Op(a0) {
            assert(r =~= seq![ItemModel::Op(a0)] + r.drop_first());
            lemma_ops_tape_front(a0, r.drop_first(), t);
            assert(straight(r.drop_first())) by {
                assert forall|k: int| 0 <= k < r.drop_first().len()
                    implies (#[trigger] r.drop_first()[k] matches ItemModel::Op(op) && !(op is Lick)) by {
                    assert(r.drop_first()[k] == r[k + 1]);
                }
            }
        }
    } else {
        assert(straight(Seq::<ItemModel>::empty()));
        lemma_merge_fold_keeps_effect(Seq::empty(), items, t);
    }
}

/// Dropping operations that do nothing keeps the effect of a block without loops and
/// conditionals.
pub proof fn lemma_remove_nop_keeps_effect_of_straight_blocks(items: Seq<ItemModel>, t: Tape)
    requires
        straight(items),
    ensures
        straight(remove_nop_items(items)),
        ops_tape(remove_nop_items(items), t) == ops_tape(items, t),
    decreases items.len(),
{
    if items.len() > 0 {
        let rest = items.drop_last();
        assert(straight(rest)) by {
            assert forall|k: int| 0 <= k < rest.len() implies (#[trigger] rest[k] matches ItemModel::Op(op) && !(op is Lick)) by {
                assert(rest[k] == items[k]);
            }
        }
        lemma_remove_nop_keeps_effect_of_straight_blocks(rest, t);
        assert(items[items.len() - 1] matches ItemModel::Op(op) && !(op is Lick));
        let op = items.last()->Op_0;
        if op_is_nop(op) {
            lemma_nop_tape(op, ops_tape(rest, t));
        } else {
            lemma_straight_push(remove_nop_items(rest), items.last());
            lemma_ops_tape_push(remove_nop_items(rest), op, t);
        }
    }
}


/// Running one item with `fuel` rounds of loops to spend: `None` when the fuel runs out.
/// A loop runs its body while the current cell is not zero, a conditional runs it once when
/// the cell is not zero, and a scan moves by its step until the cell is zero.
pub open spec fn run_item(item: ItemModel, t: Tape, fuel: nat) -> Option<Tape>
    decreases fuel, item,
{
    match item {
        ItemModel::Op(Op::Lick(by)) => if cell(t, 0) == 0 {
            Some(t)
        } else if fuel == 0 {
            None
        } else {
            run_item(item, Tape { ptr: t.ptr + by, ..t }, (fuel - 1) as nat)
        },
        ItemModel::Op(op) => Some(op_tape(op, t)),
        ItemModel::Loop(body) => if cell(t, 0) == 0 {
            Some(t)
        } else if fuel == 0 {
            None
        } else {
            match run_items(body, t, (fuel - 1) as nat) {
                Some(t2) => run_item(item, t2, (fuel - 1) as nat),
                None => None,
            }
        },
        ItemModel::If(body) => if cell(t, 0) == 0 {
            Some(t)
        } else {
            run_items(body, t, fuel)
        },
    }
}

/// Running a block: its items one after the other.
pub open spec fn run_items(items: Seq<ItemModel>, t: Tape, fuel: nat) -> Option<Tape>
    decreases fuel, items,
{
    if items.len() == 0 {
        Some(t)
    } else {
        match run_items(items.drop_last(), t, fuel) {
            Some(t1) => run_item(items.last(), t1, fuel),
            None => None,
        }
    }
}

/// More fuel changes nothing once a run has finished.
pub proof fn lemma_run_item_mono(item: ItemModel, t: Tape, f: nat, g: nat)
    requires
        f <= g,
        run_item(item, t, f) is Some,
    ensures
        run_item(item, t, g) == run_item(item, t, f),
    decreases f, item,
{
    match item {
        ItemModel::Op(Op::Lick(by)) => {
            if cell(t, 0) != 0 {
                lemma_run_item_mono(item, Tape { ptr: t.ptr + by, ..t }, (f - 1) as nat, (g - 1) as nat);
            }
        },
        ItemModel::Op(_) => {},
        ItemModel::Loop(body) => {
            if cell(t, 0) != 0 {
                lemma_run_items_mono(body, t, (f - 1) as nat, (g - 1) as nat);
                let t2 = run_items(body, t, (f - 1) as nat)->0;
                lemma_run_item_mono(item, t2, (f - 1) as nat, (g - 1) as nat);
            }
        },
        ItemModel::If(body) => {
            if cell(t, 0) != 0 {
                lemma_run_items_mono(body, t, f, g);
            }
        },
    }
}

pub proof fn lemma_run_items_mono(items: Seq<ItemModel>, t: Tape, f: nat, g: nat)
    requires
        f <= g,
        run_items(items, t, f) is Some,
    ensures
        run_items(items, t, g) == run_items(items, t, f),
    decreases f, items,
{
    if items.len() > 0 {
        lemma_run_items_mono(items.drop_last(), t, f, g);
        let t1 = run_items(items.drop_last(), t, f)->0;
        lemma_run_item_mono(items.last(), t1, f, g);
    }
}

proof fn lemma_run_items_push(items: Seq<ItemModel>, item: ItemModel, t: Tape, f: nat)
    ensures
        run_items(items.push(item), t, f) == match run_items(items, t, f) {
            Some(t1) => run_item(item, t1, f),
            None => None,
        },
{
    assert(items.push(item).drop_last() =~= items);
}

/// A loop that steps its cell by one, when it finishes, has cleared that cell and done
/// nothing else.
proof fn lemma_clearing_loop(body: Seq<ItemModel>, t: Tape, f: nat)
    requires
        clears_cell(body),
        run_item(ItemModel::Loop(body), t, f) is Some,
    ensures
        run_item(ItemModel::Loop(body), t, f) == Some(op_tape(Op::Assign(0, 0), t)),
    decreases f,
{
    lemma_wrap_byte(0u8);
    if cell(t, 0) == 0 {
        lemma_with_same_cell(t, t.ptr);
    } else {
        let op = body[0]->Op_0;
        assert(body =~= Seq::<ItemModel>::empty().push(body[0]));
        lemma_run_items_push(Seq::<ItemModel>::empty(), body[0], t, (f - 1) as nat);
        let t2 = op_tape(op, t);
        assert(run_items(body, t, (f - 1) as nat) == Some(t2));
        lemma_clearing_loop(body, t2, (f - 1) as nat);
        assert(op_tape(Op::Assign(0, 0), t2).mem =~= op_tape(Op::Assign(0, 0), t).mem);
        assert(op_tape(Op::Assign(0, 0), t2) =~= op_tape(Op::Assign(0, 0), t));
    }
}

proof fn lemma_clear_item_keeps_runs(item: ItemModel, t: Tape, f: nat)
    requires
        run_item(item, t, f) is Some,
    ensures
        run_item(clear_item(item), t, f) == run_item(item, t, f),
    decreases f, item,
{
    if let ItemModel::Loop(body) = item {
        if clears_cell(body) {
            lemma_clearing_loop(body, t, f);
        } else if cell(t, 0) != 0 {
            lemma_clear_keeps_runs(body, t, (f - 1) as nat);
            let t2 = run_items(body, t, (f - 1) as nat)->0;
            lemma_clear_item_keeps_runs(item, t2, (f - 1) as nat);
        }
    }
}

/// Clearing loops keeps what a block does: a run that finishes gives the same tape, with
/// the same fuel or less.
pub proof fn lemma_clear_keeps_runs(items: Seq<ItemModel>, t: Tape, f: nat)
    requires
        run_items(items, t, f) is Some,
    ensures
        run_items(clear_items(items), t, f) == run_items(items, t, f),
    decreases f, items,
{
    if items.len() > 0 {
        lemma_clear_keeps_runs(items.drop_last(), t, f);
        let t1 = run_items(items.drop_last(), t, f)->0;
        lemma_clear_item_keeps_runs(items.last(), t1, f);
        lemma_run_items_push(clear_items(items.drop_last()), clear_item(items.last()), t, f);
    }
}


/// A loop that finishes leaves the current cell zero.
proof fn lemma_loop_ends_on_zero(body: Seq<ItemModel>, t: Tape, f: nat)
    requires
        run_item(ItemModel::Loop(body), t, f) is Some,
    ensures
        cell(run_item(ItemModel::Loop(body), t, f)->0, 0) == 0,
    decreases f,
{
    if cell(t, 0) != 0 {
        let t2 = run_items(body, t, (f - 1) as nat)->0;
        lemma_loop_ends_on_zero(body, t2, (f - 1) as nat);
    }
}

proof fn lemma_run_items_prefix(items: Seq<ItemModel>, t: Tape, f: nat)
    requires
        items.len() > 0,
        run_items(items, t, f) is Some,
    ensures
        run_items(items.drop_last(), t, f) is Some,
        run_item(items.last(), run_items(items.drop_last(), t, f)->0, f) == run_items(items, t, f),
{
}

proof fn lemma_unwrap_item_keeps_runs(item: ItemModel, t: Tape, f: nat)
    requires
        run_item(item, t, f) is Some,
    ensures
        run_item(unwrap_item(item), t, f) == run_item(item, t, f),
    decreases f, item,
{
    if let ItemModel::Loop(body) = item {
        if body.len() == 1 && body[0] is Loop {
            let inner = body[0];
            assert(unwrap_item(item) == unwrap_item(inner));
            if cell(t, 0) == 0 {
                assert(run_item(item, t, f) == Some(t));
                assert(run_item(inner, t, f) == Some(t));
                lemma_unwrap_item_keeps_runs(inner, t, f);
            } else {
                let g = (f - 1) as nat;
                assert(body =~= Seq::<ItemModel>::empty().push(inner));
                lemma_run_items_push(Seq::<ItemModel>::empty(), inner, t, g);
                assert(run_items(body, t, g) == run_item(inner, t, g));
                let t2 = run_item(inner, t, g)->0;
                lemma_loop_ends_on_zero(inner->Loop_0, t, g);
                assert(cell(t2, 0) == 0);
                assert(run_item(item, t2, g) == Some(t2));
                assert(run_item(item, t, f) == Some(t2));
                lemma_run_item_mono(inner, t, g, f);
                lemma_unwrap_item_keeps_runs(inner, t, f);
            }
        } else if cell(t, 0) != 0 {
            let g = (f - 1) as nat;
            lemma_unwrap_keeps_runs(body, t, g);
            let t2 = run_items(body, t, g)->0;
            lemma_unwrap_item_keeps_runs(item, t2, g);
            assert(unwrap_item(item) == ItemModel::Loop(unwrap_items(body)));
            assert(run_item(unwrap_item(item), t2, g) == run_item(item, t2, g));
        }
    }
}

/// Unwrapping nested loops keeps what a block does: a run that finishes gives the same
/// tape, with the same fuel or less.
pub proof fn lemma_unwrap_keeps_runs(items: Seq<ItemModel>, t: Tape, f: nat)
    requires
        run_items(items, t, f) is Some,
    ensures
        run_items(unwrap_items(items), t, f) == run_items(items, t, f),
    decreases f, items,
{
    if items.len() > 0 {
        lemma_unwrap_keeps_runs(items.drop_last(), t, f);
        let t1 = run_items(items.drop_last(), t, f)->0;
        lemma_unwrap_item_keeps_runs(items.last(), t1, f);
        lemma_run_items_push(unwrap_items(items.drop_last()), unwrap_item(items.last()), t, f);
    }
}

/// A block that ends by clearing the current cell leaves it zero.
proof fn lemma_ends_cleared(body: Seq<ItemModel>, t: Tape, f: nat)
    requires
        body.len() > 0,
        body.last() == ItemModel::Op(Op::Assign(0, 0)),
        run_items(body, t, f) is Some,
    ensures
        cell(run_items(body, t, f)->0, 0) == 0,
{
    lemma_wrap_byte(0u8);
    let t1 = run_items(body.drop_last(), t, f)->0;
    assert(run_items(body, t, f) == run_item(body.last(), t1, f));
    assert(run_items(body, t, f) == Some(op_tape(Op::Assign(0, 0), t1)));
    assert(op_tape(Op::Assign(0, 0), t1) == with_cell(t1, t1.ptr + 0, wrap(0)));
}

proof fn lemma_if_item_keeps_runs(item: ItemModel, t: Tape, f: nat)
    requires
        run_item(item, t, f) is Some,
    ensures
        run_item(if_item(item), t, f) == run_item(item, t, f),
    decreases f, item,
{
    match item {
        ItemModel::Loop(body) => {
            if body.len() > 0 && body.last() == ItemModel::Op(Op::Assign(0, 0)) {
                lemma_wrap_byte(0u8);
                if cell(t, 0) == 0 {
                    lemma_with_same_cell(t, t.ptr);
                    assert(run_item(item, t, f) == Some(t));
                    if body.len() == 1 {
                        assert(op_tape(Op::Assign(0, 0), t) == with_cell(t, t.ptr, (t.mem)(t.ptr)));
                    } else {
                        assert(run_item(if_item(item), t, f) == Some(t));
                    }
                } else {
                    let g = (f - 1) as nat;
                    let t2 = run_items(body, t, g)->0;
                    lemma_ends_cleared(body, t, g);
                    assert(run_item(item, t2, g) == Some(t2));
                    assert(run_item(item, t, f) == Some(t2));
                    if body.len() == 1 {
                        assert(body =~= Seq::<ItemModel>::empty().push(body[0]));
                        lemma_run_items_push(Seq::<ItemModel>::empty(), body[0], t, g);
                        assert(run_items(body, t, g) == Some(op_tape(Op::Assign(0, 0), t)));
                    } else {
                        lemma_run_items_mono(body, t, g, f);
                        lemma_if_keeps_runs(body, t, f);
                        assert(run_item(if_item(item), t, f) == run_items(if_items(body), t, f));
                    }
                }
            } else if cell(t, 0) != 0 {
                let g = (f - 1) as nat;
                lemma_if_keeps_runs(body, t, g);
                let t2 = run_items(body, t, g)->0;
                lemma_if_item_keeps_runs(item, t2, g);
                assert(if_item(item) == ItemModel::Loop(if_items(body)));
            }
        },
        ItemModel::If(body) => {
            if cell(t, 0) != 0 {
                lemma_if_keeps_runs(body, t, f);
            }
        },
        _ => {},
    }
}

/// Turning loops that end by clearing their cell into conditionals keeps what a block does:
/// a run that finishes gives the same tape, with the same fuel or less.
pub proof fn lemma_if_keeps_runs(items: Seq<ItemModel>, t: Tape, f: nat)
    requires
        run_items(items, t, f) is Some,
    ensures
        run_items(if_items(items), t, f) == run_items(items, t, f),
    decreases f, items,
{
    if items.len() > 0 {
        lemma_if_keeps_runs(items.drop_last(), t, f);
        let t1 = run_items(items.drop_last(), t, f)->0;
        lemma_if_item_keeps_runs(items.last(), t1, f);
        lemma_run_items_push(if_items(items.drop_last()), if_item(items.last()), t, f);
    }
}

proof fn lemma_remove_nop_item_keeps_runs(item: ItemModel, t: Tape, f: nat)
    requires
        run_item(item, t, f) is Some,
    ensures
        match item {
            ItemModel::Loop(body) => run_item(ItemModel::Loop(remove_nop_items(body)), t, f) == run_item(item, t, f),
            ItemModel::If(body) => run_item(ItemModel::If(remove_nop_items(body)), t, f) == run_item(item, t, f),
            ItemModel::Op(_) => true,
        },
    decreases f, item,
{
    match item {
        ItemModel::Loop(body) => {
            if cell(t, 0) != 0 {
                lemma_remove_nop_keeps_runs(body, t, (f - 1) as nat);
                let t2 = run_items(body, t, (f - 1) as nat)->0;
                lemma_remove_nop_item_keeps_runs(item, t2, (f - 1) as nat);
            }
        },
        ItemModel::If(body) => {
            if cell(t, 0) != 0 {
                lemma_remove_nop_keeps_runs(body, t, f);
            }
        },
        _ => {},
    }
}

/// Dropping operations that do nothing keeps what a block does.
pub proof fn lemma_remove_nop_keeps_runs(items: Seq<ItemModel>, t: Tape, f: nat)
    requires
        run_items(items, t, f) is Some,
    ensures
        run_items(remove_nop_items(items), t, f) == run_items(items, t, f),
    decreases f, items,
{
    if items.len() > 0 {
        let rest = items.drop_last();
        lemma_remove_nop_keeps_runs(rest, t, f);
        let t1 = run_items(rest, t, f)->0;
        lemma_remove_nop_item_keeps_runs(items.last(), t1, f);
        match items.last() {
            ItemModel::Op(op) => {
                if op_is_nop(op) {
                    lemma_nop_tape(op, t1);
                } else {
                    lemma_run_items_push(remove_nop_items(rest), items.last(), t, f);
                }
            },
            ItemModel::Loop(body) => {
                lemma_run_items_push(remove_nop_items(rest), ItemModel::Loop(remove_nop_items(body)), t, f);
            },
            ItemModel::If(body) => {
                lemma_run_items_push(remove_nop_items(rest), ItemModel::If(remove_nop_items(body)), t, f);
            },
        }
    }
}


/// Fusing the operations at the end keeps what a block does.
proof fn lemma_settle_keeps_runs(acc: Seq<ItemModel>, t: Tape, f: nat)
    requires
        run_items(acc, t, f) is Some,
    ensures
        run_items(settle(acc), t, f) == run_items(acc, t, f),
    decreases acc.len(),
{
    if acc.len() >= 2 && acc[acc.len() - 2] is Op && acc.last() is Op
        && op_sum_fits(acc[acc.len() - 2]->Op_0, acc.last()->Op_0)
        && op_sum(acc[acc.len() - 2]->Op_0, acc.last()->Op_0) is Some {
        let a = acc[acc.len() - 2]->Op_0;
        let b = acc.last()->Op_0;
        let c = op_sum(a, b)->0;
        let front = acc.take(acc.len() - 2);
        assert(acc.drop_last().drop_last() =~= front);
        assert(acc.drop_last().last() == acc[acc.len() - 2]);
        lemma_run_items_prefix(acc, t, f);
        lemma_run_items_prefix(acc.drop_last(), t, f);
        let t1 = run_items(front, t, f)->0;
        let t2 = run_item(ItemModel::Op(a), t1, f)->0;
        assert(run_items(acc, t, f) == run_item(ItemModel::Op(b), t2, f));
        assert(!(b is Lick));
        assert(run_item(ItemModel::Op(b), t2, f) == Some(op_tape(b, t2)));
        lemma_run_items_push(front, ItemModel::Op(c), t, f);
        if a is Lick {
            assert(op_is_nop(b));
            assert(c == a);
            lemma_nop_tape(b, t2);
        } else {
            assert(t2 == op_tape(a, t1));
            lemma_op_add_keeps_effect(a, b, t1);
            assert(!(c is Lick));
        }
        assert(run_items(front.push(ItemModel::Op(c)), t, f) == run_items(acc, t, f));
        lemma_settle_keeps_runs(front.push(ItemModel::Op(c)), t, f);
    }
}

proof fn lemma_merge_item_keeps_runs(item: ItemModel, t: Tape, f: nat)
    requires
        run_item(item, t, f) is Some,
    ensures
        run_item(merge_item(item), t, f) == run_item(item, t, f),
    decreases f, item,
{
    match item {
        ItemModel::Loop(body) => {
            if cell(t, 0) != 0 {
                let g = (f - 1) as nat;
                assert(Seq::<ItemModel>::empty() + body =~= body);
                lemma_merge_fold_keeps_runs(Seq::empty(), body, t, g);
                let t2 = run_items(body, t, g)->0;
                lemma_merge_item_keeps_runs(item, t2, g);
            }
        },
        ItemModel::If(body) => {
            if cell(t, 0) != 0 {
                assert(Seq::<ItemModel>::empty() + body =~= body);
                lemma_merge_fold_keeps_runs(Seq::empty(), body, t, f);
            }
        },
        _ => {},
    }
}

proof fn lemma_merge_fold_keeps_runs(start: Seq<ItemModel>, items: Seq<ItemModel>, t: Tape, f: nat)
    requires
        run_items(start + items, t, f) is Some,
    ensures
        run_items(merge_fold(start, items), t, f) == run_items(start + items, t, f),
    decreases f, items,
{
    if items.len() == 0 {
        assert(start + items =~= start);
    } else {
        let rest = items.drop_last();
        let last = items.last();
        assert((start + items).drop_last() =~= start + rest);
        assert((start + items).last() == last);
        lemma_run_items_prefix(start + items, t, f);
        lemma_merge_fold_keeps_runs(start, rest, t, f);
        let t1 = run_items(start + rest, t, f)->0;
        lemma_merge_item_keeps_runs(last, t1, f);
        lemma_run_items_push(merge_fold(start, rest), merge_item(last), t, f);
        lemma_settle_keeps_runs(merge_fold(start, rest).push(merge_item(last)), t, f);
    }
}

proof fn lemma_run_items_front(x: ItemModel, rest: Seq<ItemModel>, t: Tape, f: nat)
    requires
        run_item(x, t, f) is Some,
    ensures
        run_items(seq![x] + rest, t, f) == run_items(rest, run_item(x, t, f)->0, f),
    decreases rest.len(),
{
    if rest.len() == 0 {
        assert(seq![x] + rest =~= Seq::<ItemModel>::empty().push(x));
        lemma_run_items_push(Seq::<ItemModel>::empty(), x, t, f);
    } else {
        lemma_run_items_front(x, rest.drop_last(), t, f);
        assert((seq![x] + rest).drop_last() =~= seq![x] + rest.drop_last());
        assert((seq![x] + rest).last() == rest.last());
    }
}

/// Fusing operations keeps what a block does, loops and conditionals included: a run that
/// finishes gives the same tape with the same fuel. At the top level, where the fold starts
/// from a cleared current cell, this holds on tapes whose current cell is zero (memory
/// starts cleared).
pub proof fn lemma_merge_keeps_runs(items: Seq<ItemModel>, is_top_level: bool, t: Tape, f: nat)
    requires
        is_top_level ==> cell(t, 0) == 0,
        run_items(items, t, f) is Some,
    ensures
        run_items(merge_items(items, is_top_level), t, f) == run_items(items, t, f),
{
    if is_top_level {
        let x = ItemModel::Op(Op::Assign(0, 0));
        let start = seq![x];
        lemma_wrap_byte(0u8);
        lemma_with_same_cell(t, t.ptr);
        assert(op_tape(Op::Assign(0, 0), t) == t);
        assert(run_item(x, t, f) == Some(t));
        lemma_run_items_front(x, items, t, f);
        lemma_merge_fold_keeps_runs(start, items, t, f);
        let r = merge_fold(start, items);
        if r.len() > 0 && r[0] == x {
            assert(r =~= seq![x] + r.drop_first());
            lemma_run_items_front(x, r.drop_first(), t, f);
        }
    } else {
        assert(Seq::<ItemModel>::empty() + items =~= items);
        lemma_merge_fold_keeps_runs(Seq::empty(), items, t, f);
    }
}


/// What a multiplication table holds for the cell at `d` from the counter: the last entry
/// with that offset.
pub open spec fn entry_at(tab: Seq<(i32, OpType)>, d: int) -> Option<OpType>
    decreases tab.len(),
{
    if tab.len() == 0 {
        None
    } else if tab.last().0 == d {
        Some(tab.last().1)
    } else {
        entry_at(tab.drop_last(), d)
    }
}

/// What one round of a loop does to a cell, by its table entry.
pub open spec fn entry_effect(e: Option<OpType>, c: u8) -> u8 {
    match e {
        None => c,
        Some(OpType::Mul(v)) => wrap(c + v),
        Some(OpType::Assign(v)) => wrap(v as int),
    }
}

/// The tape after one round of a loop body whose table is `tab`.
pub open spec fn round_tape(tab: Seq<(i32, OpType)>, t: Tape) -> Tape {
    Tape { mem: |i: int| entry_effect(entry_at(tab, i - t.ptr), (t.mem)(i)), ..t }
}

proof fn lemma_entry_at_none(tab: Seq<(i32, OpType)>, d: int)
    requires
        forall|j: int| 0 <= j < tab.len() ==> tab[j].0 != d,
    ensures
        entry_at(tab, d) is None,
    decreases tab.len(),
{
    if tab.len() > 0 {
        assert(tab[tab.len() - 1].0 != d);
        lemma_entry_at_none(tab.drop_last(), d);
    }
}

proof fn lemma_entry_at_index(tab: Seq<(i32, OpType)>, j: int)
    requires
        table_sorted(tab),
        0 <= j < tab.len(),
    ensures
        entry_at(tab, tab[j].0 as int) == Some(tab[j].1),
    decreases tab.len(),
{
    if j < tab.len() - 1 {
        assert(tab[j].0 < tab[tab.len() - 1].0);
        assert(table_sorted(tab.drop_last()));
        assert(tab.drop_last()[j] == tab[j]);
        lemma_entry_at_index(tab.drop_last(), j);
    }
}

proof fn lemma_table_pos_bounds(t: Seq<(i32, OpType)>, key: i32)
    ensures
        0 <= table_pos(t, key) <= t.len(),
        forall|j: int| 0 <= j < table_pos(t, key) ==> t[j].0 < key,
        table_pos(t, key) < t.len() ==> t[table_pos(t, key)].0 >= key,
    decreases t.len(),
{
    if t.len() > 0 && t[0].0 < key {
        lemma_table_pos_bounds(t.drop_first(), key);
        assert forall|j: int| 0 <= j < table_pos(t, key) implies t[j].0 < key by {
            if j > 0 {
                assert(t[j] == t.drop_first()[j - 1]);
            }
        }
        if table_pos(t, key) < t.len() {
            assert(t[table_pos(t, key)] == t.drop_first()[table_pos(t, key) - 1]);
        }
    }
}

/// What a table holds at `d` after `v` is added at `key`.
pub open spec fn entry_plus(e: Option<OpType>, v: i32) -> Option<OpType> {
    match e {
        None => Some(OpType::Mul(v)),
        Some(x) => op_type_plus(x, v),
    }
}

proof fn lemma_entry_at_sorted(tab: Seq<(i32, OpType)>, d: int)
    requires
        table_sorted(tab),
    ensures
        entry_at(tab, d) is Some <==> exists|j: int| 0 <= j < tab.len() && tab[j].0 == d,
        forall|j: int| 0 <= j < tab.len() && tab[j].0 == d ==> entry_at(tab, d) == Some(#[trigger] tab[j].1),
{
    if exists|j: int| 0 <= j < tab.len() && tab[j].0 == d {
        let j = choose|j: int| 0 <= j < tab.len() && tab[j].0 == d;
        lemma_entry_at_index(tab, j);
    } else {
        lemma_entry_at_none(tab, d);
    }
    assert forall|j: int| 0 <= j < tab.len() && tab[j].0 == d implies entry_at(tab, d) == Some(#[trigger] tab[j].1) by {
        lemma_entry_at_index(tab, j);
    }
}

/// Adding at an offset keeps a table ordered and changes only that offset's entry.
proof fn lemma_table_add(tab: Seq<(i32, OpType)>, key: i32, v: i32)
    requires
        table_sorted(tab),
        table_add(tab, key, v) is Some,
    ensures
        table_sorted(table_add(tab, key, v)->0),
        entry_plus(entry_at(tab, key as int), v) is Some,
        forall|d: int| #[trigger] entry_at(table_add(tab, key, v)->0, d)
            == if d == key { entry_plus(entry_at(tab, key as int), v) } else { entry_at(tab, d) },
{
    let p = table_pos(tab, key);
    lemma_table_pos_bounds(tab, key);
    let n = table_add(tab, key, v)->0;
    if p < tab.len() && tab[p].0 == key {
        let x = op_type_plus(tab[p].1, v)->0;
        assert(n == tab.update(p, (key, x)));
        assert(table_sorted(n)) by {
            assert forall|i: int, j: int| 0 <= i < j < n.len() implies n[i].0 < n[j].0 by {
                assert(tab[i].0 < tab[j].0);
            }
        }
        lemma_entry_at_sorted(tab, key as int);
        assert forall|d: int| #[trigger] entry_at(n, d)
            == if d == key { entry_plus(entry_at(tab, key as int), v) } else { entry_at(tab, d) } by {
            lemma_entry_at_sorted(n, d);
            lemma_entry_at_sorted(tab, d);
            if d == key {
                assert(n[p].0 == d);
                assert(entry_at(n, d) == Some(n[p].1));
                assert(entry_at(tab, d) == Some(tab[p].1));
            } else {
                if exists|j: int| 0 <= j < tab.len() && tab[j].0 == d {
                    let j = choose|j: int| 0 <= j < tab.len() && tab[j].0 == d;
                    assert(n[j] == tab[j]);
                    assert(entry_at(n, d) == Some(n[j].1));
                    assert(entry_at(tab, d) == Some(tab[j].1));
                } else {
                    assert forall|j: int| 0 <= j < n.len() implies n[j].0 != d by {
                        assert(tab[j].0 != d);
                    }
                }
            }
        }
    } else {
        let e = (key, OpType::Mul(v));
        assert(n == tab.insert(p, e));
        assert(forall|j: int| 0 <= j < p ==> n[j] == tab[j]);
        assert(n[p] == e);
        assert(forall|j: int| p < j < n.len() ==> n[j] == tab[j - 1]);
        assert(table_sorted(n)) by {
            assert forall|i: int, j: int| 0 <= i < j < n.len() implies n[i].0 < n[j].0 by {
                if j < p {
                } else if j == p {
                } else if i == p {
                    assert(tab[p].0 <= tab[j - 1].0 || j - 1 == p);
                } else if i < p {
                    assert(tab[p].0 <= tab[j - 1].0 || j - 1 == p);
                } else {
                    assert(tab[i - 1].0 < tab[j - 1].0);
                }
            }
        }
        lemma_entry_at_none(tab, key as int);
        assert forall|d: int| #[trigger] entry_at(n, d)
            == if d == key { entry_plus(entry_at(tab, key as int), v) } else { entry_at(tab, d) } by {
            lemma_entry_at_sorted(n, d);
            lemma_entry_at_sorted(tab, d);
            if d == key {
                assert(n[p].0 == d);
                assert(entry_at(n, d) == Some(n[p].1));
            } else {
                if exists|j: int| 0 <= j < tab.len() && tab[j].0 == d {
                    let j = choose|j: int| 0 <= j < tab.len() && tab[j].0 == d;
                    assert(entry_at(tab, d) == Some(tab[j].1));
                    if j < p {
                        assert(n[j] == tab[j]);
                        assert(entry_at(n, d) == Some(n[j].1));
                    } else {
                        assert(n[j + 1] == tab[j]);
                        assert(entry_at(n, d) == Some(n[j + 1].1));
                    }
                } else {
                    assert forall|j: int| 0 <= j < n.len() implies n[j].0 != d by {
                        if j < p {
                            assert(tab[j].0 != d);
                        } else if j > p {
                            assert(tab[j - 1].0 != d);
                        }
                    }
                }
            }
        }
    }
}

/// Setting an offset keeps a table ordered and changes only that offset's entry.
proof fn lemma_table_assign(tab: Seq<(i32, OpType)>, key: i32, v: i32)
    requires
        table_sorted(tab),
    ensures
        table_sorted(table_assign(tab, key, v)),
        forall|d: int| #[trigger] entry_at(table_assign(tab, key, v), d)
            == if d == key { Some(OpType::Assign(v)) } else { entry_at(tab, d) },
{
    let p = table_pos(tab, key);
    lemma_table_pos_bounds(tab, key);
    let n = table_assign(tab, key, v);
    let e = (key, OpType::Assign(v));
    if p < tab.len() && tab[p].0 == key {
        assert(n == tab.update(p, e));
        assert(table_sorted(n)) by {
            assert forall|i: int, j: int| 0 <= i < j < n.len() implies n[i].0 < n[j].0 by {
                assert(tab[i].0 < tab[j].0);
            }
        }
        assert forall|d: int| #[trigger] entry_at(n, d)
            == if d == key { Some(OpType::Assign(v)) } else { entry_at(tab, d) } by {
            lemma_entry_at_sorted(n, d);
            lemma_entry_at_sorted(tab, d);
            if d == key {
                assert(entry_at(n, d) == Some(n[p].1));
            } else {
                if exists|j: int| 0 <= j < tab.len() && tab[j].0 == d {
                    let j = choose|j: int| 0 <= j < tab.len() && tab[j].0 == d;
                    assert(n[j] == tab[j]);
                    assert(entry_at(n, d) == Some(n[j].1));
                    assert(entry_at(tab, d) == Some(tab[j].1));
                } else {
                    assert forall|j: int| 0 <= j < n.len() implies n[j].0 != d by {
                        assert(tab[j].0 != d);
                    }
                }
            }
        }
    } else {
        assert(n == tab.insert(p, e));
        assert(forall|j: int| 0 <= j < p ==> n[j] == tab[j]);
        assert(n[p] == e);
        assert(forall|j: int| p < j < n.len() ==> n[j] == tab[j - 1]);
        assert(table_sorted(n)) by {
            assert forall|i: int, j: int| 0 <= i < j < n.len() implies n[i].0 < n[j].0 by {
                if j < p {
                } else if j == p {
                } else if i == p {
                    assert(tab[p].0 <= tab[j - 1].0 || j - 1 == p);
                } else if i < p {
                    assert(tab[p].0 <= tab[j - 1].0 || j - 1 == p);
                } else {
                    assert(tab[i - 1].0 < tab[j - 1].0);
                }
            }
        }
        assert forall|d: int| #[trigger] entry_at(n, d)
            == if d == key { Some(OpType::Assign(v)) } else { entry_at(tab, d) } by {
            lemma_entry_at_sorted(n, d);
            lemma_entry_at_sorted(tab, d);
            if d == key {
                assert(entry_at(n, d) == Some(n[p].1));
            } else {
                if exists|j: int| 0 <= j < tab.len() && tab[j].0 == d {
                    let j = choose|j: int| 0 <= j < tab.len() && tab[j].0 == d;
                    assert(entry_at(tab, d) == Some(tab[j].1));
                    if j < p {
                        assert(n[j] == tab[j]);
                        assert(entry_at(n, d) == Some(n[j].1));
                    } else {
                        assert(n[j + 1] == tab[j]);
                        assert(entry_at(n, d) == Some(n[j + 1].1));
                    }
                } else {
                    assert forall|j: int| 0 <= j < n.len() implies n[j].0 != d by {
                        if j < p {
                            assert(tab[j].0 != d);
                        } else if j > p {
                            assert(tab[j - 1].0 != d);
                        }
                    }
                }
            }
        }
    }
}

/// The effect of adding after an entry is the effect of the raised entry.
proof fn lemma_entry_plus_effect(e: Option<OpType>, v: i32, c: u8)
    requires
        entry_plus(e, v) is Some,
    ensures
        entry_effect(entry_plus(e, v), c) == wrap(entry_effect(e, c) + v),
{
    match e {
        None => {},
        Some(OpType::Mul(y)) => {
            lemma_wrap_add(c + y, v as int);
        },
        Some(OpType::Assign(y)) => {
            lemma_wrap_add(y as int, v as int);
        },
    }
}

/// Running a loop body that reads into a table: the pointer moves by the body's offset and
/// each cell changes by its entry.
proof fn lemma_scan_runs(body: Seq<ItemModel>, t: Tape, f: nat)
    requires
        scan(body) is Some,
    ensures
        table_sorted((scan(body)->0).0),
        run_items(body, t, f) == Some(Tape { ptr: t.ptr + (scan(body)->0).1, ..round_tape((scan(body)->0).0, t) }),
    decreases body.len(),
{
    if body.len() == 0 {
        assert(table_sorted(Seq::<(i32, OpType)>::empty()));
        assert(round_tape(Seq::empty(), t).mem =~= t.mem);
        assert(Tape { ptr: t.ptr + 0, ..round_tape(Seq::empty(), t) } =~= t);
    } else {
        let rest = body.drop_last();
        let last = body.last();
        assert(scan(body) == scan_step(scan(rest), last));
        assert(scan(rest) is Some);
        lemma_scan_runs(rest, t, f);
        let (tab0, p0) = scan(rest)->0;
        let t0 = Tape { ptr: t.ptr + p0, ..round_tape(tab0, t) };
        let (tab, p) = scan(body)->0;
        let r = Tape { ptr: t.ptr + p, ..round_tape(tab, t) };
        match last {
            ItemModel::Op(Op::Add(v, of)) => {
                let key = (p0 + of) as i32;
                lemma_table_add(tab0, key, v);
                assert(run_item(last, t0, f) == Some(op_tape(Op::Add(v, of), t0)));
                let a = op_tape(Op::Add(v, of), t0);
                assert forall|i: int| #[trigger] (a.mem)(i) == (r.mem)(i) by {
                    if i - t.ptr == key {
                        lemma_entry_plus_effect(entry_at(tab0, key as int), v, (t.mem)(i));
                    }
                }
                assert(a.mem =~= r.mem);
                assert(a =~= r);
            },
            ItemModel::Op(Op::MovePtr(of)) => {
                assert(run_item(last, t0, f) == Some(op_tape(Op::MovePtr(of), t0)));
                assert(op_tape(Op::MovePtr(of), t0) =~= r);
            },
            ItemModel::Op(Op::Assign(v, of)) => {
                let key = (p0 + of) as i32;
                lemma_table_assign(tab0, key, v);
                assert(run_item(last, t0, f) == Some(op_tape(Op::Assign(v, of), t0)));
                let a = op_tape(Op::Assign(v, of), t0);
                assert forall|i: int| #[trigger] (a.mem)(i) == (r.mem)(i) by {
                }
                assert(a.mem =~= r.mem);
                assert(a =~= r);
            },
            _ => {
                assert(false);
            },
        }
    }
}

/// What a multiplication loop with table `tab` leaves: nothing changes when the counter is
/// zero; otherwise each cell with an entry is raised by the counter times its amount, or set.
pub open spec fn mul_loop_tape(tab: Seq<(i32, OpType)>, t: Tape) -> Tape {
    if cell(t, 0) == 0 {
        t
    } else {
        Tape {
            mem: |i: int| match entry_at(tab, i - t.ptr) {
                None => (t.mem)(i),
                Some(OpType::Mul(v)) => wrap((t.mem)(i) + cell(t, 0) * v),
                Some(OpType::Assign(v)) => wrap(v as int),
            },
            ..t
        }
    }
}

proof fn lemma_mul_table_counter(body: Seq<ItemModel>)
    requires
        mul_table(body) is Some,
    ensures
        scan(body) is Some,
        (scan(body)->0).1 == 0,
        (scan(body)->0).0 == mul_table(body)->0,
        entry_at(mul_table(body)->0, 0) == Some(OpType::Mul(-1i32)),
        table_sorted(mul_table(body)->0),
{
    let tab = mul_table(body)->0;
    lemma_scan_runs(body, Tape { ptr: 0, mem: |i: int| 0u8, out: Seq::empty(), input: Seq::empty() }, 0);
    let p = table_pos(tab, 0);
    lemma_table_pos_bounds(tab, 0);
    assert(table_lookup(tab, 0) == Some(OpType::Mul(-1i32)));
    lemma_entry_at_index(tab, p);
}

/// A multiplication loop that finishes leaves what `mul_loop_tape` says.
proof fn lemma_mul_loop_runs(body: Seq<ItemModel>, t: Tape, f: nat)
    requires
        mul_table(body) is Some,
        run_item(ItemModel::Loop(body), t, f) is Some,
    ensures
        run_item(ItemModel::Loop(body), t, f) == Some(mul_loop_tape(mul_table(body)->0, t)),
    decreases f,
{
    let tab = mul_table(body)->0;
    lemma_mul_table_counter(body);
    let c0 = cell(t, 0);
    if c0 != 0 {
        let g = (f - 1) as nat;
        lemma_scan_runs(body, t, g);
        let t2 = round_tape(tab, t);
        assert(Tape { ptr: t.ptr + 0, ..t2 } =~= t2);
        assert(run_items(body, t, g) == Some(t2));
        assert(cell(t2, 0) == wrap(c0 + (-1i32)));
        assert(cell(t2, 0) == c0 - 1);
        lemma_mul_loop_runs(body, t2, g);
        let a = mul_loop_tape(tab, t2);
        let b = mul_loop_tape(tab, t);
        assert forall|i: int| #[trigger] (a.mem)(i) == (b.mem)(i) by {
            let m = (t.mem)(i);
            match entry_at(tab, i - t.ptr) {
                Some(OpType::Mul(v)) => {
                    if c0 - 1 != 0 {
                        lemma_wrap_add(m + v, (c0 - 1) * v);
                        assert(m + v + (c0 - 1) * v == m + c0 * v) by (nonlinear_arith);
                    } else {
                        assert(c0 * v == v);
                    }
                },
                _ => {},
            }
        }
        assert(a.mem =~= b.mem);
        assert(a =~= b);
    }
}

/// The tape after the operations emitted for the table `tab`, with `c0` the counter.
pub open spec fn emitted_tape(tab: Seq<(i32, OpType)>, t: Tape) -> Tape {
    Tape {
        mem: |i: int| if i == t.ptr {
            (t.mem)(i)
        } else {
            match entry_at(tab, i - t.ptr) {
                None => (t.mem)(i),
                Some(OpType::Mul(v)) => wrap((t.mem)(i) + cell(t, 0) * v),
                Some(OpType::Assign(v)) => wrap(v as int),
            }
        },
        ..t
    }
}

proof fn lemma_run_items_append(a: Seq<ItemModel>, b: Seq<ItemModel>, t: Tape, f: nat)
    requires
        run_items(a, t, f) is Some,
    ensures
        run_items(a + b, t, f) == run_items(b, run_items(a, t, f)->0, f),
    decreases b.len(),
{
    if b.len() == 0 {
        assert(a + b =~= a);
    } else {
        lemma_run_items_append(a, b.drop_last(), t, f);
        assert((a + b).drop_last() =~= a + b.drop_last());
        assert((a + b).last() == b.last());
    }
}

proof fn lemma_emit_runs(tab: Seq<(i32, OpType)>, t: Tape, f: nat)
    requires
        table_sorted(tab),
        forall|j: int| 0 <= j < tab.len() && tab[j].1 is Assign ==> tab[j].0 != i32::MIN,
    ensures
        run_items(emit(tab), t, f) == Some(emitted_tape(tab, t)),
    decreases tab.len(),
{
    if tab.len() == 0 {
        assert(emitted_tape(tab, t).mem =~= t.mem);
        assert(emitted_tape(tab, t) =~= t);
    } else {
        let front = tab.drop_last();
        let e = tab.last();
        let k = e.0;
        assert(table_sorted(front));
        assert forall|j: int| 0 <= j < front.len() && front[j].1 is Assign implies front[j].0 != i32::MIN by {
            assert(front[j] == tab[j]);
        }
        lemma_emit_runs(front, t, f);
        let t1 = emitted_tape(front, t);
        lemma_run_items_append(emit(front), entry_ops(e), t, f);
        assert forall|j: int| 0 <= j < front.len() implies front[j].0 != k by {
            assert(tab[j].0 < tab[tab.len() - 1].0);
        }
        lemma_entry_at_none(front, k as int);
        let r = emitted_tape(tab, t);
        if k == 0 {
            assert(r.mem =~= t1.mem);
            assert(r =~= t1);
        } else {
            match e.1 {
                OpType::Mul(v) => {
                    let op = Op::Mul(k, v, 0);
                    assert(entry_ops(e) =~= Seq::<ItemModel>::empty().push(ItemModel::Op(op)));
                    lemma_run_items_push(Seq::<ItemModel>::empty(), ItemModel::Op(op), t1, f);
                    let a = op_tape(op, t1);
                    assert(cell(t1, 0) == cell(t, 0));
                    assert(a.mem =~= r.mem);
                    assert(a =~= r);
                },
                OpType::Assign(v) => {
                    assert(tab[tab.len() - 1].1 is Assign);
                    let o1 = Op::MovePtr(k);
                    let o2 = Op::Assign(v, 0);
                    let o3 = Op::MovePtr((-k) as i32);
                    let s1 = Seq::<ItemModel>::empty().push(ItemModel::Op(o1));
                    let s2 = s1.push(ItemModel::Op(o2));
                    assert(entry_ops(e) =~= s2.push(ItemModel::Op(o3)));
                    lemma_run_items_push(Seq::<ItemModel>::empty(), ItemModel::Op(o1), t1, f);
                    lemma_run_items_push(s1, ItemModel::Op(o2), t1, f);
                    lemma_run_items_push(s2, ItemModel::Op(o3), t1, f);
                    let a = op_tape(o3, op_tape(o2, op_tape(o1, t1)));
                    assert((-k) as i32 == -k);
                    assert(a.mem =~= r.mem);
                    assert(a =~= r);
                },
            }
        }
    }
}

/// A multiplication loop and the conditional that replaces it leave the same tape.
proof fn lemma_mul_item_keeps_runs(item: ItemModel, t: Tape, f: nat)
    requires
        run_item(item, t, f) is Some,
    ensures
        run_item(mul_item(item), t, f) == run_item(item, t, f),
    decreases f, item,
{
    match item {
        ItemModel::Loop(body) => {
            match mul_table(body) {
                Some(tab) => {
                    lemma_mul_loop_runs(body, t, f);
                    lemma_mul_table_counter(body);
                    if cell(t, 0) != 0 {
                        lemma_emit_runs(tab, t, f);
                        let a0 = Op::Assign(0, 0);
                        lemma_run_items_push(emit(tab), ItemModel::Op(a0), t, f);
                        let e = emitted_tape(tab, t);
                        let a = op_tape(a0, e);
                        let b = mul_loop_tape(tab, t);
                        lemma_wrap_byte(0u8);
                        assert(wrap(cell(t, 0) + cell(t, 0) * (-1i32)) == 0);
                        assert(a.mem =~= b.mem);
                        assert(a =~= b);
                    }
                },
                None => {
                    if cell(t, 0) != 0 {
                        let g = (f - 1) as nat;
                        lemma_mul_keeps_runs(body, t, g);
                        let t2 = run_items(body, t, g)->0;
                        lemma_mul_item_keeps_runs(item, t2, g);
                    }
                },
            }
        },
        ItemModel::If(body) => {
            if cell(t, 0) != 0 {
                lemma_mul_keeps_runs(body, t, f);
            }
        },
        _ => {},
    }
}

/// Turning multiplication loops into `Mul` operations keeps what a block does: a run that
/// finishes gives the same tape with the same fuel.
pub proof fn lemma_mul_keeps_runs(items: Seq<ItemModel>, t: Tape, f: nat)
    requires
        run_items(items, t, f) is Some,
    ensures
        run_items(mul_items(items), t, f) == run_items(items, t, f),
    decreases f, items,
{
    if items.len() > 0 {
        lemma_mul_keeps_runs(items.drop_last(), t, f);
        let t1 = run_items(items.drop_last(), t, f)->0;
        lemma_mul_item_keeps_runs(items.last(), t1, f);
        lemma_run_items_push(mul_items(items.drop_last()), mul_item(items.last()), t, f);
    }
}

/// The offsets that folding pointer moves forms, starting from `offset`, stay within `i32`.
pub open spec fn offsets_fit(items: Seq<ItemModel>, offset: i32) -> bool
    decreases items, 0int,
{
    if items.len() == 0 {
        true
    } else {
        let rest = items.drop_first();
        match items[0] {
            ItemModel::Op(Op::MovePtr(x)) => fits_i32(offset + x) && offsets_fit(rest, (offset + x) as i32),
            ItemModel::Op(op) => (match op_offset(op) {
                Some(o) => fits_i32(o + offset),
                None => true,
            }) && offsets_fit(rest, offset),
            ItemModel::Loop(body) => offsets_fit(body, 0) && offsets_fit(rest, 0),
            ItemModel::If(body) => offsets_fit(body, 0) && offsets_fit(rest, 0),
        }
    }
}

/// The tape with its pointer moved by `d`.
pub open spec fn moved(t: Tape, d: int) -> Tape {
    Tape { ptr: t.ptr + d, ..t }
}

/// An operation whose offset is raised by `d` does, at a pointer, what the operation does at
/// the pointer moved by `d`.
proof fn lemma_shifted_op(op: Op, d: i32, t: Tape)
    requires
        !(op is Lick),
        !(op is MovePtr),
        op_offset(op) matches Some(o) ==> fits_i32(o + d),
    ensures
        op_tape(op, moved(t, d as int)) == moved(op_tape(shifted(op, d), t), d as int),
{
    let u = moved(t, d as int);
    let a = op_tape(op, u);
    let b = moved(op_tape(shifted(op, d), t), d as int);
    match op {
        Op::Add(x, o) => {
            assert(shifted(op, d) == Op::Add(x, (o + d) as i32));
            assert(a.mem =~= b.mem);
        },
        Op::Mul(to, x, o) => {
            assert(shifted(op, d) == Op::Mul(to, x, (o + d) as i32));
            assert(a.mem =~= b.mem);
        },
        Op::Assign(x, o) => {
            assert(shifted(op, d) == Op::Assign(x, (o + d) as i32));
            assert(a.mem =~= b.mem);
        },
        Op::Out(o) => {
            assert(shifted(op, d) == Op::Out((o + d) as i32));
        },
        Op::Input(o) => {
            assert(shifted(op, d) == Op::Input((o + d) as i32));
            assert(a.mem =~= b.mem);
        },
        _ => {},
    }
    assert(a =~= b);
}

proof fn lemma_offset_item_keeps_runs(item: ItemModel, t: Tape, f: nat)
    requires
        item_lick_free(item),
        match item {
            ItemModel::Loop(body) => offsets_fit(body, 0),
            ItemModel::If(body) => offsets_fit(body, 0),
            _ => true,
        },
        run_item(item, t, f) is Some,
    ensures
        match item {
            ItemModel::Loop(body) => run_item(ItemModel::Loop(offset_items(body)), t, f) == run_item(item, t, f),
            ItemModel::If(body) => run_item(ItemModel::If(offset_items(body)), t, f) == run_item(item, t, f),
            _ => true,
        },
    decreases f, item, 1int,
{
    match item {
        ItemModel::Loop(body) => {
            if cell(t, 0) != 0 {
                let g = (f - 1) as nat;
                assert(moved(t, 0) =~= t);
                lemma_offset_fold_keeps_runs(body, 0, t, g);
                let t2 = run_items(body, t, g)->0;
                lemma_offset_item_keeps_runs(item, t2, g);
            }
        },
        ItemModel::If(body) => {
            if cell(t, 0) != 0 {
                assert(moved(t, 0) =~= t);
                lemma_offset_fold_keeps_runs(body, 0, t, f);
            }
        },
        _ => {},
    }
}

proof fn lemma_offset_fold_keeps_runs(items: Seq<ItemModel>, offset: i32, t: Tape, f: nat)
    requires
        lick_free(items),
        offsets_fit(items, offset),
        run_items(items, moved(t, offset as int), f) is Some,
    ensures
        run_items(offset_fold(items, offset), t, f) == run_items(items, moved(t, offset as int), f),
    decreases f, items, 0int,
{
    let u = moved(t, offset as int);
    if items.len() == 0 {
        let m = ItemModel::Op(Op::MovePtr(offset));
        assert(seq![m] =~= Seq::<ItemModel>::empty().push(m));
        lemma_run_items_push(Seq::<ItemModel>::empty(), m, t, f);
    } else {
        let x = items[0];
        let rest = items.drop_first();
        assert(items =~= seq![x] + rest);
        lemma_lick_free_front(items);
        assert(run_item(x, u, f) is Some) by {
            lemma_run_items_first(x, rest, u, f);
        }
        lemma_run_items_front(x, rest, u, f);
        let u1 = run_item(x, u, f)->0;
        match x {
            ItemModel::Op(Op::MovePtr(m)) => {
                let o2 = (offset + m) as i32;
                assert(add_wrapping(offset, m) == o2);
                assert(u1 =~= moved(t, o2 as int));
                lemma_offset_fold_keeps_runs(rest, o2, t, f);
            },
            ItemModel::Op(op) => {
                let sop = shifted(op, offset);
                let t1 = op_tape(sop, t);
                lemma_shifted_op(op, offset, t);
                assert(u1 == moved(t1, offset as int));
                assert(!(sop is Lick)) by {
                    match op_offset(op) {
                        Some(o) => {},
                        None => {},
                    }
                }
                lemma_run_items_front(ItemModel::Op(sop), offset_fold(rest, offset), t, f);
                lemma_offset_fold_keeps_runs(rest, offset, t1, f);
            },
            ItemModel::Loop(body) => {
                let m = ItemModel::Op(Op::MovePtr(offset));
                let l = ItemModel::Loop(offset_items(body));
                assert(seq![m, l] + offset_fold(rest, 0) =~= seq![m] + (seq![l] + offset_fold(rest, 0)));
                lemma_run_items_front(m, seq![l] + offset_fold(rest, 0), t, f);
                assert(op_tape(Op::MovePtr(offset), t) =~= u);
                lemma_offset_item_keeps_runs(x, u, f);
                lemma_run_items_front(l, offset_fold(rest, 0), u, f);
                assert(moved(u1, 0) =~= u1);
                lemma_offset_fold_keeps_runs(rest, 0, u1, f);
            },
            ItemModel::If(body) => {
                let m = ItemModel::Op(Op::MovePtr(offset));
                let l = ItemModel::If(offset_items(body));
                assert(seq![m, l] + offset_fold(rest, 0) =~= seq![m] + (seq![l] + offset_fold(rest, 0)));
                lemma_run_items_front(m, seq![l] + offset_fold(rest, 0), t, f);
                assert(op_tape(Op::MovePtr(offset), t) =~= u);
                lemma_offset_item_keeps_runs(x, u, f);
                lemma_run_items_front(l, offset_fold(rest, 0), u, f);
                assert(moved(u1, 0) =~= u1);
                lemma_offset_fold_keeps_runs(rest, 0, u1, f);
            },
        }
    }
}

proof fn lemma_run_items_first(x: ItemModel, rest: Seq<ItemModel>, t: Tape, f: nat)
    requires
        run_items(seq![x] + rest, t, f) is Some,
    ensures
        run_item(x, t, f) is Some,
    decreases rest.len(),
{
    if rest.len() == 0 {
        assert(seq![x] + rest =~= Seq::<ItemModel>::empty().push(x));
        lemma_run_items_push(Seq::<ItemModel>::empty(), x, t, f);
    } else {
        assert((seq![x] + rest).drop_last() =~= seq![x] + rest.drop_last());
        lemma_run_items_first(x, rest.drop_last(), t, f);
    }
}

proof fn lemma_lick_free_front(items: Seq<ItemModel>)
    requires
        lick_free(items),
        items.len() > 0,
    ensures
        item_lick_free(items[0]),
        lick_free(items.drop_first()),
    decreases items.len(),
{
    crate::opt::lemma_lick_free_index(items, 0);
    if items.len() > 1 {
        lemma_lick_free_front(items.drop_last());
        assert(items.drop_last().drop_first() =~= items.drop_first().drop_last());
        assert(items.drop_first().last() == items.last());
    } else {
        assert(items.drop_first() =~= Seq::<ItemModel>::empty());
    }
}

/// Folding pointer moves into offsets keeps what a block without scans does, where the
/// offsets formed stay within `i32`: a run that finishes gives the same tape with the same
/// fuel.
pub proof fn lemma_offset_keeps_runs(items: Seq<ItemModel>, t: Tape, f: nat)
    requires
        lick_free(items),
        offsets_fit(items, 0),
        run_items(items, t, f) is Some,
    ensures
        run_items(offset_items(items), t, f) == run_items(items, t, f),
{
    assert(moved(t, 0) =~= t);
    lemma_offset_fold_keeps_runs(items, 0, t, f);
}

/// Lowering a run by `min` forms offsets within `i32`, and so does the move back.
pub open spec fn flush_fits(ops: Seq<Op>, min: i32) -> bool {
    min < 0 ==> min != i32::MIN && forall|k: int| 0 <= k < ops.len()
        ==> (#[trigger] op_offset(ops[k]) matches Some(o) ==> fits_i32(o - min))
}

/// Every run that `nonneg_fold` flushes, from the state given, can be lowered within `i32`.
pub open spec fn nonneg_fits(items: Seq<ItemModel>, ops: Seq<Op>, offset: i32, min: i32) -> bool
    decreases items, 0int,
{
    if items.len() == 0 {
        flush_fits(ops, min)
    } else {
        let rest = items.drop_first();
        match items[0] {
            ItemModel::Op(op) => nonneg_fits(
                rest,
                ops.push(op),
                match op {
                    Op::MovePtr(m) => add_wrapping(offset, m),
                    _ => offset,
                },
                match op_offset(op) {
                    Some(o) => min_i32(min, add_wrapping(o, offset)),
                    None => min,
                },
            ),
            ItemModel::Loop(body) => flush_fits(ops, min) && nonneg_fits(body, Seq::empty(), 0, 0)
                && nonneg_fits(rest, Seq::empty(), 0, 0),
            ItemModel::If(body) => flush_fits(ops, min) && nonneg_fits(body, Seq::empty(), 0, 0)
                && nonneg_fits(rest, Seq::empty(), 0, 0),
        }
    }
}

proof fn lemma_run_items_split(a: Seq<ItemModel>, b: Seq<ItemModel>, t: Tape, f: nat)
    requires
        run_items(a + b, t, f) is Some,
    ensures
        run_items(a, t, f) is Some,
        run_items(a + b, t, f) == run_items(b, run_items(a, t, f)->0, f),
    decreases b.len(),
{
    if b.len() == 0 {
        assert(a + b =~= a);
    } else {
        assert((a + b).drop_last() =~= a + b.drop_last());
        assert((a + b).last() == b.last());
        lemma_run_items_split(a, b.drop_last(), t, f);
    }
}

/// A block of operations only always finishes, with the tape `ops_tape` gives.
proof fn lemma_straight_runs(items: Seq<ItemModel>, t: Tape, f: nat)
    requires
        straight(items),
    ensures
        run_items(items, t, f) == Some(ops_tape(items, t)),
    decreases items.len(),
{
    if items.len() > 0 {
        lemma_straight_prefix(items);
        lemma_straight_runs(items.drop_last(), t, f);
        assert(items[items.len() - 1] matches ItemModel::Op(op) && !(op is Lick));
        let op = items.last()->Op_0;
        let t1 = ops_tape(items.drop_last(), t);
        assert(run_item(items.last(), t1, f) == Some(op_tape(op, t1)));
        assert(ops_tape(items, t) == op_tape(op, t1));
    }
}

proof fn lemma_straight_prefix(items: Seq<ItemModel>)
    requires
        straight(items),
        items.len() > 0,
    ensures
        straight(items.drop_last()),
{
    assert forall|k: int| 0 <= k < items.drop_last().len()
        implies (#[trigger] items.drop_last()[k] matches ItemModel::Op(op) && !(op is Lick)) by {
        assert(items.drop_last()[k] == items[k]);
    }
}

/// Operations lowered by `min`, run from the pointer moved by `min`, do what the operations do.
proof fn lemma_lowered_runs(ops: Seq<Op>, min: i32, t: Tape)
    requires
        forall|k: int| 0 <= k < ops.len() ==> !(#[trigger] ops[k] is Lick),
        forall|k: int| 0 <= k < ops.len() ==> (#[trigger] op_offset(ops[k]) matches Some(o) ==> fits_i32(o - min)),
    ensures
        straight(ops.map_values(|op: Op| ItemModel::Op(lowered(op, min)))),
        straight(ops_model(ops)),
        ops_tape(ops.map_values(|op: Op| ItemModel::Op(lowered(op, min))), moved(t, min as int))
            == moved(ops_tape(ops_model(ops), t), min as int),
    decreases ops.len(),
{
    let low = ops.map_values(|op: Op| ItemModel::Op(lowered(op, min)));
    assert forall|k: int| 0 <= k < low.len() implies (#[trigger] low[k] matches ItemModel::Op(op) && !(op is Lick)) by {
        assert(!(ops[k] is Lick));
    }
    assert forall|k: int| 0 <= k < ops_model(ops).len()
        implies (#[trigger] ops_model(ops)[k] matches ItemModel::Op(op) && !(op is Lick)) by {
        assert(!(ops[k] is Lick));
    }
    if ops.len() == 0 {
        assert(moved(t, min as int) == moved(t, min as int));
    } else {
        let front = ops.drop_last();
        let op = ops.last();
        assert forall|k: int| 0 <= k < front.len() implies !(#[trigger] front[k] is Lick) by {
            assert(front[k] == ops[k]);
        }
        assert forall|k: int| 0 <= k < front.len()
            implies (#[trigger] op_offset(front[k]) matches Some(o) ==> fits_i32(o - min)) by {
            assert(front[k] == ops[k]);
        }
        lemma_lowered_runs(front, min, t);
        assert(low.drop_last() =~= front.map_values(|op: Op| ItemModel::Op(lowered(op, min))));
        assert(ops_model(ops).drop_last() =~= ops_model(front));
        assert(low.last() == ItemModel::Op(lowered(op, min)));
        assert(ops_model(ops).last() == ItemModel::Op(op));
        assert(!(ops[ops.len() - 1] is Lick));
        assert(op_offset(ops[ops.len() - 1]) matches Some(o) ==> fits_i32(o - min));
        let t0 = ops_tape(ops_model(front), t);
        let lop = lowered(op, min);
        if op is MovePtr {
            assert(op_tape(lop, moved(t0, min as int)) =~= moved(op_tape(op, t0), min as int));
        } else {
            assert(shifted(lop, min) == op) by {
                match op {
                    Op::Add(x, o) => {},
                    Op::Mul(to, x, o) => {},
                    Op::Assign(x, o) => {},
                    Op::Out(o) => {},
                    Op::Input(o) => {},
                    _ => {},
                }
            }
            assert(!(lop is Lick) && !(lop is MovePtr));
            lemma_shifted_op(lop, min, t0);
        }
    }
}

/// A flushed run does what its operations do.
proof fn lemma_flush_runs(ops: Seq<Op>, min: i32, t: Tape, f: nat)
    requires
        forall|k: int| 0 <= k < ops.len() ==> !(#[trigger] ops[k] is Lick),
        flush_fits(ops, min),
    ensures
        straight(ops_model(ops)),
        run_items(flush(ops, min), t, f) == run_items(ops_model(ops), t, f),
{
    if min < 0 {
        lemma_lowered_runs(ops, min, t);
        let low = ops.map_values(|op: Op| ItemModel::Op(lowered(op, min)));
        let m1 = ItemModel::Op(Op::MovePtr(min));
        let m2 = ItemModel::Op(Op::MovePtr(sub_wrapping(0, min)));
        assert(sub_wrapping(0, min) == -min);
        let whole = seq![m1] + low + seq![m2];
        assert(straight(whole)) by {
            assert forall|k: int| 0 <= k < whole.len() implies (#[trigger] whole[k] matches ItemModel::Op(op) && !(op is Lick)) by {
                if 0 < k < whole.len() - 1 {
                    assert(whole[k] == low[k - 1]);
                }
            }
        }
        lemma_straight_runs(whole, t, f);
        lemma_straight_runs(ops_model(ops), t, f);
        assert(whole.drop_last() =~= seq![m1] + low);
        lemma_ops_tape_front(Op::MovePtr(min), low, t);
        assert(op_tape(Op::MovePtr(min), t) =~= moved(t, min as int));
        let e = ops_tape(ops_model(ops), t);
        assert(op_tape(Op::MovePtr(sub_wrapping(0, min)), moved(e, min as int)) =~= e);
    } else {
        lemma_lowered_runs(ops, 0, t);
    }
}

proof fn lemma_nonneg_item_keeps_runs(item: ItemModel, t: Tape, f: nat)
    requires
        item_lick_free(item),
        match item {
            ItemModel::Loop(body) => nonneg_fits(body, Seq::empty(), 0, 0),
            ItemModel::If(body) => nonneg_fits(body, Seq::empty(), 0, 0),
            _ => true,
        },
        run_item(item, t, f) is Some,
    ensures
        match item {
            ItemModel::Loop(body) => run_item(ItemModel::Loop(nonneg_items(body)), t, f) == run_item(item, t, f),
            ItemModel::If(body) => run_item(ItemModel::If(nonneg_items(body)), t, f) == run_item(item, t, f),
            _ => true,
        },
    decreases f, item, 1int,
{
    match item {
        ItemModel::Loop(body) => {
            if cell(t, 0) != 0 {
                let g = (f - 1) as nat;
                assert(ops_model(Seq::<Op>::empty()) + body =~= body);
                lemma_nonneg_fold_keeps_runs(body, Seq::empty(), 0, 0, t, g);
                let t2 = run_items(body, t, g)->0;
                lemma_nonneg_item_keeps_runs(item, t2, g);
            }
        },
        ItemModel::If(body) => {
            if cell(t, 0) != 0 {
                assert(ops_model(Seq::<Op>::empty()) + body =~= body);
                lemma_nonneg_fold_keeps_runs(body, Seq::empty(), 0, 0, t, f);
            }
        },
        _ => {},
    }
}

proof fn lemma_nonneg_fold_keeps_runs(items: Seq<ItemModel>, ops: Seq<Op>, offset: i32, min: i32, t: Tape, f: nat)
    requires
        lick_free(items),
        forall|k: int| 0 <= k < ops.len() ==> !(#[trigger] ops[k] is Lick),
        nonneg_fits(items, ops, offset, min),
        run_items(ops_model(ops) + items, t, f) is Some,
    ensures
        run_items(nonneg_fold(items, ops, offset, min), t, f) == run_items(ops_model(ops) + items, t, f),
    decreases f, items, 0int,
{
    if items.len() == 0 {
        assert(ops_model(ops) + items =~= ops_model(ops));
        lemma_flush_runs(ops, min, t, f);
    } else {
        let x = items[0];
        let rest = items.drop_first();
        lemma_lick_free_front(items);
        assert(items =~= seq![x] + rest);
        match x {
            ItemModel::Op(op) => {
                let ops2 = ops.push(op);
                assert(ops_model(ops2) + rest =~= ops_model(ops) + items);
                assert forall|k: int| 0 <= k < ops2.len() implies !(#[trigger] ops2[k] is Lick) by {
                    if k < ops.len() {
                        assert(ops2[k] == ops[k]);
                    }
                }
                lemma_nonneg_fold_keeps_runs(rest, ops2,
                    match op {
                        Op::MovePtr(m) => add_wrapping(offset, m),
                        _ => offset,
                    },
                    match op_offset(op) {
                        Some(o) => min_i32(min, add_wrapping(o, offset)),
                        None => min,
                    }, t, f);
            },
            _ => {
                let body = match x {
                    ItemModel::Loop(b) => b,
                    ItemModel::If(b) => b,
                    _ => Seq::empty(),
                };
                let nx = match x {
                    ItemModel::Loop(b) => ItemModel::Loop(nonneg_items(b)),
                    _ => ItemModel::If(nonneg_items(body)),
                };
                let pre = ops_model(ops);
                assert(pre + items =~= (pre + seq![x]) + rest);
                lemma_run_items_split(pre + seq![x], rest, t, f);
                lemma_run_items_split(pre, seq![x], t, f);
                lemma_flush_runs(ops, min, t, f);
                let t1 = run_items(pre, t, f)->0;
                lemma_run_items_first(x, Seq::empty(), t1, f);
                assert(seq![x] + Seq::<ItemModel>::empty() =~= seq![x]);
                lemma_run_items_front(x, Seq::empty(), t1, f);
                lemma_nonneg_item_keeps_runs(x, t1, f);
                let t2 = run_item(x, t1, f)->0;
                let whole = flush(ops, min) + seq![nx] + nonneg_fold(rest, Seq::empty(), 0, 0);
                assert(whole == nonneg_fold(items, ops, offset, min));
                assert(whole =~= (flush(ops, min) + seq![nx]) + nonneg_fold(rest, Seq::empty(), 0, 0));
                lemma_run_items_append(flush(ops, min), seq![nx], t, f);
                lemma_run_items_front(nx, Seq::empty(), t1, f);
                assert(seq![nx] + Seq::<ItemModel>::empty() =~= seq![nx]);
                lemma_run_items_append(flush(ops, min) + seq![nx], nonneg_fold(rest, Seq::empty(), 0, 0), t, f);
                assert(ops_model(Seq::<Op>::empty()) + rest =~= rest);
                lemma_nonneg_fold_keeps_runs(rest, Seq::empty(), 0, 0, t2, f);
            },
        }
    }
}

/// Making offsets non-negative keeps what a block without scans does, where the lowered
/// offsets stay within `i32`: a run that finishes gives the same tape with the same fuel.
pub proof fn lemma_nonneg_keeps_runs(items: Seq<ItemModel>, t: Tape, f: nat)
    requires
        lick_free(items),
        nonneg_fits(items, Seq::empty(), 0, 0),
        run_items(items, t, f) is Some,
    ensures
        run_items(nonneg_items(items), t, f) == run_items(items, t, f),
{
    assert(ops_model(Seq::<Op>::empty()) + items =~= items);
    lemma_nonneg_fold_keeps_runs(items, Seq::empty(), 0, 0, t, f);
}

proof fn lemma_one_lick_free(x: ItemModel)
    requires
        item_lick_free(x),
    ensures
        lick_free(seq![x]),
{
    assert(seq![x] =~= Seq::<ItemModel>::empty().push(x));
    lemma_lick_free_push(Seq::<ItemModel>::empty(), x);
}

/// Folding pointer moves into offsets forms no scan.
proof fn lemma_offset_lick_free(items: Seq<ItemModel>, offset: i32)
    requires
        lick_free(items),
    ensures
        lick_free(offset_fold(items, offset)),
    decreases items, 0int,
{
    if items.len() == 0 {
        lemma_one_lick_free(ItemModel::Op(Op::MovePtr(offset)));
    } else {
        let rest = items.drop_first();
        lemma_lick_free_front(items);
        match items[0] {
            ItemModel::Op(Op::MovePtr(x)) => {
                lemma_offset_lick_free(rest, add_wrapping(offset, x));
            },
            ItemModel::Op(op) => {
                lemma_offset_lick_free(rest, offset);
                assert(!(shifted(op, offset) is Lick)) by {
                    match op_offset(op) {
                        Some(o) => {},
                        None => {},
                    }
                }
                lemma_one_lick_free(ItemModel::Op(shifted(op, offset)));
                lemma_lick_free_concat(seq![ItemModel::Op(shifted(op, offset))], offset_fold(rest, offset));
            },
            ItemModel::Loop(body) => {
                lemma_offset_lick_free(body, 0);
                lemma_offset_lick_free(rest, 0);
                let m = ItemModel::Op(Op::MovePtr(offset));
                let l = ItemModel::Loop(offset_items(body));
                assert(seq![m, l] =~= seq![m].push(l));
                lemma_one_lick_free(m);
                lemma_lick_free_push(seq![m], l);
                lemma_lick_free_concat(seq![m, l], offset_fold(rest, 0));
            },
            ItemModel::If(body) => {
                lemma_offset_lick_free(body, 0);
                lemma_offset_lick_free(rest, 0);
                let m = ItemModel::Op(Op::MovePtr(offset));
                let l = ItemModel::If(offset_items(body));
                assert(seq![m, l] =~= seq![m].push(l));
                lemma_one_lick_free(m);
                lemma_lick_free_push(seq![m], l);
                lemma_lick_free_concat(seq![m, l], offset_fold(rest, 0));
            },
        }
    }
}

/// The block that the offset pass of `optimize` receives: everything before it done.
pub open spec fn before_offsets(items: Seq<ItemModel>, is_top_level: bool) -> Seq<ItemModel> {
    let merged = merge_items(items, is_top_level);
    let multiplied = mul_items(clear_items(unwrap_items(merged)));
    if_items(merge_items(multiplied, is_top_level))
}

/// The offsets that `optimize` forms stay within `i32`.
pub open spec fn optimize_fits(items: Seq<ItemModel>, is_top_level: bool, non_negative_offset: bool) -> bool {
    let conditional = before_offsets(items, is_top_level);
    offsets_fit(conditional, 0)
        && (non_negative_offset ==> nonneg_fits(offset_items(conditional), Seq::empty(), 0, 0))
}

/// The whole optimizer keeps what a program without scans does, where the offsets it forms
/// stay within `i32`: a run that finishes gives the same tape with the same fuel. At the top
/// level this holds on tapes whose current cell is zero (memory starts cleared).
pub proof fn lemma_optimize_keeps_runs(items: Seq<ItemModel>, is_top_level: bool, non_negative_offset: bool, t: Tape, f: nat)
    requires
        lick_free(items),
        is_top_level ==> cell(t, 0) == 0,
        optimize_fits(items, is_top_level, non_negative_offset),
        run_items(items, t, f) is Some,
    ensures
        run_items(optimize_items(items, is_top_level, non_negative_offset), t, f) == run_items(items, t, f),
{
    let r = run_items(items, t, f);
    let merged = merge_items(items, is_top_level);
    lemma_merge_keeps_runs(items, is_top_level, t, f);
    lemma_merge_lick_free(items, is_top_level);
    let unwrapped = unwrap_items(merged);
    lemma_unwrap_keeps_runs(merged, t, f);
    lemma_unwrap_lick_free(merged);
    let cleared = clear_items(unwrapped);
    lemma_clear_keeps_runs(unwrapped, t, f);
    lemma_clear_lick_free(unwrapped);
    let multiplied = mul_items(cleared);
    lemma_mul_keeps_runs(cleared, t, f);
    lemma_mul_lick_free(cleared);
    let merged2 = merge_items(multiplied, is_top_level);
    lemma_merge_keeps_runs(multiplied, is_top_level, t, f);
    lemma_merge_lick_free(multiplied, is_top_level);
    let conditional = if_items(merged2);
    lemma_if_keeps_runs(merged2, t, f);
    lemma_if_lick_free(merged2);
    assert(conditional == before_offsets(items, is_top_level));
    let offsets = offset_items(conditional);
    lemma_offset_keeps_runs(conditional, t, f);
    lemma_offset_lick_free(conditional, 0);
    let shifted_items = if non_negative_offset { nonneg_items(offsets) } else { offsets };
    if non_negative_offset {
        lemma_nonneg_keeps_runs(offsets, t, f);
    }
    assert(run_items(shifted_items, t, f) == r);
    let merged3 = merge_items(shifted_items, is_top_level);
    lemma_merge_keeps_runs(shifted_items, is_top_level, t, f);
    lemma_remove_nop_keeps_runs(merged3, t, f);
}

proof fn lemma_scan_loop_runs(item: ItemModel, x: i32, t: Tape, f: nat)
    requires
        item == ItemModel::Loop(seq![ItemModel::Op(Op::MovePtr(x))]),
        run_item(item, t, f) is Some,
    ensures
        run_item(ItemModel::Op(Op::Lick(x)), t, f) == run_item(item, t, f),
    decreases f,
{
    if cell(t, 0) != 0 {
        let g = (f - 1) as nat;
        let body = seq![ItemModel::Op(Op::MovePtr(x))];
        assert(body =~= Seq::<ItemModel>::empty().push(body[0]));
        lemma_run_items_push(Seq::<ItemModel>::empty(), body[0], t, g);
        let t2 = op_tape(Op::MovePtr(x), t);
        assert(t2 =~= Tape { ptr: t.ptr + x, ..t });
        lemma_scan_loop_runs(item, x, t2, g);
    }
}

proof fn lemma_lick_item_keeps_runs(item: ItemModel, t: Tape, f: nat)
    requires
        run_item(item, t, f) is Some,
    ensures
        run_item(lick_item(item), t, f) == run_item(item, t, f),
    decreases f, item,
{
    match item {
        ItemModel::Loop(body) => {
            if body.len() == 1 && (body[0] matches ItemModel::Op(Op::MovePtr(x)) && x != 0) {
                let x = body[0]->Op_0->MovePtr_0;
                assert(body =~= seq![ItemModel::Op(Op::MovePtr(x))]);
                lemma_scan_loop_runs(item, x, t, f);
            } else if cell(t, 0) != 0 {
                let g = (f - 1) as nat;
                lemma_lick_keeps_runs(body, t, g);
                let t2 = run_items(body, t, g)->0;
                lemma_lick_item_keeps_runs(item, t2, g);
            }
        },
        ItemModel::If(body) => {
            if cell(t, 0) != 0 {
                lemma_lick_keeps_runs(body, t, f);
            }
        },
        _ => {},
    }
}

/// Turning loops that only move the pointer into scans keeps what a block does: a run that
/// finishes gives the same tape with the same fuel.
pub proof fn lemma_lick_keeps_runs(items: Seq<ItemModel>, t: Tape, f: nat)
    requires
        run_items(items, t, f) is Some,
    ensures
        run_items(lick_items(items), t, f) == run_items(items, t, f),
    decreases f, items,
{
    if items.len() > 0 {
        lemma_lick_keeps_runs(items.drop_last(), t, f);
        let t1 = run_items(items.drop_last(), t, f)->0;
        lemma_lick_item_keeps_runs(items.last(), t1, f);
        lemma_run_items_push(lick_items(items.drop_last()), lick_item(items.last()), t, f);
    }
}

} // verus!
