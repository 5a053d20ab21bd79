//! Optimizing passes over blocks.

use vstd::prelude::*;
use std::collections::BTreeMap;
use crate::ir::{reversed, Block, BlockItem, ItemModel, Op, items_model, item_model, lemma_items_model_index, op_offset, with_offset,
    lemma_items_model_len, lemma_items_model_push};

verus! {

/// A loop whose body only steps its cell by one: it runs until the cell is zero.
pub open spec fn clears_cell(body: Seq<ItemModel>) -> bool {
    body.len() == 1 && (body[0] == ItemModel::Op(Op::Add(1, 0)) || body[0] == ItemModel::Op(Op::Add(-1i32, 0)))
}

pub open spec fn clear_item(item: ItemModel) -> ItemModel
    decreases item,
{
    match item {
        ItemModel::Loop(body) => if clears_cell(body) {
            ItemModel::Op(Op::Assign(0, 0))
        } else {
            ItemModel::Loop(clear_items(body))
        },
        _ => item,
    }
}

/// Every loop (not conditional) that steps its cell by one becomes `Assign(0, 0)`;
/// other loops are cleared inside.
pub open spec fn clear_items(items: Seq<ItemModel>) -> Seq<ItemModel>
    decreases items,
{
    if items.len() == 0 {
        Seq::empty()
    } else {
        clear_items(items.drop_last()).push(clear_item(items.last()))
    }
}

proof fn lemma_clear_prefix(items: Seq<ItemModel>, i: int)
    requires
        0 <= i < items.len(),
    ensures
        clear_items(items.take(i + 1)) == clear_items(items.take(i)).push(clear_item(items[i])),
{
    assert(items.take(i + 1).drop_last() =~= items.take(i));
}

fn is_clearing(block: &Block) -> (r: bool)
    ensures
        r == clears_cell(block@),
{
    proof {
        lemma_items_model_len(block.items@);
    }
    if block.items.len() == 1 {
        proof {
            lemma_items_model_index(block.items@, 0);
        }
        match &block.items[0] {
            BlockItem::Op(Op::Add(1, 0)) => true,
            BlockItem::Op(Op::Add(-1, 0)) => true,
            _ => false,
        }
    } else {
        false
    }
}

fn clear_vec(items: Vec<BlockItem>) -> (r: Vec<BlockItem>)
    ensures
        items_model(r@) == clear_items(items_model(items@)),
    decreases items_model(items@),
{
    let ghost model = items_model(items@);
    let mut out: Vec<BlockItem> = Vec::new();
    let mut rest = reversed(items);
    proof {
        lemma_items_model_len(items@);
        assert(model.take(0) =~= Seq::<ItemModel>::empty());
    }
    let n = rest.len();
    let mut i: usize = 0;
    while i < n
        invariant
            n == items@.len(),
            model == items_model(items@),
            model.len() == n,
            i <= n,
            rest@.len() == n - i,
            forall|k: int| 0 <= k < n - i ==> #[trigger] rest@[k] == items@[n - 1 - k],
            items_model(out@) == clear_items(model.take(i as int)),
        decreases n - i,
    {
        let item = rest.pop().unwrap();
        proof {
            assert(item == items@[i as int]);
            lemma_items_model_index(items@, i as int);
            lemma_clear_prefix(model, i as int);
        }
        let new_item = match item {
            BlockItem::Loop(block) => {
                if is_clearing(&block) {
                    BlockItem::Op(Op::Assign(0, 0))
                } else {
                    proof {
                        assert(decreases_to!(model => model[i as int]));
                    }
                    BlockItem::Loop(Block::from_items(clear_vec(block.items)))
                }
            },
            other => other,
        };
        proof {
            lemma_items_model_push(out@, new_item);
        }
        out.push(new_item);
        i = i + 1;
    }
    proof {
        assert(model.take(n as int) =~= model);
    }
    out
}

pub fn clear(block: &mut Block)
    ensures
        final(block)@ == clear_items(old(block)@),
{
    let mut items: Vec<BlockItem> = Vec::new();
    std::mem::swap(&mut items, &mut block.items);
    block.items = clear_vec(items);
}


/// Nested loops that hold nothing but one inner loop collapse to the innermost one;
/// then the loop's body is unwrapped too.
pub open spec fn unwrap_item(item: ItemModel) -> ItemModel
    decreases item,
{
    match item {
        ItemModel::Loop(body) => if body.len() == 1 && body[0] is Loop {
            unwrap_item(body[0])
        } else {
            ItemModel::Loop(unwrap_items(body))
        },
        _ => item,
    }
}

pub open spec fn unwrap_items(items: Seq<ItemModel>) -> Seq<ItemModel>
    decreases items,
{
    if items.len() == 0 {
        Seq::empty()
    } else {
        unwrap_items(items.drop_last()).push(unwrap_item(items.last()))
    }
}

/// A loop that ends by clearing its cell runs at most once: it becomes a conditional
/// (or just the clearing, when that is all it does).
pub open spec fn if_item(item: ItemModel) -> ItemModel
    decreases item,
{
    match item {
        ItemModel::Loop(body) => if body.len() > 0 && body.last() == ItemModel::Op(Op::Assign(0, 0)) {
            if body.len() == 1 {
                ItemModel::Op(Op::Assign(0, 0))
            } else {
                ItemModel::If(if_items(body))
            }
        } else {
            ItemModel::Loop(if_items(body))
        },
        ItemModel::If(body) => ItemModel::If(if_items(body)),
        _ => item,
    }
}

pub open spec fn if_items(items: Seq<ItemModel>) -> Seq<ItemModel>
    decreases items,
{
    if items.len() == 0 {
        Seq::empty()
    } else {
        if_items(items.drop_last()).push(if_item(items.last()))
    }
}

/// A loop that only moves the pointer by a non-zero step becomes a scan.
pub open spec fn lick_item(item: ItemModel) -> ItemModel
    decreases item,
{
    match item {
        ItemModel::Loop(body) => if body.len() == 1 && (body[0] matches ItemModel::Op(Op::MovePtr(x)) && x != 0) {
            ItemModel::Op(Op::Lick(body[0]->Op_0->MovePtr_0))
        } else {
            ItemModel::Loop(lick_items(body))
        },
        ItemModel::If(body) => ItemModel::If(lick_items(body)),
        _ => item,
    }
}

pub open spec fn lick_items(items: Seq<ItemModel>) -> Seq<ItemModel>
    decreases items,
{
    if items.len() == 0 {
        Seq::empty()
    } else {
        lick_items(items.drop_last()).push(lick_item(items.last()))
    }
}

/// Operations that do nothing are dropped, at every depth.
pub open spec fn remove_nop_items(items: Seq<ItemModel>) -> Seq<ItemModel>
    decreases items,
{
    if items.len() == 0 {
        Seq::empty()
    } else {
        let rest = remove_nop_items(items.drop_last());
        match items.last() {
            ItemModel::Op(op) => if crate::ir::op_is_nop(op) { rest } else { rest.push(items.last()) },
            ItemModel::Loop(body) => rest.push(ItemModel::Loop(remove_nop_items(body))),
            ItemModel::If(body) => rest.push(ItemModel::If(remove_nop_items(body))),
        }
    }
}

fn unwrap_one(item: BlockItem) -> (r: BlockItem)
    ensures
        item_model(r) == unwrap_item(item_model(item)),
    decreases item_model(item),
{
    match item {
        BlockItem::Loop(block) => {
            proof { lemma_items_model_len(block.items@); }
            if block.items.len() == 1 {
                proof { lemma_items_model_index(block.items@, 0); }
                if matches!(&block.items[0], BlockItem::Loop(_)) {
                    let mut items = block.items;
                    let inner = items.pop().unwrap();
                    return unwrap_one(inner);
                }
            }
            BlockItem::Loop(Block::from_items(unwrap_vec(block.items)))
        },
        other => other,
    }
}

fn unwrap_vec(items: Vec<BlockItem>) -> (r: Vec<BlockItem>)
    ensures
        items_model(r@) == unwrap_items(items_model(items@)),
    decreases items_model(items@),
{
    let ghost model = items_model(items@);
    let mut out: Vec<BlockItem> = Vec::new();
    let mut rest = reversed(items);
    proof {
        lemma_items_model_len(items@);
        assert(model.take(0) =~= Seq::<ItemModel>::empty());
    }
    let n = rest.len();
    let mut i: usize = 0;
    while i < n
        invariant
            n == items@.len(),
            model == items_model(items@),
            model.len() == n,
            i <= n,
            rest@.len() == n - i,
            forall|k: int| 0 <= k < n - i ==> #[trigger] rest@[k] == items@[n - 1 - k],
            items_model(out@) == unwrap_items(model.take(i as int)),
        decreases n - i,
    {
        let item = rest.pop().unwrap();
        proof {
            assert(item == items@[i as int]);
            lemma_items_model_index(items@, i as int);
            assert(model.take(i + 1).drop_last() =~= model.take(i as int));
            assert(decreases_to!(model => model[i as int]));
        }
        let new_item = unwrap_one(item);
        proof { lemma_items_model_push(out@, new_item); }
        out.push(new_item);
        i = i + 1;
    }
    proof { assert(model.take(n as int) =~= model); }
    out
}

pub fn unwrap(block: &mut Block)
    ensures
        final(block)@ == unwrap_items(old(block)@),
{
    let mut items: Vec<BlockItem> = Vec::new();
    std::mem::swap(&mut items, &mut block.items);
    block.items = unwrap_vec(items);
}

fn if_one(item: BlockItem) -> (r: BlockItem)
    ensures
        item_model(r) == if_item(item_model(item)),
    decreases item_model(item),
{
    match item {
        BlockItem::Loop(block) => {
            proof { lemma_items_model_len(block.items@); }
            let n = block.items.len();
            if n > 0 {
                proof { lemma_items_model_index(block.items@, n - 1); }
                if matches!(&block.items[n - 1], BlockItem::Op(Op::Assign(0, 0))) {
                    if n == 1 {
                        return BlockItem::Op(Op::Assign(0, 0));
                    } else {
                        return BlockItem::If(Block::from_items(if_vec(block.items)));
                    }
                }
            }
            BlockItem::Loop(Block::from_items(if_vec(block.items)))
        },
        BlockItem::If(block) => BlockItem::If(Block::from_items(if_vec(block.items))),
        other => other,
    }
}

fn if_vec(items: Vec<BlockItem>) -> (r: Vec<BlockItem>)
    ensures
        items_model(r@) == if_items(items_model(items@)),
    decreases items_model(items@),
{
    let ghost model = items_model(items@);
    let mut out: Vec<BlockItem> = Vec::new();
    let mut rest = reversed(items);
    proof {
        lemma_items_model_len(items@);
        assert(model.take(0) =~= Seq::<ItemModel>::empty());
    }
    let n = rest.len();
    let mut i: usize = 0;
    while i < n
        invariant
            n == items@.len(),
            model == items_model(items@),
            model.len() == n,
            i <= n,
            rest@.len() == n - i,
            forall|k: int| 0 <= k < n - i ==> #[trigger] rest@[k] == items@[n - 1 - k],
            items_model(out@) == if_items(model.take(i as int)),
        decreases n - i,
    {
        let item = rest.pop().unwrap();
        proof {
            assert(item == items@[i as int]);
            lemma_items_model_index(items@, i as int);
            assert(model.take(i + 1).drop_last() =~= model.take(i as int));
            assert(decreases_to!(model => model[i as int]));
        }
        let new_item = if_one(item);
        proof { lemma_items_model_push(out@, new_item); }
        out.push(new_item);
        i = i + 1;
    }
    proof { assert(model.take(n as int) =~= model); }
    out
}

/// Turns loops that end by clearing their cell into conditionals.
pub fn if_opt(block: &mut Block)
    ensures
        final(block)@ == if_items(old(block)@),
{
    let mut items: Vec<BlockItem> = Vec::new();
    std::mem::swap(&mut items, &mut block.items);
    block.items = if_vec(items);
}

fn lick_one(item: BlockItem) -> (r: BlockItem)
    ensures
        item_model(r) == lick_item(item_model(item)),
    decreases item_model(item),
{
    match item {
        BlockItem::Loop(block) => {
            proof { lemma_items_model_len(block.items@); }
            if block.items.len() == 1 {
                proof { lemma_items_model_index(block.items@, 0); }
                if let BlockItem::Op(Op::MovePtr(x)) = &block.items[0] {
                    if *x != 0 {
                        return BlockItem::Op(Op::Lick(*x));
                    }
                }
            }
            BlockItem::Loop(Block::from_items(lick_vec(block.items)))
        },
        BlockItem::If(block) => BlockItem::If(Block::from_items(lick_vec(block.items))),
        other => other,
    }
}

fn lick_vec(items: Vec<BlockItem>) -> (r: Vec<BlockItem>)
    ensures
        items_model(r@) == lick_items(items_model(items@)),
    decreases items_model(items@),
{
    let ghost model = items_model(items@);
    let mut out: Vec<BlockItem> = Vec::new();
    let mut rest = reversed(items);
    proof {
        lemma_items_model_len(items@);
        assert(model.take(0) =~= Seq::<ItemModel>::empty());
    }
    let n = rest.len();
    let mut i: usize = 0;
    while i < n
        invariant
            n == items@.len(),
            model == items_model(items@),
            model.len() == n,
            i <= n,
            rest@.len() == n - i,
            forall|k: int| 0 <= k < n - i ==> #[trigger] rest@[k] == items@[n - 1 - k],
            items_model(out@) == lick_items(model.take(i as int)),
        decreases n - i,
    {
        let item = rest.pop().unwrap();
        proof {
            assert(item == items@[i as int]);
            lemma_items_model_index(items@, i as int);
            assert(model.take(i + 1).drop_last() =~= model.take(i as int));
            assert(decreases_to!(model => model[i as int]));
        }
        let new_item = lick_one(item);
        proof { lemma_items_model_push(out@, new_item); }
        out.push(new_item);
        i = i + 1;
    }
    proof { assert(model.take(n as int) =~= model); }
    out
}

fn opt_lick(block: &mut Block)
    ensures
        final(block)@ == lick_items(old(block)@),
{
    let mut items: Vec<BlockItem> = Vec::new();
    std::mem::swap(&mut items, &mut block.items);
    block.items = lick_vec(items);
}

/// Replaces loops that only move the pointer with scans, which the interpreter runs directly.
pub fn optimize_for_interpreter(block: &mut Block)
    ensures
        final(block)@ == lick_items(old(block)@),
{
    opt_lick(block)
}

fn remove_nop_vec(items: Vec<BlockItem>) -> (r: Vec<BlockItem>)
    ensures
        items_model(r@) == remove_nop_items(items_model(items@)),
    decreases items_model(items@),
{
    let ghost model = items_model(items@);
    let mut out: Vec<BlockItem> = Vec::new();
    let mut rest = reversed(items);
    proof {
        lemma_items_model_len(items@);
        assert(model.take(0) =~= Seq::<ItemModel>::empty());
    }
    let n = rest.len();
    let mut i: usize = 0;
    while i < n
        invariant
            n == items@.len(),
            model == items_model(items@),
            model.len() == n,
            i <= n,
            rest@.len() == n - i,
            forall|k: int| 0 <= k < n - i ==> #[trigger] rest@[k] == items@[n - 1 - k],
            items_model(out@) == remove_nop_items(model.take(i as int)),
        decreases n - i,
    {
        let item = rest.pop().unwrap();
        proof {
            assert(item == items@[i as int]);
            lemma_items_model_index(items@, i as int);
            assert(model.take(i + 1).drop_last() =~= model.take(i as int));
            assert(decreases_to!(model => model[i as int]));
        }
        match item {
            BlockItem::Op(op) => {
                if !op.is_nop() {
                    proof { lemma_items_model_push(out@, BlockItem::Op(op)); }
                    out.push(BlockItem::Op(op));
                }
            },
            BlockItem::Loop(block) => {
                proof {
                    assert(model[i as int] == ItemModel::Loop(items_model(block.items@)));
                    let m = model[i as int];
                    assert(decreases_to!(m => m->Loop_0));
                    assert(decreases_to!(model => model[i as int]));
                }
                let new_item = BlockItem::Loop(Block::from_items(remove_nop_vec(block.items)));
                proof { lemma_items_model_push(out@, new_item); }
                out.push(new_item);
            },
            BlockItem::If(block) => {
                proof {
                    assert(model[i as int] == ItemModel::If(items_model(block.items@)));
                    let m = model[i as int];
                    assert(decreases_to!(m => m->If_0));
                    assert(decreases_to!(model => model[i as int]));
                }
                let new_item = BlockItem::If(Block::from_items(remove_nop_vec(block.items)));
                proof { lemma_items_model_push(out@, new_item); }
                out.push(new_item);
            },
        }
        i = i + 1;
    }
    proof { assert(model.take(n as int) =~= model); }
    out
}

fn remove_nop(block: &mut Block)
    ensures
        final(block)@ == remove_nop_items(old(block)@),
{
    let mut items: Vec<BlockItem> = Vec::new();
    std::mem::swap(&mut items, &mut block.items);
    block.items = remove_nop_vec(items);
}


pub open spec fn fits_i32(v: int) -> bool {
    i32::MIN <= v <= i32::MAX
}

/// The rules by which two consecutive operations fuse into one.
pub open spec fn op_sum(a: Op, b: Op) -> Option<Op> {
    match (a, b) {
        (Op::Add(n, o), Op::Add(m, f)) if o == f => Some(Op::Add((n + m) as i32, o)),
        (Op::MovePtr(n), Op::MovePtr(m)) => Some(Op::MovePtr((n + m) as i32)),
        (Op::Assign(0, o), Op::Mul(_, _, f)) if o == f => Some(Op::Assign(0, o)),
        (Op::Assign(_, o), Op::Assign(_, f)) if o == f => Some(b),
        (Op::Assign(x, o), Op::Add(y, f)) if o == f => Some(Op::Assign((x + y) as i32, o)),
        _ => if crate::ir::op_is_nop(b) { Some(a) } else { None },
    }
}

/// The sums that fusing forms stay within `i32`.
pub open spec fn op_sum_fits(a: Op, b: Op) -> bool {
    match (a, b) {
        (Op::Add(n, o), Op::Add(m, f)) => o == f ==> fits_i32(n + m),
        (Op::MovePtr(n), Op::MovePtr(m)) => fits_i32(n + m),
        (Op::Assign(x, o), Op::Add(y, f)) => o == f && x != 0 ==> fits_i32(x + y),
        _ => true,
    }
}

impl Op {
    /// Fuses this operation with the one that follows it, when the two have the effect of one.
    pub fn add(self, rhs: Self) -> (r: Option<Self>)
        requires
            op_sum_fits(self, rhs),
        ensures
            r == op_sum(self, rhs),
    {
        match (self, rhs) {
            (Op::Add(n, o), Op::Add(m, f)) if o == f => Some(Op::Add(n + m, o)),
            (Op::MovePtr(n), Op::MovePtr(m)) => Some(Op::ptr(n + m)),
            (Op::Assign(0, o), Op::Mul(_, _, f)) if o == f => Some(Op::Assign(0, o)),
            (Op::Assign(_, o), Op::Assign(_, f)) if o == f => Some(rhs),
            (Op::Assign(x, o), Op::Add(y, f)) if o == f => Some(Op::Assign(x + y, o)),
            _ => if rhs.is_nop() { Some(self) } else { None },
        }
    }
}

fn sum_fits(a: Op, b: Op) -> (r: bool)
    ensures
        r == op_sum_fits(a, b),
{
    match (a, b) {
        (Op::Add(n, o), Op::Add(m, f)) => o != f || (n as i64 + m as i64 >= i32::MIN as i64 && n as i64 + m as i64 <= i32::MAX as i64),
        (Op::MovePtr(n), Op::MovePtr(m)) => n as i64 + m as i64 >= i32::MIN as i64 && n as i64 + m as i64 <= i32::MAX as i64,
        (Op::Assign(x, o), Op::Add(y, f)) => !(o == f && x != 0)
            || (x as i64 + y as i64 >= i32::MIN as i64 && x as i64 + y as i64 <= i32::MAX as i64),
        _ => true,
    }
}

/// The two operations at the end fuse, repeatedly, while they can (and their sums fit).
pub open spec fn settle(acc: Seq<ItemModel>) -> Seq<ItemModel>
    decreases acc.len(),
{
    if acc.len() >= 2 && acc[acc.len() - 2] is Op && acc.last() is Op
        && op_sum_fits(acc[acc.len() - 2]->Op_0, acc.last()->Op_0)
        && op_sum(acc[acc.len() - 2]->Op_0, acc.last()->Op_0) is Some {
        settle(acc.take(acc.len() - 2).push(ItemModel::Op(op_sum(acc[acc.len() - 2]->Op_0, acc.last()->Op_0)->0)))
    } else {
        acc
    }
}

pub open spec fn merge_item(item: ItemModel) -> ItemModel
    decreases item,
{
    match item {
        ItemModel::Loop(body) => ItemModel::Loop(merge_fold(Seq::empty(), body)),
        ItemModel::If(body) => ItemModel::If(merge_fold(Seq::empty(), body)),
        _ => item,
    }
}

/// Items appended one by one to `start`, each (merged inside) fused with what comes before it.
pub open spec fn merge_fold(start: Seq<ItemModel>, items: Seq<ItemModel>) -> Seq<ItemModel>
    decreases items,
{
    if items.len() == 0 {
        start
    } else {
        settle(merge_fold(start, items.drop_last()).push(merge_item(items.last())))
    }
}

/// At the top level the fold starts from a cleared current cell, which is dropped again
/// if nothing fused with it.
pub open spec fn merge_items(items: Seq<ItemModel>, is_top_level: bool) -> Seq<ItemModel> {
    if is_top_level {
        let r = merge_fold(seq![ItemModel::Op(Op::Assign(0, 0))], items);
        if r.len() > 0 && r[0] == ItemModel::Op(Op::Assign(0, 0)) {
            r.drop_first()
        } else {
            r
        }
    } else {
        merge_fold(Seq::empty(), items)
    }
}

fn settle_vec(out: &mut Vec<BlockItem>)
    ensures
        items_model(final(out)@) == settle(items_model(old(out)@)),
    decreases old(out)@.len(),
{
    let n = out.len();
    proof { lemma_items_model_len(out@); }
    if n >= 2 {
        proof {
            lemma_items_model_index(out@, n - 2);
            lemma_items_model_index(out@, n - 1);
        }
        let lhs = out[n - 2].op();
        let rhs = out[n - 1].op();
        if let (Some(l), Some(r)) = (lhs, rhs) {
            if sum_fits(l, r) {
                if let Some(merged) = l.add(r) {
                    let ghost before = items_model(out@);
                    out.pop();
                    out.pop();
                    proof {
                        assert(out@ =~= old(out)@.take(n - 2));
                        assert forall|k: int| 0 <= k < out@.len() implies before.take(n - 2)[k] == item_model(#[trigger] out@[k]) by {
                            lemma_items_model_index(old(out)@, k);
                        }
                        crate::ir::lemma_items_model_pointwise(out@, before.take(n - 2));
                        lemma_items_model_push(out@, BlockItem::Op(merged));
                    }
                    out.push(BlockItem::Op(merged));
                    settle_vec(out);
                    return;
                }
            }
        }
    }
}

fn merge_vec(start: Vec<BlockItem>, items: &Vec<BlockItem>) -> (r: Vec<BlockItem>)
    ensures
        items_model(r@) == merge_fold(items_model(start@), items_model(items@)),
    decreases items_model(items@),
{
    let ghost model = items_model(items@);
    let mut merged = start;
    proof {
        lemma_items_model_len(items@);
        assert(model.take(0) =~= Seq::<ItemModel>::empty());
    }
    let mut i: usize = 0;
    while i < items.len()
        invariant
            model == items_model(items@),
            model.len() == items@.len(),
            i <= items@.len(),
            items_model(merged@) == merge_fold(items_model(start@), model.take(i as int)),
        decreases items@.len() - i,
    {
        proof {
            lemma_items_model_index(items@, i as int);
            assert(model.take(i + 1).drop_last() =~= model.take(i as int));
            assert(decreases_to!(model => model[i as int]));
        }
        let item = match &items[i] {
            BlockItem::Loop(loop_block) => {
                proof {
                    let m = model[i as int];
                    assert(decreases_to!(m => m->Loop_0));
                }
                BlockItem::Loop(Block::from_items(merge_vec(Vec::new(), &loop_block.items)))
            },
            BlockItem::If(if_block) => {
                proof {
                    let m = model[i as int];
                    assert(decreases_to!(m => m->If_0));
                }
                BlockItem::If(Block::from_items(merge_vec(Vec::new(), &if_block.items)))
            },
            BlockItem::Op(op) => BlockItem::Op(*op),
        };
        proof {
            assert(item_model(item) == merge_item(model[i as int]));
            lemma_items_model_push(merged@, item);
            assert(model.take(i + 1).last() == model[i as int]);
        }
        merged.push(item);
        settle_vec(&mut merged);
        i = i + 1;
    }
    proof { assert(model.take(items@.len() as int) =~= model); }
    merged
}

/// Fuses every pair of consecutive operations that can be fused, at every depth. With
/// `is_top_level`, the fold starts from `Assign(0, 0)` (memory starts cleared), which is
/// dropped again when nothing fused with it.
pub fn merge(block: &Block, is_top_level: bool) -> (r: Block)
    ensures
        r@ == merge_items(block@, is_top_level),
{
    let mut start: Vec<BlockItem> = Vec::new();
    if is_top_level {
        start.push(BlockItem::Op(Op::Assign(0, 0)));
        proof {
            lemma_items_model_push(Seq::<BlockItem>::empty(), BlockItem::Op(Op::Assign(0, 0)));
            assert(Seq::<BlockItem>::empty().push(BlockItem::Op(Op::Assign(0, 0))) =~= start@);
            assert(items_model(Seq::<BlockItem>::empty()) =~= Seq::<ItemModel>::empty());
            assert(items_model(start@) =~= seq![ItemModel::Op(Op::Assign(0, 0))]);
        }
    } else {
        proof { assert(items_model(start@) =~= Seq::<ItemModel>::empty()); }
    }
    let mut merged = merge_vec(start, &block.items);
    if is_top_level && merged.len() > 0 {
        proof { lemma_items_model_index(merged@, 0); }
        if matches!(&merged[0], BlockItem::Op(Op::Assign(0, 0))) {
            let ghost old_seq = merged@;
            let ghost before = items_model(merged@);
            merged.remove(0);
            proof {
                lemma_items_model_len(old_seq);
                assert forall|k: int| 0 <= k < merged@.len() implies before.drop_first()[k] == item_model(#[trigger] merged@[k]) by {
                    lemma_items_model_index(old_seq, k + 1);
                    assert(merged@[k] == old_seq[k + 1]);
                }
                crate::ir::lemma_items_model_pointwise(merged@, before.drop_first());
            }
        }
    }
    Block::from_items(merged)
}


/// What a loop body does to one cell, relative to the loop's start: adds a multiple of the
/// counter each round, or sets the cell.
#[derive(Debug, Clone, Copy, PartialEq, Eq, Structural)]
pub enum OpType {
    Mul(i32),
    Assign(i32),
}

/// An entry's amount raised by `x`, while it fits in `i32`.
pub open spec fn op_type_plus(t: OpType, x: i32) -> Option<OpType> {
    match t {
        OpType::Mul(y) => if fits_i32(y + x) { Some(OpType::Mul((y + x) as i32)) } else { None },
        OpType::Assign(y) => if fits_i32(y + x) { Some(OpType::Assign((y + x) as i32)) } else { None },
    }
}

/// A table ordered by offset, with no offset twice (the order a sorted map walks).
pub open spec fn table_sorted(t: Seq<(i32, OpType)>) -> bool {
    forall|i: int, j: int| 0 <= i < j < t.len() ==> t[i].0 < t[j].0
}

/// The index of the first entry whose offset is at least `key`.
pub open spec fn table_pos(t: Seq<(i32, OpType)>, key: i32) -> int
    decreases t.len(),
{
    if t.len() == 0 || t[0].0 >= key {
        0
    } else {
        1 + table_pos(t.drop_first(), key)
    }
}

pub open spec fn table_lookup(t: Seq<(i32, OpType)>, key: i32) -> Option<OpType> {
    let p = table_pos(t, key);
    if p < t.len() && t[p].0 == key {
        Some(t[p].1)
    } else {
        None
    }
}

/// Adds `v` at `key`: to the entry there, or as a new `Mul(v)` entry in its place.
pub open spec fn table_add(t: Seq<(i32, OpType)>, key: i32, v: i32) -> Option<Seq<(i32, OpType)>> {
    let p = table_pos(t, key);
    if p < t.len() && t[p].0 == key {
        match op_type_plus(t[p].1, v) {
            Some(n) => Some(t.update(p, (key, n))),
            None => None,
        }
    } else {
        Some(t.insert(p, (key, OpType::Mul(v))))
    }
}

/// Sets the entry at `key` to `Assign(v)`, whatever it held.
pub open spec fn table_assign(t: Seq<(i32, OpType)>, key: i32, v: i32) -> Seq<(i32, OpType)> {
    let p = table_pos(t, key);
    if p < t.len() && t[p].0 == key {
        t.update(p, (key, OpType::Assign(v)))
    } else {
        t.insert(p, (key, OpType::Assign(v)))
    }
}

/// One item of a loop body read into the table and the pointer offset so far; `None` for an
/// item that rules the loop out (or an offset that leaves `i32`).
pub open spec fn scan_step(acc: Option<(Seq<(i32, OpType)>, i32)>, item: ItemModel) -> Option<(Seq<(i32, OpType)>, i32)> {
    match acc {
        None => None,
        Some((t, p)) => match item {
            ItemModel::Op(Op::Add(v, of)) => if fits_i32(p + of) {
                match table_add(t, (p + of) as i32, v) {
                    Some(n) => Some((n, p)),
                    None => None,
                }
            } else {
                None
            },
            ItemModel::Op(Op::MovePtr(of)) => if fits_i32(p + of) { Some((t, (p + of) as i32)) } else { None },
            ItemModel::Op(Op::Assign(v, of)) => if fits_i32(p + of) {
                Some((table_assign(t, (p + of) as i32, v), p))
            } else {
                None
            },
            _ => None,
        },
    }
}

pub open spec fn scan(items: Seq<ItemModel>) -> Option<(Seq<(i32, OpType)>, i32)>
    decreases items.len(),
{
    if items.len() == 0 {
        Some((Seq::empty(), 0))
    } else {
        scan_step(scan(items.drop_last()), items.last())
    }
}

/// The table of a loop that runs its counter cell down by one each round and leaves the pointer
/// where it was: such a loop is a multiplication.
pub open spec fn mul_table(body: Seq<ItemModel>) -> Option<Seq<(i32, OpType)>> {
    match scan(body) {
        Some((t, p)) => if p == 0 && table_lookup(t, 0) == Some(OpType::Mul(-1i32))
            && (forall|j: int| 0 <= j < t.len() && t[j].1 is Assign ==> t[j].0 != i32::MIN) {
            Some(t)
        } else {
            None
        },
        None => None,
    }
}

/// The operations that stand for one table entry (the counter cell itself is left out).
pub open spec fn entry_ops(e: (i32, OpType)) -> Seq<ItemModel> {
    if e.0 == 0 {
        Seq::empty()
    } else {
        match e.1 {
            OpType::Mul(v) => seq![ItemModel::Op(Op::Mul(e.0, v, 0))],
            OpType::Assign(v) => seq![
                ItemModel::Op(Op::MovePtr(e.0)),
                ItemModel::Op(Op::Assign(v, 0)),
                ItemModel::Op(Op::MovePtr((-e.0) as i32)),
            ],
        }
    }
}

pub open spec fn emit(t: Seq<(i32, OpType)>) -> Seq<ItemModel>
    decreases t.len(),
{
    if t.len() == 0 {
        Seq::empty()
    } else {
        emit(t.drop_last()) + entry_ops(t.last())
    }
}

pub open spec fn mul_item(item: ItemModel) -> ItemModel
    decreases item,
{
    match item {
        ItemModel::Loop(body) => match mul_table(body) {
            Some(t) => ItemModel::If(emit(t).push(ItemModel::Op(Op::Assign(0, 0)))),
            None => ItemModel::Loop(mul_items(body)),
        },
        ItemModel::If(body) => ItemModel::If(mul_items(body)),
        _ => item,
    }
}

/// Every multiplication loop becomes a conditional of `Mul` (and set) operations that ends by
/// clearing the counter; other loops and conditionals are rewritten inside.
pub open spec fn mul_items(items: Seq<ItemModel>) -> Seq<ItemModel>
    decreases items,
{
    if items.len() == 0 {
        Seq::empty()
    } else {
        mul_items(items.drop_last()).push(mul_item(items.last()))
    }
}

fn plus(t: OpType, x: i32) -> (r: Option<OpType>)
    ensures
        r == op_type_plus(t, x),
{
    match t {
        OpType::Mul(y) => match y.checked_add(x) {
            Some(n) => Some(OpType::Mul(n)),
            None => None,
        },
        OpType::Assign(y) => match y.checked_add(x) {
            Some(n) => Some(OpType::Assign(n)),
            None => None,
        },
    }
}

proof fn lemma_scan_none(items: Seq<ItemModel>, i: int)
    requires
        0 <= i <= items.len(),
        scan(items.take(i)) is None,
    ensures
        scan(items) is None,
    decreases items.len() - i,
{
    if i < items.len() {
        assert(items.take(i + 1).drop_last() =~= items.take(i));
        lemma_scan_none(items, i + 1);
    } else {
        assert(items.take(i) =~= items);
    }
}

fn add_offset(p: i32, of: i32) -> (r: Option<i32>)
    ensures
        match r {
            Some(k) => fits_i32(p + of) && k == p + of,
            None => !fits_i32(p + of),
        },
{
    p.checked_add(of)
}

/// The map holds exactly the entries of the table.
pub open spec fn holds_table(m: Map<i32, OpType>, t: Seq<(i32, OpType)>) -> bool {
    forall|k: i32, v: OpType| (m.contains_key(k) && m[k] == v) <==> #[trigger] t.contains((k, v))
}

fn map_get(m: &BTreeMap<i32, OpType>, key: i32) -> (r: Option<OpType>)
    ensures
        match r {
            Some(v) => m@.contains_key(key) && m@[key] == v,
            None => !m@.contains_key(key),
        },
{
    broadcast use vstd::std_specs::btree::group_btree_axioms;
    match m.get(&key) {
        Some(x) => Some(*x),
        None => None,
    }
}

fn map_set(m: &mut BTreeMap<i32, OpType>, key: i32, v: OpType)
    ensures
        final(m)@ == old(m)@.insert(key, v),
{
    broadcast use vstd::std_specs::btree::group_btree_axioms;
    m.insert(key, v);
}

/// The entries of a map in increasing order of key.
fn map_entries(m: &BTreeMap<i32, OpType>) -> (out: Vec<(i32, OpType)>)
    ensures
        table_sorted(out@),
        holds_table(m@, out@),
{
    broadcast use vstd::std_specs::btree::group_btree_axioms;
    let mut out: Vec<(i32, OpType)> = Vec::new();
    let iter = m.iter();
    let ghost all = vstd::std_specs::iter::IteratorSpec::remaining(&iter);
    let ghost keys = all.map_values(|kv: (&i32, &OpType)| *kv.0);
    assert(vstd::std_specs::btree::increasing_seq(keys));
    assert forall|i: int, j: int| 0 <= i < j < keys.len() implies keys[i] < keys[j] by {
        assert(vstd::std_specs::cmp::OrdSpec::cmp_spec(&keys[i], &keys[j]) is Less);
    }
    for kv in it: iter
        invariant
            out@ == it.seq().take(it.index()).map_values(|kv: (&i32, &OpType)| (*kv.0, *kv.1)),
            it.seq() == all,
    {
        out.push((*kv.0, *kv.1));
    }
    assert(out@.len() == keys.len());
    assert forall|i: int| 0 <= i < out@.len() implies out@[i] == (*all[i].0, *all[i].1) by {}
    assert forall|i: int, j: int| 0 <= i < j < out@.len() implies out@[i].0 < out@[j].0 by {
        assert(out@[i].0 == keys[i]);
        assert(out@[j].0 == keys[j]);
    }
    assert forall|k: i32, v: OpType| (m@.contains_key(k) && m@[k] == v) <==> #[trigger] out@.contains((k, v)) by {
        if m@.contains_key(k) && m@[k] == v {
            assert(all.contains((&k, &m@[k])));
            let j = choose|j: int| 0 <= j < all.len() && all[j] == (&k, &m@[k]);
            assert(out@[j] == (k, v));
        }
        if out@.contains((k, v)) {
            let j = choose|j: int| 0 <= j < out@.len() && out@[j] == (k, v);
            assert(m@.contains_key(*all[j].0) && m@[*all[j].0] == *all[j].1);
        }
    }
    out
}

/// Two tables ordered by key with the same entries are the same table.
proof fn lemma_table_unique(s1: Seq<(i32, OpType)>, s2: Seq<(i32, OpType)>)
    requires
        table_sorted(s1),
        table_sorted(s2),
        forall|e: (i32, OpType)| s1.contains(e) <==> s2.contains(e),
    ensures
        s1 == s2,
    decreases s1.len(),
{
    if s1.len() == 0 {
        if s2.len() > 0 {
            assert(s2.contains(s2[0]));
        }
        assert(s1 =~= s2);
    } else {
        assert(s1.contains(s1[0]));
        assert(s2.len() > 0);
        assert(s2.contains(s2[0]));
        let j = choose|j: int| 0 <= j < s2.len() && s2[j] == s1[0];
        let i = choose|i: int| 0 <= i < s1.len() && s1[i] == s2[0];
        assert(s1[0].0 <= s1[i].0);
        assert(s2[0].0 <= s2[j].0);
        assert(i == 0);
        let r1 = s1.drop_first();
        let r2 = s2.drop_first();
        assert(table_sorted(r1)) by {
            assert forall|a: int, b: int| 0 <= a < b < r1.len() implies r1[a].0 < r1[b].0 by {
                assert(r1[a] == s1[a + 1] && r1[b] == s1[b + 1]);
            }
        }
        assert(table_sorted(r2)) by {
            assert forall|a: int, b: int| 0 <= a < b < r2.len() implies r2[a].0 < r2[b].0 by {
                assert(r2[a] == s2[a + 1] && r2[b] == s2[b + 1]);
            }
        }
        assert forall|e: (i32, OpType)| r1.contains(e) <==> r2.contains(e) by {
            if r1.contains(e) {
                let a = choose|a: int| 0 <= a < r1.len() && r1[a] == e;
                assert(s1[a + 1] == e);
                assert(s1.contains(e));
                let b = choose|b: int| 0 <= b < s2.len() && s2[b] == e;
                assert(s1[0].0 < s1[a + 1].0);
                assert(b != 0);
                assert(r2[b - 1] == e);
            }
            if r2.contains(e) {
                let b = choose|b: int| 0 <= b < r2.len() && r2[b] == e;
                assert(s2[b + 1] == e);
                assert(s2.contains(e));
                let a = choose|a: int| 0 <= a < s1.len() && s1[a] == e;
                assert(s2[0].0 < s2[b + 1].0);
                assert(a != 0);
                assert(r1[a - 1] == e);
            }
        }
        lemma_table_unique(r1, r2);
        assert(s1 =~= seq![s1[0]] + r1);
        assert(s2 =~= seq![s2[0]] + r2);
    }
}

/// Where a map holds an ordered table, looking a key up in either gives the same.
proof fn lemma_holds_lookup(m: Map<i32, OpType>, t: Seq<(i32, OpType)>, key: i32)
    requires
        table_sorted(t),
        holds_table(m, t),
    ensures
        table_lookup(t, key) == (if m.contains_key(key) { Some(m[key]) } else { None::<OpType> }),
        0 <= table_pos(t, key) <= t.len(),
        forall|j: int| 0 <= j < table_pos(t, key) ==> t[j].0 < key,
        table_pos(t, key) < t.len() ==> t[table_pos(t, key)].0 >= key,
{
    lemma_table_pos_bounds(t, key);
    let p = table_pos(t, key);
    if p < t.len() && t[p].0 == key {
        assert(t.contains((key, t[p].1)));
    } else if m.contains_key(key) {
        assert(t.contains((key, m[key])));
        let j = choose|j: int| 0 <= j < t.len() && t[j] == (key, m[key]);
        if j < p {
        } else if p < t.len() {
            assert(t[p].0 > key);
            assert(j == p || t[p].0 < t[j].0);
        }
    }
}

proof fn lemma_table_pos_bounds(t: Seq<(i32, OpType)>, key: i32)
    ensures
        0 <= table_pos(t, key) <= t.len(),
        forall|j: int| 0 <= j < table_pos(t, key) ==> t[j].0 < key,
        table_pos(t, key) < t.len() ==> t[table_pos(t, key)].0 >= key,
    decreases t.len(),
{
    if t.len() > 0 && t[0].0 < key {
        lemma_table_pos_bounds(t.drop_first(), key);
        assert forall|j: int| 0 <= j < table_pos(t, key) implies t[j].0 < key by {
            if j > 0 {
                assert(t[j] == t.drop_first()[j - 1]);
            }
        }
        if table_pos(t, key) < t.len() {
            assert(t[table_pos(t, key)] == t.drop_first()[table_pos(t, key) - 1]);
        }
    }
}

/// Setting the entry of `key` in an ordered table keeps it ordered, and is setting it in the map.
proof fn lemma_holds_set(m: Map<i32, OpType>, t: Seq<(i32, OpType)>, key: i32, v: OpType)
    requires
        table_sorted(t),
        holds_table(m, t),
    ensures
        ({
            let p = table_pos(t, key);
            let n = if p < t.len() && t[p].0 == key { t.update(p, (key, v)) } else { t.insert(p, (key, v)) };
            table_sorted(n) && holds_table(m.insert(key, v), n)
        }),
{
    lemma_holds_lookup(m, t, key);
    let p = table_pos(t, key);
    let found = p < t.len() && t[p].0 == key;
    let n = if found { t.update(p, (key, v)) } else { t.insert(p, (key, v)) };
    let m2 = m.insert(key, v);
    assert(table_sorted(n)) by {
        assert forall|a: int, b: int| 0 <= a < b < n.len() implies n[a].0 < n[b].0 by {
            if found {
                if a != p { assert(n[a] == t[a]); }
                if b != p { assert(n[b] == t[b]); }
            } else {
                if b < p {
                } else if b == p {
                } else if a == p {
                    assert(n[b] == t[b - 1]);
                    assert(t[p].0 <= t[b - 1].0 || b - 1 == p);
                } else if a < p {
                    assert(n[b] == t[b - 1]);
                    assert(t[p].0 <= t[b - 1].0 || b - 1 == p);
                } else {
                    assert(n[a] == t[a - 1] && n[b] == t[b - 1]);
                }
            }
        }
    }
    assert forall|k: i32, w: OpType| (m2.contains_key(k) && m2[k] == w) <==> #[trigger] n.contains((k, w)) by {
        if k == key {
            if w == v {
                assert(n[p] == (key, v));
            }
            if n.contains((k, w)) {
                let j = choose|j: int| 0 <= j < n.len() && n[j] == (k, w);
                if j != p {
                    if found || j < p {
                        assert(n[j] == t[if found || j < p { j } else { j - 1 }]);
                    }
                    if j < p {
                        assert(t[j].0 < key);
                    } else if found {
                        assert(t[p].0 < t[j].0);
                    } else {
                        assert(n[j] == t[j - 1]);
                        assert(t[p].0 <= t[j - 1].0 || j - 1 == p);
                    }
                }
            }
        } else {
            if m.contains_key(k) && m[k] == w {
                assert(t.contains((k, w)));
                let j = choose|j: int| 0 <= j < t.len() && t[j] == (k, w);
                if found {
                    assert(j != p);
                    assert(n[j] == (k, w));
                } else if j < p {
                    assert(n[j] == (k, w));
                } else {
                    assert(n[j + 1] == (k, w));
                }
            }
            if n.contains((k, w)) {
                let j = choose|j: int| 0 <= j < n.len() && n[j] == (k, w);
                if found {
                    assert(j != p);
                    assert(t[j] == (k, w));
                } else if j < p {
                    assert(t[j] == (k, w));
                } else {
                    assert(j != p);
                    assert(t[j - 1] == (k, w));
                }
                assert(t.contains((k, w)));
            }
        }
    }
}

/// The table of a multiplication loop, or `None` when the loop is not one.
fn is_optimizable_loop(loop_block: &Block) -> (r: Option<Vec<(i32, OpType)>>)
    ensures
        match mul_table(loop_block@) {
            Some(t) => r matches Some(v) && v@ == t,
            None => r is None,
        },
{
    let ghost model = loop_block@;
    let items = &loop_block.items;
    proof {
        lemma_items_model_len(items@);
        assert(model.take(0) =~= Seq::<ItemModel>::empty());
    }
    let mut offset_op: BTreeMap<i32, OpType> = BTreeMap::new();
    let ghost mut table: Seq<(i32, OpType)> = Seq::empty();
    let mut ptr_offset: i32 = 0;
    let mut i: usize = 0;
    while i < items.len()
        invariant
            model == loop_block@,
            model == items_model(items@),
            model.len() == items@.len(),
            i <= items@.len(),
            scan(model.take(i as int)) == Some((table, ptr_offset)),
            table_sorted(table),
            holds_table(offset_op@, table),
        decreases items@.len() - i,
    {
        proof {
            lemma_items_model_index(items@, i as int);
            assert(model.take(i + 1).drop_last() =~= model.take(i as int));
            assert(model.take(i + 1).last() == model[i as int]);
        }
        match &items[i] {
            BlockItem::Op(Op::Add(v, of)) => {
                match add_offset(ptr_offset, *of) {
                    Some(key) => {
                        proof { lemma_holds_lookup(offset_op@, table, key); }
                        let entry = match map_get(&offset_op, key) {
                            Some(x) => match plus(x, *v) {
                                Some(n) => n,
                                None => {
                                    proof {
                                        assert(table_add(table, key, *v) is None);
                                        assert(scan(model.take(i + 1)) is None);
                                        lemma_scan_none(model, i + 1);
                                    }
                                    return None;
                                },
                            },
                            None => OpType::Mul(*v),
                        };
                        proof {
                            lemma_holds_set(offset_op@, table, key, entry);
                            table = table_add(table, key, *v)->0;
                        }
                        map_set(&mut offset_op, key, entry);
                    },
                    None => {
                        proof { lemma_scan_none(model, i + 1); }
                        return None;
                    },
                }
            },
            BlockItem::Op(Op::MovePtr(of)) => {
                match add_offset(ptr_offset, *of) {
                    Some(n) => {
                        ptr_offset = n;
                    },
                    None => {
                        proof { lemma_scan_none(model, i + 1); }
                        return None;
                    },
                }
            },
            BlockItem::Op(Op::Assign(v, of)) => {
                match add_offset(ptr_offset, *of) {
                    Some(key) => {
                        proof {
                            lemma_holds_set(offset_op@, table, key, OpType::Assign(*v));
                            table = table_assign(table, key, *v);
                        }
                        map_set(&mut offset_op, key, OpType::Assign(*v));
                    },
                    None => {
                        proof { lemma_scan_none(model, i + 1); }
                        return None;
                    },
                }
            },
            _ => {
                proof {
                    assert(scan(model.take(i + 1)) is None);
                    lemma_scan_none(model, i + 1);
                }
                return None;
            },
        }
        i = i + 1;
    }
    proof {
        assert(model.take(items@.len() as int) =~= model);
    }
    if ptr_offset != 0 {
        return None;
    }
    proof { lemma_holds_lookup(offset_op@, table, 0); }
    match map_get(&offset_op, 0) {
        Some(OpType::Mul(-1)) => {},
        _ => return None,
    }
    let entries = map_entries(&offset_op);
    proof {
        assert forall|e: (i32, OpType)| entries@.contains(e) <==> table.contains(e) by {
            assert(entries@.contains((e.0, e.1)) <==> (offset_op@.contains_key(e.0) && offset_op@[e.0] == e.1));
            assert(table.contains((e.0, e.1)) <==> (offset_op@.contains_key(e.0) && offset_op@[e.0] == e.1));
        }
        lemma_table_unique(entries@, table);
    }
    let mut j: usize = 0;
    while j < entries.len()
        invariant
            model == loop_block@,
            scan(model) == Some((entries@, 0i32)),
            table_lookup(entries@, 0) == Some(OpType::Mul(-1i32)),
            j <= entries@.len(),
            forall|k: int| 0 <= k < j && entries@[k].1 is Assign ==> entries@[k].0 != i32::MIN,
        decreases entries@.len() - j,
    {
        if matches!(entries[j].1, OpType::Assign(_)) && entries[j].0 == i32::MIN {
            return None;
        }
        j = j + 1;
    }
    Some(entries)
}

/// The body of the conditional that replaces a multiplication loop.
fn mul_ops(table: &Vec<(i32, OpType)>) -> (r: Vec<BlockItem>)
    requires
        forall|k: int| 0 <= k < table@.len() && table@[k].1 is Assign ==> table@[k].0 != i32::MIN,
    ensures
        items_model(r@) == emit(table@).push(ItemModel::Op(Op::Assign(0, 0))),
{
    let mut out: Vec<BlockItem> = Vec::new();
    let mut j: usize = 0;
    proof {
        assert(table@.take(0) =~= Seq::<(i32, OpType)>::empty());
    }
    while j < table.len()
        invariant
            j <= table@.len(),
            forall|k: int| 0 <= k < table@.len() && table@[k].1 is Assign ==> table@[k].0 != i32::MIN,
            items_model(out@) == emit(table@.take(j as int)),
        decreases table@.len() - j,
    {
        let (offset, value) = table[j];
        proof {
            assert(table@.take(j + 1).drop_last() =~= table@.take(j as int));
            assert(table@.take(j + 1).last() == table@[j as int]);
        }
        if offset != 0 {
            match value {
                OpType::Mul(v) => {
                    proof { lemma_items_model_push(out@, BlockItem::Op(Op::Mul(offset, v, 0))); }
                    out.push(BlockItem::Op(Op::Mul(offset, v, 0)));
                },
                OpType::Assign(v) => {
                    let ghost s0 = out@;
                    let back = -offset;
                    out.push(BlockItem::Op(Op::ptr(offset)));
                    out.push(BlockItem::Op(Op::Assign(v, 0)));
                    out.push(BlockItem::Op(Op::ptr(back)));
                    proof {
                        lemma_items_model_push(s0, BlockItem::Op(Op::MovePtr(offset)));
                        lemma_items_model_push(s0.push(BlockItem::Op(Op::MovePtr(offset))), BlockItem::Op(Op::Assign(v, 0)));
                        lemma_items_model_push(s0.push(BlockItem::Op(Op::MovePtr(offset))).push(BlockItem::Op(Op::Assign(v, 0))),
                            BlockItem::Op(Op::MovePtr(back)));
                        assert(out@ =~= s0.push(BlockItem::Op(Op::MovePtr(offset))).push(BlockItem::Op(Op::Assign(v, 0))).push(BlockItem::Op(Op::MovePtr(back))));
                        assert(items_model(out@) =~= items_model(s0) + entry_ops(table@[j as int]));
                    }
                },
            }
        } else {
            proof { assert(items_model(out@) =~= items_model(out@) + entry_ops(table@[j as int])); }
        }
        j = j + 1;
    }
    proof {
        assert(table@.take(table@.len() as int) =~= table@);
        lemma_items_model_push(out@, BlockItem::Op(Op::Assign(0, 0)));
    }
    out.push(BlockItem::Op(Op::Assign(0, 0)));
    out
}

proof fn lemma_mul_prefix(items: Seq<ItemModel>, i: int)
    requires
        0 <= i < items.len(),
    ensures
        mul_items(items.take(i + 1)) == mul_items(items.take(i)).push(mul_item(items[i])),
{
    assert(items.take(i + 1).drop_last() =~= items.take(i));
}

fn mul_vec(items: Vec<BlockItem>) -> (r: Vec<BlockItem>)
    ensures
        items_model(r@) == mul_items(items_model(items@)),
    decreases items_model(items@),
{
    let ghost model = items_model(items@);
    let mut out: Vec<BlockItem> = Vec::new();
    let mut rest = reversed(items);
    proof {
        lemma_items_model_len(items@);
        assert(model.take(0) =~= Seq::<ItemModel>::empty());
    }
    let n = rest.len();
    let mut i: usize = 0;
    while i < n
        invariant
            n == items@.len(),
            model == items_model(items@),
            model.len() == n,
            i <= n,
            rest@.len() == n - i,
            forall|k: int| 0 <= k < n - i ==> #[trigger] rest@[k] == items@[n - 1 - k],
            items_model(out@) == mul_items(model.take(i as int)),
        decreases n - i,
    {
        let item = rest.pop().unwrap();
        proof {
            assert(item == items@[i as int]);
            lemma_items_model_index(items@, i as int);
            lemma_mul_prefix(model, i as int);
            assert(decreases_to!(model => model[i as int]));
        }
        let new_item = match item {
            BlockItem::Loop(block) => {
                match is_optimizable_loop(&block) {
                    Some(table) => BlockItem::If(Block::from_items(mul_ops(&table))),
                    None => BlockItem::Loop(Block::from_items(mul_vec(block.items))),
                }
            },
            BlockItem::If(block) => BlockItem::If(Block::from_items(mul_vec(block.items))),
            other => other,
        };
        proof {
            lemma_items_model_push(out@, new_item);
        }
        out.push(new_item);
        i = i + 1;
    }
    proof {
        assert(model.take(n as int) =~= model);
    }
    out
}

/// Turns every loop that multiplies its counter into other cells into a conditional.
pub fn mul(block: &mut Block)
    ensures
        final(block)@ == mul_items(old(block)@),
{
    let mut items: Vec<BlockItem> = Vec::new();
    std::mem::swap(&mut items, &mut block.items);
    block.items = mul_vec(items);
}


pub open spec fn add_wrapping(x: i32, y: i32) -> i32 {
    vstd::wrapping::i32_specs::wrapping_add(x, y)
}

pub open spec fn item_lick_free(item: ItemModel) -> bool
    decreases item,
{
    match item {
        ItemModel::Op(op) => !(op is Lick),
        ItemModel::Loop(body) => lick_free(body),
        ItemModel::If(body) => lick_free(body),
    }
}

/// No `Lick` operation at any depth.
pub open spec fn lick_free(items: Seq<ItemModel>) -> bool
    decreases items,
{
    if items.len() == 0 {
        true
    } else {
        lick_free(items.drop_last()) && item_lick_free(items.last())
    }
}

pub proof fn lemma_lick_free_index(items: Seq<ItemModel>, k: int)
    requires
        lick_free(items),
        0 <= k < items.len(),
    ensures
        item_lick_free(items[k]),
    decreases items.len(),
{
    if k < items.len() - 1 {
        lemma_lick_free_index(items.drop_last(), k);
    }
}

/// An operation moved to address `offset` cells further.
pub open spec fn shifted(op: Op, offset: i32) -> Op {
    match op_offset(op) {
        Some(o) => with_offset(op, add_wrapping(o, offset)),
        None => op,
    }
}

/// Within each run of operations between loops, pointer moves are folded into the offsets of
/// the operations after them, and the run ends with one move by the total.
pub open spec fn offset_fold(items: Seq<ItemModel>, offset: i32) -> Seq<ItemModel>
    decreases items, 0int,
{
    if items.len() == 0 {
        seq![ItemModel::Op(Op::MovePtr(offset))]
    } else {
        let rest = items.drop_first();
        match items[0] {
            ItemModel::Op(Op::MovePtr(x)) => offset_fold(rest, add_wrapping(offset, x)),
            ItemModel::Op(op) => seq![ItemModel::Op(shifted(op, offset))] + offset_fold(rest, offset),
            ItemModel::Loop(body) => seq![ItemModel::Op(Op::MovePtr(offset)), ItemModel::Loop(offset_items(body))]
                + offset_fold(rest, 0),
            ItemModel::If(body) => seq![ItemModel::Op(Op::MovePtr(offset)), ItemModel::If(offset_items(body))]
                + offset_fold(rest, 0),
        }
    }
}

pub open spec fn offset_items(items: Seq<ItemModel>) -> Seq<ItemModel>
    decreases items, 1int,
{
    offset_fold(items, 0)
}

fn shift_op(op: Op, offset: i32) -> (r: Op)
    ensures
        r == shifted(op, offset),
{
    match op {
        Op::Add(x, o) => Op::Add(x, o.wrapping_add(offset)),
        Op::Mul(to, x, o) => Op::Mul(to, x, o.wrapping_add(offset)),
        Op::Assign(x, o) => Op::Assign(x, o.wrapping_add(offset)),
        Op::Out(o) => Op::Out(o.wrapping_add(offset)),
        Op::Input(o) => Op::Input(o.wrapping_add(offset)),
        _ => op,
    }
}

/// Folds pointer moves into the offsets of the operations that follow them, run by run,
/// at every depth. Offsets wrap around in `i32`.
pub fn offset_opt(block: &Block) -> (r: Block)
    requires
        lick_free(block@),
    ensures
        r@ == offset_items(block@),
    decreases block@,
{
    let ghost model = block@;
    let items = &block.items;
    proof {
        lemma_items_model_len(items@);
        assert(model.skip(0) =~= model);
    }
    let mut out: Vec<BlockItem> = Vec::new();
    let mut offset: i32 = 0;
    let mut i: usize = 0;
    while i < items.len()
        invariant
            model == block@,
            model == items_model(items@),
            model.len() == items@.len(),
            lick_free(model),
            i <= items@.len(),
            items_model(out@) + offset_fold(model.skip(i as int), offset) == offset_items(model),
        decreases items@.len() - i,
    {
        proof {
            lemma_items_model_index(items@, i as int);
            lemma_lick_free_index(model, i as int);
            assert(model.skip(i as int)[0] == model[i as int]);
            assert(model.skip(i as int).drop_first() =~= model.skip(i + 1));
        }
        let ghost before = items_model(out@);
        match &items[i] {
            BlockItem::Op(Op::MovePtr(x)) => {
                offset = offset.wrapping_add(*x);
            },
            BlockItem::Op(op) => {
                let shifted_op = shift_op(*op, offset);
                proof {
                    lemma_items_model_push(out@, BlockItem::Op(shifted_op));
                    assert(before + offset_fold(model.skip(i as int), offset)
                        =~= before.push(ItemModel::Op(shifted_op)) + offset_fold(model.skip(i + 1), offset));
                }
                out.push(BlockItem::Op(shifted_op));
            },
            BlockItem::Loop(loop_block) => {
                proof {
                    assert(decreases_to!(model => model[i as int]));
                }
                let inner = offset_opt(loop_block);
                proof {
                    lemma_items_model_push(out@, BlockItem::Op(Op::MovePtr(offset)));
                    lemma_items_model_push(out@.push(BlockItem::Op(Op::MovePtr(offset))), BlockItem::Loop(inner));
                    assert(before + offset_fold(model.skip(i as int), offset)
                        =~= before.push(ItemModel::Op(Op::MovePtr(offset))).push(ItemModel::Loop(inner@))
                            + offset_fold(model.skip(i + 1), 0));
                }
                out.push(BlockItem::Op(Op::ptr(offset)));
                out.push(BlockItem::Loop(inner));
                offset = 0;
            },
            BlockItem::If(if_block) => {
                proof {
                    assert(decreases_to!(model => model[i as int]));
                }
                let inner = offset_opt(if_block);
                proof {
                    lemma_items_model_push(out@, BlockItem::Op(Op::MovePtr(offset)));
                    lemma_items_model_push(out@.push(BlockItem::Op(Op::MovePtr(offset))), BlockItem::If(inner));
                    assert(before + offset_fold(model.skip(i as int), offset)
                        =~= before.push(ItemModel::Op(Op::MovePtr(offset))).push(ItemModel::If(inner@))
                            + offset_fold(model.skip(i + 1), 0));
                }
                out.push(BlockItem::Op(Op::ptr(offset)));
                out.push(BlockItem::If(inner));
                offset = 0;
            },
        }
        i = i + 1;
    }
    proof {
        assert(model.skip(items@.len() as int) =~= Seq::<ItemModel>::empty());
        lemma_items_model_push(out@, BlockItem::Op(Op::MovePtr(offset)));
    }
    out.push(BlockItem::Op(Op::ptr(offset)));
    Block::from_items(out)
}


pub(crate) proof fn lemma_lick_free_push(items: Seq<ItemModel>, item: ItemModel)
    ensures
        lick_free(items.push(item)) == (lick_free(items) && item_lick_free(item)),
{
    assert(items.push(item).drop_last() =~= items);
}

pub(crate) proof fn lemma_lick_free_concat(a: Seq<ItemModel>, b: Seq<ItemModel>)
    requires
        lick_free(a),
        lick_free(b),
    ensures
        lick_free(a + b),
    decreases b.len(),
{
    if b.len() == 0 {
        assert(a + b =~= a);
    } else {
        lemma_lick_free_concat(a, b.drop_last());
        assert((a + b).drop_last() =~= a + b.drop_last());
    }
}

proof fn lemma_clear_item_lick_free(item: ItemModel)
    requires
        item_lick_free(item),
    ensures
        item_lick_free(clear_item(item)),
    decreases item,
{
    if let ItemModel::Loop(body) = item {
        if !clears_cell(body) {
            lemma_clear_lick_free(body);
        }
    }
}

/// Clearing loops brings in no scan.
pub proof fn lemma_clear_lick_free(items: Seq<ItemModel>)
    requires
        lick_free(items),
    ensures
        lick_free(clear_items(items)),
    decreases items,
{
    if items.len() > 0 {
        lemma_clear_lick_free(items.drop_last());
        lemma_clear_item_lick_free(items.last());
        lemma_lick_free_push(clear_items(items.drop_last()), clear_item(items.last()));
    }
}

proof fn lemma_unwrap_item_lick_free(item: ItemModel)
    requires
        item_lick_free(item),
    ensures
        item_lick_free(unwrap_item(item)),
    decreases item,
{
    if let ItemModel::Loop(body) = item {
        if body.len() == 1 && body[0] is Loop {
            lemma_lick_free_index(body, 0);
            lemma_unwrap_item_lick_free(body[0]);
        } else {
            lemma_unwrap_lick_free(body);
        }
    }
}

/// Unwrapping nested loops brings in no scan.
pub proof fn lemma_unwrap_lick_free(items: Seq<ItemModel>)
    requires
        lick_free(items),
    ensures
        lick_free(unwrap_items(items)),
    decreases items,
{
    if items.len() > 0 {
        lemma_unwrap_lick_free(items.drop_last());
        lemma_unwrap_item_lick_free(items.last());
        lemma_lick_free_push(unwrap_items(items.drop_last()), unwrap_item(items.last()));
    }
}

proof fn lemma_if_item_lick_free(item: ItemModel)
    requires
        item_lick_free(item),
    ensures
        item_lick_free(if_item(item)),
    decreases item,
{
    match item {
        ItemModel::Loop(body) => lemma_if_lick_free(body),
        ItemModel::If(body) => lemma_if_lick_free(body),
        _ => {},
    }
}

/// Turning loops into conditionals brings in no scan.
pub proof fn lemma_if_lick_free(items: Seq<ItemModel>)
    requires
        lick_free(items),
    ensures
        lick_free(if_items(items)),
    decreases items,
{
    if items.len() > 0 {
        lemma_if_lick_free(items.drop_last());
        lemma_if_item_lick_free(items.last());
        lemma_lick_free_push(if_items(items.drop_last()), if_item(items.last()));
    }
}

proof fn lemma_emit_lick_free(t: Seq<(i32, OpType)>)
    ensures
        lick_free(emit(t)),
    decreases t.len(),
{
    if t.len() > 0 {
        lemma_emit_lick_free(t.drop_last());
        let e = entry_ops(t.last());
        assert(lick_free(e)) by {
            reveal_with_fuel(lick_free, 4);
            if e.len() == 3 {
                assert(e.drop_last().drop_last().drop_last() =~= Seq::<ItemModel>::empty());
            } else if e.len() == 1 {
                assert(e.drop_last() =~= Seq::<ItemModel>::empty());
            }
        }
        lemma_lick_free_concat(emit(t.drop_last()), e);
    }
}

proof fn lemma_mul_item_lick_free(item: ItemModel)
    requires
        item_lick_free(item),
    ensures
        item_lick_free(mul_item(item)),
    decreases item,
{
    match item {
        ItemModel::Loop(body) => match mul_table(body) {
            Some(t) => {
                lemma_emit_lick_free(t);
                lemma_lick_free_push(emit(t), ItemModel::Op(Op::Assign(0, 0)));
            },
            None => lemma_mul_lick_free(body),
        },
        ItemModel::If(body) => lemma_mul_lick_free(body),
        _ => {},
    }
}

/// Turning loops into multiplications brings in no scan.
pub proof fn lemma_mul_lick_free(items: Seq<ItemModel>)
    requires
        lick_free(items),
    ensures
        lick_free(mul_items(items)),
    decreases items,
{
    if items.len() > 0 {
        lemma_mul_lick_free(items.drop_last());
        lemma_mul_item_lick_free(items.last());
        lemma_lick_free_push(mul_items(items.drop_last()), mul_item(items.last()));
    }
}

proof fn lemma_settle_lick_free(acc: Seq<ItemModel>)
    requires
        lick_free(acc),
    ensures
        lick_free(settle(acc)),
    decreases acc.len(),
{
    if acc.len() >= 2 && acc[acc.len() - 2] is Op && acc.last() is Op
        && op_sum_fits(acc[acc.len() - 2]->Op_0, acc.last()->Op_0)
        && op_sum(acc[acc.len() - 2]->Op_0, acc.last()->Op_0) is Some {
        let a = acc[acc.len() - 2]->Op_0;
        let b = acc.last()->Op_0;
        let front = acc.take(acc.len() - 2);
        lemma_lick_free_index(acc, acc.len() - 2);
        lemma_lick_free_index(acc, acc.len() - 1);
        assert(lick_free(acc.drop_last()));
        assert(lick_free(acc.drop_last().drop_last()));
        assert(acc.drop_last().drop_last() =~= front);
        lemma_lick_free_push(front, ItemModel::Op(op_sum(a, b)->0));
        lemma_settle_lick_free(front.push(ItemModel::Op(op_sum(a, b)->0)));
    }
}

proof fn lemma_merge_item_lick_free(item: ItemModel)
    requires
        item_lick_free(item),
    ensures
        item_lick_free(merge_item(item)),
    decreases item,
{
    match item {
        ItemModel::Loop(body) => lemma_merge_fold_lick_free(Seq::empty(), body),
        ItemModel::If(body) => lemma_merge_fold_lick_free(Seq::empty(), body),
        _ => {},
    }
}

proof fn lemma_merge_fold_lick_free(start: Seq<ItemModel>, items: Seq<ItemModel>)
    requires
        lick_free(start),
        lick_free(items),
    ensures
        lick_free(merge_fold(start, items)),
    decreases items,
{
    if items.len() > 0 {
        lemma_merge_fold_lick_free(start, items.drop_last());
        lemma_merge_item_lick_free(items.last());
        lemma_lick_free_push(merge_fold(start, items.drop_last()), merge_item(items.last()));
        lemma_settle_lick_free(merge_fold(start, items.drop_last()).push(merge_item(items.last())));
    }
}

/// Fusing operations brings in no scan.
pub proof fn lemma_merge_lick_free(items: Seq<ItemModel>, is_top_level: bool)
    requires
        lick_free(items),
    ensures
        lick_free(merge_items(items, is_top_level)),
{
    if is_top_level {
        let start = seq![ItemModel::Op(Op::Assign(0, 0))];
        assert(start =~= Seq::<ItemModel>::empty().push(ItemModel::Op(Op::Assign(0, 0))));
        lemma_lick_free_push(Seq::<ItemModel>::empty(), ItemModel::Op(Op::Assign(0, 0)));
        lemma_merge_fold_lick_free(start, items);
        let r = merge_fold(start, items);
        if r.len() > 0 && r[0] == ItemModel::Op(Op::Assign(0, 0)) {
            assert forall|k: int| 0 <= k < r.drop_first().len() implies item_lick_free(#[trigger] r.drop_first()[k]) by {
                lemma_lick_free_index(r, k + 1);
            }
            lemma_lick_free_from_items(r.drop_first());
        }
    } else {
        lemma_merge_fold_lick_free(Seq::empty(), items);
    }
}

proof fn lemma_lick_free_from_items(items: Seq<ItemModel>)
    requires
        forall|k: int| 0 <= k < items.len() ==> item_lick_free(#[trigger] items[k]),
    ensures
        lick_free(items),
    decreases items.len(),
{
    if items.len() > 0 {
        lemma_lick_free_from_items(items.drop_last());
    }
}


pub open spec fn sub_wrapping(x: i32, y: i32) -> i32 {
    vstd::wrapping::i32_specs::wrapping_sub(x, y)
}

pub open spec fn min_i32(a: i32, b: i32) -> i32 {
    if a <= b { a } else { b }
}

/// An operation addressing `-n` cells further (`n` is the most negative offset of its run).
pub open spec fn lowered(op: Op, n: i32) -> Op {
    match op_offset(op) {
        Some(o) => with_offset(op, sub_wrapping(o, n)),
        None => op,
    }
}

pub open spec fn ops_model(ops: Seq<Op>) -> Seq<ItemModel> {
    ops.map_values(|op: Op| ItemModel::Op(op))
}

/// A run of operations whose lowest addressed offset is `min`: when that is negative, the run
/// moves there first, addresses only non-negative offsets, and moves back.
pub open spec fn flush(ops: Seq<Op>, min: i32) -> Seq<ItemModel> {
    if min < 0 {
        seq![ItemModel::Op(Op::MovePtr(min))]
            + ops.map_values(|op: Op| ItemModel::Op(lowered(op, min)))
            + seq![ItemModel::Op(Op::MovePtr(sub_wrapping(0, min)))]
    } else {
        ops_model(ops)
    }
}

/// Runs of operations are collected with the pointer offset so far and the lowest offset they
/// address; each run is flushed before the loop or conditional that ends it.
pub open spec fn nonneg_fold(items: Seq<ItemModel>, ops: Seq<Op>, offset: i32, min: i32) -> Seq<ItemModel>
    decreases items, 0int,
{
    if items.len() == 0 {
        flush(ops, min)
    } else {
        let rest = items.drop_first();
        match items[0] {
            ItemModel::Op(op) => nonneg_fold(
                rest,
                ops.push(op),
                match op {
                    Op::MovePtr(m) => add_wrapping(offset, m),
                    _ => offset,
                },
                match op_offset(op) {
                    Some(o) => min_i32(min, add_wrapping(o, offset)),
                    None => min,
                },
            ),
            ItemModel::Loop(body) => flush(ops, min) + seq![ItemModel::Loop(nonneg_items(body))]
                + nonneg_fold(rest, Seq::empty(), 0, 0),
            ItemModel::If(body) => flush(ops, min) + seq![ItemModel::If(nonneg_items(body))]
                + nonneg_fold(rest, Seq::empty(), 0, 0),
        }
    }
}

pub open spec fn nonneg_items(items: Seq<ItemModel>) -> Seq<ItemModel>
    decreases items, 1int,
{
    nonneg_fold(items, Seq::empty(), 0, 0)
}

fn lower_op(op: Op, n: i32) -> (r: Op)
    ensures
        r == lowered(op, n),
{
    match op {
        Op::Add(x, o) => Op::Add(x, o.wrapping_sub(n)),
        Op::Mul(to, x, o) => Op::Mul(to, x, o.wrapping_sub(n)),
        Op::Assign(x, o) => Op::Assign(x, o.wrapping_sub(n)),
        Op::Out(o) => Op::Out(o.wrapping_sub(n)),
        Op::Input(o) => Op::Input(o.wrapping_sub(n)),
        _ => op,
    }
}

/// Lowers every operation of a run by `negative_offset` and brackets the run with the moves.
fn map_ops(ops: &mut Vec<Op>, negative_offset: i32)
    requires
        negative_offset < 0,
    ensures
        ops_model(final(ops)@) == flush(old(ops)@, negative_offset),
{
    let ghost orig = ops@;
    let mut i: usize = 0;
    while i < ops.len()
        invariant
            ops@.len() == orig.len(),
            i <= ops@.len(),
            forall|k: int| 0 <= k < i ==> ops@[k] == lowered(orig[k], negative_offset),
            forall|k: int| i <= k < ops@.len() ==> ops@[k] == orig[k],
        decreases ops@.len() - i,
    {
        let lowered_op = lower_op(ops[i], negative_offset);
        ops.set(i, lowered_op);
        i = i + 1;
    }
    let ghost mid = ops@;
    ops.insert(0, Op::ptr(negative_offset));
    ops.push(Op::ptr(0i32.wrapping_sub(negative_offset)));
    proof {
        assert(ops_model(ops@) =~= flush(orig, negative_offset));
    }
}

fn extend_ops(out: &mut Vec<BlockItem>, ops: &Vec<Op>)
    ensures
        items_model(final(out)@) == items_model(old(out)@) + ops_model(ops@),
{
    let mut i: usize = 0;
    proof {
        assert(items_model(out@) =~= items_model(old(out)@) + ops_model(ops@.take(0)));
    }
    while i < ops.len()
        invariant
            i <= ops@.len(),
            items_model(out@) == items_model(old(out)@) + ops_model(ops@.take(i as int)),
        decreases ops@.len() - i,
    {
        proof {
            lemma_items_model_push(out@, BlockItem::Op(ops@[i as int]));
            assert(ops_model(ops@.take(i + 1)) =~= ops_model(ops@.take(i as int)).push(ItemModel::Op(ops@[i as int])));
        }
        out.push(BlockItem::Op(ops[i]));
        i = i + 1;
    }
    proof {
        assert(ops@.take(ops@.len() as int) =~= ops@);
    }
}

fn flush_ops(out: &mut Vec<BlockItem>, ops: &mut Vec<Op>, min_offset: i32)
    ensures
        items_model(final(out)@) == items_model(old(out)@) + flush(old(ops)@, min_offset),
{
    if min_offset < 0 {
        map_ops(ops, min_offset);
    }
    extend_ops(out, ops);
}

/// Makes every offset that an operation addresses non-negative, run by run: a run whose lowest
/// offset is negative first moves the pointer there and moves it back at its end. Offsets wrap
/// around in `i32`.
pub fn to_not_negative_offset(block: &Block) -> (r: Block)
    ensures
        r@ == nonneg_items(block@),
    decreases block@,
{
    let ghost model = block@;
    let items = &block.items;
    proof {
        lemma_items_model_len(items@);
        assert(model.skip(0) =~= model);
    }
    let mut out: Vec<BlockItem> = Vec::new();
    let mut ops: Vec<Op> = Vec::new();
    let mut offset: i32 = 0;
    let mut min_offset: i32 = 0;
    let mut i: usize = 0;
    while i < items.len()
        invariant
            model == block@,
            model == items_model(items@),
            model.len() == items@.len(),
            i <= items@.len(),
            items_model(out@) + nonneg_fold(model.skip(i as int), ops@, offset, min_offset) == nonneg_items(model),
        decreases items@.len() - i,
    {
        proof {
            lemma_items_model_index(items@, i as int);
            assert(model.skip(i as int)[0] == model[i as int]);
            assert(model.skip(i as int).drop_first() =~= model.skip(i + 1));
        }
        let ghost before = items_model(out@);
        match &items[i] {
            BlockItem::Op(op) => {
                if let Some(op_offset) = op.offset() {
                    let reached = op_offset.wrapping_add(offset);
                    if reached < min_offset {
                        min_offset = reached;
                    }
                }
                if let Op::MovePtr(moving) = op {
                    offset = offset.wrapping_add(*moving);
                }
                ops.push(*op);
            },
            BlockItem::Loop(loop_block) => {
                proof {
                    assert(decreases_to!(model => model[i as int]));
                }
                let inner = to_not_negative_offset(loop_block);
                let ghost run = ops@;
                let ghost run_min = min_offset;
                flush_ops(&mut out, &mut ops, min_offset);
                proof {
                    lemma_items_model_push(out@, BlockItem::Loop(inner));
                    assert(before + nonneg_fold(model.skip(i as int), run, offset, run_min)
                        =~= (before + flush(run, run_min)).push(ItemModel::Loop(inner@))
                            + nonneg_fold(model.skip(i + 1), Seq::empty(), 0, 0));
                }
                out.push(BlockItem::Loop(inner));
                ops = Vec::new();
                offset = 0;
                min_offset = 0;
            },
            BlockItem::If(if_block) => {
                proof {
                    assert(decreases_to!(model => model[i as int]));
                }
                let inner = to_not_negative_offset(if_block);
                let ghost run = ops@;
                let ghost run_min = min_offset;
                flush_ops(&mut out, &mut ops, min_offset);
                proof {
                    lemma_items_model_push(out@, BlockItem::If(inner));
                    assert(before + nonneg_fold(model.skip(i as int), run, offset, run_min)
                        =~= (before + flush(run, run_min)).push(ItemModel::If(inner@))
                            + nonneg_fold(model.skip(i + 1), Seq::empty(), 0, 0));
                }
                out.push(BlockItem::If(inner));
                ops = Vec::new();
                offset = 0;
                min_offset = 0;
            },
        }
        i = i + 1;
    }
    proof {
        assert(model.skip(items@.len() as int) =~= Seq::<ItemModel>::empty());
    }
    flush_ops(&mut out, &mut ops, min_offset);
    Block::from_items(out)
}


/// The whole pipeline of passes, in the order `optimize` runs them.
pub open spec fn optimize_items(items: Seq<ItemModel>, is_top_level: bool, non_negative_offset: bool) -> Seq<ItemModel> {
    let merged = merge_items(items, is_top_level);
    let multiplied = mul_items(clear_items(unwrap_items(merged)));
    let conditional = if_items(merge_items(multiplied, is_top_level));
    let offsets = offset_items(conditional);
    let shifted = if non_negative_offset { nonneg_items(offsets) } else { offsets };
    remove_nop_items(merge_items(shifted, is_top_level))
}

/// No operation that does nothing, at any depth.
pub open spec fn nop_free(items: Seq<ItemModel>) -> bool
    decreases items,
{
    if items.len() == 0 {
        true
    } else {
        nop_free(items.drop_last()) && match items.last() {
            ItemModel::Op(op) => !crate::ir::op_is_nop(op),
            ItemModel::Loop(body) => nop_free(body),
            ItemModel::If(body) => nop_free(body),
        }
    }
}

/// Removing no-ops leaves none, at any depth.
pub proof fn lemma_remove_nop_leaves_none(items: Seq<ItemModel>)
    ensures
        nop_free(remove_nop_items(items)),
    decreases items,
{
    if items.len() > 0 {
        let rest = items.drop_last();
        lemma_remove_nop_leaves_none(rest);
        let r = remove_nop_items(rest);
        match items.last() {
            ItemModel::Op(op) => {
                if !crate::ir::op_is_nop(op) {
                    assert(r.push(items.last()).drop_last() =~= r);
                }
            },
            ItemModel::Loop(body) => {
                lemma_remove_nop_leaves_none(body);
                assert(r.push(ItemModel::Loop(remove_nop_items(body))).drop_last() =~= r);
            },
            ItemModel::If(body) => {
                lemma_remove_nop_leaves_none(body);
                assert(r.push(ItemModel::If(remove_nop_items(body))).drop_last() =~= r);
            },
        }
    }
}

/// The optimizer leaves no operation that does nothing, at any depth.
pub proof fn lemma_optimize_leaves_no_nop(items: Seq<ItemModel>, is_top_level: bool, non_negative_offset: bool)
    ensures
        nop_free(optimize_items(items, is_top_level, non_negative_offset)),
{
    let merged = merge_items(items, is_top_level);
    let multiplied = mul_items(clear_items(unwrap_items(merged)));
    let conditional = if_items(merge_items(multiplied, is_top_level));
    let offsets = offset_items(conditional);
    let shifted = if non_negative_offset { nonneg_items(offsets) } else { offsets };
    lemma_remove_nop_leaves_none(merge_items(shifted, is_top_level));
}

/// Runs every pass: fusing, unwrapping, clearing, multiplication, fusing again, conditionals,
/// offsets (made non-negative on request), a last fusing, and the removal of no-ops.
pub fn optimize(block: &Block, is_top_level: bool, non_negative_offset: bool) -> (r: Block)
    requires
        lick_free(block@),
    ensures
        r@ == optimize_items(block@, is_top_level, non_negative_offset),
{
    let mut work = merge(block, is_top_level);
    proof {
        lemma_merge_lick_free(block@, is_top_level);
        lemma_unwrap_lick_free(work@);
    }
    unwrap(&mut work);
    proof {
        lemma_clear_lick_free(work@);
    }
    clear(&mut work);
    proof {
        lemma_mul_lick_free(work@);
    }
    self::mul(&mut work);
    proof {
        lemma_merge_lick_free(work@, is_top_level);
    }
    let mut work = merge(&work, is_top_level);
    proof {
        lemma_if_lick_free(work@);
    }
    if_opt(&mut work);
    let mut work = offset_opt(&work);
    if non_negative_offset {
        work = to_not_negative_offset(&work);
    }
    let mut work = merge(&work, is_top_level);
    remove_nop(&mut work);
    work
}


proof fn lemma_lick_free_prefix(items: Seq<ItemModel>, i: int)
    requires
        0 <= i <= items.len(),
        !lick_free(items.take(i)),
    ensures
        !lick_free(items),
    decreases items.len() - i,
{
    if i < items.len() {
        assert(items.take(i + 1).drop_last() =~= items.take(i));
        lemma_lick_free_prefix(items, i + 1);
    } else {
        assert(items.take(i) =~= items);
    }
}

/// Whether the block holds no scan (`Lick`) at any depth.
pub fn is_lick_free(block: &Block) -> (r: bool)
    ensures
        r == lick_free(block@),
    decreases block@,
{
    let ghost model = block@;
    proof {
        lemma_items_model_len(block.items@);
        assert(model.take(0) =~= Seq::<ItemModel>::empty());
    }
    let mut i: usize = 0;
    while i < block.items.len()
        invariant
            model == block@,
            model.len() == block.items@.len(),
            i <= block.items@.len(),
            lick_free(model.take(i as int)),
        decreases block.items@.len() - i,
    {
        proof {
            lemma_items_model_index(block.items@, i as int);
            assert(model.take(i + 1).drop_last() =~= model.take(i as int));
            assert(model.take(i + 1).last() == model[i as int]);
        }
        let ok = match &block.items[i] {
            BlockItem::Op(op) => !matches!(op, Op::Lick(_)),
            BlockItem::Loop(inner) => {
                proof {
                    let m = model[i as int];
                    assert(decreases_to!(model => m));
                    assert(decreases_to!(m => m->Loop_0));
                }
                is_lick_free(inner)
            },
            BlockItem::If(inner) => {
                proof {
                    let m = model[i as int];
                    assert(decreases_to!(model => m));
                    assert(decreases_to!(m => m->If_0));
                }
                is_lick_free(inner)
            },
        };
        assert(item_lick_free(model[i as int]) == ok);
        if !ok {
            proof {
                assert(!lick_free(model.take(i + 1)));
                lemma_lick_free_prefix(model, i as int + 1);
            }
            return false;
        }
        i = i + 1;
    }
    proof {
        assert(model.take(block.items@.len() as int) =~= model);
    }
    true
}



} // verus!
