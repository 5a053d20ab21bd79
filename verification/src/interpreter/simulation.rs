//! What the interpreter's steps add up to: a run that halts ends on the tape that running
//! the block item by item gives.

use vstd::prelude::*;
use crate::instruction::{Tape, cell};
use crate::ir::{ItemModel, Op};
use crate::ir_semantics::{op_tape, run_item, run_items, lemma_run_item_mono, lemma_run_items_mono,
    lemma_optimize_keeps_runs, optimize_fits};
use crate::opt::{lick_free, optimize_items};
use super::memory::Memory;
use super::{Machine, Error, FlatInstruction, step_spec, halted, run_trace, address, moved, with_cells,
    op_effect, flatten, flatten_item};

verus! {

/// A cell of the memory; cells past its end read as zero.
pub open spec fn cell_at(cells: Seq<u8>, i: int) -> u8 {
    if 0 <= i < cells.len() {
        cells[i]
    } else {
        0
    }
}

/// The tape a machine stands for.
pub open spec fn machine_tape(m: Machine) -> Tape {
    Tape { ptr: m.ptr, mem: |i: int| cell_at(m.cells, i), out: m.output, input: m.input }
}

/// `n` steps from `m`, stopping early on halting.
pub open spec fn exec<M: Memory>(prog: Seq<FlatInstruction>, m: Machine, n: nat) -> Result<Machine, Error>
    decreases n,
{
    if n == 0 {
        Ok(m)
    } else {
        match exec::<M>(prog, m, (n - 1) as nat) {
            Err(e) => Err(e),
            Ok(m1) => if halted(prog, m1) {
                Ok(m1)
            } else {
                step_spec::<M>(prog, m1)
            },
        }
    }
}

proof fn lemma_trace_exec<M: Memory>(prog: Seq<FlatInstruction>, m: Machine, n: nat)
    ensures
        match run_trace::<M>(prog, m, n) {
            Ok((m1, _, _)) => exec::<M>(prog, m, n) == Ok::<Machine, Error>(m1),
            Err(e) => exec::<M>(prog, m, n) == Err::<Machine, Error>(e),
        },
    decreases n,
{
    if n > 0 {
        lemma_trace_exec::<M>(prog, m, (n - 1) as nat);
    }
}

proof fn lemma_exec_split<M: Memory>(prog: Seq<FlatInstruction>, m: Machine, a: nat, b: nat)
    ensures
        exec::<M>(prog, m, a + b) == match exec::<M>(prog, m, a) {
            Ok(m1) => exec::<M>(prog, m1, b),
            Err(e) => Err(e),
        },
    decreases b,
{
    if b > 0 {
        lemma_exec_split::<M>(prog, m, a, (b - 1) as nat);
        assert((a + b - 1) as nat == a + (b - 1) as nat);
    }
}

proof fn lemma_exec_halted<M: Memory>(prog: Seq<FlatInstruction>, m: Machine, n: nat)
    requires
        halted(prog, m),
    ensures
        exec::<M>(prog, m, n) == Ok::<Machine, Error>(m),
    decreases n,
{
    if n > 0 {
        lemma_exec_halted::<M>(prog, m, (n - 1) as nat);
    }
}

proof fn lemma_exec_one<M: Memory>(prog: Seq<FlatInstruction>, m: Machine)
    requires
        !halted(prog, m),
    ensures
        exec::<M>(prog, m, 1) == step_spec::<M>(prog, m),
{
    assert(exec::<M>(prog, m, 0) == Ok::<Machine, Error>(m));
}

/// Making room changes no cell as the tape sees it.
proof fn lemma_room_tape<M: Memory>(cells: Seq<u8>, p: int)
    requires
        0 <= p,
        M::room(cells, p) is Some,
    ensures
        forall|i: int| #[trigger] cell_at(M::room(cells, p)->0, i) == cell_at(cells, i),
        p < (M::room(cells, p)->0).len(),
{
    M::lemma_room(cells, p);
    let c = M::room(cells, p)->0;
    assert forall|i: int| #[trigger] cell_at(c, i) == cell_at(cells, i) by {
        if 0 <= i < cells.len() {
            assert(c[i] == c.take(cells.len() as int)[i]);
        }
    }
}

/// The cell at `offset` as the tape sees it, and the machine after making room for it.
proof fn lemma_address<M: Memory>(m: Machine, offset: int)
    requires
        address::<M>(m, offset) is Ok,
    ensures
        ({
            let (c, p) = address::<M>(m, offset)->Ok_0;
            &&& p == m.ptr + offset
            &&& 0 <= p < c.len()
            &&& machine_tape(with_cells(m, c)) == machine_tape(m)
            &&& c[p] == cell(machine_tape(m), offset)
        }),
{
    let p = m.ptr + offset;
    lemma_room_tape::<M>(m.cells, p);
    let c = M::room(m.cells, p)->0;
    assert(machine_tape(with_cells(m, c)).mem =~= machine_tape(m).mem);
    assert(cell_at(c, p) == c[p]);
}

/// An operation the machine carries out does to its tape what the operation does to a tape.
proof fn lemma_op_effect_tape<M: Memory>(op: Op, m: Machine)
    requires
        !(op is Lick),
        op_effect::<M>(op, m) is Ok,
    ensures
        machine_tape(op_effect::<M>(op, m)->Ok_0) == op_tape(op, machine_tape(m)),
        (op_effect::<M>(op, m)->Ok_0).pc == m.pc,
        (op_effect::<M>(op, m)->Ok_0).scanning == m.scanning,
{
    let t = machine_tape(m);
    let n = op_effect::<M>(op, m)->Ok_0;
    match op {
        Op::MovePtr(by) => {
            assert(machine_tape(n) =~= op_tape(op, t));
        },
        Op::Add(value, offset) => {
            lemma_address::<M>(m, offset as int);
            let (c, p) = address::<M>(m, offset as int)->Ok_0;
            assert(machine_tape(n).mem =~= op_tape(op, t).mem);
            assert(machine_tape(n) =~= op_tape(op, t));
        },
        Op::Assign(value, offset) => {
            lemma_address::<M>(m, offset as int);
            let (c, p) = address::<M>(m, offset as int)->Ok_0;
            assert(machine_tape(n).mem =~= op_tape(op, t).mem);
            assert(machine_tape(n) =~= op_tape(op, t));
        },
        Op::Mul(to, x, offset) => {
            lemma_address::<M>(m, offset as int);
            let (c, p) = address::<M>(m, offset as int)->Ok_0;
            let m1 = with_cells(m, c);
            lemma_address::<M>(m1, to + offset);
            let (c2, q) = address::<M>(m1, to + offset)->Ok_0;
            assert(machine_tape(n).mem =~= op_tape(op, t).mem);
            assert(machine_tape(n) =~= op_tape(op, t));
        },
        Op::Out(offset) => {
            lemma_address::<M>(m, offset as int);
            let (c, p) = address::<M>(m, offset as int)->Ok_0;
            assert(machine_tape(n).mem =~= op_tape(op, t).mem);
            assert(machine_tape(n) =~= op_tape(op, t));
        },
        Op::Input(offset) => {
            lemma_address::<M>(m, offset as int);
            let (c, p) = address::<M>(m, offset as int)->Ok_0;
            assert(machine_tape(n).mem =~= op_tape(op, t).mem);
            assert(machine_tape(n) =~= op_tape(op, t));
        },
        Op::Lick(_) => {},
    }
}

/// The flat instructions of `items`, placed at `at`, stand in `prog` from `at` on.
pub open spec fn placed(prog: Seq<FlatInstruction>, items: Seq<ItemModel>, at: int) -> bool {
    &&& 0 <= at
    &&& at + flatten(items, at).len() <= prog.len()
    &&& forall|i: int| 0 <= i < flatten(items, at).len() ==> prog[at + i] == #[trigger] flatten(items, at)[i]
}

pub open spec fn placed_item(prog: Seq<FlatInstruction>, item: ItemModel, at: int) -> bool {
    &&& 0 <= at
    &&& at + flatten_item(item, at).len() <= prog.len()
    &&& forall|i: int| 0 <= i < flatten_item(item, at).len() ==> prog[at + i] == #[trigger] flatten_item(item, at)[i]
}

proof fn lemma_placed_split(prog: Seq<FlatInstruction>, items: Seq<ItemModel>, at: int)
    requires
        placed(prog, items, at),
        items.len() > 0,
    ensures
        placed(prog, items.drop_last(), at),
        placed_item(prog, items.last(), at + flatten(items.drop_last(), at).len()),
        flatten(items, at).len() == flatten(items.drop_last(), at).len()
            + flatten_item(items.last(), at + flatten(items.drop_last(), at).len()).len(),
{
    let front = flatten(items.drop_last(), at);
    let q = at + front.len();
    let tail = flatten_item(items.last(), q);
    assert(flatten(items, at) == front + tail);
    assert forall|i: int| 0 <= i < front.len() implies prog[at + i] == #[trigger] front[i] by {
        assert(flatten(items, at)[i] == front[i]);
    }
    assert forall|i: int| 0 <= i < tail.len() implies prog[q + i] == #[trigger] tail[i] by {
        assert(flatten(items, at)[front.len() + i] == tail[i]);
    }
}

/// A loop is placed as its start, its body, and its end.
proof fn lemma_placed_body(prog: Seq<FlatInstruction>, item: ItemModel, at: int)
    requires
        placed_item(prog, item, at),
        !(item is Op),
    ensures
        ({
            let body = match item {
                ItemModel::Loop(b) => b,
                ItemModel::If(b) => b,
                _ => Seq::empty(),
            };
            let inner = flatten(body, at + 1);
            &&& placed(prog, body, at + 1)
            &&& item is Loop ==> flatten_item(item, at).len() == inner.len() + 2
                && prog[at] == FlatInstruction::WhileBegin((at + inner.len() + 2) as usize)
                && prog[at + inner.len() + 1] == FlatInstruction::WhileEnd(at as usize)
            &&& item is If ==> flatten_item(item, at).len() == inner.len() + 1
                && prog[at] == FlatInstruction::WhileBegin((at + inner.len() + 1) as usize)
        }),
{
    let body = match item {
        ItemModel::Loop(b) => b,
        ItemModel::If(b) => b,
        _ => Seq::empty(),
    };
    let inner = flatten(body, at + 1);
    let whole = flatten_item(item, at);
    assert(whole[0] == prog[at + 0]);
    assert forall|i: int| 0 <= i < inner.len() implies prog[at + 1 + i] == #[trigger] inner[i] by {
        assert(whole[1 + i] == inner[i]);
        assert(prog[at + (1 + i)] == whole[1 + i]);
    }
    if item is Loop {
        assert(whole[inner.len() as int + 1] == prog[at + (inner.len() + 1)]);
    }
}

/// A step that the run must take on its way to halting.
proof fn lemma_first_step<M: Memory>(prog: Seq<FlatInstruction>, m: Machine, n: nat)
    requires
        !halted(prog, m),
        exec::<M>(prog, m, n) matches Ok(me) && halted(prog, me),
    ensures
        n >= 1,
        step_spec::<M>(prog, m) is Ok,
        exec::<M>(prog, step_spec::<M>(prog, m)->Ok_0, (n - 1) as nat) == exec::<M>(prog, m, n),
{
    if n == 0 {
        assert(exec::<M>(prog, m, 0) == Ok::<Machine, Error>(m));
    } else {
        lemma_exec_split::<M>(prog, m, 1, (n - 1) as nat);
        lemma_exec_one::<M>(prog, m);
        assert(1 + (n - 1) as nat == n);
    }
}

/// A scan at `at`, run by the machine until it moves on, does what running the scan does.
proof fn lemma_scan_sim<M: Memory>(prog: Seq<FlatInstruction>, at: int, by: i32, m: Machine, n: nat) -> (r: (nat, nat))
    requires
        0 <= at < prog.len(),
        prog[at] == FlatInstruction::Instruction(Op::Lick(by)),
        m.pc == at,
        exec::<M>(prog, m, n) matches Ok(me) && halted(prog, me),
    ensures
        r.0 <= n,
        exec::<M>(prog, m, r.0) matches Ok(m1) && m1.pc == at + 1 && !m1.scanning
            && run_item(ItemModel::Op(Op::Lick(by)), machine_tape(m), r.1) == Some(machine_tape(m1)),
    decreases n,
{
    lemma_first_step::<M>(prog, m, n);
    lemma_exec_one::<M>(prog, m);
    let m1 = step_spec::<M>(prog, m)->Ok_0;
    lemma_address::<M>(m, 0);
    let (c, p) = address::<M>(m, 0)->Ok_0;
    let t = machine_tape(m);
    if c[p] != 0 {
        let n0 = moved(with_cells(m, c), by as int)->Ok_0;
        assert(m1 == Machine { scanning: true, ..n0 });
        assert(machine_tape(m1) =~= Tape { ptr: t.ptr + by, ..t });
        let (k, f) = lemma_scan_sim::<M>(prog, at, by, m1, (n - 1) as nat);
        lemma_exec_split::<M>(prog, m, 1, k);
        (1 + k, f + 1)
    } else {
        assert(machine_tape(m1) =~= t);
        (1, 0)
    }
}


/// The machine, started at a placed block and run to halting, passes the block's end on a
/// tape that running the block gives.
#[verifier::spinoff_prover]
#[verifier::rlimit(50)]
proof fn lemma_items_sim<M: Memory>(prog: Seq<FlatInstruction>, items: Seq<ItemModel>, at: int, m: Machine, n: nat) -> (r: (nat, nat))
    requires
        prog.len() < usize::MAX,
        placed(prog, items, at),
        m.pc == at,
        !m.scanning,
        exec::<M>(prog, m, n) matches Ok(me) && halted(prog, me),
    ensures
        r.0 <= n,
        exec::<M>(prog, m, r.0) matches Ok(m1) && m1.pc == at + flatten(items, at).len() && !m1.scanning
            && run_items(items, machine_tape(m), r.1) == Some(machine_tape(m1)),
    decreases n, items, 0int,
{
    if items.len() == 0 {
        assert(exec::<M>(prog, m, 0) == Ok::<Machine, Error>(m));
        (0, 0)
    } else {
        lemma_placed_split(prog, items, at);
        let front = items.drop_last();
        let last = items.last();
        let (n1, f1) = lemma_items_sim::<M>(prog, front, at, m, n);
        let m1 = exec::<M>(prog, m, n1)->Ok_0;
        lemma_exec_split::<M>(prog, m, n1, (n - n1) as nat);
        assert(n1 + (n - n1) as nat == n);
        let q = at + flatten(front, at).len();
        let (n2, f2) = lemma_item_sim::<M>(prog, last, q, m1, (n - n1) as nat);
        let m2 = exec::<M>(prog, m1, n2)->Ok_0;
        lemma_exec_split::<M>(prog, m, n1, n2);
        let f = if f1 <= f2 { f2 } else { f1 };
        let t = machine_tape(m);
        lemma_run_items_mono(front, t, f1, f);
        lemma_run_item_mono(last, machine_tape(m1), f2, f);
        assert(run_items(items, t, f) == run_item(last, machine_tape(m1), f));
        (n1 + n2, f)
    }
}

#[verifier::spinoff_prover]
#[verifier::rlimit(50)]
proof fn lemma_item_sim<M: Memory>(prog: Seq<FlatInstruction>, item: ItemModel, at: int, m: Machine, n: nat) -> (r: (nat, nat))
    requires
        prog.len() < usize::MAX,
        placed_item(prog, item, at),
        m.pc == at,
        !m.scanning,
        exec::<M>(prog, m, n) matches Ok(me) && halted(prog, me),
    ensures
        r.0 <= n,
        exec::<M>(prog, m, r.0) matches Ok(m1) && m1.pc == at + flatten_item(item, at).len() && !m1.scanning
            && run_item(item, machine_tape(m), r.1) == Some(machine_tape(m1)),
    decreases n, item, 1int,
{
    let t = machine_tape(m);
    match item {
        ItemModel::Op(op) => {
            assert(prog[at + 0] == flatten_item(item, at)[0]);
            if let Op::Lick(by) = op {
                lemma_scan_sim::<M>(prog, at, by, m, n)
            } else {
                lemma_first_step::<M>(prog, m, n);
                lemma_exec_one::<M>(prog, m);
                lemma_op_effect_tape::<M>(op, m);
                let m1 = step_spec::<M>(prog, m)->Ok_0;
                assert(machine_tape(m1) == machine_tape(op_effect::<M>(op, m)->Ok_0));
                (1, 0)
            }
        },
        _ => {
            lemma_placed_body(prog, item, at);
            let body = match item {
                ItemModel::Loop(b) => b,
                ItemModel::If(b) => b,
                _ => Seq::empty(),
            };
            let inner = flatten(body, at + 1);
            lemma_first_step::<M>(prog, m, n);
            lemma_exec_one::<M>(prog, m);
            lemma_address::<M>(m, 0);
            let (c, p) = address::<M>(m, 0)->Ok_0;
            let m1 = step_spec::<M>(prog, m)->Ok_0;
            assert(machine_tape(m1) =~= t);
            if c[p] == 0 {
                (1, 0)
            } else {
                assert(m1.pc == at + 1);
                let (nb, fb) = lemma_items_sim::<M>(prog, body, at + 1, m1, (n - 1) as nat);
                let m2 = exec::<M>(prog, m1, nb)->Ok_0;
                lemma_exec_split::<M>(prog, m1, nb, (n - 1 - nb) as nat);
                assert(nb + (n - 1 - nb) as nat == (n - 1) as nat);
                lemma_exec_split::<M>(prog, m, 1, nb);
                if item is If {
                    (1 + nb, fb)
                } else {
                    assert(!halted(prog, m2));
                    lemma_first_step::<M>(prog, m2, (n - 1 - nb) as nat);
                    lemma_exec_one::<M>(prog, m2);
                    let m3 = step_spec::<M>(prog, m2)->Ok_0;
                    assert(m3 == Machine { pc: at, ..m2 });
                    let rest = (n - 2 - nb) as nat;
                    let (nl, fl) = lemma_item_sim::<M>(prog, item, at, m3, rest);
                    lemma_exec_split::<M>(prog, m2, 1, nl);
                    lemma_exec_split::<M>(prog, m1, nb, 1 + nl);
                    lemma_exec_split::<M>(prog, m, 1, nb + 1 + nl);
                    assert(1 + (nb + 1 + nl) == 1 + nb + 1 + nl);
                    let f = if fb <= fl { fl } else { fb };
                    lemma_run_items_mono(body, t, fb, f);
                    assert(machine_tape(m3) == machine_tape(m2));
                    lemma_run_item_mono(item, machine_tape(m3), fl, f);
                    assert(run_item(item, t, f + 1) == run_item(item, machine_tape(m2), f));
                    (1 + nb + 1 + nl, f + 1)
                }
            }
        },
    }
}


/// A run of the interpreter that halts ends on the tape that running the block gives: the
/// flat program and its jumps do what the block's items, loops and conditionals say.
pub proof fn lemma_halted_run_runs_block<M: Memory>(items: Seq<ItemModel>, m: Machine, n: nat)
    requires
        flatten(items, 0).len() < usize::MAX,
        m.pc == 0,
        !m.scanning,
        run_trace::<M>(flatten(items, 0), m, n) matches Ok((me, _, _)) && halted(flatten(items, 0), me),
    ensures
        exists|f: nat| #[trigger] run_items(items, machine_tape(m), f)
            == Some(machine_tape((run_trace::<M>(flatten(items, 0), m, n)->Ok_0).0)),
{
    let prog = flatten(items, 0);
    lemma_trace_exec::<M>(prog, m, n);
    let me = (run_trace::<M>(prog, m, n)->Ok_0).0;
    assert forall|i: int| 0 <= i < prog.len() implies prog[0 + i] == #[trigger] prog[i] by {}
    let (n1, f) = lemma_items_sim::<M>(prog, items, 0, m, n);
    let m1 = exec::<M>(prog, m, n1)->Ok_0;
    lemma_exec_split::<M>(prog, m, n1, (n - n1) as nat);
    assert(n1 + (n - n1) as nat == n);
    lemma_exec_halted::<M>(prog, m1, (n - n1) as nat);
    assert(run_items(items, machine_tape(m), f) == Some(machine_tape(me)));
}

/// The interpreter ends on the same tape whether it runs a program without scans or the
/// optimized program: where both runs halt, from the same machine, and the offsets the
/// optimizer forms stay within `i32`. At the top level the current cell starts at zero.
pub proof fn lemma_optimized_run_ends_alike<M: Memory>(
    items: Seq<ItemModel>,
    is_top_level: bool,
    non_negative_offset: bool,
    m: Machine,
    n: nat,
    n_opt: nat,
)
    requires
        lick_free(items),
        optimize_fits(items, is_top_level, non_negative_offset),
        is_top_level ==> cell(machine_tape(m), 0) == 0,
        flatten(items, 0).len() < usize::MAX,
        flatten(optimize_items(items, is_top_level, non_negative_offset), 0).len() < usize::MAX,
        m.pc == 0,
        !m.scanning,
        run_trace::<M>(flatten(items, 0), m, n) matches Ok((me, _, _)) && halted(flatten(items, 0), me),
        run_trace::<M>(flatten(optimize_items(items, is_top_level, non_negative_offset), 0), m, n_opt)
            matches Ok((me, _, _)) && halted(flatten(optimize_items(items, is_top_level, non_negative_offset), 0), me),
    ensures
        machine_tape((run_trace::<M>(flatten(items, 0), m, n)->Ok_0).0)
            == machine_tape((run_trace::<M>(flatten(optimize_items(items, is_top_level, non_negative_offset), 0), m, n_opt)->Ok_0).0),
{
    let opt = optimize_items(items, is_top_level, non_negative_offset);
    let t = machine_tape(m);
    let e1 = machine_tape((run_trace::<M>(flatten(items, 0), m, n)->Ok_0).0);
    let e2 = machine_tape((run_trace::<M>(flatten(opt, 0), m, n_opt)->Ok_0).0);
    lemma_halted_run_runs_block::<M>(items, m, n);
    lemma_halted_run_runs_block::<M>(opt, m, n_opt);
    let f1 = choose|f: nat| #[trigger] run_items(items, t, f) == Some(e1);
    let f2 = choose|f: nat| #[trigger] run_items(opt, t, f) == Some(e2);
    let f = if f1 <= f2 { f2 } else { f1 };
    lemma_run_items_mono(items, t, f1, f);
    lemma_run_items_mono(opt, t, f2, f);
    lemma_optimize_keeps_runs(items, is_top_level, non_negative_offset, t, f);
}

} // verus!
