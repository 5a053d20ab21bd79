//! What a tree of nodes does to a tape, and what the step interpreter's steps add up to.

use vstd::prelude::*;
use crate::instruction::{Instruction, Value, Tape, cell, with_cell, wrap, run_instruction, lemma_wrap_add, lemma_wrap_byte};
use crate::interpreter::memory::grown_cells;
use crate::interpreter::simulation::cell_at;
use crate::interprinter::{Snapshot, Error, CInstruction, locate, change_at, operand, input_times, effect, c_step,
    c_flatten, c_flatten_nod, byte_add, byte_sub, byte_mul, c_target_within, lemma_c_flatten_targets, nods_size,
    lemma_c_flatten_len};
use crate::parse::{Nod, NodModel, nod_model, nods_model, lemma_nods_model_push};

verus! {

/// Running one node with `fuel` rounds of loops to spend: `None` when the fuel runs out.
pub open spec fn run_nod(n: NodModel, t: Tape, fuel: nat) -> Option<Tape>
    decreases fuel, n,
{
    match n {
        NodModel::Instruction(i) => Some(run_instruction(i, t)),
        NodModel::Loop(body) => if cell(t, 0) == 0 {
            Some(t)
        } else if fuel == 0 {
            None
        } else {
            match run_nods(body, t, (fuel - 1) as nat) {
                Some(t2) => run_nod(n, t2, (fuel - 1) as nat),
                None => None,
            }
        },
    }
}

/// Running nodes one after the other.
pub open spec fn run_nods(ns: Seq<NodModel>, t: Tape, fuel: nat) -> Option<Tape>
    decreases fuel, ns,
{
    if ns.len() == 0 {
        Some(t)
    } else {
        match run_nods(ns.drop_last(), t, fuel) {
            Some(t1) => run_nod(ns.last(), t1, fuel),
            None => None,
        }
    }
}

/// More fuel changes nothing once a run has finished.
pub proof fn lemma_run_nod_mono(n: NodModel, t: Tape, f: nat, g: nat)
    requires
        f <= g,
        run_nod(n, t, f) is Some,
    ensures
        run_nod(n, t, g) == run_nod(n, t, f),
    decreases f, n,
{
    if let NodModel::Loop(body) = n {
        if cell(t, 0) != 0 {
            lemma_run_nods_mono(body, t, (f - 1) as nat, (g - 1) as nat);
            let t2 = run_nods(body, t, (f - 1) as nat)->0;
            lemma_run_nod_mono(n, t2, (f - 1) as nat, (g - 1) as nat);
        }
    }
}

pub proof fn lemma_run_nods_mono(ns: Seq<NodModel>, t: Tape, f: nat, g: nat)
    requires
        f <= g,
        run_nods(ns, t, f) is Some,
    ensures
        run_nods(ns, t, g) == run_nods(ns, t, f),
    decreases f, ns,
{
    if ns.len() > 0 {
        lemma_run_nods_mono(ns.drop_last(), t, f, g);
        let t1 = run_nods(ns.drop_last(), t, f)->0;
        lemma_run_nod_mono(ns.last(), t1, f, g);
    }
}

/// The tape a snapshot stands for.
pub open spec fn snapshot_tape(s: Snapshot) -> Tape {
    Tape { ptr: s.ptr, mem: |i: int| cell_at(s.cells, i), out: s.output, input: s.input }
}

proof fn lemma_locate(s: Snapshot, offset: int)
    requires
        locate(s, offset) is Ok,
    ensures
        ({
            let (c, p) = locate(s, offset)->Ok_0;
            &&& p == s.ptr + offset
            &&& 0 <= p < c.len()
            &&& snapshot_tape(Snapshot { cells: c, ..s }) == snapshot_tape(s)
            &&& c[p] == cell(snapshot_tape(s), offset)
        }),
{
    let p = s.ptr + offset;
    let c = grown_cells(s.cells, p)->0;
    assert forall|i: int| #[trigger] cell_at(c, i) == cell_at(s.cells, i) by {
        if s.cells.len() <= i < c.len() {
            assert(c[i] == 0u8);
        }
    }
    assert(snapshot_tape(Snapshot { cells: c, ..s }).mem =~= snapshot_tape(s).mem);
    assert(cell_at(c, p) == c[p]);
}

proof fn lemma_byte_ops(a: u8, b: u8)
    ensures
        byte_add(a, b) == wrap(a + b),
        byte_sub(a, b) == wrap(a - b),
        byte_mul(a, b) == wrap(a * b),
{
    assert(0 <= a * b <= 255 * 255) by (nonlinear_arith);
}

proof fn lemma_change_at(s: Snapshot, offset: int, v: u8, minus: bool)
    requires
        change_at(s, offset, v, minus) is Ok,
    ensures
        snapshot_tape(change_at(s, offset, v, minus)->Ok_0) == with_cell(snapshot_tape(s), s.ptr + offset,
            if minus { wrap(cell(snapshot_tape(s), offset) - v) } else { wrap(cell(snapshot_tape(s), offset) + v) }),
        (change_at(s, offset, v, minus)->Ok_0).pc == s.pc,
{
    lemma_locate(s, offset);
    let (c, p) = locate(s, offset)->Ok_0;
    lemma_byte_ops(c[p], v);
    let r = change_at(s, offset, v, minus)->Ok_0;
    let w = with_cell(snapshot_tape(s), s.ptr + offset,
        if minus { wrap(cell(snapshot_tape(s), offset) - v) } else { wrap(cell(snapshot_tape(s), offset) + v) });
    assert(snapshot_tape(r).mem =~= w.mem);
    assert(snapshot_tape(r) =~= w);
}

proof fn lemma_input_times(s: Snapshot, offset: int, n: nat)
    requires
        input_times(s, offset, n) is Ok,
    ensures
        n <= s.input.len(),
        (input_times(s, offset, n)->Ok_0).pc == s.pc,
        snapshot_tape(input_times(s, offset, n)->Ok_0) == if n == 0 {
            snapshot_tape(s)
        } else {
            with_cell(Tape { input: s.input.skip(n as int), ..snapshot_tape(s) }, s.ptr + offset, s.input[n - 1])
        },
    decreases n,
{
    if n > 0 {
        lemma_input_times(s, offset, (n - 1) as nat);
        let t = input_times(s, offset, (n - 1) as nat)->Ok_0;
        lemma_locate(t, offset);
        let (c, p) = locate(t, offset)->Ok_0;
        let r = input_times(s, offset, n)->Ok_0;
        assert(t.input =~= s.input.skip(n - 1)) by {
            if n > 1 {
                assert(snapshot_tape(t).input == s.input.skip(n - 1));
            }
        }
        let w = with_cell(Tape { input: s.input.skip(n as int), ..snapshot_tape(s) }, s.ptr + offset, s.input[n - 1]);
        assert(r.input =~= s.input.skip(n as int));
        assert(t.ptr == s.ptr);
        assert forall|i: int| #[trigger] (snapshot_tape(r).mem)(i) == (w.mem)(i) by {
            if i != p {
                assert(cell_at(c, i) == (snapshot_tape(t).mem)(i));
                assert((snapshot_tape(t).mem)(i) == cell_at(s.cells, i));
            }
        }
        assert(snapshot_tape(r).mem =~= w.mem);
        assert(snapshot_tape(r) =~= w);
    }
}

/// An instruction the step interpreter carries out does to its tape what the instruction does
/// to a tape.
#[verifier::spinoff_prover]
#[verifier::rlimit(60)]
proof fn lemma_effect_tape(i: Instruction, s: Snapshot)
    requires
        effect(i, s) is Ok,
    ensures
        snapshot_tape(effect(i, s)->Ok_0) == run_instruction(i, snapshot_tape(s)),
        (effect(i, s)->Ok_0).pc == s.pc,
{
    let t = snapshot_tape(s);
    let r = effect(i, s)->Ok_0;
    match i {
        Instruction::PtrIncrement(n) => {
            assert(snapshot_tape(r) =~= run_instruction(i, t));
        },
        Instruction::PtrDecrement(n) => {
            assert(snapshot_tape(r) =~= run_instruction(i, t));
        },
        Instruction::Add(o, v) | Instruction::Sub(o, v) => {
            let minus = i is Sub;
            let (s1, x) = operand(s, v)->Ok_0;
            if let Value::Memory(m) = v {
                lemma_locate(s, m as int);
            }
            assert(snapshot_tape(s1) == t);
            assert(x == crate::instruction::operand(v, t));
            if x != 0 {
                lemma_change_at(s1, o as int, x, minus);
            } else {
                lemma_wrap_byte(cell(t, o as int));
                assert(run_instruction(i, t).mem =~= t.mem);
                assert(run_instruction(i, t) =~= t);
            }
        },
        Instruction::MulAdd(to, from, x) | Instruction::MulSub(to, from, x) => {
            let minus = i is MulSub;
            lemma_locate(s, from as int);
            let (s1, n) = operand(s, Value::Memory(from))->Ok_0;
            assert(snapshot_tape(s1) == t);
            if n != 0 {
                lemma_change_at(s1, to as int, byte_mul(n, x), minus);
                lemma_byte_ops(n, x);
                let c = cell(t, to as int);
                if minus {
                    lemma_wrap_add(n * x, 0);
                    assert(wrap(c - wrap(n * x)) == wrap(c - n * x)) by {
                        vstd::arithmetic::div_mod::lemma_sub_mod_noop(c as int, n * x, 256);
                        vstd::arithmetic::div_mod::lemma_mod_twice(n * x, 256);
                    }
                } else {
                    lemma_wrap_add(n * x, c as int);
                    assert(wrap(c + wrap(n * x)) == wrap(c + n * x)) by {
                        lemma_wrap_add(n * x, c as int);
                    }
                }
            } else {
                lemma_wrap_byte(cell(t, to as int));
                assert(cell(t, from as int) * x == 0);
                assert(run_instruction(i, t).mem =~= t.mem);
                assert(run_instruction(i, t) =~= t);
            }
        },
        Instruction::Output(o, n) => {
            if n == 0 {
                assert(run_instruction(i, t) =~= t);
            } else {
                lemma_locate(s, o as int);
                assert(snapshot_tape(r).mem =~= run_instruction(i, t).mem);
                assert(snapshot_tape(r) =~= run_instruction(i, t));
            }
        },
        Instruction::Input(o, n) => {
            lemma_input_times(s, o as int, n as nat);
        },
        Instruction::SetValue(o, v) => {
            let (s1, x) = operand(s, v)->Ok_0;
            if let Value::Memory(m) = v {
                lemma_locate(s, m as int);
            }
            assert(snapshot_tape(s1) == t);
            lemma_locate(s1, o as int);
            assert(snapshot_tape(r).mem =~= run_instruction(i, t).mem);
            assert(snapshot_tape(r) =~= run_instruction(i, t));
        },
    }
}

/// Whether a snapshot's counter has left the program.
pub open spec fn c_halted(prog: Seq<CInstruction>, s: Snapshot) -> bool {
    !(0 <= s.pc < prog.len())
}

/// `n` steps of the step interpreter from `s`, stopping early once the counter leaves the program.
pub open spec fn c_exec(prog: Seq<CInstruction>, s: Snapshot, n: nat) -> Result<Snapshot, Error>
    decreases n,
{
    if n == 0 {
        Ok(s)
    } else {
        match c_exec(prog, s, (n - 1) as nat) {
            Err(e) => Err(e),
            Ok(s1) => if c_halted(prog, s1) {
                Ok(s1)
            } else {
                c_step(prog, s1)
            },
        }
    }
}

proof fn lemma_c_exec_split(prog: Seq<CInstruction>, s: Snapshot, a: nat, b: nat)
    ensures
        c_exec(prog, s, a + b) == match c_exec(prog, s, a) {
            Ok(s1) => c_exec(prog, s1, b),
            Err(e) => Err(e),
        },
    decreases b,
{
    if b > 0 {
        lemma_c_exec_split(prog, s, a, (b - 1) as nat);
        assert((a + b - 1) as nat == a + (b - 1) as nat);
    }
}

proof fn lemma_c_exec_halted(prog: Seq<CInstruction>, s: Snapshot, n: nat)
    requires
        c_halted(prog, s),
    ensures
        c_exec(prog, s, n) == Ok::<Snapshot, Error>(s),
    decreases n,
{
    if n > 0 {
        lemma_c_exec_halted(prog, s, (n - 1) as nat);
    }
}

proof fn lemma_c_first_step(prog: Seq<CInstruction>, s: Snapshot, n: nat)
    requires
        !c_halted(prog, s),
        c_exec(prog, s, n) matches Ok(se) && c_halted(prog, se),
    ensures
        n >= 1,
        c_step(prog, s) is Ok,
        c_exec(prog, c_step(prog, s)->Ok_0, (n - 1) as nat) == c_exec(prog, s, n),
{
    assert(c_exec(prog, s, 0) == Ok::<Snapshot, Error>(s));
    if n > 0 {
        lemma_c_exec_split(prog, s, 1, (n - 1) as nat);
        assert(1 + (n - 1) as nat == n);
    }
}

pub open spec fn c_placed(prog: Seq<CInstruction>, ns: Seq<Nod>, at: int) -> bool {
    &&& 0 <= at
    &&& at + c_flatten(ns, at).len() <= prog.len()
    &&& forall|i: int| 0 <= i < c_flatten(ns, at).len() ==> prog[at + i] == #[trigger] c_flatten(ns, at)[i]
}

pub open spec fn c_placed_nod(prog: Seq<CInstruction>, n: Nod, at: int) -> bool {
    &&& 0 <= at
    &&& at + c_flatten_nod(n, at).len() <= prog.len()
    &&& forall|i: int| 0 <= i < c_flatten_nod(n, at).len() ==> prog[at + i] == #[trigger] c_flatten_nod(n, at)[i]
}

proof fn lemma_c_placed_split(prog: Seq<CInstruction>, ns: Seq<Nod>, at: int)
    requires
        c_placed(prog, ns, at),
        ns.len() > 0,
    ensures
        c_placed(prog, ns.drop_last(), at),
        c_placed_nod(prog, ns.last(), at + c_flatten(ns.drop_last(), at).len()),
        c_flatten(ns, at).len() == c_flatten(ns.drop_last(), at).len()
            + c_flatten_nod(ns.last(), at + c_flatten(ns.drop_last(), at).len()).len(),
{
    let front = c_flatten(ns.drop_last(), at);
    let q = at + front.len();
    let tail = c_flatten_nod(ns.last(), q);
    assert(c_flatten(ns, at) == front + tail);
    assert forall|i: int| 0 <= i < front.len() implies prog[at + i] == #[trigger] front[i] by {
        assert(c_flatten(ns, at)[i] == front[i]);
    }
    assert forall|i: int| 0 <= i < tail.len() implies prog[q + i] == #[trigger] tail[i] by {
        assert(c_flatten(ns, at)[front.len() + i] == tail[i]);
    }
}

/// The step interpreter, started at placed nodes and run until its counter leaves the
/// program, passes the nodes' end on a tape that running the nodes gives.
#[verifier::spinoff_prover]
#[verifier::rlimit(50)]
proof fn lemma_nods_sim(prog: Seq<CInstruction>, ns: Seq<Nod>, at: int, s: Snapshot, n: nat) -> (r: (nat, nat))
    requires
        prog.len() < usize::MAX,
        c_placed(prog, ns, at),
        s.pc == at,
        c_exec(prog, s, n) matches Ok(se) && c_halted(prog, se),
    ensures
        r.0 <= n,
        c_exec(prog, s, r.0) matches Ok(s1) && s1.pc == at + c_flatten(ns, at).len()
            && run_nods(nods_model(ns), snapshot_tape(s), r.1) == Some(snapshot_tape(s1)),
    decreases n, ns, 0int,
{
    if ns.len() == 0 {
        assert(c_exec(prog, s, 0) == Ok::<Snapshot, Error>(s));
        (0, 0)
    } else {
        lemma_c_placed_split(prog, ns, at);
        let front = ns.drop_last();
        let last = ns.last();
        let (n1, f1) = lemma_nods_sim(prog, front, at, s, n);
        let s1 = c_exec(prog, s, n1)->Ok_0;
        lemma_c_exec_split(prog, s, n1, (n - n1) as nat);
        assert(n1 + (n - n1) as nat == n);
        let q = at + c_flatten(front, at).len();
        let (n2, f2) = lemma_nod_sim(prog, last, q, s1, (n - n1) as nat);
        lemma_c_exec_split(prog, s, n1, n2);
        let f = if f1 <= f2 { f2 } else { f1 };
        let t = snapshot_tape(s);
        lemma_run_nods_mono(nods_model(front), t, f1, f);
        lemma_run_nod_mono(nod_model(last), snapshot_tape(s1), f2, f);
        assert(ns =~= front.push(last));
        lemma_nods_model_push(front, last);
        assert(nods_model(ns).drop_last() =~= nods_model(front));
        (n1 + n2, f)
    }
}

#[verifier::spinoff_prover]
#[verifier::rlimit(50)]
proof fn lemma_nod_sim(prog: Seq<CInstruction>, node: Nod, at: int, s: Snapshot, n: nat) -> (r: (nat, nat))
    requires
        prog.len() < usize::MAX,
        c_placed_nod(prog, node, at),
        s.pc == at,
        c_exec(prog, s, n) matches Ok(se) && c_halted(prog, se),
    ensures
        r.0 <= n,
        c_exec(prog, s, r.0) matches Ok(s1) && s1.pc == at + c_flatten_nod(node, at).len()
            && run_nod(nod_model(node), snapshot_tape(s), r.1) == Some(snapshot_tape(s1)),
    decreases n, node, 1int,
{
    let t = snapshot_tape(s);
    assert(prog[at + 0] == c_flatten_nod(node, at)[0]);
    lemma_c_first_step(prog, s, n);
    assert(c_exec(prog, s, 0) == Ok::<Snapshot, Error>(s));
    assert(c_exec(prog, s, 1) == c_step(prog, s));
    let s1 = c_step(prog, s)->Ok_0;
    match node {
        Nod::Instruction(i) => {
            lemma_effect_tape(i, s);
            (1, 0)
        },
        Nod::Loop(body) => {
            let inner = c_flatten(body@, at + 1);
            let whole = c_flatten_nod(node, at);
            assert(whole.len() == inner.len() + 2);
            assert forall|i: int| 0 <= i < inner.len() implies prog[at + 1 + i] == #[trigger] inner[i] by {
                assert(whole[1 + i] == inner[i]);
                assert(prog[at + (1 + i)] == whole[1 + i]);
            }
            assert(whole[inner.len() as int + 1] == prog[at + (inner.len() + 1)]);
            lemma_locate(s, 0);
            let (c, p) = locate(s, 0)->Ok_0;
            assert(snapshot_tape(s1) == t);
            if c[p] == 0 {
                (1, 0)
            } else {
                assert(s1.pc == at + 1);
                assert(decreases_to!(node => body));
                let (nb, fb) = lemma_nods_sim(prog, body@, at + 1, s1, (n - 1) as nat);
                let s2 = c_exec(prog, s1, nb)->Ok_0;
                lemma_c_exec_split(prog, s1, nb, (n - 1 - nb) as nat);
                assert(nb + (n - 1 - nb) as nat == (n - 1) as nat);
                lemma_c_exec_split(prog, s, 1, nb);
                assert(!c_halted(prog, s2));
                lemma_c_first_step(prog, s2, (n - 1 - nb) as nat);
                let s3 = c_step(prog, s2)->Ok_0;
                assert(s3 == Snapshot { pc: at, ..s2 });
                assert(c_exec(prog, s2, 0) == Ok::<Snapshot, Error>(s2));
                assert(c_exec(prog, s2, 1) == c_step(prog, s2));
                let (nl, fl) = lemma_nod_sim(prog, node, at, s3, (n - 2 - nb) as nat);
                lemma_c_exec_split(prog, s2, 1, nl);
                lemma_c_exec_split(prog, s1, nb, 1 + nl);
                lemma_c_exec_split(prog, s, 1, nb + 1 + nl);
                let f = if fb <= fl { fl } else { fb };
                let m = nod_model(node);
                lemma_run_nods_mono(nods_model(body@), t, fb, f);
                assert(snapshot_tape(s3) == snapshot_tape(s2));
                lemma_run_nod_mono(m, snapshot_tape(s3), fl, f);
                assert(run_nod(m, t, f + 1) == run_nod(m, snapshot_tape(s2), f));
                (1 + nb + 1 + nl, f + 1)
            }
        },
    }
}

/// A run of the step interpreter that leaves its program ends on the tape that running the
/// nodes gives: the flat program and its jumps do what the tree of nodes says.
pub proof fn lemma_left_run_runs_nodes(ns: Seq<Nod>, s: Snapshot, n: nat)
    requires
        c_flatten(ns, 0).len() < usize::MAX,
        s.pc == 0,
        c_exec(c_flatten(ns, 0), s, n) matches Ok(se) && c_halted(c_flatten(ns, 0), se),
    ensures
        exists|f: nat| #[trigger] run_nods(nods_model(ns), snapshot_tape(s), f)
            == Some(snapshot_tape(c_exec(c_flatten(ns, 0), s, n)->Ok_0)),
{
    let prog = c_flatten(ns, 0);
    let se = c_exec(prog, s, n)->Ok_0;
    assert forall|i: int| 0 <= i < prog.len() implies prog[0 + i] == #[trigger] prog[i] by {}
    let (n1, f) = lemma_nods_sim(prog, ns, 0, s, n);
    let s1 = c_exec(prog, s, n1)->Ok_0;
    lemma_c_exec_split(prog, s, n1, (n - n1) as nat);
    assert(n1 + (n - n1) as nat == n);
    lemma_c_exec_halted(prog, s1, (n - n1) as nat);
    assert(run_nods(nods_model(ns), snapshot_tape(s), f) == Some(snapshot_tape(se)));
}

proof fn lemma_c_exec_in_range(prog: Seq<CInstruction>, s: Snapshot, n: nat)
    requires
        forall|i: int| 0 <= i < prog.len() ==> c_target_within(#[trigger] prog[i], prog.len() as int),
        0 <= s.pc <= prog.len(),
        c_exec(prog, s, n) is Ok,
    ensures
        0 <= (c_exec(prog, s, n)->Ok_0).pc <= prog.len(),
    decreases n,
{
    if n > 0 {
        let s1 = c_exec(prog, s, (n - 1) as nat)->Ok_0;
        lemma_c_exec_in_range(prog, s, (n - 1) as nat);
        if !c_halted(prog, s1) {
            assert(c_target_within(prog[s1.pc], prog.len() as int));
        }
    }
}

/// A run of the step interpreter that leaves its program from the start stops exactly at its
/// end: the counter then equals the number of instructions plus twice the number of loops, at
/// every depth.
pub proof fn lemma_left_run_stops_at_end(ns: Seq<Nod>, s: Snapshot, n: nat)
    requires
        c_flatten(ns, 0).len() < usize::MAX,
        s.pc == 0,
        c_exec(c_flatten(ns, 0), s, n) matches Ok(se) && c_halted(c_flatten(ns, 0), se),
    ensures
        (c_exec(c_flatten(ns, 0), s, n)->Ok_0).pc == nods_size(ns),
{
    let prog = c_flatten(ns, 0);
    lemma_c_flatten_targets(ns, 0);
    assert forall|i: int| 0 <= i < prog.len() implies c_target_within(#[trigger] prog[i], prog.len() as int) by {
        assert(c_target_within(prog[i], 0 + prog.len() as int));
    }
    lemma_c_exec_in_range(prog, s, n);
    lemma_c_flatten_len(ns, 0);
}

} // verus!
