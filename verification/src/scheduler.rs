//! Non-pipelined scheduling: ASAP list scheduling of the three regions
//! (before, inside, after the loop), bundling, and register renaming.
use vstd::prelude::*;
use crate::instruction::{
    ExecutionUnit, Instruction, VLIW, spec_unit, spec_dest, spec_operands, unit_index, unit_at,
    unit_latency, unit_capacity, all_units, spec_with_dest, spec_with_operands, same_form,
    lemma_same_form,
};
use crate::dependency::{
    Dependency, DependencyList, dep_index, dep_at, all_dependencies, is_dependency_table,
    is_dependency_list_of, dep_kept, dep_candidate, spec_dependency_type, loop_bounds,
    last_loop_before, loop_target, is_loop_instruction, lemma_last_loop_range,
};

verus! {

broadcast use crate::instruction::lemma_vliw_view_len;

/// How many of the instructions `ins[from..to]` run on unit `u`.
pub open spec fn unit_count(ins: Seq<Instruction>, from: int, to: int, u: ExecutionUnit) -> nat
    decreases to - from,
{
    if to <= from {
        0
    } else {
        unit_count(ins, from, to - 1, u) + (if spec_unit(ins[to - 1]) == u { 1nat } else { 0nat })
    }
}

/// `a / b` rounded up.
pub open spec fn ceil_div(a: nat, b: nat) -> nat {
    ((a + b - 1) as nat) / b
}

/// The smallest number of bundles that can hold `ins[from..to]` given the
/// number of units of each kind.
pub open spec fn resource_bound(ins: Seq<Instruction>, from: int, to: int) -> nat {
    let a = ceil_div(unit_count(ins, from, to, ExecutionUnit::Alu), 2);
    let m = ceil_div(unit_count(ins, from, to, ExecutionUnit::Mul), 1);
    let e = ceil_div(unit_count(ins, from, to, ExecutionUnit::Mem), 1);
    let b = ceil_div(unit_count(ins, from, to, ExecutionUnit::Branch), 1);
    let x = if a >= m { a } else { m };
    let y = if x >= e { x } else { e };
    if y >= b { y } else { b }
}

proof fn lemma_ceil_div(a: nat, b: nat)
    requires
        1 <= b <= 2,
    ensures
        ceil_div(a, b) * b >= a,
{
    if b == 1 {
        let c = ((a + b - 1) as nat) / b;
        assert(c == a) by (nonlinear_arith)
            requires b == 1, c == ((a + b - 1) as nat) / b;
        assert(ceil_div(a, b) == a);
    } else {
        let c = ((a + 1) as nat) / 2;
        assert(ceil_div(a, b) == c);
        assert(c * 2 >= a) by (nonlinear_arith)
            requires c == ((a + 1) as nat) / 2;
    }
}

proof fn lemma_ceil_div_below(a: nat, b: nat, k: nat)
    requires
        1 <= b <= 2,
        k < ceil_div(a, b),
    ensures
        k * b < a,
{
    if b == 1 {
        let c = ((a + b - 1) as nat) / b;
        assert(c == a) by (nonlinear_arith)
            requires b == 1, c == ((a + b - 1) as nat) / b;
        assert(ceil_div(a, b) == a);
    } else {
        let c = ((a + 1) as nat) / 2;
        assert(ceil_div(a, b) == c);
        assert(k * 2 < a) by (nonlinear_arith)
            requires c == ((a + 1) as nat) / 2, k < c;
    }
}

/// The resource bound is the fewest bundles that can hold the instructions
/// `ins[from..to]` unit by unit: that many bundles give every unit room for
/// all of its instructions, and any fewer leave some unit short.
pub proof fn lemma_resource_bound_least(ins: Seq<Instruction>, from: int, to: int)
    ensures
        forall|u: ExecutionUnit| #[trigger] unit_count(ins, from, to, u)
            <= resource_bound(ins, from, to) * unit_capacity(u),
        resource_bound(ins, from, to) > 0 ==> exists|u: ExecutionUnit|
            (resource_bound(ins, from, to) - 1) * unit_capacity(u) < #[trigger] unit_count(ins, from, to, u),
{
    let r = resource_bound(ins, from, to);
    let ca = unit_count(ins, from, to, ExecutionUnit::Alu);
    let cm = unit_count(ins, from, to, ExecutionUnit::Mul);
    let ce = unit_count(ins, from, to, ExecutionUnit::Mem);
    let cb = unit_count(ins, from, to, ExecutionUnit::Branch);
    lemma_ceil_div(ca, 2);
    lemma_ceil_div(cm, 1);
    lemma_ceil_div(ce, 1);
    lemma_ceil_div(cb, 1);
    assert forall|u: ExecutionUnit| #[trigger] unit_count(ins, from, to, u) <= r * unit_capacity(u) by {
        let c = unit_count(ins, from, to, u);
        let cap = unit_capacity(u);
        let q = ceil_div(c, cap);
        assert(q <= r);
        assert(q * cap <= r * cap) by (nonlinear_arith)
            requires q <= r;
    }
    if r > 0 {
        let k = (r - 1) as nat;
        if r == ceil_div(ca, 2) {
            lemma_ceil_div_below(ca, 2, k);
            assert(k * unit_capacity(ExecutionUnit::Alu) < unit_count(ins, from, to, ExecutionUnit::Alu));
        } else if r == ceil_div(cm, 1) {
            lemma_ceil_div_below(cm, 1, k);
            assert(k * unit_capacity(ExecutionUnit::Mul) < unit_count(ins, from, to, ExecutionUnit::Mul));
        } else if r == ceil_div(ce, 1) {
            lemma_ceil_div_below(ce, 1, k);
            assert(k * unit_capacity(ExecutionUnit::Mem) < unit_count(ins, from, to, ExecutionUnit::Mem));
        } else {
            assert(r == ceil_div(cb, 1));
            lemma_ceil_div_below(cb, 1, k);
            assert(k * unit_capacity(ExecutionUnit::Branch) < unit_count(ins, from, to, ExecutionUnit::Branch));
        }
    }
}

pub(crate) proof fn lemma_unit_count_le(ins: Seq<Instruction>, from: int, to: int, u: ExecutionUnit)
    ensures
        unit_count(ins, from, to, u) <= if to > from { to - from } else { 0 },
    decreases to - from,
{
    if to > from {
        lemma_unit_count_le(ins, from, to - 1, u);
    }
}

/// The resource bound of `ins[from..to]`.
pub(crate) fn resource_bound_of(ins: &[Instruction], from: usize, to: usize) -> (r: usize)
    requires
        from <= to <= ins@.len(),
        to < usize::MAX,
    ensures
        r == resource_bound(ins@, from as int, to as int),
{
    let mut counts: Vec<usize> = Vec::new();
    counts.push(0);
    counts.push(0);
    counts.push(0);
    counts.push(0);
    let mut pc = from;
    while pc < to
        invariant
            from <= pc <= to <= ins@.len(),
            to < usize::MAX,
            counts@.len() == 4,
            forall|u: int| 0 <= u < 4 ==> #[trigger] counts@[u] == unit_count(ins@, from as int, pc as int, unit_at(u)),
        decreases to - pc,
    {
        let k = ins[pc].unit().index();
        proof {
            assert forall|u: int| 0 <= u < 4 implies unit_count(ins@, from as int, pc as int, unit_at(u)) <= pc - from by {
                lemma_unit_count_le(ins@, from as int, pc as int, unit_at(u));
            }
        }
        counts.set(k, counts[k] + 1);
        pc = pc + 1;
    }
    let units = ExecutionUnit::iter();
    let mut max: usize = 0;
    let mut i: usize = 0;
    proof {
        assert(unit_at(0) == ExecutionUnit::Alu && unit_at(1) == ExecutionUnit::Mul);
        assert(unit_at(2) == ExecutionUnit::Mem && unit_at(3) == ExecutionUnit::Branch);
        assert forall|u: int| 0 <= u < 4 implies #[trigger] counts@[u] <= to - from by {
            lemma_unit_count_le(ins@, from as int, to as int, unit_at(u));
        }
    }
    while i < 4
        invariant
            i <= 4,
            units@ == all_units(),
            counts@.len() == 4,
            forall|u: int| 0 <= u < 4 ==> #[trigger] counts@[u] <= to - from,
            to < usize::MAX,
            max == {
                let a = if i >= 1 { ceil_div(counts@[0] as nat, 2) } else { 0 };
                let m = if i >= 2 { ceil_div(counts@[1] as nat, 1) } else { 0 };
                let e = if i >= 3 { ceil_div(counts@[2] as nat, 1) } else { 0 };
                let b = if i >= 4 { ceil_div(counts@[3] as nat, 1) } else { 0 };
                let x = if a >= m { a } else { m };
                let y = if x >= e { x } else { e };
                if y >= b { y } else { b }
            },
        decreases 4 - i,
    {
        let unit = units[i];
        let nb_available = unit.nb_available();
        let interval = (counts[unit.index()] + (nb_available - 1)) / nb_available;
        if interval > max {
            max = interval;
        }
        i = i + 1;
    }
    max
}

/// The initiation interval bound of a whole program: the fewest bundles that
/// can hold all its instructions, unit by unit.
pub fn compute_initiation_interval(program: &Vec<Instruction>) -> (r: usize)
    requires
        program.len() < usize::MAX,
    ensures
        r == resource_bound(program@, 0, program.len() as int),
{
    resource_bound_of(program.as_slice(), 0, program.len())
}


/// The bundle of the instruction at `j` while the one at `pc` is being placed:
/// its own bundle once placed, bundle 0 before.
pub open spec fn placed(s: Seq<usize>, j: int, pc: int) -> int {
    if 0 <= j < pc { s[j] as int } else { 0 }
}

/// The first bundle at which the results that the instruction at `pc` reads
/// from the producers `ws` (numbered from `start`) are available.
pub open spec fn ready_from(ins: Seq<Instruction>, start: int, s: Seq<usize>, pc: int, ws: Seq<usize>) -> int
    decreases ws.len(),
{
    if ws.len() == 0 {
        0
    } else {
        let w = ws.last() - start;
        let v = placed(s, w, pc) + unit_latency(spec_unit(ins[w]));
        let r = ready_from(ins, start, s, pc, ws.drop_last());
        if v > r { v } else { r }
    }
}

/// How many of the first `n` instructions run on unit `u` in bundle `t`.
pub open spec fn count_at(ins: Seq<Instruction>, s: Seq<usize>, n: int, u: ExecutionUnit, t: int) -> nat
    decreases n,
{
    if n <= 0 {
        0
    } else {
        count_at(ins, s, n - 1, u, t) + (if spec_unit(ins[n - 1]) == u && s[n - 1] == t { 1nat } else { 0nat })
    }
}

/// The producers that the instruction at `pc` of a region starting at `start`
/// reads through a local dependency.
pub open spec fn local_producers(table: Seq<DependencyList>, start: int, pc: int) -> Seq<usize> {
    table[start + pc]@[0]
}

/// The instruction at `pc` stands in the first bundle, from the time its
/// operands are ready, whose unit still has a free slot.
pub open spec fn local_ok(ins: Seq<Instruction>, table: Seq<DependencyList>, start: int, s: Seq<usize>, pc: int) -> bool {
    let u = spec_unit(ins[pc]);
    let r = ready_from(ins, start, s, pc, local_producers(table, start, pc));
    &&& r <= s[pc]
    &&& count_at(ins, s, pc, u, s[pc] as int) < unit_capacity(u)
    &&& forall|t: int| r <= t < s[pc] ==> count_at(ins, s, pc, u, t) >= unit_capacity(u)
}

/// `used[u][t]` counts the first `n` instructions on unit `u` in bundle `t`.
pub(crate) open spec fn used_matches(ins: Seq<Instruction>, s: Seq<usize>, n: int, used: Seq<Vec<usize>>) -> bool {
    &&& used.len() == 4
    &&& forall|u: int, t: int| 0 <= u < 4 && 0 <= t ==>
        #[trigger] count_at(ins, s, n, unit_at(u), t) == (if t < used[u]@.len() { used[u]@[t] as nat } else { 0nat })
}

/// `s` is the ASAP list schedule of the straight-line region `ins`, whose
/// first instruction has the number `start`.
pub open spec fn is_local_schedule(ins: Seq<Instruction>, table: Seq<DependencyList>, start: int, s: Seq<usize>) -> bool {
    &&& s.len() == ins.len()
    &&& forall|pc: int| 0 <= pc < ins.len() ==> local_ok(ins, table, start, s, pc)
}

/// The local producers of every instruction of the region come before it in
/// the region.
pub open spec fn local_producers_before(ins: Seq<Instruction>, table: Seq<DependencyList>, start: int) -> bool {
    &&& start + ins.len() <= table.len()
    &&& forall|pc: int, i: int| 0 <= pc < ins.len() && 0 <= i < local_producers(table, start, pc).len() ==>
        start <= #[trigger] local_producers(table, start, pc)[i] < start + pc
}

pub(crate) proof fn lemma_count_frame(ins: Seq<Instruction>, s1: Seq<usize>, s2: Seq<usize>, n: int, u: ExecutionUnit, t: int)
    requires
        forall|j: int| 0 <= j < n ==> s1[j] == s2[j],
    ensures
        count_at(ins, s1, n, u, t) == count_at(ins, s2, n, u, t),
    decreases n,
{
    if n > 0 {
        lemma_count_frame(ins, s1, s2, n - 1, u, t);
    }
}

pub(crate) proof fn lemma_ready_frame(ins: Seq<Instruction>, start: int, s1: Seq<usize>, s2: Seq<usize>, pc: int, ws: Seq<usize>)
    requires
        forall|j: int| 0 <= j < pc ==> s1[j] == s2[j],
    ensures
        ready_from(ins, start, s1, pc, ws) == ready_from(ins, start, s2, pc, ws),
    decreases ws.len(),
{
    if ws.len() > 0 {
        lemma_ready_frame(ins, start, s1, s2, pc, ws.drop_last());
    }
}

proof fn lemma_local_ok_frame(ins: Seq<Instruction>, table: Seq<DependencyList>, start: int, s1: Seq<usize>, s2: Seq<usize>, pc: int)
    requires
        0 <= pc,
        forall|j: int| 0 <= j <= pc ==> s1[j] == s2[j],
    ensures
        local_ok(ins, table, start, s1, pc) == local_ok(ins, table, start, s2, pc),
{
    lemma_ready_frame(ins, start, s1, s2, pc, local_producers(table, start, pc));
    let u = spec_unit(ins[pc]);
    assert forall|t: int| count_at(ins, s1, pc, u, t) == count_at(ins, s2, pc, u, t) by {
        lemma_count_frame(ins, s1, s2, pc, u, t);
    }
}

pub(crate) proof fn lemma_count_zero_above(ins: Seq<Instruction>, s: Seq<usize>, n: int, u: ExecutionUnit, t: int)
    requires
        forall|j: int| 0 <= j < n ==> s[j] < t,
    ensures
        count_at(ins, s, n, u, t) == 0,
    decreases n,
{
    if n > 0 {
        lemma_count_zero_above(ins, s, n - 1, u, t);
    }
}

pub(crate) proof fn lemma_count_le(ins: Seq<Instruction>, s: Seq<usize>, n: int, u: ExecutionUnit, t: int)
    requires
        0 <= n,
    ensures
        count_at(ins, s, n, u, t) <= n,
    decreases n,
{
    if n > 0 {
        lemma_count_le(ins, s, n - 1, u, t);
    }
}

proof fn lemma_ready_bound(ins: Seq<Instruction>, start: int, s: Seq<usize>, pc: int, ws: Seq<usize>, bound: int)
    requires
        0 <= bound,
        forall|i: int| 0 <= i < ws.len() ==> start <= #[trigger] ws[i] < start + pc,
        forall|j: int| 0 <= j < pc ==> s[j] + 3 <= bound,
    ensures
        0 <= ready_from(ins, start, s, pc, ws) <= bound,
    decreases ws.len(),
{
    if ws.len() > 0 {
        lemma_ready_bound(ins, start, s, pc, ws.drop_last(), bound);
        let w = ws.last() - start;
        assert(ws[ws.len() - 1] == ws.last());
        assert(unit_latency(spec_unit(ins[w])) <= 3);
    }
}

/// The ASAP list schedule of a straight-line region: for each instruction, the
/// first bundle from the time its local producers' results are ready in which
/// its unit still has a free slot.
pub fn get_local_schedule(
    instructions: &[Instruction],
    dependency_table: &Vec<DependencyList>,
    start: usize,
) -> (schedule: Vec<usize>)
    requires
        local_producers_before(instructions@, dependency_table@, start as int),
        instructions@.len() <= usize::MAX / 8,
    ensures
        is_local_schedule(instructions@, dependency_table@, start as int, schedule@),
        forall|j: int| 0 <= j < schedule@.len() ==> #[trigger] schedule@[j] <= 3 * j,
{
    let (schedule, _) = local_schedule_with_usage(instructions, dependency_table, start);
    schedule
}

/// The list schedule of a straight-line region, with the number of
/// instructions it put on each unit in each bundle.
pub(crate) fn local_schedule_with_usage(
    instructions: &[Instruction],
    dependency_table: &Vec<DependencyList>,
    start: usize,
) -> (r: (Vec<usize>, Vec<Vec<usize>>))
    requires
        local_producers_before(instructions@, dependency_table@, start as int),
        instructions@.len() <= usize::MAX / 8,
    ensures
        is_local_schedule(instructions@, dependency_table@, start as int, r.0@),
        forall|j: int| 0 <= j < r.0@.len() ==> #[trigger] r.0@[j] <= 3 * j,
        used_matches(instructions@, r.0@, instructions@.len() as int, r.1@),
{
    let ghost ins = instructions@;
    let ghost table = dependency_table@;
    let n = instructions.len();
    let mut schedule: Vec<usize> = Vec::new();
    let mut i: usize = 0;
    while i < n
        invariant
            i <= n,
            schedule@.len() == i,
            forall|j: int| 0 <= j < i ==> #[trigger] schedule@[j] == 0,
        decreases n - i,
    {
        schedule.push(0);
        i = i + 1;
    }
    let mut used: Vec<Vec<usize>> = Vec::new();
    used.push(Vec::new());
    used.push(Vec::new());
    used.push(Vec::new());
    used.push(Vec::new());
    proof {
        assert forall|u: int, t: int| 0 <= u < 4 && 0 <= t implies
            #[trigger] count_at(ins, schedule@, 0, unit_at(u), t)
                == (if t < used@[u]@.len() { used@[u]@[t] as nat } else { 0nat }) by {
            assert(used@[u]@.len() == 0);
        }
    }
    let mut pc: usize = 0;
    while pc < n
        invariant
            ins == instructions@,
            table == dependency_table@,
            n == ins.len(),
            n <= usize::MAX / 8,
            local_producers_before(ins, table, start as int),
            pc <= n,
            schedule@.len() == n,
            forall|j: int| pc <= j < n ==> #[trigger] schedule@[j] == 0,
            forall|j: int| 0 <= j < pc ==> #[trigger] schedule@[j] <= 3 * j,
            forall|j: int| 0 <= j < pc ==> local_ok(ins, table, start as int, schedule@, j),
            used@.len() == 4,
            used_matches(ins, schedule@, pc as int, used@),
        decreases n - pc,
    {
        let ghost s0 = schedule@;
        let unit = instructions[pc].unit();
        let unit_id = unit.index();
        proof {
            assert(unit_at(unit_id as int) == unit);
        }
        let tlen = dependency_table.len();
        proof {
            assert(start + pc < tlen);
        }
        let ws = dependency_table[start + pc].iter(Dependency::Local);
        let mut j: usize = 0;
        proof {
            assert(ws@.take(0) =~= Seq::<usize>::empty());
        }
        while j < ws.len()
            invariant
                ins == instructions@,
                n == ins.len(),
                n <= usize::MAX / 8,
                pc < n,
                local_producers_before(ins, table, start as int),
                table == dependency_table@,
                ws@ == local_producers(table, start as int, pc as int),
                j <= ws@.len(),
                schedule@ == s0.update(pc as int, schedule@[pc as int]),
                s0.len() == n,
                forall|k: int| 0 <= k < pc ==> #[trigger] s0[k] <= 3 * k,
                schedule@[pc as int] == ready_from(ins, start as int, s0, pc as int, ws@.take(j as int)),
            decreases ws.len() - j,
        {
            let w = ws[j];
            proof {
                assert(local_producers(table, start as int, pc as int)[j as int] == w);
                assert(start <= w < start + pc);
                assert(s0[w - start] <= 3 * (w - start));
            }
            let lat = instructions[w - start].unit().latency() as usize;
            let cand = schedule[w - start] + lat;
            if cand > schedule[pc] {
                schedule.set(pc, cand);
            }
            proof {
                let wsj = ws@.take(j + 1);
                assert(wsj.drop_last() =~= ws@.take(j as int));
                assert(wsj.last() == w);
                assert(schedule@[w - start] == s0[w - start]);
            }
            j = j + 1;
        }
        proof {
            assert(ws@.take(j as int) =~= ws@);
            assert forall|i: int| 0 <= i < ws@.len() implies start <= #[trigger] ws@[i] < start + pc by {
                assert(local_producers(table, start as int, pc as int)[i] == ws@[i]);
            }
            lemma_ready_bound(ins, start as int, s0, pc as int, ws@, 3 * pc as int);
        }
        let ghost r = schedule@[pc as int];
        let cap = unit.nb_available();
        while used[unit_id].len() > schedule[pc] && used[unit_id][schedule[pc]] >= cap
            invariant
                ins == instructions@,
                schedule@ == s0.update(pc as int, schedule@[pc as int]),
                s0.len() == n,
                pc < n,
                n <= usize::MAX / 8,
                unit == spec_unit(ins[pc as int]),
                unit_id == unit_index(unit),
                unit_at(unit_id as int) == unit,
                cap == unit_capacity(unit),
                used@.len() == 4,
                used_matches(ins, s0, pc as int, used@),
                forall|k: int| 0 <= k < pc ==> #[trigger] s0[k] <= 3 * k,
                r <= schedule@[pc as int] <= 3 * pc,
                forall|t: int| r <= t < schedule@[pc as int] ==> count_at(ins, s0, pc as int, unit, t) >= cap,
            decreases 3 * pc - schedule@[pc as int],
        {
            proof {
                let t = schedule@[pc as int] as int;
                if t + 2 > 3 * pc {
                    assert forall|k: int| 0 <= k < pc implies s0[k] < t by {
                        assert(s0[k] <= 3 * k);
                    }
                    lemma_count_zero_above(ins, s0, pc as int, unit, t);
                    assert(used@[unit_id as int]@[t] == count_at(ins, s0, pc as int, unit, t));
                }
            }
            schedule.set(pc, schedule[pc] + 1);
        }
        proof {
            let t = schedule@[pc as int] as int;
            assert(count_at(ins, s0, pc as int, unit, t) < cap);
            assert(ready_from(ins, start as int, schedule@, pc as int, local_producers(table, start as int, pc as int)) == r) by {
                lemma_ready_frame(ins, start as int, s0, schedule@, pc as int, local_producers(table, start as int, pc as int));
            }
            assert forall|t2: int| count_at(ins, schedule@, pc as int, unit, t2) == count_at(ins, s0, pc as int, unit, t2) by {
                lemma_count_frame(ins, s0, schedule@, pc as int, unit, t2);
            }
            assert(count_at(ins, schedule@, pc as int, unit, t) < unit_capacity(unit));
            let sp = schedule@[pc as int] as int;
            assert(r <= sp);
            assert forall|t2: int| r <= t2 < sp implies count_at(ins, schedule@, pc as int, unit, t2) >= unit_capacity(unit) by {
                assert(count_at(ins, s0, pc as int, unit, t2) >= cap);
            }
            assert(local_ok(ins, table, start as int, schedule@, pc as int));
            assert forall|k: int| 0 <= k < pc implies local_ok(ins, table, start as int, schedule@, k) by {
                lemma_local_ok_frame(ins, table, start as int, s0, schedule@, k);
            }
        }
        let t = schedule[pc];
        while used[unit_id].len() <= t
            invariant
                used@.len() == 4,
                unit_id < 4,
                used_matches(ins, s0, pc as int, used@),
            decreases t + 1 - used@[unit_id as int]@.len(),
        {
            let ghost before = used@;
            used[unit_id].push(0);
            proof {
                assert(used@[unit_id as int]@ =~= before[unit_id as int]@.push(0));
                assert forall|u: int, tt: int| 0 <= u < 4 && 0 <= tt implies
                    #[trigger] count_at(ins, s0, pc as int, unit_at(u), tt)
                        == (if tt < used@[u]@.len() { used@[u]@[tt] as nat } else { 0nat }) by {
                    if u != unit_id {
                        assert(used@[u] == before[u]);
                    } else {
                        assert(u == unit_id as int);
                        assert(used@[u]@ == before[u]@.push(0));
                        if tt < before[u]@.len() {
                            assert(used@[u]@[tt] == before[u]@[tt]);
                        }
                    }
                }
            }
        }
        let ghost before = used@;
        proof {
            assert(before[unit_id as int]@[t as int] == count_at(ins, s0, pc as int, unit, t as int));
            lemma_count_le(ins, s0, pc as int, unit, t as int);
        }
        let c = used[unit_id][t];
        used[unit_id].set(t, c + 1);
        proof {
            assert(used@[unit_id as int]@ =~= before[unit_id as int]@.update(t as int, (c + 1) as usize));
            let s1 = schedule@;
            assert forall|u: int, tt: int| 0 <= u < 4 && 0 <= tt implies
                #[trigger] count_at(ins, s1, pc + 1, unit_at(u), tt)
                    == (if tt < used@[u]@.len() { used@[u]@[tt] as nat } else { 0nat }) by {
                lemma_count_frame(ins, s0, s1, pc as int, unit_at(u), tt);
                assert(count_at(ins, s1, pc + 1, unit_at(u), tt) == count_at(ins, s1, pc as int, unit_at(u), tt)
                    + (if spec_unit(ins[pc as int]) == unit_at(u) && s1[pc as int] == tt { 1nat } else { 0nat }));
                if u != unit_id {
                    assert(used@[u] == before[u]);
                    assert(unit_at(u) != unit);
                } else {
                    assert(used@[u]@ == before[u]@.update(t as int, (c + 1) as usize));
                    if tt < before[u]@.len() && tt != t {
                        assert(used@[u]@[tt] == before[u]@[tt]);
                    }
                }
            }
        }
        pc = pc + 1;
    }
    (schedule, used)
}


/// The first bundle from `t` on in which unit `unit_id` has fewer than `cap`
/// instructions according to `used`.
pub(crate) fn first_free(used: &Vec<Vec<usize>>, unit_id: usize, cap: usize, t: usize) -> (r: usize)
    requires
        unit_id < used@.len(),
    ensures
        t <= r,
        r <= t || r <= used@[unit_id as int]@.len(),
        forall|x: int| t <= x < r ==> x < used@[unit_id as int]@.len() && #[trigger] used@[unit_id as int]@[x] >= cap,
        !(r < used@[unit_id as int]@.len() && used@[unit_id as int]@[r as int] >= cap),
{
    let mut r = t;
    while r < used[unit_id].len() && used[unit_id][r] >= cap
        invariant
            unit_id < used@.len(),
            t <= r,
            r <= t || r <= used@[unit_id as int]@.len(),
            forall|x: int| t <= x < r ==> x < used@[unit_id as int]@.len() && #[trigger] used@[unit_id as int]@[x] >= cap,
        decreases used@[unit_id as int]@.len() - r,
    {
        r = r + 1;
    }
    r
}

/// Records in `used` that the instruction at `n` runs in bundle `s[n]`.
pub(crate) fn record_use(
    used: &mut Vec<Vec<usize>>,
    unit_id: usize,
    t: usize,
    Ghost(ins): Ghost<Seq<Instruction>>,
    Ghost(s): Ghost<Seq<usize>>,
    Ghost(n): Ghost<int>,
)
    requires
        used_matches(ins, s, n, old(used)@),
        0 <= n < s.len(),
        n < ins.len(),
        n < usize::MAX,
        s[n] == t,
        unit_id == unit_index(spec_unit(ins[n])),
    ensures
        used_matches(ins, s, n + 1, final(used)@),
{
    proof {
        assert(unit_at(unit_id as int) == spec_unit(ins[n]));
    }
    while used[unit_id].len() <= t
        invariant
            used@.len() == 4,
            unit_id < 4,
            used_matches(ins, s, n, used@),
        decreases t + 1 - used@[unit_id as int]@.len(),
    {
        let ghost before = used@;
        used[unit_id].push(0);
        proof {
            assert(used@[unit_id as int]@ =~= before[unit_id as int]@.push(0));
            assert forall|u: int, tt: int| 0 <= u < 4 && 0 <= tt implies
                #[trigger] count_at(ins, s, n, unit_at(u), tt)
                    == (if tt < used@[u]@.len() { used@[u]@[tt] as nat } else { 0nat }) by {
                if u != unit_id {
                    assert(used@[u] == before[u]);
                } else {
                    if tt < before[u]@.len() {
                        assert(used@[u]@[tt] == before[u]@[tt]);
                    }
                }
            }
        }
    }
    let ghost before = used@;
    proof {
        assert(before[unit_id as int]@[t as int] == count_at(ins, s, n, unit_at(unit_id as int), t as int));
        lemma_count_le(ins, s, n, unit_at(unit_id as int), t as int);
    }
    let c = used[unit_id][t];
    used[unit_id].set(t, c + 1);
    proof {
        assert(used@[unit_id as int]@ =~= before[unit_id as int]@.update(t as int, (c + 1) as usize));
        assert forall|u: int, tt: int| 0 <= u < 4 && 0 <= tt implies
            #[trigger] count_at(ins, s, n + 1, unit_at(u), tt)
                == (if tt < used@[u]@.len() { used@[u]@[tt] as nat } else { 0nat }) by {
            assert(count_at(ins, s, n + 1, unit_at(u), tt) == count_at(ins, s, n, unit_at(u), tt)
                + (if spec_unit(ins[n]) == unit_at(u) && s[n] == tt { 1nat } else { 0nat }));
            if u != unit_id {
                assert(used@[u] == before[u]);
                assert(unit_at(u) != unit_at(unit_id as int));
            } else {
                if tt < before[u]@.len() && tt != t {
                    assert(used@[u]@[tt] == before[u]@[tt]);
                }
            }
        }
    }
}

/// The largest of `s[0..n]`, or 0.
pub open spec fn max_prefix(s: Seq<usize>, n: int) -> int
    decreases n,
{
    if n <= 0 {
        0
    } else {
        let m = max_prefix(s, n - 1);
        if s[n - 1] > m { s[n - 1] as int } else { m }
    }
}

pub(crate) proof fn lemma_max_prefix(s: Seq<usize>, n: int)
    requires
        0 <= n <= s.len(),
    ensures
        forall|j: int| 0 <= j < n ==> s[j] <= max_prefix(s, n),
        n > 0 ==> exists|j: int| 0 <= j < n && s[j] == max_prefix(s, n),
        n == 0 ==> max_prefix(s, n) == 0,
        max_prefix(s, n) >= 0,
    decreases n,
{
    if n > 0 {
        lemma_max_prefix(s, n - 1);
        if s[n - 1] > max_prefix(s, n - 1) {
            assert(s[n - 1] == max_prefix(s, n));
        } else if n > 1 {
            let j = choose|j: int| 0 <= j < n - 1 && s[j] == max_prefix(s, n - 1);
            assert(s[j] == max_prefix(s, n));
        } else {
            assert(s[0] == max_prefix(s, n));
        }
    }
}

/// The producers that the instruction at `pc` of a region starting at `start`
/// reads through a dependency carried from the previous iteration.
pub open spec fn inter_loop_producers(table: Seq<DependencyList>, start: int, pc: int) -> Seq<usize> {
    table[start + pc]@[1]
}

/// With the loop instruction in bundle `v`, the loop-carried producers inside
/// the region of the instruction at `pc` deliver their results in time for the
/// next iteration.
pub open spec fn carried_ok(ins: Seq<Instruction>, table: Seq<DependencyList>, start: int, s: Seq<usize>, pc: int, v: int) -> bool {
    forall|i: int| 0 <= i < inter_loop_producers(table, start, pc).len() ==> #[trigger] edge_ok(ins, table, start, s, pc, i, v)
}

/// Loop-carried producer `i` of the instruction at `pc` delivers in time when
/// the loop instruction stands in bundle `v`.
pub open spec fn edge_ok(ins: Seq<Instruction>, table: Seq<DependencyList>, start: int, s: Seq<usize>, pc: int, i: int, v: int) -> bool {
    let w = inter_loop_producers(table, start, pc)[i];
    w >= start ==> s[pc] + v - s[w - start] >= unit_latency(spec_unit(ins[w - start])) - 1
}

proof fn lemma_edge_mono(ins: Seq<Instruction>, table: Seq<DependencyList>, start: int, s: Seq<usize>, pc: int, i: int, v1: int, v2: int)
    requires
        v1 <= v2,
        edge_ok(ins, table, start, s, pc, i, v1),
    ensures
        edge_ok(ins, table, start, s, pc, i, v2),
{
}

proof fn lemma_carried_frame(ins: Seq<Instruction>, table: Seq<DependencyList>, start: int, s1: Seq<usize>, s2: Seq<usize>, pc: int, v: int)
    requires
        inter_loop_producers_inside(ins, table, start),
        0 <= pc < ins.len() - 1,
        s1.len() == ins.len() == s2.len(),
        forall|j: int| 0 <= j < ins.len() - 1 ==> s1[j] == s2[j],
    ensures
        carried_ok(ins, table, start, s1, pc, v) == carried_ok(ins, table, start, s2, pc, v),
{
    assert forall|i: int| 0 <= i < inter_loop_producers(table, start, pc).len() implies
        #[trigger] edge_ok(ins, table, start, s1, pc, i, v) == edge_ok(ins, table, start, s2, pc, i, v) by {
        let w = inter_loop_producers(table, start, pc)[i];
        if w >= start {
            assert(s1[w - start] == s2[w - start]);
        }
    }
    if carried_ok(ins, table, start, s1, pc, v) {
        assert forall|i: int| 0 <= i < inter_loop_producers(table, start, pc).len() implies
            #[trigger] edge_ok(ins, table, start, s2, pc, i, v) by {
            assert(edge_ok(ins, table, start, s1, pc, i, v));
        }
    }
    if carried_ok(ins, table, start, s2, pc, v) {
        assert forall|i: int| 0 <= i < inter_loop_producers(table, start, pc).len() implies
            #[trigger] edge_ok(ins, table, start, s1, pc, i, v) by {
            assert(edge_ok(ins, table, start, s2, pc, i, v));
        }
    }
}

/// `s` is the schedule of a loop body whose last instruction is the loop
/// instruction: the local schedule, with the loop instruction moved to the
/// first bundle at or after every other instruction of the body, and after
/// its local place, from which every loop-carried dependency is met.
pub open spec fn is_loop_schedule(ins: Seq<Instruction>, table: Seq<DependencyList>, start: int, s: Seq<usize>) -> bool {
    if ins.len() == 0 {
        s.len() == 0
    } else {
        let lp = ins.len() - 1;
        exists|l: Seq<usize>| #![trigger is_local_schedule(ins, table, start, l)] {
            &&& is_local_schedule(ins, table, start, l)
            &&& s.len() == ins.len()
            &&& s.take(lp) == l.take(lp)
            &&& {
                let base = if l[lp] as int >= max_prefix(l, lp) { l[lp] as int } else { max_prefix(l, lp) };
                &&& base <= s[lp]
                &&& forall|pc: int| 0 <= pc < lp ==> carried_ok(ins, table, start, s, pc, s[lp] as int)
                &&& (s[lp] == base || exists|pc: int| 0 <= pc < lp && !(#[trigger] carried_ok(ins, table, start, s, pc, s[lp] - 1)))
            }
        }
    }
}

/// The loop-carried producers inside the region come before the loop instruction.
pub open spec fn inter_loop_producers_inside(ins: Seq<Instruction>, table: Seq<DependencyList>, start: int) -> bool {
    forall|pc: int, i: int| 0 <= pc < ins.len() - 1 && 0 <= i < inter_loop_producers(table, start, pc).len()
        && #[trigger] inter_loop_producers(table, start, pc)[i] >= start ==>
        inter_loop_producers(table, start, pc)[i] < start + ins.len() - 1
}

/// The schedule of a loop body: the local schedule, with the loop instruction
/// moved late enough for every loop-carried dependency.
pub fn get_loop_schedule(
    instructions: &[Instruction],
    dependency_table: &Vec<DependencyList>,
    start: usize,
) -> (schedule: Vec<usize>)
    requires
        local_producers_before(instructions@, dependency_table@, start as int),
        inter_loop_producers_inside(instructions@, dependency_table@, start as int),
        instructions@.len() <= usize::MAX / 8,
    ensures
        is_loop_schedule(instructions@, dependency_table@, start as int, schedule@),
        forall|j: int| 0 <= j < schedule@.len() ==> #[trigger] schedule@[j] <= 3 * schedule@.len(),
{
    let ghost ins = instructions@;
    let ghost table = dependency_table@;
    if instructions.len() == 0 {
        return Vec::new();
    }
    let mut schedule = get_local_schedule(instructions, dependency_table, start);
    let ghost l = schedule@;
    let loop_pc = schedule.len() - 1;
    let mut i: usize = 0;
    while i < loop_pc
        invariant
            i <= loop_pc,
            loop_pc + 1 == l.len(),
            schedule@ == l.update(loop_pc as int, schedule@[loop_pc as int]),
            schedule@[loop_pc as int] == (if l[loop_pc as int] as int >= max_prefix(l, i as int) { l[loop_pc as int] as int } else { max_prefix(l, i as int) }),
        decreases loop_pc - i,
    {
        if schedule[i] > schedule[loop_pc] {
            schedule.set(loop_pc, schedule[i]);
        }
        i = i + 1;
    }
    let ghost base = schedule@[loop_pc as int] as int;
    proof {
        lemma_max_prefix(l, loop_pc as int);
        assert forall|j: int| 0 <= j < loop_pc implies #[trigger] schedule@[j] <= base by {
            assert(schedule@[j] == l[j]);
        }
        assert(base <= 3 * loop_pc) by {
            if loop_pc > 0 {
                let j = choose|j: int| 0 <= j < loop_pc && l[j] == max_prefix(l, loop_pc as int);
                assert(l[j] <= 3 * j);
            }
            assert(l[loop_pc as int] <= 3 * loop_pc);
        }
    }
    let mut pc: usize = 0;
    while pc < loop_pc
        invariant
            ins == instructions@,
            table == dependency_table@,
            local_producers_before(ins, table, start as int),
            inter_loop_producers_inside(ins, table, start as int),
            loop_pc + 1 == l.len() == ins.len(),
            ins.len() <= usize::MAX / 8,
            pc <= loop_pc,
            schedule@ == l.update(loop_pc as int, schedule@[loop_pc as int]),
            forall|j: int| 0 <= j < loop_pc ==> #[trigger] l[j] <= base,
            forall|j: int| 0 <= j < loop_pc ==> #[trigger] l[j] <= 3 * j,
            0 <= base <= 3 * loop_pc,
            base <= schedule@[loop_pc as int] <= 3 * loop_pc + 2,
            forall|q: int| 0 <= q < pc ==> carried_ok(ins, table, start as int, l, q, schedule@[loop_pc as int] as int),
            schedule@[loop_pc as int] == base
                || exists|q: int| 0 <= q < pc && !(#[trigger] carried_ok(ins, table, start as int, l, q, schedule@[loop_pc as int] - 1)),
        decreases loop_pc - pc,
    {
        let tlen = dependency_table.len();
        proof {
            assert(start + pc < tlen);
        }
        let ws = dependency_table[start + pc].iter(Dependency::InterLoop);
        let ghost v0 = schedule@[loop_pc as int] as int;
        let mut j: usize = 0;
        while j < ws.len()
            invariant
                ins == instructions@,
                table == dependency_table@,
                inter_loop_producers_inside(ins, table, start as int),
                ws@ == inter_loop_producers(table, start as int, pc as int),
                loop_pc + 1 == l.len() == ins.len(),
                ins.len() <= usize::MAX / 8,
                pc < loop_pc,
                j <= ws@.len(),
                schedule@ == l.update(loop_pc as int, schedule@[loop_pc as int]),
                forall|jj: int| 0 <= jj < loop_pc ==> #[trigger] l[jj] <= base,
                forall|jj: int| 0 <= jj < loop_pc ==> #[trigger] l[jj] <= 3 * jj,
                0 <= base <= 3 * loop_pc,
                v0 <= schedule@[loop_pc as int],
                base <= schedule@[loop_pc as int] <= 3 * loop_pc + 2,
                forall|q: int| 0 <= q < pc ==> carried_ok(ins, table, start as int, l, q, v0),
                forall|i: int| 0 <= i < j ==> edge_ok(ins, table, start as int, l, pc as int, i, schedule@[loop_pc as int] as int),
                schedule@[loop_pc as int] == v0
                    || exists|i: int| 0 <= i < j && !(#[trigger] edge_ok(ins, table, start as int, l, pc as int, i, schedule@[loop_pc as int] - 1)),
            decreases ws.len() - j,
        {
            let w = ws[j];
            proof {
                assert(inter_loop_producers(table, start as int, pc as int)[j as int] == w);
            }
            if w >= start {
                proof {
                    assert(w - start < loop_pc);
                }
                let writer_latency = instructions[w - start].unit().latency() as usize;
                let ghost vj = schedule@[loop_pc as int] as int;
                while schedule[pc] + schedule[loop_pc] - schedule[w - start] < writer_latency - 1
                    invariant
                        schedule@ == l.update(loop_pc as int, schedule@[loop_pc as int]),
                        loop_pc + 1 == l.len(),
                        ins.len() == l.len(),
                        ins.len() <= usize::MAX / 8,
                        pc < loop_pc,
                        w - start < loop_pc,
                        w >= start,
                        w == inter_loop_producers(table, start as int, pc as int)[j as int],
                        j < inter_loop_producers(table, start as int, pc as int).len(),
                        forall|jj: int| 0 <= jj < loop_pc ==> #[trigger] l[jj] <= base,
                        forall|jj: int| 0 <= jj < loop_pc ==> #[trigger] l[jj] <= 3 * jj,
                        vj <= schedule@[loop_pc as int] <= 3 * loop_pc + 2,
                        base <= vj,
                        1 <= writer_latency <= 3,
                        writer_latency == unit_latency(spec_unit(ins[w - start])),
                        schedule@[loop_pc as int] == vj
                            || !edge_ok(ins, table, start as int, l, pc as int, j as int, schedule@[loop_pc as int] - 1),
                    decreases writer_latency - (schedule@[pc as int] + schedule@[loop_pc as int] - schedule@[w - start]),
                {
                    proof {
                        assert(schedule@[w - start] == l[w - start]);
                        assert(schedule@[pc as int] == l[pc as int]);
                    }
                    schedule.set(loop_pc, schedule[loop_pc] + 1);
                }
                proof {
                    assert(schedule@[w - start] == l[w - start]);
                    assert(schedule@[pc as int] == l[pc as int]);
                    assert(edge_ok(ins, table, start as int, l, pc as int, j as int, schedule@[loop_pc as int] as int));
                    let v = schedule@[loop_pc as int] as int;
                    assert forall|i: int| 0 <= i < j + 1 implies edge_ok(ins, table, start as int, l, pc as int, i, v) by {
                        if i < j {
                            lemma_edge_mono(ins, table, start as int, l, pc as int, i, vj, v);
                        }
                    }
                    if v != vj {
                        assert(!edge_ok(ins, table, start as int, l, pc as int, j as int, v - 1));
                    }
                }
            } else {
                proof {
                    assert(edge_ok(ins, table, start as int, l, pc as int, j as int, schedule@[loop_pc as int] as int));
                    assert(edge_ok(ins, table, start as int, l, pc as int, j as int, schedule@[loop_pc as int] - 1));
                }
            }
            j = j + 1;
        }
        proof {
            let v = schedule@[loop_pc as int] as int;
            assert forall|q: int| 0 <= q < pc + 1 implies carried_ok(ins, table, start as int, l, q, v) by {
                if q < pc {
                    assert forall|i: int| 0 <= i < inter_loop_producers(table, start as int, q).len() implies
                        edge_ok(ins, table, start as int, l, q, i, v) by {
                        assert(carried_ok(ins, table, start as int, l, q, v0));
                        assert(edge_ok(ins, table, start as int, l, q, i, v0));
                        lemma_edge_mono(ins, table, start as int, l, q, i, v0, v);
                    }
                } else {
                    assert forall|i: int| 0 <= i < inter_loop_producers(table, start as int, q).len() implies
                        edge_ok(ins, table, start as int, l, q, i, v) by {
                        assert(i < j);
                    }
                }
            }
            if v != v0 {
                let i = choose|i: int| 0 <= i < j && !(#[trigger] edge_ok(ins, table, start as int, l, pc as int, i, v - 1));
                assert(!carried_ok(ins, table, start as int, l, pc as int, v - 1));
            } else if v != base {
                let q = choose|q: int| 0 <= q < pc && !(#[trigger] carried_ok(ins, table, start as int, l, q, v - 1));
            }
        }
        pc = pc + 1;
    }
    proof {
        let v = schedule@[loop_pc as int] as int;
        assert(schedule@.take(loop_pc as int) =~= l.take(loop_pc as int));
        assert(is_local_schedule(ins, table, start as int, l));
        assert forall|q: int, vv: int| 0 <= q < loop_pc implies
            carried_ok(ins, table, start as int, schedule@, q, vv) == carried_ok(ins, table, start as int, l, q, vv) by {
            lemma_carried_frame(ins, table, start as int, schedule@, l, q, vv);
        }
        if v != base {
            let q = choose|q: int| 0 <= q < loop_pc && !(#[trigger] carried_ok(ins, table, start as int, l, q, v - 1));
            assert(!carried_ok(ins, table, start as int, schedule@, q, v - 1));
        }
        assert forall|jj: int| 0 <= jj < schedule@.len() implies #[trigger] schedule@[jj] <= 3 * schedule@.len() by {
            if jj < loop_pc {
                assert(schedule@[jj] == l[jj]);
            }
        }
        assert forall|q: int| 0 <= q < loop_pc implies carried_ok(ins, table, start as int, schedule@, q, v) by {
            assert(carried_ok(ins, table, start as int, l, q, v));
        }
        assert(base <= v);
        assert(v == base || exists|q: int| 0 <= q < loop_pc && !(#[trigger] carried_ok(ins, table, start as int, schedule@, q, v - 1)));
        assert(is_loop_schedule(ins, table, start as int, schedule@));
    }
    schedule
}


/// Producer `i` of kind `t`, standing before `start`, delivers its result in
/// time for the instruction at `pc` once that one is moved `off` bundles later.
pub open spec fn cross_edge_ok(p: Seq<Instruction>, table: Seq<DependencyList>, start: int, s: Seq<usize>, pc: int, t: int, i: int, off: int) -> bool {
    let w = table[pc]@[t][i];
    w < start ==> s[pc] + off >= unit_latency(spec_unit(p[w as int])) + s[w as int]
}

/// Every producer before `start` of the instruction at `pc` delivers in time
/// once that one is moved `off` bundles later.
pub open spec fn cross_ok(p: Seq<Instruction>, table: Seq<DependencyList>, start: int, s: Seq<usize>, pc: int, off: int) -> bool {
    forall|t: int, i: int| 0 <= t < 4 && 0 <= i < table[pc]@[t].len() ==> #[trigger] cross_edge_ok(p, table, start, s, pc, t, i, off)
}

/// The first bundle after every bundle used by the instructions before `start`.
pub open spec fn offset_floor(s: Seq<usize>, start: int) -> int {
    if start <= 0 { 0 } else { max_prefix(s, start) + 1 }
}

/// `off` is the smallest shift, at least past every bundle used before `start`,
/// that lets every instruction from `start` on read in time what the
/// instructions before `start` produce.
pub open spec fn is_region_offset(p: Seq<Instruction>, table: Seq<DependencyList>, start: int, s: Seq<usize>, off: int) -> bool {
    &&& offset_floor(s, start) <= off
    &&& forall|pc: int| start <= pc < s.len() ==> cross_ok(p, table, start, s, pc, off)
    &&& (off == offset_floor(s, start) || exists|pc: int| start <= pc < s.len() && !(#[trigger] cross_ok(p, table, start, s, pc, off - 1)))
}

/// `s` with every bundle from `start` on moved `off` bundles later.
pub open spec fn shift_from(s: Seq<usize>, start: int, off: int) -> Seq<usize> {
    Seq::new(s.len(), |j: int| if j < start { s[j] } else { (s[j] + off) as usize })
}

proof fn lemma_cross_mono(p: Seq<Instruction>, table: Seq<DependencyList>, start: int, s: Seq<usize>, pc: int, o1: int, o2: int)
    requires
        o1 <= o2,
        cross_ok(p, table, start, s, pc, o1),
    ensures
        cross_ok(p, table, start, s, pc, o2),
{
    assert forall|t: int, i: int| 0 <= t < 4 && 0 <= i < table[pc]@[t].len() implies
        #[trigger] cross_edge_ok(p, table, start, s, pc, t, i, o2) by {
        assert(cross_edge_ok(p, table, start, s, pc, t, i, o1));
    }
}
/// From a shift `o` that lets every instruction from `start` on read in time,
/// searching down to the first bundle after those before `start` finds the
/// smallest such shift.
proof fn lemma_least_offset(p: Seq<Instruction>, table: Seq<DependencyList>, start: int, s: Seq<usize>, o: int)
    requires
        offset_floor(s, start) <= o,
        forall|pc: int| start <= pc < s.len() ==> cross_ok(p, table, start, s, pc, o),
    ensures
        exists|off: int| is_region_offset(p, table, start, s, off),
    decreases o - offset_floor(s, start),
{
    if o == offset_floor(s, start) {
        assert(is_region_offset(p, table, start, s, o));
    } else if exists|pc: int| start <= pc < s.len() && !(#[trigger] cross_ok(p, table, start, s, pc, o - 1)) {
        assert(is_region_offset(p, table, start, s, o));
    } else {
        lemma_least_offset(p, table, start, s, o - 1);
    }
}

/// Bundle numbers up to a quarter of `usize::MAX` still fit once shifted.
proof fn lemma_offset_fits(p: Seq<Instruction>, table: Seq<DependencyList>, start: int, s: Seq<usize>)
    requires
        0 <= start <= s.len(),
        forall|j: int| 0 <= j < s.len() ==> #[trigger] s[j] <= usize::MAX / 4,
    ensures
        forall|j: int| 0 <= j < start ==> #[trigger] s[j] < usize::MAX,
        forall|off: int| #[trigger] is_region_offset(p, table, start, s, off) ==>
            forall|j: int| start <= j < s.len() ==> #[trigger] s[j] + off <= usize::MAX,
{
    assert forall|off: int| #[trigger] is_region_offset(p, table, start, s, off) implies
        forall|j: int| start <= j < s.len() ==> #[trigger] s[j] + off <= usize::MAX by {
        lemma_region_offset_bound(p, table, start, s, off, (usize::MAX / 4) as int);
    }
}

/// There is a smallest shift for the instructions from `start` on.
proof fn lemma_region_offset_exists(p: Seq<Instruction>, table: Seq<DependencyList>, start: int, s: Seq<usize>)
    requires
        0 <= start <= s.len(),
    ensures
        exists|off: int| is_region_offset(p, table, start, s, off),
{
    let m = max_prefix(s, s.len() as int);
    lemma_max_prefix(s, s.len() as int);
    lemma_max_prefix(s, start);
    if start > 0 {
        let j = choose|j: int| 0 <= j < start && s[j] == max_prefix(s, start);
    }
    let o = m + 4;
    assert forall|pc: int| start <= pc < s.len() implies cross_ok(p, table, start, s, pc, o) by {
        assert forall|t: int, i: int| 0 <= t < 4 && 0 <= i < table[pc]@[t].len() implies
            #[trigger] cross_edge_ok(p, table, start, s, pc, t, i, o) by {
            let w = table[pc]@[t][i];
            if w < start {
                assert(s[w as int] <= m);
                assert(unit_latency(spec_unit(p[w as int])) <= 3);
            }
        }
    }
    lemma_least_offset(p, table, start, s, o);
}

/// Moves the instructions from `start` on past every bundle used before
/// `start`, and further until every dependency on an earlier instruction is met.
pub fn fix_schedule_offsets(
    schedule: &mut Vec<usize>,
    program: &Vec<Instruction>,
    dependency_table: &Vec<DependencyList>,
    start: usize,
)
    requires
        start <= old(schedule)@.len() <= dependency_table@.len(),
        start <= program@.len(),
        forall|j: int| 0 <= j < start ==> #[trigger] old(schedule)@[j] < usize::MAX,
        forall|off: int| #[trigger] is_region_offset(program@, dependency_table@, start as int, old(schedule)@, off) ==>
            forall|j: int| start <= j < old(schedule)@.len() ==> #[trigger] old(schedule)@[j] + off <= usize::MAX,
        forall|pc: int| 0 <= pc < dependency_table@.len() ==> (#[trigger] dependency_table@[pc])@.len() == 4,
    ensures
        exists|off: int| is_region_offset(program@, dependency_table@, start as int, old(schedule)@, off)
            && final(schedule)@ == shift_from(old(schedule)@, start as int, off),
        final(schedule)@.len() == old(schedule)@.len(),
        forall|j: int| 0 <= j < final(schedule)@.len() ==>
            #[trigger] final(schedule)@[j] <= 2 * max_prefix(old(schedule)@, old(schedule)@.len() as int) + 3,
{
    let ghost s = schedule@;
    let ghost m = max_prefix(s, s.len() as int);
    proof {
        lemma_region_offset_exists(program@, dependency_table@, start as int, s);
    }
    let ghost off_star = choose|off: int| is_region_offset(program@, dependency_table@, start as int, s, off);
    proof {
        lemma_max_prefix(s, s.len() as int);
        lemma_max_prefix(s, start as int);
        assert forall|j: int| 0 <= j < start implies s[j] <= m by {}
        if start > 0 {
            let j = choose|j: int| 0 <= j < start && s[j] == max_prefix(s, start as int);
        }
    }
    let ghost p = program@;
    let ghost table = dependency_table@;
    let mut offset: usize = 0;
    let mut pc: usize = 0;
    while pc < start
        invariant
            s == schedule@,
            pc <= start <= s.len(),
            forall|j: int| 0 <= j < start ==> #[trigger] s[j] < usize::MAX,
            forall|j: int| start <= j < s.len() ==> #[trigger] s[j] + off_star <= usize::MAX,
            is_region_offset(program@, dependency_table@, start as int, s, off_star),
            offset == (if pc == 0 { 0 } else { max_prefix(s, pc as int) + 1 }),
        decreases start - pc,
    {
        proof {
            assert(max_prefix(s, pc + 1) == if s[pc as int] > max_prefix(s, pc as int) { s[pc as int] as int } else { max_prefix(s, pc as int) });
            lemma_max_prefix(s, pc as int);
        }
        if schedule[pc] + 1 > offset {
            offset = schedule[pc] + 1;
        }
        pc = pc + 1;
    }
    let ghost floor = offset as int;
    proof {
        lemma_max_prefix(s, start as int);
        if start > 0 {
            let j = choose|j: int| 0 <= j < start && s[j] == max_prefix(s, start as int);
        }
        assert(floor == offset_floor(s, start as int));
    }
    let deps = Dependency::iter();
    let mut pc = start;
    while pc < schedule.len()
        invariant
            s == schedule@,
            p == program@,
            table == dependency_table@,
            deps@ == all_dependencies(),
            start <= pc <= s.len() <= table.len(),
            start <= p.len(),
            forall|j: int| 0 <= j < start ==> #[trigger] s[j] < usize::MAX,
            forall|j: int| start <= j < s.len() ==> #[trigger] s[j] + off_star <= usize::MAX,
            is_region_offset(program@, dependency_table@, start as int, s, off_star),
            forall|q: int| 0 <= q < table.len() ==> (#[trigger] table[q])@.len() == 4,
            floor <= offset <= off_star,
            offset <= m + 3,
            forall|j: int| 0 <= j < s.len() ==> #[trigger] s[j] <= m,
            forall|q: int| start <= q < pc ==> cross_ok(p, table, start as int, s, q, offset as int),
            offset == floor || exists|q: int| start <= q < pc && !(#[trigger] cross_ok(p, table, start as int, s, q, offset - 1)),
        decreases s.len() - pc,
    {
        let ghost o0 = offset as int;
        let mut k: usize = 0;
        while k < 4
            invariant
                s == schedule@,
                p == program@,
                table == dependency_table@,
                deps@ == all_dependencies(),
                start <= pc < s.len() <= table.len(),
                start <= p.len(),
                forall|j: int| 0 <= j < start ==> #[trigger] s[j] < usize::MAX,
                forall|j: int| start <= j < s.len() ==> #[trigger] s[j] + off_star <= usize::MAX,
                is_region_offset(program@, dependency_table@, start as int, s, off_star),
                table[pc as int]@.len() == 4,
                k <= 4,
                o0 <= offset <= off_star,
                offset <= m + 3,
                forall|jj: int| 0 <= jj < s.len() ==> #[trigger] s[jj] <= m,
                forall|t: int, i: int| 0 <= t < k && 0 <= i < table[pc as int]@[t].len() ==>
                    #[trigger] cross_edge_ok(p, table, start as int, s, pc as int, t, i, offset as int),
                offset == o0 || exists|t: int, i: int| 0 <= t < k && 0 <= i < table[pc as int]@[t].len()
                    && !(#[trigger] cross_edge_ok(p, table, start as int, s, pc as int, t, i, offset - 1)),
            decreases 4 - k,
        {
            let dep_type = deps[k];
            let ws = dependency_table[pc].iter(dep_type);
            proof {
                assert(dep_index(dep_type) == k);
            }
            let ghost ok = offset as int;
            let mut j: usize = 0;
            while j < ws.len()
                invariant
                    s == schedule@,
                    p == program@,
                    table == dependency_table@,
                    ws@ == table[pc as int]@[k as int],
                    start <= pc < s.len() <= table.len(),
                    start <= p.len(),
                    forall|jj: int| 0 <= jj < start ==> #[trigger] s[jj] < usize::MAX,
                    forall|jj: int| start <= jj < s.len() ==> #[trigger] s[jj] + off_star <= usize::MAX,
                    is_region_offset(program@, dependency_table@, start as int, s, off_star),
                    table[pc as int]@.len() == 4,
                    k < 4,
                    j <= ws@.len(),
                    ok <= offset <= off_star,
                    offset <= m + 3,
                    forall|jj: int| 0 <= jj < s.len() ==> #[trigger] s[jj] <= m,
                    forall|t: int, i: int| 0 <= t < k && 0 <= i < table[pc as int]@[t].len() ==>
                        #[trigger] cross_edge_ok(p, table, start as int, s, pc as int, t, i, ok),
                    forall|i: int| 0 <= i < j ==> #[trigger] cross_edge_ok(p, table, start as int, s, pc as int, k as int, i, offset as int),
                    offset == ok || exists|i: int| 0 <= i < j
                        && !(#[trigger] cross_edge_ok(p, table, start as int, s, pc as int, k as int, i, offset - 1)),
                decreases ws.len() - j,
            {
                let w = ws[j];
                let ghost o_before = offset as int;
                if w < start {
                    let writer_latency = program[w].unit().latency() as usize;
                    let ghost oj = offset as int;
                    proof {
                        assert(cross_ok(p, table, start as int, s, pc as int, off_star));
                        assert(cross_edge_ok(p, table, start as int, s, pc as int, k as int, j as int, off_star));
                    }
                    while schedule[pc] + offset < writer_latency + schedule[w]
                        invariant
                            s == schedule@,
                            w < start <= s.len(),
                            pc < s.len(),
                            forall|jj: int| 0 <= jj < start ==> #[trigger] s[jj] < usize::MAX,
                            forall|jj: int| start <= jj < s.len() ==> #[trigger] s[jj] + off_star <= usize::MAX,
                            is_region_offset(program@, dependency_table@, start as int, s, off_star),
                            writer_latency <= 3,
 
                            oj <= offset <= off_star,
                            start <= pc,
                            writer_latency + s[w as int] <= s[pc as int] + off_star,
                            offset <= m + 3,
                            forall|jj: int| 0 <= jj < s.len() ==> #[trigger] s[jj] <= m,
                            writer_latency == unit_latency(spec_unit(p[w as int])),
                            w == table[pc as int]@[k as int][j as int],
                            offset == oj || !cross_edge_ok(p, table, start as int, s, pc as int, k as int, j as int, offset - 1),
                        decreases writer_latency + s[w as int] - s[pc as int] - offset,
                    {
                        offset = offset + 1;
                    }
                    proof {
                        assert(cross_edge_ok(p, table, start as int, s, pc as int, k as int, j as int, offset as int));
                    }
                } else {
                    proof {
                        assert(cross_edge_ok(p, table, start as int, s, pc as int, k as int, j as int, offset as int));
                        assert(cross_edge_ok(p, table, start as int, s, pc as int, k as int, j as int, offset - 1));
                    }
                }
                proof {
                    assert forall|i: int| 0 <= i < j + 1 implies #[trigger] cross_edge_ok(p, table, start as int, s, pc as int, k as int, i, offset as int) by {
                        if i < j {
                            assert(cross_edge_ok(p, table, start as int, s, pc as int, k as int, i, o_before));
                        }
                    }
                }
                j = j + 1;
            }
            proof {
                assert forall|t: int, i: int| 0 <= t < k + 1 && 0 <= i < table[pc as int]@[t].len() implies
                    #[trigger] cross_edge_ok(p, table, start as int, s, pc as int, t, i, offset as int) by {
                    if t < k {
                        assert(cross_edge_ok(p, table, start as int, s, pc as int, t, i, ok));
                    } else {
                        assert(i < j);
                    }
                }
                if offset != o0 {
                    if offset != ok {
                        let i = choose|i: int| 0 <= i < j
                            && !(#[trigger] cross_edge_ok(p, table, start as int, s, pc as int, k as int, i, offset - 1));
                        assert(!cross_edge_ok(p, table, start as int, s, pc as int, k as int, i, offset - 1));
                    }
                }
            }
            k = k + 1;
        }
        proof {
            assert(cross_ok(p, table, start as int, s, pc as int, offset as int));
            assert forall|q: int| start <= q < pc + 1 implies cross_ok(p, table, start as int, s, q, offset as int) by {
                if q < pc {
                    lemma_cross_mono(p, table, start as int, s, q, o0, offset as int);
                }
            }
            if offset != o0 {
                let (t, i) = choose|t: int, i: int| 0 <= t < 4 && 0 <= i < table[pc as int]@[t].len()
                    && !(#[trigger] cross_edge_ok(p, table, start as int, s, pc as int, t, i, offset - 1));
                assert(!cross_ok(p, table, start as int, s, pc as int, offset - 1));
            } else if offset != floor {
                let q = choose|q: int| start <= q < pc && !(#[trigger] cross_ok(p, table, start as int, s, q, offset - 1));
            }
        }
        pc = pc + 1;
    }
    let ghost off = offset as int;
    let mut pc = start;
    while pc < schedule.len()
        invariant
            start <= pc <= s.len(),
            schedule@.len() == s.len(),
            forall|j: int| 0 <= j < start ==> #[trigger] s[j] < usize::MAX,
            forall|j: int| start <= j < s.len() ==> #[trigger] s[j] + off_star <= usize::MAX,
            is_region_offset(program@, dependency_table@, start as int, s, off_star),
            offset == off,
            off <= off_star,
            off <= m + 3,
            forall|j: int| 0 <= j < s.len() ==> #[trigger] s[j] <= m,
            forall|j: int| 0 <= j < s.len() ==> #[trigger] schedule@[j] == (if j < start || j >= pc { s[j] } else { (s[j] + off) as usize }),
        decreases s.len() - pc,
    {
        schedule.set(pc, schedule[pc] + offset);
        pc = pc + 1;
    }
    proof {
        assert(schedule@ =~= shift_from(s, start as int, off));
        assert forall|j: int| 0 <= j < schedule@.len() implies #[trigger] schedule@[j] <= 2 * m + 3 by {}
        assert(is_region_offset(p, table, start as int, s, off));
    }
}


/// `s` is the ASAP schedule of a program whose loop body is `[ls, le)`: the
/// region before the loop, the loop body and the region after it, each
/// scheduled on its own, and each moved past the regions before it and late
/// enough for what it reads from them.
pub open spec fn is_asap_schedule(p: Seq<Instruction>, table: Seq<DependencyList>, ls: int, le: int, s: Seq<usize>) -> bool {
    exists|a: Seq<usize>, b: Seq<usize>, off1: int, c: Seq<usize>, off2: int| {
        &&& is_local_schedule(p.subrange(0, ls), table, 0, a)
        &&& is_loop_schedule(p.subrange(ls, le), table, ls, b)
        &&& is_region_offset(p, table, ls, a + b, off1)
        &&& is_local_schedule(p.subrange(le, p.len() as int), table, le, c)
        &&& is_region_offset(p, table, le, shift_from(a + b, ls, off1) + c, off2)
        &&& forall|j: int| 0 <= j < b.len() ==> #[trigger] b[j] + off1 <= usize::MAX
        &&& forall|j: int| 0 <= j < c.len() ==> #[trigger] c[j] + off2 <= usize::MAX
        &&& s == shift_from(shift_from(a + b, ls, off1) + c, le, off2)
    }
}

/// The regions `[0, ls)`, `[ls, le)` and `[le, len)` of a program can be
/// scheduled: local producers come before their readers in the same region and
/// loop-carried producers of the body stand before its last instruction.
pub open spec fn regions_ok(p: Seq<Instruction>, table: Seq<DependencyList>, ls: int, le: int) -> bool {
    &&& 0 <= ls <= le <= p.len()
    &&& table.len() >= p.len()
    &&& local_producers_before(p.subrange(0, ls), table, 0)
    &&& local_producers_before(p.subrange(ls, le), table, ls)
    &&& inter_loop_producers_inside(p.subrange(ls, le), table, ls)
    &&& local_producers_before(p.subrange(le, p.len() as int), table, le)
}

proof fn lemma_region_offset_bound(p: Seq<Instruction>, table: Seq<DependencyList>, start: int, s: Seq<usize>, off: int, m: int)
    requires
        0 <= start <= s.len(),
        is_region_offset(p, table, start, s, off),
        forall|j: int| 0 <= j < s.len() ==> #[trigger] s[j] <= m,
        0 <= m,
    ensures
        off <= m + 3,
{
    lemma_max_prefix(s, start);
    if start > 0 {
        let j = choose|j: int| 0 <= j < start && s[j] == max_prefix(s, start);
    }
    if off != offset_floor(s, start) {
        let pc = choose|pc: int| start <= pc < s.len() && !(#[trigger] cross_ok(p, table, start, s, pc, off - 1));
        let (t, i) = choose|t: int, i: int| 0 <= t < 4 && 0 <= i < table[pc]@[t].len()
            && !(#[trigger] cross_edge_ok(p, table, start, s, pc, t, i, off - 1));
        let w = table[pc]@[t][i];
        assert(w < start);
        assert(unit_latency(spec_unit(p[w as int])) <= 3);
        assert(s[w as int] <= m);
    }
}

/// The ASAP schedule of a program whose loop body is `[loop_start, loop_end)`.
pub fn get_asap_schedule(
    program: &Vec<Instruction>,
    dependency_table: &Vec<DependencyList>,
    loop_start: usize,
    loop_end: usize,
) -> (schedule: Vec<usize>)
    requires
        regions_ok(program@, dependency_table@, loop_start as int, loop_end as int),
        program@.len() <= usize::MAX / 64,
    ensures
        is_asap_schedule(program@, dependency_table@, loop_start as int, loop_end as int, schedule@),
        schedule@.len() == program@.len(),
        forall|j: int| 0 <= j < schedule@.len() ==> #[trigger] schedule@[j] <= 16 * program@.len() + 16,
{
    let ghost p = program@;
    let ghost table = dependency_table@;
    let n = program.len();
    proof {
        broadcast use crate::dependency::lemma_dependency_list_view_len;
    }
    let mut schedule = get_local_schedule(&program[0..loop_start], dependency_table, 0);
    let ghost a = schedule@;
    let mut body = get_loop_schedule(&program[loop_start..loop_end], dependency_table, loop_start);
    let ghost b = body@;
    schedule.append(&mut body);
    proof {
        assert(schedule@ == a + b);
        assert forall|j: int| 0 <= j < schedule@.len() implies #[trigger] schedule@[j] <= 3 * n by {
            if j < a.len() {
                assert(schedule@[j] == a[j]);
                assert(a[j] <= 3 * j);
            } else {
                assert(schedule@[j] == b[j - a.len()]);
            }
        }
        lemma_max_prefix(schedule@, schedule@.len() as int);
        if schedule@.len() > 0 {
            let j = choose|j: int| 0 <= j < schedule@.len() && schedule@[j] == max_prefix(schedule@, schedule@.len() as int);
        }
        assert forall|pc: int| 0 <= pc < table.len() implies (#[trigger] table[pc])@.len() == 4 by {}
    }
    let ghost ab = schedule@;
    proof {
        lemma_offset_fits(p, table, loop_start as int, ab);
    }
    fix_schedule_offsets(&mut schedule, program, dependency_table, loop_start);
    let ghost ab1 = schedule@;
    let mut tail = get_local_schedule(&program[loop_end..n], dependency_table, loop_end);
    let ghost c = tail@;
    schedule.append(&mut tail);
    proof {
        assert(schedule@ == ab1 + c);
        assert forall|j: int| 0 <= j < schedule@.len() implies #[trigger] schedule@[j] <= 6 * n + 3 by {
            if j < ab1.len() {
                assert(schedule@[j] == ab1[j]);
            } else {
                assert(schedule@[j] == c[j - ab1.len()]);
                assert(c[j - ab1.len()] <= 3 * (j - ab1.len()));
            }
        }
        lemma_max_prefix(schedule@, schedule@.len() as int);
        if schedule@.len() > 0 {
            let j = choose|j: int| 0 <= j < schedule@.len() && schedule@[j] == max_prefix(schedule@, schedule@.len() as int);
        }
    }
    let ghost abc = schedule@;
    proof {
        lemma_offset_fits(p, table, loop_end as int, abc);
    }
    fix_schedule_offsets(&mut schedule, program, dependency_table, loop_end);
    proof {
        let off1 = choose|off: int| is_region_offset(p, table, loop_start as int, ab, off)
            && ab1 == shift_from(ab, loop_start as int, off);
        let off2 = choose|off: int| is_region_offset(p, table, loop_end as int, abc, off)
            && schedule@ == shift_from(abc, loop_end as int, off);
        assert forall|j: int| 0 <= j < ab.len() implies #[trigger] ab[j] <= 3 * n by {}
        lemma_region_offset_bound(p, table, loop_start as int, ab, off1, 3 * n);
        assert forall|j: int| 0 <= j < b.len() implies #[trigger] b[j] + off1 <= usize::MAX by {
            let jj = loop_start + j;
            assert(ab[jj] == b[j]);
        }
        assert forall|j: int| 0 <= j < abc.len() implies #[trigger] abc[j] <= 6 * n + 3 by {}
        lemma_region_offset_bound(p, table, loop_end as int, abc, off2, 6 * n + 3);
        assert forall|j: int| 0 <= j < c.len() implies #[trigger] c[j] + off2 <= usize::MAX by {
            let jj = loop_end + j;
            assert(abc[jj] == c[j]);
            assert(abc[jj] <= 6 * n + 3);
        }
        assert(is_asap_schedule(p, table, loop_start as int, loop_end as int, schedule@));
    }
    schedule
}


/// Counting over a region whose bundles are those of `r` moved `off` later,
/// after instructions that all stand in other bundles.
proof fn lemma_count_region(
    p: Seq<Instruction>,
    s: Seq<usize>,
    m: int,
    n: int,
    sub: Seq<Instruction>,
    r: Seq<usize>,
    off: int,
    u: ExecutionUnit,
    t: int,
)
    requires
        0 <= m <= n <= p.len(),
        n - m <= sub.len(),
        n - m <= r.len(),
        forall|i: int| 0 <= i < n - m ==> #[trigger] sub[i] == p[m + i],
        forall|j: int| m <= j < n ==> #[trigger] s[j] == r[j - m] + off,
        forall|j: int| 0 <= j < m ==> #[trigger] s[j] != t,
    ensures
        count_at(p, s, n, u, t) == count_at(sub, r, n - m, u, t - off),
    decreases n - m,
{
    if n == m {
        lemma_count_none(p, s, m, u, t);
    } else {
        lemma_count_region(p, s, m, n - 1, sub, r, off, u, t);
        assert(sub[n - 1 - m] == p[m + (n - 1 - m)]);
        assert(s[n - 1] == r[n - 1 - m] + off);
    }
}

proof fn lemma_count_none(p: Seq<Instruction>, s: Seq<usize>, n: int, u: ExecutionUnit, t: int)
    requires
        forall|j: int| 0 <= j < n ==> #[trigger] s[j] != t,
    ensures
        count_at(p, s, n, u, t) == 0,
    decreases n,
{
    if n > 0 {
        lemma_count_none(p, s, n - 1, u, t);
    }
}

/// Every instruction not on the branch unit finds its unit free in its bundle.
pub open spec fn fits_units(p: Seq<Instruction>, s: Seq<usize>) -> bool {
    forall|pc: int| 0 <= pc < p.len() && spec_unit(p[pc]) != ExecutionUnit::Branch ==>
        #[trigger] count_at(p, s, pc, spec_unit(p[pc]), s[pc] as int) < unit_capacity(spec_unit(p[pc]))
}

/// The ASAP schedule respects the units: in no bundle do more instructions
/// use the ALUs, the multiplier or the memory unit than there are such units,
/// provided the loop body ends with its branch.
pub proof fn lemma_asap_fits_units(p: Seq<Instruction>, table: Seq<DependencyList>, ls: int, le: int, s: Seq<usize>)
    requires
        regions_ok(p, table, ls, le),
        is_asap_schedule(p, table, ls, le, s),
        ls == le || spec_unit(p[le - 1]) == ExecutionUnit::Branch,
    ensures
        fits_units(p, s),
{
    let (a, b, off1, c, off2) = choose|a: Seq<usize>, b: Seq<usize>, off1: int, c: Seq<usize>, off2: int| {
        &&& is_local_schedule(p.subrange(0, ls), table, 0, a)
        &&& is_loop_schedule(p.subrange(ls, le), table, ls, b)
        &&& is_region_offset(p, table, ls, a + b, off1)
        &&& is_local_schedule(p.subrange(le, p.len() as int), table, le, c)
        &&& is_region_offset(p, table, le, shift_from(a + b, ls, off1) + c, off2)
        &&& forall|j: int| 0 <= j < b.len() ==> #[trigger] b[j] + off1 <= usize::MAX
        &&& forall|j: int| 0 <= j < c.len() ==> #[trigger] c[j] + off2 <= usize::MAX
        &&& s == shift_from(shift_from(a + b, ls, off1) + c, le, off2)
    };
    let x = a + b;
    let y = shift_from(x, ls, off1);
    let z = y + c;
    let p1 = p.subrange(0, ls);
    let p2 = p.subrange(ls, le);
    let p3 = p.subrange(le, p.len() as int);
    assert(a.len() == ls);
    assert(b.len() == le - ls);
    assert(c.len() == p.len() - le);
    lemma_max_prefix(x, ls);
    lemma_max_prefix(z, le);
    assert forall|j: int| 0 <= j < ls implies #[trigger] s[j] == a[j] && a[j] < off1 by {
        assert(x[j] == a[j]);
    }
    assert forall|j: int| ls <= j < le implies #[trigger] s[j] == b[j - ls] + off1 && s[j] < off2 by {
        assert(x[j] == b[j - ls]);
        assert(z[j] == y[j]);
    }
    assert forall|j: int| le <= j < p.len() implies #[trigger] s[j] == c[j - le] + off2 by {
        assert(z[j] == c[j - le]);
    }
    assert forall|pc: int| 0 <= pc < p.len() && spec_unit(p[pc]) != ExecutionUnit::Branch implies
        #[trigger] count_at(p, s, pc, spec_unit(p[pc]), s[pc] as int) < unit_capacity(spec_unit(p[pc])) by {
        let u = spec_unit(p[pc]);
        if pc < ls {
            lemma_count_region(p, s, 0, pc, p1, a, 0, u, s[pc] as int);
            assert(local_ok(p1, table, 0, a, pc));
            assert(p1[pc] == p[pc]);
        } else if pc < le {
            let j = pc - ls;
            let lp = p2.len() - 1;
            assert(j < lp);
            let l = choose|l: Seq<usize>| #![trigger is_local_schedule(p2, table, ls, l)] {
                &&& is_local_schedule(p2, table, ls, l)
                &&& b.len() == p2.len()
                &&& b.take(lp) == l.take(lp)
                &&& {
                    let base = if l[lp] as int >= max_prefix(l, lp) { l[lp] as int } else { max_prefix(l, lp) };
                    &&& base <= b[lp]
                    &&& forall|q: int| 0 <= q < lp ==> carried_ok(p2, table, ls, b, q, b[lp] as int)
                    &&& (b[lp] == base || exists|q: int| 0 <= q < lp && !(#[trigger] carried_ok(p2, table, ls, b, q, b[lp] - 1)))
                }
            };
            assert forall|i: int| 0 <= i < lp implies #[trigger] b[i] == l[i] by {
                assert(b.take(lp)[i] == l.take(lp)[i]);
            }
            lemma_count_region(p, s, ls, pc, p2, b, off1, u, s[pc] as int);
            lemma_count_frame(p2, b, l, j, u, b[j] as int);
            assert(local_ok(p2, table, ls, l, j));
            assert(p2[j] == p[pc]);
        } else {
            let k = pc - le;
            lemma_count_region(p, s, le, pc, p3, c, off2, u, s[pc] as int);
            assert(local_ok(p3, table, le, c, k));
            assert(p3[k] == p[pc]);
        }
    }
}


/// Replaces the destination register, for the instructions that have one.
pub(crate) fn update_dest(instr: &mut Instruction, new_dest: u8)
    ensures
        *final(instr) == spec_with_dest(*old(instr), new_dest),
{
    match *instr {
        Instruction::Add(_, a, b) => { *instr = Instruction::Add(new_dest, a, b); },
        Instruction::Addi(_, a, imm) => { *instr = Instruction::Addi(new_dest, a, imm); },
        Instruction::Sub(_, a, b) => { *instr = Instruction::Sub(new_dest, a, b); },
        Instruction::Mulu(_, a, b) => { *instr = Instruction::Mulu(new_dest, a, b); },
        Instruction::Ld(_, imm, addr) => { *instr = Instruction::Ld(new_dest, imm, addr); },
        Instruction::Mov(_, s) => { *instr = Instruction::Mov(new_dest, s); },
        Instruction::MovI(_, imm) => { *instr = Instruction::MovI(new_dest, imm); },
        _ => {},
    }
}

/// Replaces the operand registers, in operand order.
/// Setting the operands keeps the destination and reads the new operands.
proof fn lemma_with_operands(i: Instruction, ops: Seq<u8>)
    requires
        ops.len() >= spec_operands(i).len(),
    ensures
        spec_dest(spec_with_operands(i, ops)) == spec_dest(i),
        spec_operands(spec_with_operands(i, ops)).len() == spec_operands(i).len(),
        forall|j: int| 0 <= j < spec_operands(i).len() ==> #[trigger] spec_operands(spec_with_operands(i, ops))[j] == ops[j],
{
}

proof fn lemma_with_operands_form(i: Instruction, ops: Seq<u8>)
    ensures
        same_form(spec_with_operands(i, ops), i),
{
}

proof fn lemma_unit_index_injective(a: ExecutionUnit, b: ExecutionUnit)
    requires
        unit_index(a) == unit_index(b),
    ensures
        a == b,
{
}

fn update_ops(instr: &mut Instruction, new_ops: Vec<u8>)
    requires
        new_ops@.len() >= spec_operands(*old(instr)).len(),
    ensures
        *final(instr) == spec_with_operands(*old(instr), new_ops@),
{
    match *instr {
        Instruction::Add(d, _, _) => { *instr = Instruction::Add(d, new_ops[0], new_ops[1]); },
        Instruction::Sub(d, _, _) => { *instr = Instruction::Sub(d, new_ops[0], new_ops[1]); },
        Instruction::St(_, imm, _) => { *instr = Instruction::St(new_ops[0], imm, new_ops[1]); },
        Instruction::Mulu(d, _, _) => { *instr = Instruction::Mulu(d, new_ops[0], new_ops[1]); },
        Instruction::Mov(d, _) => { *instr = Instruction::Mov(d, new_ops[0]); },
        Instruction::Ld(d, imm, _) => { *instr = Instruction::Ld(d, imm, new_ops[0]); },
        Instruction::Addi(d, _, imm) => { *instr = Instruction::Addi(d, new_ops[0], imm); },
        _ => {},
    }
}


/// The position of the last `loop` instruction before `n`, or -1.
pub open spec fn last_plain_loop(p: Seq<Instruction>, n: int) -> int
    decreases n,
{
    if n <= 0 {
        -1
    } else if p[n - 1] is Loop {
        n - 1
    } else {
        last_plain_loop(p, n - 1)
    }
}

/// The loop of the non-pipelined scheduler can be formed: the last `loop`
/// instruction, if any, jumps to an instruction of the program no further on
/// than the one right after it.
pub open spec fn vliw_loop_ok(p: Seq<Instruction>) -> bool {
    let k = last_plain_loop(p, p.len() as int);
    k < 0 || (loop_target(p[k]) <= k + 1 && loop_target(p[k]) < p.len())
}

/// Without a `loop` instruction there is no loop end to put moves at: no
/// register may then be carried around a `loop.pip` by two producers.
pub open spec fn vliw_moves_ok(p: Seq<Instruction>, t: Seq<DependencyList>) -> bool {
    last_plain_loop(p, p.len() as int) < 0 ==> !carried_twice(p, t)
}

/// Whether the regions fit the table does not depend on which dependency
/// table of the program is taken.
pub(crate) proof fn lemma_regions_same(p: Seq<Instruction>, t1: Seq<DependencyList>, t2: Seq<DependencyList>, ls: int, le: int)
    requires
        is_dependency_table(p, t1),
        is_dependency_table(p, t2),
        regions_ok(p, t1, ls, le),
    ensures
        regions_ok(p, t2, ls, le),
{
    crate::dependency::lemma_dependency_table_unique(p, t1, t2);
    assert forall|q: int, i: int| 0 <= q < p.subrange(0, ls).len() && 0 <= i < local_producers(t2, 0, q).len() implies
        0 <= #[trigger] local_producers(t2, 0, q)[i] < 0 + q by {
        assert(t1[q]@ == t2[q]@);
        assert(local_producers(t1, 0, q) == local_producers(t2, 0, q));
    }
    assert forall|q: int, i: int| 0 <= q < p.subrange(ls, le).len() && 0 <= i < local_producers(t2, ls, q).len() implies
        ls <= #[trigger] local_producers(t2, ls, q)[i] < ls + q by {
        assert(t1[ls + q]@ == t2[ls + q]@);
        assert(local_producers(t1, ls, q) == local_producers(t2, ls, q));
    }
    assert forall|q: int, i: int| 0 <= q < p.subrange(le, p.len() as int).len() && 0 <= i < local_producers(t2, le, q).len() implies
        le <= #[trigger] local_producers(t2, le, q)[i] < le + q by {
        assert(t1[le + q]@ == t2[le + q]@);
        assert(local_producers(t1, le, q) == local_producers(t2, le, q));
    }
    assert forall|q: int, i: int| 0 <= q < p.subrange(ls, le).len() - 1 && 0 <= i < inter_loop_producers(t2, ls, q).len()
        && #[trigger] inter_loop_producers(t2, ls, q)[i] >= ls implies
        inter_loop_producers(t2, ls, q)[i] < ls + p.subrange(ls, le).len() - 1 by {
        assert(t1[ls + q]@ == t2[ls + q]@);
        assert(inter_loop_producers(t1, ls, q) == inter_loop_producers(t2, ls, q));
    }
}

/// The regions of the non-pipelined scheduler, where the program suits it.
pub fn plain_loop_regions(program: &Vec<Instruction>) -> (r: Option<(usize, usize)>)
    ensures
        r is Some <==> vliw_loop_ok(program@),
        r matches Some(b) ==> b.0 == vliw_bounds(program@).0 && b.1 == vliw_bounds(program@).1
            && b.0 <= b.1 <= program@.len(),
{
    let ghost p = program@;
    let n = program.len();
    let mut found = false;
    let mut loop_start = n;
    let mut loop_end = n;
    let mut pc: usize = 0;
    while pc < n
        invariant
            p == program@,
            n == p.len(),
            pc <= n,
            found == (last_plain_loop(p, pc as int) >= 0),
            last_plain_loop(p, pc as int) < 0 ==> loop_start == n && loop_end == n,
            last_plain_loop(p, pc as int) >= 0 ==> loop_start == loop_target(p[last_plain_loop(p, pc as int)])
                && loop_end == last_plain_loop(p, pc as int) + 1,
        decreases n - pc,
    {
        match program[pc] {
            Instruction::Loop(val) => {
                found = true;
                loop_start = val;
                loop_end = pc + 1;
            },
            _ => {},
        }
        pc = pc + 1;
    }
    proof {
        lemma_last_plain(p, n as int);
    }
    if !found {
        return Some((n, n));
    }
    if loop_start <= loop_end && loop_start < n {
        Some((loop_start, loop_end))
    } else {
        None
    }
}

/// Whether the dependency table keeps each region's local producers inside
/// it, before their readers, and the loop's carried producers inside the
/// loop body before its branch (`regions_ok`).
pub fn regions_fit(program: &Vec<Instruction>, dependency_table: &Vec<DependencyList>, ls: usize, le: usize) -> (r: bool)
    requires
        is_dependency_table(program@, dependency_table@),
        ls <= le <= program@.len(),
    ensures
        r == regions_ok(program@, dependency_table@, ls as int, le as int),
{
    let ghost p = program@;
    let ghost t = dependency_table@;
    let n = program.len();
    let mut pc: usize = 0;
    while pc < n
        invariant
            p == program@,
            t == dependency_table@,
            t.len() == p.len(),
            n == p.len(),
            ls <= le <= n,
            pc <= n,
            forall|q: int, i: int| 0 <= q < pc && 0 <= i < t[q]@[0].len() ==>
                (if q < ls { 0 } else if q < le { ls as int } else { le as int }) <= #[trigger] t[q]@[0][i] < q,
            forall|q: int, i: int| ls <= q < pc && q + 1 < le && 0 <= i < t[q]@[1].len() && #[trigger] t[q]@[1][i] >= ls ==>
                t[q]@[1][i] < le - 1,
        decreases n - pc,
    {
        let start: usize = if pc < ls { 0 } else if pc < le { ls } else { le };
        let ws = dependency_table[pc].iter(Dependency::Local);
        proof {
            assert(crate::dependency::dep_index(Dependency::Local) == 0);
        }
        let mut i: usize = 0;
        while i < ws.len()
            invariant
                p == program@,
                t == dependency_table@,
                t.len() == p.len(),
                pc < n,
                n == p.len(),
                ws@ == t[pc as int]@[0],
                i <= ws@.len(),
                ls <= le <= n,
                start == (if pc < ls { 0 } else if pc < le { ls } else { le }),
                forall|k: int| 0 <= k < i ==> start <= #[trigger] ws@[k] < pc,
            decreases ws@.len() - i,
        {
            if !(start <= ws[i] && ws[i] < pc) {
                proof {
                    let q = pc as int;
                    let k = i as int;
                    assert(t[q]@[0][k] == ws@[k]);
                    if q < ls {
                        assert(start == 0);
                        assert(ws@[k] >= q);
                        assert(0 <= q < p.subrange(0, ls as int).len());
                        assert(local_producers(t, 0, q) == t[q]@[0]);
                        assert(k < local_producers(t, 0, q).len());
                        assert(local_producers(t, 0, q)[k] == ws@[k]);
                        assert(!local_producers_before(p.subrange(0, ls as int), t, 0));
                    } else if q < le {
                        assert(start == ls);
                        assert(0 <= q - ls < p.subrange(ls as int, le as int).len());
                        assert(local_producers(t, ls as int, q - ls) == t[q]@[0]);
                        assert(k < local_producers(t, ls as int, q - ls).len());
                        assert(local_producers(t, ls as int, q - ls)[k] == ws@[k]);
                        assert(!local_producers_before(p.subrange(ls as int, le as int), t, ls as int));
                    } else {
                        assert(local_producers(t, le as int, q - le)[k] == ws@[k]);
                        assert(!local_producers_before(p.subrange(le as int, n as int), t, le as int));
                    }
                }
                return false;
            }
            i = i + 1;
        }
        if ls <= pc && pc + 1 < le {
            let iw = dependency_table[pc].iter(Dependency::InterLoop);
            proof {
                assert(crate::dependency::dep_index(Dependency::InterLoop) == 1);
            }
            let mut i: usize = 0;
            while i < iw.len()
                invariant
                    p == program@,
                    t == dependency_table@,
                    t.len() == p.len(),
                    ls <= pc,
                    pc + 1 < le <= n,
                    n == p.len(),
                    iw@ == t[pc as int]@[1],
                    i <= iw@.len(),
                    forall|k: int| 0 <= k < i && #[trigger] iw@[k] >= ls ==> iw@[k] < le - 1,
                decreases iw@.len() - i,
            {
                if iw[i] >= ls && iw[i] >= le - 1 {
                    proof {
                        let q = pc as int;
                        let k = i as int;
                        assert(inter_loop_producers(t, ls as int, q - ls)[k] == iw@[k]);
                        assert(!inter_loop_producers_inside(p.subrange(ls as int, le as int), t, ls as int));
                    }
                    return false;
                }
                i = i + 1;
            }
        }
        pc = pc + 1;
    }
    proof {
        let lsi = ls as int;
        let lei = le as int;
        assert forall|q: int, i: int| 0 <= q < p.subrange(0, lsi).len() && 0 <= i < local_producers(t, 0, q).len() implies
            0 <= #[trigger] local_producers(t, 0, q)[i] < 0 + q by {
            assert(t[q]@[0][i] == local_producers(t, 0, q)[i]);
        }
        assert forall|q: int, i: int| 0 <= q < p.subrange(lsi, lei).len() && 0 <= i < local_producers(t, lsi, q).len() implies
            lsi <= #[trigger] local_producers(t, lsi, q)[i] < lsi + q by {
            assert(t[lsi + q]@[0][i] == local_producers(t, lsi, q)[i]);
        }
        assert forall|q: int, i: int| 0 <= q < p.subrange(lei, n as int).len() && 0 <= i < local_producers(t, lei, q).len() implies
            lei <= #[trigger] local_producers(t, lei, q)[i] < lei + q by {
            assert(t[lei + q]@[0][i] == local_producers(t, lei, q)[i]);
        }
        assert forall|q: int, i: int| 0 <= q < p.subrange(lsi, lei).len() - 1 && 0 <= i < inter_loop_producers(t, lsi, q).len()
            && #[trigger] inter_loop_producers(t, lsi, q)[i] >= lsi implies
            inter_loop_producers(t, lsi, q)[i] < lsi + p.subrange(lsi, lei).len() - 1 by {
            assert(t[lsi + q]@[1][i] == inter_loop_producers(t, lsi, q)[i]);
        }
    }
    true
}

/// The regions of the non-pipelined scheduler: the loop body runs from the
/// target of the last `loop` instruction up to and including it.
pub open spec fn vliw_bounds(p: Seq<Instruction>) -> (int, int) {
    let k = last_plain_loop(p, p.len() as int);
    if k < 0 {
        (p.len() as int, p.len() as int)
    } else {
        (loop_target(p[k]) as int, k + 1)
    }
}

pub(crate) proof fn lemma_last_plain(p: Seq<Instruction>, n: int)
    requires
        0 <= n <= p.len(),
    ensures
        last_loop_before(p, n) < 0 ==> last_plain_loop(p, n) < 0,
        last_loop_before(p, n) >= 0 && p[last_loop_before(p, n)] is Loop ==> last_plain_loop(p, n) == last_loop_before(p, n),
        forall|j: int| 0 <= j < n && (#[trigger] p[j]) is Loop ==> j <= last_plain_loop(p, n) < n,
        last_plain_loop(p, n) >= 0 ==> last_plain_loop(p, n) < n && p[last_plain_loop(p, n)] is Loop,
    decreases n,
{
    if n > 0 {
        lemma_last_plain(p, n - 1);
    }
}

/// The last loop instruction is the last `loop`, or there is no `loop`: the
/// dependency table and the non-pipelined scheduler see the same regions,
/// or the scheduler sees one region only.
pub open spec fn loops_agree(p: Seq<Instruction>) -> bool {
    let k = last_loop_before(p, p.len() as int);
    k < 0 || p[k] is Loop || last_plain_loop(p, p.len() as int) < 0
}

/// In the dependency table of a program that suits the non-pipelined
/// scheduler, local producers come before their readers in the same region
/// and loop-carried producers of the body come before the loop instruction.
proof fn lemma_table_regions(p: Seq<Instruction>, t: Seq<DependencyList>)
    requires
        is_dependency_table(p, t),
        vliw_loop_ok(p),
    ensures
        loops_agree(p) ==> regions_ok(p, t, vliw_bounds(p).0, vliw_bounds(p).1),
        forall|r: int, i: int| 0 <= r < p.len() && 0 <= i < t[r]@[1].len() ==>
            0 <= #[trigger] t[r]@[1][i] < p.len() && spec_dest(p[t[r]@[1][i] as int]) is Some,
        last_loop_before(p, p.len() as int) < 0 ==> forall|r: int| 0 <= r < p.len() ==> (#[trigger] t[r])@[1].len() == 0,
        forall|r: int, k: int, i: int| 0 <= r < p.len() && 0 <= k < 4 && 0 <= i < t[r]@[k].len() ==>
            0 <= #[trigger] t[r]@[k][i] < p.len() && spec_dest(p[t[r]@[k][i] as int]) is Some,
{
    lemma_last_loop_range(p, p.len() as int);
    lemma_last_plain(p, p.len() as int);
    let (ls, le) = vliw_bounds(p);
    let (dls, dle) = loop_bounds(p);
    let n = p.len() as int;
    assert forall|r: int, k: int, i: int| 0 <= r < n && 0 <= k < 4 && 0 <= i < t[r]@[k].len() implies
        0 <= #[trigger] t[r]@[k][i] < n && spec_dest(p[t[r]@[k][i] as int]) is Some
        && spec_dependency_type(t[r]@[k][i] as int, r, dls, dle, modified_in_loop_of(p, t[r]@[k][i] as int)) == Some(dep_at(k)) by {
        assert(is_dependency_list_of(p, r, t[r]@));
        assert(t[r]@[k].contains(t[r]@[k][i]));
        assert(dep_kept(p, r, dep_at(k), t[r]@[k][i] as int));
    }
    assert(t.len() >= p.len());
    if loops_agree(p) {
        // region before the loop
        assert forall|pc: int, i: int| 0 <= pc < p.subrange(0, ls).len() && 0 <= i < local_producers(t, 0, pc).len() implies
            0 <= #[trigger] local_producers(t, 0, pc)[i] < 0 + pc by {
            assert(dep_at(0) == Dependency::Local);
            let w = t[pc]@[0][i];
        }
        assert forall|pc: int, i: int| 0 <= pc < p.subrange(ls, le).len() && 0 <= i < local_producers(t, ls, pc).len() implies
            ls <= #[trigger] local_producers(t, ls, pc)[i] < ls + pc by {
            let w = t[ls + pc]@[0][i];
        }
        assert forall|pc: int, i: int| 0 <= pc < p.subrange(ls, le).len() - 1 && 0 <= i < inter_loop_producers(t, ls, pc).len()
            && #[trigger] inter_loop_producers(t, ls, pc)[i] >= ls implies
            inter_loop_producers(t, ls, pc)[i] < ls + p.subrange(ls, le).len() - 1 by {
            let w = t[ls + pc]@[1][i];
        }
        assert forall|pc: int, i: int| 0 <= pc < p.subrange(le, n).len() && 0 <= i < local_producers(t, le, pc).len() implies
            le <= #[trigger] local_producers(t, le, pc)[i] < le + pc by {
            let w = t[le + pc]@[0][i];
            if w == le - 1 {
                assert(p[le - 1] is Loop);
            }
        }
    }
    if last_loop_before(p, n) < 0 {
        assert forall|r: int| 0 <= r < n implies (#[trigger] t[r])@[1].len() == 0 by {
            if t[r]@[1].len() > 0 {
                let w = t[r]@[1][0];
                assert(0 <= w < n);
            }
        }
    }
}

/// Whether the register written at `w` is also written inside the loop body.
spec fn modified_in_loop_of(p: Seq<Instruction>, w: int) -> bool {
    crate::dependency::modified_in_loop(p, spec_dest(p[w])->0)
}


/// Every bundle holds at most as many instructions per unit as it has units
/// of that kind.
pub open spec fn bundles_fit(bs: Seq<VLIW>) -> bool {
    forall|b: int, u: int| 0 <= b < bs.len() && 0 <= u < 4 ==>
        (#[trigger] bs[b]@[u]).len() <= unit_capacity(unit_at(u))
}

/// The number of bundles a schedule uses.
pub open spec fn bundle_count(s: Seq<usize>) -> int {
    if s.len() == 0 { 0 } else { max_prefix(s, s.len() as int) + 1 }
}

/// Where bundle `b` of the schedule ends up once `extra` bundles are inserted
/// after bundle `split`.
pub open spec fn bundle_pos(b: int, split: int, extra: int) -> int {
    if b <= split { b } else { b + extra }
}

/// The instruction at `pc`, if it is not on the branch unit, stands in bundle
/// `bundle_pos(s[pc])` of `bs`, on its unit, after the instructions of that
/// unit placed there before it, unchanged but for its registers.
pub open spec fn placed_at(p: Seq<Instruction>, s: Seq<usize>, bs: Seq<VLIW>, split: int, extra: int, pc: int) -> bool {
    let u = unit_index(spec_unit(p[pc]));
    let b = bundle_pos(s[pc] as int, split, extra);
    let i = count_at(p, s, pc, spec_unit(p[pc]), s[pc] as int) as int;
    &&& 0 <= b < bs.len()
    &&& i < bs[b]@[u].len()
    &&& same_form(bs[b]@[u][i], p[pc])
}

/// All instructions not on the branch unit are placed as `placed_at` says.
pub open spec fn all_placed(p: Seq<Instruction>, s: Seq<usize>, bs: Seq<VLIW>, split: int, extra: int) -> bool {
    forall|pc: int| 0 <= pc < p.len() && spec_unit(p[pc]) != ExecutionUnit::Branch ==>
        #[trigger] placed_at(p, s, bs, split, extra, pc)
}

/// The instruction at `pc` stands, unchanged, where `placed_at` says.
spec fn placed_exact(p: Seq<Instruction>, s: Seq<usize>, bs: Seq<VLIW>, pc: int) -> bool {
    bs[s[pc] as int]@[unit_index(spec_unit(p[pc]))][count_at(p, s, pc, spec_unit(p[pc]), s[pc] as int) as int] == p[pc]
}

/// Bundles `cur` are bundles `old` with registers renamed and, for the units
/// other than the branch unit, instructions possibly added after the old ones;
/// the old bundles after `split` have moved `extra` places.
pub open spec fn keeps_forms(old: Seq<VLIW>, cur: Seq<VLIW>, split: int, extra: int) -> bool {
    &&& cur.len() == old.len() + extra
    &&& forall|b: int, u: int| 0 <= b < old.len() && 0 <= u < 3 ==>
        (#[trigger] old[b]@[u]).len() <= cur[bundle_pos(b, split, extra)]@[u].len()
    &&& forall|b: int, u: int, i: int| 0 <= b < old.len() && 0 <= u < 3 && 0 <= i < old[b]@[u].len() ==>
        #[trigger] same_form(cur[bundle_pos(b, split, extra)]@[u][i], old[b]@[u][i])
}

proof fn lemma_keeps_forms_placed(p: Seq<Instruction>, s: Seq<usize>, old: Seq<VLIW>, cur: Seq<VLIW>, split0: int, split: int, extra: int)
    requires
        all_placed(p, s, old, split0, 0),
        keeps_forms(old, cur, split, extra),
        0 <= extra,
    ensures
        all_placed(p, s, cur, split, extra),
{
    assert forall|pc: int| 0 <= pc < p.len() && spec_unit(p[pc]) != ExecutionUnit::Branch implies
        #[trigger] placed_at(p, s, cur, split, extra, pc) by {
        assert(placed_at(p, s, old, split0, 0, pc));
        let u = unit_index(spec_unit(p[pc]));
        let b = s[pc] as int;
        let i = count_at(p, s, pc, spec_unit(p[pc]), s[pc] as int) as int;
        assert(u < 3);
        assert(same_form(cur[bundle_pos(b, split, extra)]@[u][i], old[b]@[u][i]));
        lemma_same_form(cur[bundle_pos(b, split, extra)]@[u][i], old[b]@[u][i], p[pc]);
    }
}

proof fn lemma_placed_keeps(p: Seq<Instruction>, s: Seq<usize>, old: Seq<VLIW>, cur: Seq<VLIW>, split: int, extra: int, split2: int)
    requires
        all_placed(p, s, old, split, extra),
        keeps_forms(old, cur, split2, 0),
    ensures
        all_placed(p, s, cur, split, extra),
{
    assert forall|pc: int| 0 <= pc < p.len() && spec_unit(p[pc]) != ExecutionUnit::Branch implies
        #[trigger] placed_at(p, s, cur, split, extra, pc) by {
        assert(placed_at(p, s, old, split, extra, pc));
        let u = unit_index(spec_unit(p[pc]));
        let b = bundle_pos(s[pc] as int, split, extra);
        let i = count_at(p, s, pc, spec_unit(p[pc]), s[pc] as int) as int;
        assert(u < 3);
        assert(bundle_pos(b, split2, 0) == b);
        assert(same_form(cur[bundle_pos(b, split2, 0)]@[u][i], old[b]@[u][i]));
        lemma_same_form(cur[b]@[u][i], old[b]@[u][i], p[pc]);
    }
}

/// How many of the instructions before `n` write a register and run on unit
/// `u` in bundle `b`.
pub open spec fn writes_at(p: Seq<Instruction>, s: Seq<usize>, n: int, u: int, b: int) -> nat
    decreases n,
{
    if n <= 0 {
        0
    } else {
        writes_at(p, s, n - 1, u, b) + (if spec_dest(p[n - 1]) is Some && unit_index(spec_unit(p[n - 1])) == u
            && s[n - 1] == b { 1nat } else { 0nat })
    }
}

/// How many instructions write a register and run in bundle `b` on one of
/// the first `u` units.
pub open spec fn writes_in_units(p: Seq<Instruction>, s: Seq<usize>, b: int, u: int) -> nat
    decreases u,
{
    if u <= 0 {
        0
    } else {
        writes_in_units(p, s, b, u - 1) + writes_at(p, s, p.len() as int, u - 1, b)
    }
}

/// How many instructions write a register and run in one of the first `b`
/// bundles.
pub open spec fn writes_in_bundles(p: Seq<Instruction>, s: Seq<usize>, b: int) -> nat
    decreases b,
{
    if b <= 0 {
        0
    } else {
        writes_in_bundles(p, s, b - 1) + writes_in_units(p, s, b - 1, 4)
    }
}

/// How many instructions that write a register come before the one at `pc`,
/// ordered by bundle, then unit (ALU, multiplier, memory, branch), then
/// position in the program.
pub open spec fn writes_before(p: Seq<Instruction>, s: Seq<usize>, pc: int) -> nat {
    let u = unit_index(spec_unit(p[pc]));
    writes_in_bundles(p, s, s[pc] as int) + writes_in_units(p, s, s[pc] as int, u) + writes_at(p, s, pc, u, s[pc] as int)
}

proof fn lemma_unit_writes_prefix(l1: Seq<Instruction>, l2: Seq<Instruction>, i: int)
    requires
        0 <= i <= l1.len(),
        i <= l2.len(),
        forall|j: int| 0 <= j < i ==> #[trigger] l1[j] == l2[j],
    ensures
        unit_writes(l1, i) == unit_writes(l2, i),
    decreases i,
{
    if i > 0 {
        lemma_unit_writes_prefix(l1, l2, i - 1);
    }
}

proof fn lemma_place_writes(
    p: Seq<Instruction>,
    s: Seq<usize>,
    before: Seq<VLIW>,
    cur: Seq<VLIW>,
    pc: int,
    index: int,
    u: int,
    new_instr: Instruction,
    added: bool,
    nb: int,
)
    requires
        0 <= pc < p.len(),
        s.len() == p.len(),
        index == s[pc],
        0 <= index < nb,
        before.len() == nb,
        cur.len() == nb,
        0 <= u < 4,
        u == unit_index(spec_unit(new_instr)),
        spec_unit(new_instr) == spec_unit(p[pc]),
        spec_dest(new_instr) is Some <==> spec_dest(p[pc]) is Some,
        spec_unit(p[pc]) != ExecutionUnit::Branch ==> added && new_instr == p[pc],
        forall|c: int| 0 <= c < nb && c != index ==> #[trigger] cur[c] == before[c],
        forall|uu: int| 0 <= uu < 4 && uu != u ==> #[trigger] cur[index]@[uu] == before[index]@[uu],
        added ==> cur[index]@[u] == before[index]@[u].push(new_instr),
        !added ==> cur[index]@[u] == before[index]@[u],
        forall|c: int, uu: int| 0 <= c < nb && 0 <= uu < 3 ==>
            (#[trigger] before[c]@[uu]).len() == count_at(p, s, pc, unit_at(uu), c),
        forall|q: int| 0 <= q < pc && spec_unit(p[q]) != ExecutionUnit::Branch ==>
            #[trigger] placed_at(p, s, before, 0, 0, q),
        forall|c: int, uu: int| 0 <= c < nb && 0 <= uu < 4 ==>
            #[trigger] unit_writes(before[c]@[uu], before[c]@[uu].len() as int) == writes_at(p, s, pc, uu, c),
        forall|q: int| 0 <= q < pc && spec_unit(p[q]) != ExecutionUnit::Branch ==>
            unit_writes(before[s[q] as int]@[unit_index(spec_unit(p[q]))],
                #[trigger] count_at(p, s, q, spec_unit(p[q]), s[q] as int) as int)
                == writes_at(p, s, q, unit_index(spec_unit(p[q])), s[q] as int),
    ensures
        forall|c: int, uu: int| 0 <= c < nb && 0 <= uu < 4 ==>
            #[trigger] unit_writes(cur[c]@[uu], cur[c]@[uu].len() as int) == writes_at(p, s, pc + 1, uu, c),
        forall|q: int| 0 <= q < pc + 1 && spec_unit(p[q]) != ExecutionUnit::Branch ==>
            unit_writes(cur[s[q] as int]@[unit_index(spec_unit(p[q]))],
                #[trigger] count_at(p, s, q, spec_unit(p[q]), s[q] as int) as int)
                == writes_at(p, s, q, unit_index(spec_unit(p[q])), s[q] as int),
{
            assert(spec_dest(new_instr) is Some <==> spec_dest(p[pc]) is Some);
    assert(spec_unit(p[pc]) == ExecutionUnit::Branch ==> spec_dest(p[pc]) is None);
    assert forall|c: int, uu: int| 0 <= c < nb && 0 <= uu < 4 implies
        #[trigger] unit_writes(cur[c]@[uu], cur[c]@[uu].len() as int) == writes_at(p, s, pc + 1, uu, c) by {
        assert(unit_writes(before[c]@[uu], before[c]@[uu].len() as int) == writes_at(p, s, pc, uu, c));
        if c != index {
            assert(cur[c] == before[c]);
        } else if uu != u {
            assert(cur[c]@[uu] == before[c]@[uu]);
        } else if added {
            let l = before[c]@[uu];
            let l2 = cur[c]@[uu];
            assert(l2 == l.push(new_instr));
            lemma_unit_writes_prefix(l, l2, l.len() as int);
            assert(unit_writes(l2, l2.len() as int) == unit_writes(l2, l.len() as int) + (if spec_dest(new_instr) is Some { 1nat } else { 0nat }));
        } else {
            assert(cur[c]@[uu] == before[c]@[uu]);
        }
    }
    assert forall|q: int| 0 <= q < pc + 1 && spec_unit(p[q]) != ExecutionUnit::Branch implies
        unit_writes(cur[s[q] as int]@[unit_index(spec_unit(p[q]))],
            #[trigger] count_at(p, s, q, spec_unit(p[q]), s[q] as int) as int)
            == writes_at(p, s, q, unit_index(spec_unit(p[q])), s[q] as int) by {
        let uq = unit_index(spec_unit(p[q]));
        let iq = count_at(p, s, q, spec_unit(p[q]), s[q] as int) as int;
        let l = before[s[q] as int]@[uq];
        let l2 = cur[s[q] as int]@[uq];
        if q < pc {
            assert(placed_at(p, s, before, 0, 0, q));
            assert(iq < l.len());
            if s[q] as int != index {
                assert(cur[s[q] as int] == before[s[q] as int]);
                assert(l2 == l);
            } else if uq != u {
                assert(cur[s[q] as int]@[uq] == before[s[q] as int]@[uq]);
                assert(l2 == l);
            } else if added {
                assert(l2 == l.push(new_instr));
            } else {
                assert(l2 == l);
            }
            assert(iq < l2.len());
            assert forall|x: int| 0 <= x < iq implies #[trigger] l[x] == l2[x] by {
                if l2 != l {
                    assert(l2 == l.push(new_instr));
                }
            }
            lemma_unit_writes_prefix(l, l2, iq);
        } else {
            assert(added);
            assert(uq == u);
            assert(l.len() == count_at(p, s, pc, unit_at(u), index));
            assert(unit_at(u) == spec_unit(p[q]));
            assert(l2 == l.push(new_instr));
            lemma_unit_writes_prefix(l, l2, l.len() as int);
        }
    }
}

/// What the branch unit of bundle `c` holds once the first `n` instructions
/// are placed: the branch instructions scheduled there, in program order, as
/// many as the unit takes, each `loop` jumping to the bundle of position `ls`.
pub open spec fn branch_seq(p: Seq<Instruction>, s: Seq<usize>, ls: int, n: int, c: int) -> Seq<Instruction>
    decreases n,
{
    if n <= 0 {
        Seq::empty()
    } else {
        let prev = branch_seq(p, s, ls, n - 1, c);
        let x = if p[n - 1] is Loop { Instruction::Loop(s[ls]) } else { p[n - 1] };
        if spec_unit(p[n - 1]) == ExecutionUnit::Branch && s[n - 1] == c && prev.len() < 1 {
            prev.push(x)
        } else {
            prev
        }
    }
}

proof fn lemma_branch_seq(p: Seq<Instruction>, s: Seq<usize>, ls: int, n: int, c: int)
    ensures
        branch_seq(p, s, ls, n, c).len() <= 1,
        forall|i: int| 0 <= i < branch_seq(p, s, ls, n, c).len() ==>
            spec_unit(#[trigger] branch_seq(p, s, ls, n, c)[i]) == ExecutionUnit::Branch,
    decreases n,
{
    if n > 0 {
        lemma_branch_seq(p, s, ls, n - 1, c);
    }
}

/// Puts every instruction into its bundle; the loop instruction branches to
/// the bundle of the loop body's first instruction. Also gives where each
/// instruction went in its unit, and the bundle of the last loop instruction
/// (the program's length when there is none).
fn place_bundles(program: &Vec<Instruction>, schedule: &Vec<usize>, nb_bundles: usize, loop_start: usize)
    -> (res: (Vec<VLIW>, Vec<usize>, usize))
    requires
        schedule@.len() == program@.len(),
        forall|pc: int| 0 <= pc < program@.len() ==> #[trigger] schedule@[pc] < nb_bundles,
        fits_units(program@, schedule@),
        forall|pc: int| 0 <= pc < program@.len() && (#[trigger] program@[pc]) is Loop ==> loop_start < program@.len(),
    ensures
        res.0@.len() == nb_bundles,
        bundles_fit(res.0@),
        all_placed(program@, schedule@, res.0@, 0, 0),
        res.1@.len() == program@.len(),
        forall|pc: int| 0 <= pc < program@.len() && spec_unit(program@[pc]) != ExecutionUnit::Branch ==>
            #[trigger] res.1@[pc] == count_at(program@, schedule@, pc, spec_unit(program@[pc]), schedule@[pc] as int),
        last_plain_loop(program@, program@.len() as int) >= 0 ==>
            res.2 == schedule@[last_plain_loop(program@, program@.len() as int)],
        last_plain_loop(program@, program@.len() as int) < 0 ==> res.2 == program@.len(),
        forall|c: int, u: int| 0 <= c < nb_bundles && 0 <= u < 4 ==>
            #[trigger] unit_writes(res.0@[c]@[u], res.0@[c]@[u].len() as int) == writes_at(program@, schedule@, program@.len() as int, u, c),
        forall|c: int| 0 <= c < nb_bundles ==>
            (#[trigger] res.0@[c])@[3] == branch_seq(program@, schedule@, loop_start as int, program@.len() as int, c),
        forall|c: int, u: int| 0 <= c < nb_bundles && 0 <= u < 3 ==>
            (#[trigger] res.0@[c]@[u]).len() == count_at(program@, schedule@, program@.len() as int, unit_at(u), c),
        forall|pc: int| 0 <= pc < program@.len() && spec_unit(program@[pc]) != ExecutionUnit::Branch ==>
            unit_writes(res.0@[schedule@[pc] as int]@[unit_index(spec_unit(program@[pc]))],
                #[trigger] count_at(program@, schedule@, pc, spec_unit(program@[pc]), schedule@[pc] as int) as int)
                == writes_at(program@, schedule@, pc, unit_index(spec_unit(program@[pc])), schedule@[pc] as int),
{
    let ghost p = program@;
    let ghost s = schedule@;
    let n = program.len();
    let mut bundles: Vec<VLIW> = Vec::new();
    let mut b: usize = 0;
    while b < nb_bundles
        invariant
            b <= nb_bundles,
            bundles@.len() == b,
            forall|k: int| 0 <= k < b ==> (#[trigger] bundles@[k])@ == crate::instruction::empty_bundle(),
        decreases nb_bundles - b,
    {
        bundles.push(VLIW::new());
        b = b + 1;
    }
    let mut offsets: Vec<usize> = Vec::new();
    let mut k: usize = 0;
    while k < n
        invariant
            k <= n,
            offsets@.len() == k,
        decreases n - k,
    {
        offsets.push(0);
        k = k + 1;
    }
    let mut loop_end = n;
    let mut pc: usize = 0;
    while pc < n
        invariant
            offsets@.len() == n,
            forall|q: int| 0 <= q < pc && spec_unit(p[q]) != ExecutionUnit::Branch ==>
                #[trigger] offsets@[q] == count_at(p, s, q, spec_unit(p[q]), s[q] as int),
            p == program@,
            s == schedule@,
            n == p.len(),
            s.len() == n,
            pc <= n,
            forall|q: int| 0 <= q < n ==> #[trigger] s[q] < nb_bundles,
            fits_units(p, s),
            forall|q: int| 0 <= q < n && (#[trigger] p[q]) is Loop ==> loop_start < n,
            bundles@.len() == nb_bundles,
            bundles_fit(bundles@),
            forall|c: int, u: int| 0 <= c < nb_bundles && 0 <= u < 3 ==>
                (#[trigger] bundles@[c]@[u]).len() == count_at(p, s, pc as int, unit_at(u), c),
            forall|q: int| 0 <= q < pc && spec_unit(p[q]) != ExecutionUnit::Branch ==>
                #[trigger] placed_at(p, s, bundles@, 0, 0, q),
            forall|q: int| 0 <= q < pc && spec_unit(p[q]) != ExecutionUnit::Branch ==>
                #[trigger] placed_exact(p, s, bundles@, q),
            last_plain_loop(p, pc as int) >= 0 ==> loop_end == s[last_plain_loop(p, pc as int)],
            last_plain_loop(p, pc as int) < 0 ==> loop_end == n,
            forall|c: int, u: int| 0 <= c < nb_bundles && 0 <= u < 4 ==>
                #[trigger] unit_writes(bundles@[c]@[u], bundles@[c]@[u].len() as int) == writes_at(p, s, pc as int, u, c),
            forall|q: int| 0 <= q < pc && spec_unit(p[q]) != ExecutionUnit::Branch ==>
                unit_writes(bundles@[s[q] as int]@[unit_index(spec_unit(p[q]))],
                    #[trigger] count_at(p, s, q, spec_unit(p[q]), s[q] as int) as int)
                    == writes_at(p, s, q, unit_index(spec_unit(p[q])), s[q] as int),
            forall|c: int| 0 <= c < nb_bundles ==> (#[trigger] bundles@[c])@[3] == branch_seq(p, s, loop_start as int, pc as int, c),
        decreases n - pc,
    {
        let index = schedule[pc];
        let mut new_instr = program[pc];
        match program[pc] {
            Instruction::Loop(_) => {
                new_instr = Instruction::Loop(schedule[loop_start]);
                loop_end = index;
            },
            _ => {},
        }
        let ghost before = bundles@;
        let unit = new_instr.unit();
        proof {
            assert(spec_unit(new_instr) == spec_unit(p[pc as int]));
            if spec_unit(p[pc as int]) != ExecutionUnit::Branch {
                assert(new_instr == p[pc as int]);
                let u = unit_index(unit);
                assert(unit_at(u) == unit);
                assert(before[index as int]@[u].len() == count_at(p, s, pc as int, unit, index as int));
                assert(count_at(p, s, pc as int, spec_unit(p[pc as int]), s[pc as int] as int) < unit_capacity(unit));
            }
        }
        let added = bundles[index].add(new_instr);
        proof {
            assert(bundles@.len() == before.len());
            assert(forall|c: int| 0 <= c < before.len() && c != index ==> bundles@[c] == before[c]);
            assert(before[index as int]@.len() == 4);
            assert(bundles@[index as int]@ == if added {
                before[index as int]@.update(unit_index(unit), before[index as int]@[unit_index(unit)].push(new_instr))
            } else {
                before[index as int]@
            });
        }
        let len = bundles[index].slots(unit).len();
        if len > 0 {
            offsets.set(pc, len - 1);
        }
        proof {
            let u = unit_index(unit);
            assert forall|c: int, uu: int| 0 <= c < bundles@.len() && 0 <= uu < 4 implies
                (#[trigger] bundles@[c]@[uu]).len() <= unit_capacity(unit_at(uu)) by {
                if c != index {
                    assert(bundles@[c] == before[c]);
                } else if uu != u {
                    assert(bundles@[c]@[uu] == before[c]@[uu]);
                } else {
                    assert(unit_at(uu) == unit);
                }
            }
            assert forall|c: int, uu: int| 0 <= c < nb_bundles && 0 <= uu < 3 implies
                (#[trigger] bundles@[c]@[uu]).len() == count_at(p, s, pc + 1, unit_at(uu), c) by {
                if c != index {
                    assert(bundles@[c] == before[c]);
                } else if uu != u {
                    assert(bundles@[c]@[uu] == before[c]@[uu]);
                    assert(unit_at(uu) != unit);
                } else {
                    assert(unit_at(uu) == unit);
                    assert(added);
                }
                assert(count_at(p, s, pc + 1, unit_at(uu), c) == count_at(p, s, pc as int, unit_at(uu), c)
                    + (if spec_unit(p[pc as int]) == unit_at(uu) && s[pc as int] == c { 1nat } else { 0nat }));
            }
            assert forall|q: int| #![trigger placed_at(p, s, bundles@, 0, 0, q)] #![trigger placed_exact(p, s, bundles@, q)]
                0 <= q < pc + 1 && spec_unit(p[q]) != ExecutionUnit::Branch implies
                placed_at(p, s, bundles@, 0, 0, q) && placed_exact(p, s, bundles@, q) by {
                let uq = unit_index(spec_unit(p[q]));
                let iq = count_at(p, s, q, spec_unit(p[q]), s[q] as int) as int;
                if q < pc {
                    assert(placed_at(p, s, before, 0, 0, q));
                    assert(placed_exact(p, s, before, q));
                    if s[q] as int != index as int {
                        assert(bundles@[s[q] as int] == before[s[q] as int]);
                    } else if uq != u {
                        assert(bundles@[s[q] as int]@[uq] == before[s[q] as int]@[uq]);
                    } else {
                        assert(bundles@[s[q] as int]@[uq][iq] == before[s[q] as int]@[uq][iq]);
                    }
                } else {
                    assert(added);
                }
                lemma_same_form(p[q], p[q], p[q]);
            }
            lemma_place_writes(p, s, before, bundles@, pc as int, index as int, u, new_instr, added, nb_bundles as int);
            assert forall|c: int| 0 <= c < nb_bundles implies
                (#[trigger] bundles@[c])@[3] == branch_seq(p, s, loop_start as int, pc + 1, c) by {
                assert(branch_seq(p, s, loop_start as int, pc + 1, c) == {
                    let prev = branch_seq(p, s, loop_start as int, pc as int, c);
                    let x = if p[pc as int] is Loop { Instruction::Loop(s[loop_start as int]) } else { p[pc as int] };
                    if spec_unit(p[pc as int]) == ExecutionUnit::Branch && s[pc as int] == c && prev.len() < 1 { prev.push(x) } else { prev }
                });
                if c != index {
                    assert(bundles@[c] == before[c]);
                } else if u != 3 {
                    assert(bundles@[c]@[3] == before[c]@[3]);
                }
            }
        }
        pc = pc + 1;
    }
    (bundles, offsets, loop_end)
}


/// Bundles `cur` hold, slot for slot, the instructions of `old` with only
/// their registers changed.
pub open spec fn renamed_from(old: Seq<VLIW>, cur: Seq<VLIW>) -> bool {
    &&& cur.len() == old.len()
    &&& forall|b: int, u: int| 0 <= b < old.len() && 0 <= u < 4 ==> (#[trigger] cur[b]@[u]).len() == old[b]@[u].len()
    &&& forall|b: int, u: int, i: int| 0 <= b < old.len() && 0 <= u < 4 && 0 <= i < old[b]@[u].len() ==>
        #[trigger] same_form(cur[b]@[u][i], old[b]@[u][i])
}

proof fn lemma_renamed_keeps(old: Seq<VLIW>, cur: Seq<VLIW>, split: int)
    requires
        renamed_from(old, cur),
    ensures
        keeps_forms(old, cur, split, 0),
        bundles_fit(old) ==> bundles_fit(cur),
{
    assert forall|b: int, u: int, i: int| 0 <= b < old.len() && 0 <= u < 3 && 0 <= i < old[b]@[u].len() implies {
        &&& i < cur[bundle_pos(b, split, 0)]@[u].len()
        &&& #[trigger] same_form(cur[bundle_pos(b, split, 0)]@[u][i], old[b]@[u][i])
    } by {
        assert(bundle_pos(b, split, 0) == b);
        assert(cur[b]@[u].len() == old[b]@[u].len());
        assert(same_form(cur[b]@[u][i], old[b]@[u][i]));
    }
    if bundles_fit(old) {
        assert forall|b: int, u: int| 0 <= b < cur.len() && 0 <= u < 4 implies
            (#[trigger] cur[b]@[u]).len() <= unit_capacity(unit_at(u)) by {
            assert(old[b]@[u].len() <= unit_capacity(unit_at(u)));
        }
    }
}

/// How many of the first `i` instructions of a unit write a register.
pub open spec fn unit_writes(l: Seq<Instruction>, i: int) -> nat
    decreases i,
{
    if i <= 0 {
        0
    } else {
        unit_writes(l, i - 1) + (if spec_dest(l[i - 1]) is Some { 1nat } else { 0nat })
    }
}

/// How many instructions of the first `u` units of a bundle write a register.
pub open spec fn units_writes(v: Seq<Seq<Instruction>>, u: int) -> nat
    decreases u,
{
    if u <= 0 {
        0
    } else {
        units_writes(v, u - 1) + unit_writes(v[u - 1], v[u - 1].len() as int)
    }
}

/// How many instructions of the first `b` bundles write a register.
pub open spec fn bundles_writes(bs: Seq<VLIW>, b: int) -> nat
    decreases b,
{
    if b <= 0 {
        0
    } else {
        bundles_writes(bs, b - 1) + units_writes(bs[b - 1]@, 4)
    }
}

/// How many instructions that write a register come before slot `i` of unit
/// `u` of bundle `b`, going through the bundles in order, each unit in order
/// and each unit's slots in order.
pub open spec fn slot_rank(bs: Seq<VLIW>, b: int, u: int, i: int) -> nat {
    bundles_writes(bs, b) + units_writes(bs[b]@, u) + unit_writes(bs[b]@[u], i)
}

/// The register numbered `n` counting from 1, in a byte that wraps around.
pub open spec fn wrapped_register(n: nat) -> u8 {
    ((1 + n) % 256) as u8
}

proof fn lemma_next_register(n: nat)
    ensures
        vstd::wrapping::u8_specs::wrapping_add(wrapped_register(n), 1) == wrapped_register(n + 1),
{
}

/// Gives every instruction that writes a register a new destination,
/// numbered from 1 in bundle, unit and slot order (wrapping around a byte);
/// returns the next number.
fn rename_dests(bundles: &mut Vec<VLIW>) -> (next: u8)
    ensures
        renamed_from(old(bundles)@, final(bundles)@),
        forall|b: int, u: int, i: int| 0 <= b < old(bundles)@.len() && 0 <= u < 4 && 0 <= i < old(bundles)@[b]@[u].len()
            && spec_dest(old(bundles)@[b]@[u][i]) is Some ==>
            #[trigger] spec_dest(final(bundles)@[b]@[u][i]) == Some(wrapped_register(slot_rank(old(bundles)@, b, u, i))),
        forall|b: int, u: int, i: int| 0 <= b < old(bundles)@.len() && 0 <= u < 4 && 0 <= i < old(bundles)@[b]@[u].len() ==>
            spec_operands(#[trigger] final(bundles)@[b]@[u][i]) == spec_operands(old(bundles)@[b]@[u][i]),
{
    let ghost old_bs = bundles@;
    let mut new_register: u8 = 1;
    let units = ExecutionUnit::iter();
    let mut b: usize = 0;
    proof {
        assert(renamed_from(old_bs, bundles@)) by {
            assert forall|c: int, u: int, j: int| 0 <= c < old_bs.len() && 0 <= u < 4 && 0 <= j < old_bs[c]@[u].len() implies
                #[trigger] same_form(bundles@[c]@[u][j], old_bs[c]@[u][j]) by {
                lemma_same_form(old_bs[c]@[u][j], old_bs[c]@[u][j], old_bs[c]@[u][j]);
            }
        }
    }
    while b < bundles.len()
        invariant
            units@ == all_units(),
            renamed_from(old_bs, bundles@),
            b <= bundles@.len(),
            forall|c: int, u: int, j: int| 0 <= c < old_bs.len() && 0 <= u < 4 && 0 <= j < old_bs[c]@[u].len() ==>
                spec_operands(#[trigger] bundles@[c]@[u][j]) == spec_operands(old_bs[c]@[u][j]),
            new_register == wrapped_register(bundles_writes(old_bs, b as int)),
            forall|c: int| b <= c < old_bs.len() ==> #[trigger] bundles@[c] == old_bs[c],
            forall|c: int, u: int, j: int| 0 <= c < b && 0 <= u < 4 && 0 <= j < old_bs[c]@[u].len()
                && spec_dest(old_bs[c]@[u][j]) is Some ==>
                #[trigger] spec_dest(bundles@[c]@[u][j]) == Some(wrapped_register(slot_rank(old_bs, c, u, j))),
        decreases bundles@.len() - b,
    {
        let mut k: usize = 0;
        while k < 4
            invariant
                units@ == all_units(),
                renamed_from(old_bs, bundles@),
                b < bundles@.len(),
                k <= 4,
                forall|c: int, u: int, j: int| 0 <= c < old_bs.len() && 0 <= u < 4 && 0 <= j < old_bs[c]@[u].len() ==>
                    spec_operands(#[trigger] bundles@[c]@[u][j]) == spec_operands(old_bs[c]@[u][j]),
                new_register == wrapped_register(bundles_writes(old_bs, b as int) + units_writes(old_bs[b as int]@, k as int)),
                forall|c: int| b < c < old_bs.len() ==> #[trigger] bundles@[c] == old_bs[c],
                forall|u: int| k <= u < 4 ==> #[trigger] bundles@[b as int]@[u] == old_bs[b as int]@[u],
                bundles@[b as int]@.len() == 4,
                forall|c: int, u: int, j: int| 0 <= c < b && 0 <= u < 4 && 0 <= j < old_bs[c]@[u].len()
                    && spec_dest(old_bs[c]@[u][j]) is Some ==>
                    #[trigger] spec_dest(bundles@[c]@[u][j]) == Some(wrapped_register(slot_rank(old_bs, c, u, j))),
                forall|u: int, j: int| 0 <= u < k && 0 <= j < old_bs[b as int]@[u].len()
                    && spec_dest(old_bs[b as int]@[u][j]) is Some ==>
                    #[trigger] spec_dest(bundles@[b as int]@[u][j]) == Some(wrapped_register(slot_rank(old_bs, b as int, u, j))),
            decreases 4 - k,
        {
            let unit = units[k];
            proof {
                assert(unit_index(unit) == k);
            }
            let n_i = bundles[b].slots(unit).len();
            let mut i: usize = 0;
            while i < n_i
                invariant
                    renamed_from(old_bs, bundles@),
                    b < bundles@.len(),
                    k < 4,
                    unit_index(unit) == k,
                    n_i == bundles@[b as int]@[k as int].len(),
                    i <= n_i,
                    forall|c: int, u: int, j: int| 0 <= c < old_bs.len() && 0 <= u < 4 && 0 <= j < old_bs[c]@[u].len() ==>
                        spec_operands(#[trigger] bundles@[c]@[u][j]) == spec_operands(old_bs[c]@[u][j]),
                    new_register == wrapped_register(slot_rank(old_bs, b as int, k as int, i as int)),
                    forall|c: int| b < c < old_bs.len() ==> #[trigger] bundles@[c] == old_bs[c],
                    forall|u: int| k < u < 4 ==> #[trigger] bundles@[b as int]@[u] == old_bs[b as int]@[u],
                    bundles@[b as int]@.len() == 4,
                    bundles@[b as int]@[k as int].len() == old_bs[b as int]@[k as int].len(),
                    forall|j: int| i <= j < n_i ==> #[trigger] bundles@[b as int]@[k as int][j] == old_bs[b as int]@[k as int][j],
                    forall|c: int, u: int, j: int| 0 <= c < b && 0 <= u < 4 && 0 <= j < old_bs[c]@[u].len()
                        && spec_dest(old_bs[c]@[u][j]) is Some ==>
                        #[trigger] spec_dest(bundles@[c]@[u][j]) == Some(wrapped_register(slot_rank(old_bs, c, u, j))),
                    forall|u: int, j: int| 0 <= u < k && 0 <= j < old_bs[b as int]@[u].len()
                        && spec_dest(old_bs[b as int]@[u][j]) is Some ==>
                        #[trigger] spec_dest(bundles@[b as int]@[u][j]) == Some(wrapped_register(slot_rank(old_bs, b as int, u, j))),
                    forall|j: int| 0 <= j < i && spec_dest(old_bs[b as int]@[k as int][j]) is Some ==>
                        #[trigger] spec_dest(bundles@[b as int]@[k as int][j]) == Some(wrapped_register(slot_rank(old_bs, b as int, k as int, j))),
                decreases n_i - i,
            {
                let mut ins = bundles[b].slots(unit)[i];
                proof {
                    assert(ins == old_bs[b as int]@[k as int][i as int]);
                    assert(slot_rank(old_bs, b as int, k as int, i as int + 1) == slot_rank(old_bs, b as int, k as int, i as int)
                        + (if spec_dest(ins) is Some { 1nat } else { 0nat }));
                }
                if ins.dest().is_some() {
                    let ghost before = bundles@;
                    let ghost old_ins = ins;
                    let ghost reg = new_register;
                    update_dest(&mut ins, new_register);
                    bundles[b].set_slot(unit, i, ins);
                    new_register = new_register.wrapping_add(1);
                    proof {
                        lemma_next_register(slot_rank(old_bs, b as int, k as int, i as int));
                        assert(spec_dest(ins) == Some(reg));
                        assert(same_form(ins, old_ins));
                        assert forall|c: int| b < c < old_bs.len() implies #[trigger] bundles@[c] == old_bs[c] by {
                            assert(bundles@[c] == before[c]);
                        }
                        assert forall|u: int| k < u < 4 implies #[trigger] bundles@[b as int]@[u] == old_bs[b as int]@[u] by {
                            assert(bundles@[b as int]@[u] == before[b as int]@[u]);
                        }
                        assert forall|jj: int| i < jj < n_i implies #[trigger] bundles@[b as int]@[k as int][jj] == old_bs[b as int]@[k as int][jj] by {
                            assert(bundles@[b as int]@[k as int][jj] == before[b as int]@[k as int][jj]);
                        }
                        assert forall|c: int, u: int, jj: int| 0 <= c < b && 0 <= u < 4 && 0 <= jj < old_bs[c]@[u].len()
                            && spec_dest(old_bs[c]@[u][jj]) is Some implies
                            #[trigger] spec_dest(bundles@[c]@[u][jj]) == Some(wrapped_register(slot_rank(old_bs, c, u, jj))) by {
                            assert(bundles@[c] == before[c]);
                        }
                        assert forall|u: int, jj: int| 0 <= u < k && 0 <= jj < old_bs[b as int]@[u].len()
                            && spec_dest(old_bs[b as int]@[u][jj]) is Some implies
                            #[trigger] spec_dest(bundles@[b as int]@[u][jj]) == Some(wrapped_register(slot_rank(old_bs, b as int, u, jj))) by {
                            assert(bundles@[b as int]@[u] == before[b as int]@[u]);
                        }
                        assert forall|jj: int| 0 <= jj <= i && spec_dest(old_bs[b as int]@[k as int][jj]) is Some implies
                            #[trigger] spec_dest(bundles@[b as int]@[k as int][jj]) == Some(wrapped_register(slot_rank(old_bs, b as int, k as int, jj))) by {
                            if jj < i {
                                assert(bundles@[b as int]@[k as int][jj] == before[b as int]@[k as int][jj]);
                            }
                        }
                        assert forall|c: int, u: int| 0 <= c < old_bs.len() && 0 <= u < 4 implies
                            (#[trigger] bundles@[c]@[u]).len() == old_bs[c]@[u].len() by {
                            if c != b {
                                assert(bundles@[c] == before[c]);
                            } else if u != k {
                                assert(bundles@[c]@[u] == before[c]@[u]);
                            }
                        }
                        assert forall|c: int, u: int, j: int| 0 <= c < old_bs.len() && 0 <= u < 4 && 0 <= j < old_bs[c]@[u].len() implies
                            #[trigger] same_form(bundles@[c]@[u][j], old_bs[c]@[u][j])
                            && spec_operands(bundles@[c]@[u][j]) == spec_operands(old_bs[c]@[u][j]) by {
                            assert(same_form(before[c]@[u][j], old_bs[c]@[u][j]));
                            if c != b {
                                assert(bundles@[c] == before[c]);
                            } else if u != k {
                                assert(bundles@[c]@[u] == before[c]@[u]);
                            } else if j != i {
                                assert(bundles@[c]@[u][j] == before[c]@[u][j]);
                            } else {
                                lemma_same_form(ins, old_ins, old_bs[c]@[u][j]);
                            }
                        }
                    }
                }
                proof {
                    assert forall|jj: int| 0 <= jj <= i && spec_dest(old_bs[b as int]@[k as int][jj]) is Some implies
                        #[trigger] spec_dest(bundles@[b as int]@[k as int][jj]) == Some(wrapped_register(slot_rank(old_bs, b as int, k as int, jj))) by {
                    }
                }
                i = i + 1;
            }
            k = k + 1;
        }
        b = b + 1;
    }
    new_register
}

/// Replacing one slot by an instruction of the same form keeps the bundles
/// renamed from `old`.
proof fn lemma_renamed_set(old: Seq<VLIW>, before: Seq<VLIW>, cur: Seq<VLIW>, b: int, k: int, i: int, ins: Instruction)
    requires
        renamed_from(old, before),
        0 <= b < before.len(),
        0 <= k < 4,
        0 <= i < before[b]@[k].len(),
        same_form(ins, before[b]@[k][i]),
        cur == before.update(b, cur[b]),
        cur[b]@ == before[b]@.update(k, before[b]@[k].update(i, ins)),
    ensures
        renamed_from(old, cur),
{
    assert forall|c: int, u: int| 0 <= c < old.len() && 0 <= u < 4 implies
        (#[trigger] cur[c]@[u]).len() == old[c]@[u].len() by {
        if c != b {
            assert(cur[c] == before[c]);
        } else if u != k {
            assert(cur[c]@[u] == before[c]@[u]);
        }
    }
    assert forall|c: int, u: int, j: int| 0 <= c < old.len() && 0 <= u < 4 && 0 <= j < old[c]@[u].len() implies
        #[trigger] same_form(cur[c]@[u][j], old[c]@[u][j]) by {
        assert(same_form(before[c]@[u][j], old[c]@[u][j]));
        if c != b {
            assert(cur[c] == before[c]);
        } else if u != k {
            assert(cur[c]@[u] == before[c]@[u]);
        } else if j != i {
            assert(cur[c]@[u][j] == before[c]@[u][j]);
        } else {
            lemma_same_form(ins, before[c]@[u][j], old[c]@[u][j]);
        }
    }
}

/// What the placed copy of a producer writes: the copy of the instruction at
/// `pc`, wherever the placement put it.
spec fn placed_copy(p: Seq<Instruction>, s: Seq<usize>, bs: Seq<VLIW>, pc: int) -> Instruction {
    bs[s[pc] as int]@[unit_index(spec_unit(p[pc]))][count_at(p, s, pc, spec_unit(p[pc]), s[pc] as int) as int]
}

/// The copy of the instruction at `pc` in bundles `bs`, where `placed_at`
/// puts it.
pub open spec fn placed_ins(p: Seq<Instruction>, s: Seq<usize>, bs: Seq<VLIW>, split: int, extra: int, pc: int) -> Instruction {
    bs[bundle_pos(s[pc] as int, split, extra)]@[unit_index(spec_unit(p[pc]))][count_at(p, s, pc, spec_unit(p[pc]), s[pc] as int) as int]
}

/// The first producer, from the list of kind `k` at position `j` on, over the
/// kinds in order and each list in order, that the instruction at `pc` reads
/// and that writes `reg`.
pub open spec fn producer_from(p: Seq<Instruction>, t: Seq<DependencyList>, pc: int, reg: u8, k: int, j: int) -> Option<usize>
    decreases 4 - k, t[pc]@[k].len() - j,
{
    if k < 0 || k >= 4 || j < 0 {
        None
    } else if j >= t[pc]@[k].len() {
        producer_from(p, t, pc, reg, k + 1, 0)
    } else if spec_dest(p[t[pc]@[k][j] as int]) == Some(reg) {
        Some(t[pc]@[k][j])
    } else {
        producer_from(p, t, pc, reg, k, j + 1)
    }
}

/// The producer whose value the instruction at `pc` reads in register `reg`:
/// the first one, over the kinds of dependency in order (local, loop-carried,
/// loop-invariant, after the loop) and each list in order, that writes `reg`.
pub open spec fn producer_of(p: Seq<Instruction>, t: Seq<DependencyList>, pc: int, reg: u8) -> Option<usize> {
    producer_from(p, t, pc, reg, 0, 0)
}

/// The register that a read of `reg` by the instruction at `pc` takes after
/// renaming: the renamed destination of its producer in bundles `bs`, or 0
/// where it has none.
spec fn renamed_read(p: Seq<Instruction>, t: Seq<DependencyList>, s: Seq<usize>, bs: Seq<VLIW>, pc: int, reg: u8) -> u8 {
    match producer_of(p, t, pc, reg) {
        Some(q) => spec_dest(placed_copy(p, s, bs, q as int))->0,
        None => 0,
    }
}

/// Every slot of `cur` writes the register that the same slot of `old` writes.
spec fn dests_kept(old: Seq<VLIW>, cur: Seq<VLIW>) -> bool {
    forall|b: int, u: int, i: int| 0 <= b < old.len() && 0 <= u < 4 && 0 <= i < old[b]@[u].len() ==>
        #[trigger] spec_dest(cur[b]@[u][i]) == spec_dest(old[b]@[u][i])
}

proof fn lemma_dests_kept_set(old: Seq<VLIW>, before: Seq<VLIW>, cur: Seq<VLIW>, b: int, k: int, i: int, ins: Instruction)
    requires
        dests_kept(old, before),
        renamed_from(old, before),
        0 <= b < before.len(),
        0 <= k < 4,
        0 <= i < before[b]@[k].len(),
        cur == before.update(b, cur[b]),
        cur[b]@ == before[b]@.update(k, before[b]@[k].update(i, ins)),
        spec_dest(ins) == spec_dest(before[b]@[k][i]),
    ensures
        dests_kept(old, cur),
{
    assert forall|c: int, u: int, j: int| 0 <= c < old.len() && 0 <= u < 4 && 0 <= j < old[c]@[u].len() implies
        #[trigger] spec_dest(cur[c]@[u][j]) == spec_dest(old[c]@[u][j]) by {
        assert(spec_dest(before[c]@[u][j]) == spec_dest(old[c]@[u][j]));
        if c != b {
            assert(cur[c] == before[c]);
        } else if u != k {
            assert(cur[c]@[u] == before[c]@[u]);
        } else if j != i {
            assert(cur[c]@[u][j] == before[c]@[u][j]);
        }
    }
}

proof fn lemma_dests_kept_refl(a: Seq<VLIW>)
    ensures
        dests_kept(a, a),
{
}

/// Two instructions off the branch unit that the schedule puts in the same
/// bundle and on the same unit take different positions there.
proof fn lemma_count_distinct(p: Seq<Instruction>, s: Seq<usize>, a: int, b: int)
    requires
        0 <= a < b < p.len(),
        s.len() == p.len(),
        spec_unit(p[a]) == spec_unit(p[b]),
        s[a] == s[b],
    ensures
        count_at(p, s, a, spec_unit(p[a]), s[a] as int) < count_at(p, s, b, spec_unit(p[b]), s[b] as int),
{
    lemma_count_mono(p, s, a + 1, b, spec_unit(p[a]), s[a] as int);
}

proof fn lemma_count_mono(p: Seq<Instruction>, s: Seq<usize>, m: int, n: int, u: ExecutionUnit, t: int)
    requires
        0 <= m <= n,
    ensures
        count_at(p, s, m, u, t) <= count_at(p, s, n, u, t),
    decreases n - m,
{
    if n > m {
        lemma_count_mono(p, s, m, n - 1, u, t);
    }
}

/// The register that the instruction at `pc` should read in place of `reg`:
/// the destination, in `bundles`, of its producer, or 0 where it has none.
#[verifier::loop_isolation(false)]
fn producer_register(
    bundles: &Vec<VLIW>,
    program: &Vec<Instruction>,
    dependency_table: &Vec<DependencyList>,
    schedule: &Vec<usize>,
    offsets: &Vec<usize>,
    pc: usize,
    reg: u8,
) -> (r: u8)
    requires
        pc < program@.len(),
        is_dependency_table(program@, dependency_table@),
        schedule@.len() == program@.len(),
        offsets@.len() == program@.len(),
        all_placed(program@, schedule@, bundles@, 0, 0),
        forall|q: int| 0 <= q < program@.len() && spec_unit(program@[q]) != ExecutionUnit::Branch ==>
            #[trigger] offsets@[q] == count_at(program@, schedule@, q, spec_unit(program@[q]), schedule@[q] as int),
        forall|r: int, k: int, i: int| 0 <= r < program@.len() && 0 <= k < 4 && 0 <= i < dependency_table@[r]@[k].len() ==>
            0 <= #[trigger] dependency_table@[r]@[k][i] < program@.len() && spec_dest(program@[dependency_table@[r]@[k][i] as int]) is Some,
    ensures
        r == renamed_read(program@, dependency_table@, schedule@, bundles@, pc as int, reg),
{
    let ghost p = program@;
    let ghost s = schedule@;
    let ghost t = dependency_table@;
    let deps = Dependency::iter();
    let mut k: usize = 0;
    while k < 4
        invariant
            k <= 4,
            deps@ == all_dependencies(),
            p == program@,
            t == dependency_table@,
            pc < p.len(),
            producer_from(p, t, pc as int, reg, k as int, 0) == producer_of(p, t, pc as int, reg),
        decreases 4 - k,
    {
        let dep_list = dependency_table[pc].iter(deps[k]);
        proof {
            assert(dep_index(deps@[k as int]) == k);
        }
        let mut j: usize = 0;
        while j < dep_list.len()
            invariant
                k < 4,
                p == program@,
                t == dependency_table@,
                pc < p.len(),
                dep_list@ == t[pc as int]@[k as int],
                j <= dep_list@.len(),
                producer_from(p, t, pc as int, reg, k as int, j as int) == producer_of(p, t, pc as int, reg),
            decreases dep_list@.len() - j,
        {
            let opp = dep_list[j];
            proof {
                assert(0 <= t[pc as int]@[k as int][j as int] < p.len());
            }
            let old_producer = program[opp];
            if old_producer.dest() == Some(reg) {
                let unit = old_producer.unit();
                proof {
                    assert(spec_unit(p[opp as int]) != ExecutionUnit::Branch);
                    assert(placed_at(p, s, bundles@, 0, 0, opp as int));
                    lemma_same_form(placed_copy(p, s, bundles@, opp as int), p[opp as int], p[opp as int]);
                }
                let new_producer = bundles[schedule[opp]].slots(unit)[offsets[opp]];
                return new_producer.dest().unwrap();
            }
            j = j + 1;
        }
        k = k + 1;
    }
    0
}

/// Points every operand at the renamed register of its producer: the first
/// producer, over the kinds in order and each list in order, that writes the
/// operand's register; operands without a producer become register 0.
fn rename_operands(
    bundles: &mut Vec<VLIW>,
    program: &Vec<Instruction>,
    dependency_table: &Vec<DependencyList>,
    schedule: &Vec<usize>,
    offsets: &Vec<usize>,
)
    requires
        is_dependency_table(program@, dependency_table@),
        vliw_loop_ok(program@),
        schedule@.len() == program@.len(),
        offsets@.len() == program@.len(),
        all_placed(program@, schedule@, old(bundles)@, 0, 0),
        forall|pc: int| 0 <= pc < program@.len() && spec_unit(program@[pc]) != ExecutionUnit::Branch ==>
            #[trigger] offsets@[pc] == count_at(program@, schedule@, pc, spec_unit(program@[pc]), schedule@[pc] as int),
    ensures
        renamed_from(old(bundles)@, final(bundles)@),
        dests_kept(old(bundles)@, final(bundles)@),
        forall|pc: int, j: int| 0 <= pc < program@.len() && spec_unit(program@[pc]) != ExecutionUnit::Branch
            && 0 <= j < spec_operands(program@[pc]).len() ==>
            #[trigger] spec_operands(placed_copy(program@, schedule@, final(bundles)@, pc))[j]
                == renamed_read(program@, dependency_table@, schedule@, old(bundles)@, pc, spec_operands(program@[pc])[j]),
{
    let ghost p = program@;
    let ghost s = schedule@;
    let ghost t = dependency_table@;
    let ghost old_bs = bundles@;
    proof {
        lemma_table_regions(p, t);
        assert(renamed_from(old_bs, bundles@)) by {
            assert forall|c: int, u: int, j: int| 0 <= c < old_bs.len() && 0 <= u < 4 && 0 <= j < old_bs[c]@[u].len() implies
                #[trigger] same_form(bundles@[c]@[u][j], old_bs[c]@[u][j]) by {
                lemma_same_form(old_bs[c]@[u][j], old_bs[c]@[u][j], old_bs[c]@[u][j]);
            }
        }
        lemma_dests_kept_refl(old_bs);
    }
    let n = program.len();
    let mut old_pc: usize = 0;
    while old_pc < n
        invariant
            p == program@,
            s == schedule@,
            t == dependency_table@,
            n == p.len(),
            is_dependency_table(p, t),
            s.len() == n,
            offsets@.len() == n,
            forall|pc: int| 0 <= pc < n && spec_unit(p[pc]) != ExecutionUnit::Branch ==>
                #[trigger] offsets@[pc] == count_at(p, s, pc, spec_unit(p[pc]), s[pc] as int),
            forall|r: int, k: int, i: int| 0 <= r < p.len() && 0 <= k < 4 && 0 <= i < t[r]@[k].len() ==>
                0 <= #[trigger] t[r]@[k][i] < p.len() && spec_dest(p[t[r]@[k][i] as int]) is Some,
            all_placed(p, s, old_bs, 0, 0),
            renamed_from(old_bs, bundles@),
            dests_kept(old_bs, bundles@),
            old_pc <= n,
            forall|pc: int, j: int| 0 <= pc < old_pc && spec_unit(p[pc]) != ExecutionUnit::Branch
                && 0 <= j < spec_operands(p[pc]).len() ==>
                #[trigger] spec_operands(placed_copy(p, s, bundles@, pc))[j]
                    == renamed_read(p, t, s, old_bs, pc, spec_operands(p[pc])[j]),
        decreases n - old_pc,
    {
        let old_instr = program[old_pc];
        let ops = old_instr.operands();
        if ops.len() > 0 {
            proof {
                lemma_renamed_keeps(old_bs, bundles@, 0);
                lemma_placed_keeps(p, s, old_bs, bundles@, 0, 0, 0);
            }
            let mut new_ops: Vec<u8> = Vec::new();
            let mut oi: usize = 0;
            while oi < ops.len()
                invariant
                    p == program@,
                    s == schedule@,
                    t == dependency_table@,
                    n == p.len(),
                    old_pc < n,
                    ops@ == spec_operands(p[old_pc as int]),
                    is_dependency_table(p, t),
                    s.len() == n,
                    offsets@.len() == n,
                    forall|pc: int| 0 <= pc < n && spec_unit(p[pc]) != ExecutionUnit::Branch ==>
                        #[trigger] offsets@[pc] == count_at(p, s, pc, spec_unit(p[pc]), s[pc] as int),
                    forall|r: int, k: int, i: int| 0 <= r < p.len() && 0 <= k < 4 && 0 <= i < t[r]@[k].len() ==>
                        0 <= #[trigger] t[r]@[k][i] < p.len() && spec_dest(p[t[r]@[k][i] as int]) is Some,
                    all_placed(p, s, bundles@, 0, 0),
                    all_placed(p, s, old_bs, 0, 0),
                    dests_kept(old_bs, bundles@),
                    oi <= ops@.len(),
                    new_ops@.len() == oi,
                    forall|x: int| 0 <= x < oi ==> #[trigger] new_ops@[x] == renamed_read(p, t, s, old_bs, old_pc as int, ops@[x]),
                decreases ops@.len() - oi,
            {
                let r = producer_register(bundles, program, dependency_table, schedule, offsets, old_pc, ops[oi]);
                proof {
                    match producer_of(p, t, old_pc as int, ops@[oi as int]) {
                        Some(q) => {
                            lemma_producer_in_table(p, t, old_pc as int, ops@[oi as int], 0, 0);
                            assert(spec_unit(p[q as int]) != ExecutionUnit::Branch);
                            assert(placed_at(p, s, old_bs, 0, 0, q as int));
                            assert(spec_dest(bundles@[s[q as int] as int]@[unit_index(spec_unit(p[q as int]))][count_at(p, s, q as int, spec_unit(p[q as int]), s[q as int] as int) as int])
                                == spec_dest(old_bs[s[q as int] as int]@[unit_index(spec_unit(p[q as int]))][count_at(p, s, q as int, spec_unit(p[q as int]), s[q as int] as int) as int]));
                        },
                        None => {},
                    }
                }
                new_ops.push(r);
                oi = oi + 1;
            }
            let unit = old_instr.unit();
            let new_pc = schedule[old_pc];
            let offset = offsets[old_pc];
            proof {
                assert(spec_unit(p[old_pc as int]) != ExecutionUnit::Branch);
                assert(placed_at(p, s, bundles@, 0, 0, old_pc as int));
                lemma_same_form(placed_copy(p, s, bundles@, old_pc as int), p[old_pc as int], p[old_pc as int]);
            }
            let mut ins = bundles[new_pc].slots(unit)[offset];
            let ghost old_ins = ins;
            let ghost before = bundles@;
            update_ops(&mut ins, new_ops);
            proof {
                assert(same_form(ins, old_ins)) by {
                    assert(spec_operands(old_ins).len() <= new_ops@.len());
                }
                lemma_with_operands(old_ins, new_ops@);
            }
            bundles[new_pc].set_slot(unit, offset, ins);
            proof {
                let u = unit_index(unit);
                lemma_renamed_set(old_bs, before, bundles@, new_pc as int, u, offset as int, ins);
                lemma_dests_kept_set(old_bs, before, bundles@, new_pc as int, u, offset as int, ins);
                assert forall|pc: int, j: int| 0 <= pc <= old_pc && spec_unit(p[pc]) != ExecutionUnit::Branch
                    && 0 <= j < spec_operands(p[pc]).len() implies
                    #[trigger] spec_operands(placed_copy(p, s, bundles@, pc))[j]
                        == renamed_read(p, t, s, old_bs, pc, spec_operands(p[pc])[j]) by {
                    if pc < old_pc {
                        let cu = unit_index(spec_unit(p[pc]));
                        let ci = count_at(p, s, pc, spec_unit(p[pc]), s[pc] as int) as int;
                        assert(placed_at(p, s, before, 0, 0, pc));
                        if s[pc] == s[old_pc as int] && cu == u {
                            assert(spec_unit(p[pc]) == spec_unit(p[old_pc as int])) by {
                                lemma_unit_index_injective(spec_unit(p[pc]), spec_unit(p[old_pc as int]));
                            }
                            lemma_count_distinct(p, s, pc, old_pc as int);
                        }
                        assert(placed_copy(p, s, bundles@, pc) == placed_copy(p, s, before, pc));
                    } else {
                        assert(placed_copy(p, s, bundles@, pc) == ins);
                    }
                }
            }
        } else {
            proof {
                assert forall|pc: int, j: int| 0 <= pc <= old_pc && spec_unit(p[pc]) != ExecutionUnit::Branch
                    && 0 <= j < spec_operands(p[pc]).len() implies
                    #[trigger] spec_operands(placed_copy(p, s, bundles@, pc))[j]
                        == renamed_read(p, t, s, old_bs, pc, spec_operands(p[pc])[j]) by {
                    assert(pc < old_pc);
                }
            }
        }
        old_pc = old_pc + 1;
    }
}

/// A producer found by the search is among the lists of the reader.
proof fn lemma_producer_in_table(p: Seq<Instruction>, t: Seq<DependencyList>, pc: int, reg: u8, k: int, j: int)
    requires
        producer_from(p, t, pc, reg, k, j) is Some,
    ensures
        exists|kk: int, jj: int| 0 <= kk < 4 && 0 <= jj < t[pc]@[kk].len()
            && #[trigger] t[pc]@[kk][jj] == producer_from(p, t, pc, reg, k, j)->0,
    decreases 4 - k, t[pc]@[k].len() - j,
{
    if k < 0 || k >= 4 || j < 0 {
    } else if j >= t[pc]@[k].len() {
        lemma_producer_in_table(p, t, pc, reg, k + 1, 0);
    } else if spec_dest(p[t[pc]@[k][j] as int]) == Some(reg) {
    } else {
        lemma_producer_in_table(p, t, pc, reg, k, j + 1);
    }
}


/// Some instruction reads, from the previous iteration, one register that two
/// of its producers write.
#[verifier::opaque]
pub open spec fn carried_twice(p: Seq<Instruction>, t: Seq<DependencyList>) -> bool {
    exists|pc: int, i: int, j: int| 0 <= pc < p.len() && 0 <= i < j < t[pc]@[1].len()
        && #[trigger] spec_dest(p[t[pc]@[1][i] as int]) == #[trigger] spec_dest(p[t[pc]@[1][j] as int])
}

/// The registers read from the previous iteration that two producers write:
/// for each reader and each register it reads loop-carried from two producers,
/// a move from the second producer's renamed register into the first's, each
/// move once, in the order found.
/// Among the first `n` instructions, one reads from the previous iteration a
/// register that two of its producers write.
spec fn carried_twice_before(p: Seq<Instruction>, t: Seq<DependencyList>, n: int) -> bool {
    exists|pc: int, i: int, j: int| 0 <= pc < n && 0 <= i < j < t[pc]@[1].len()
        && #[trigger] spec_dest(p[t[pc]@[1][i] as int]) == #[trigger] spec_dest(p[t[pc]@[1][j] as int])
}

/// Every producer that the dependency table lists is a position of the
/// program that writes a register.
proof fn lemma_table_producers(p: Seq<Instruction>, t: Seq<DependencyList>)
    requires
        is_dependency_table(p, t),
    ensures
        t.len() == p.len(),
        forall|r: int, k: int, i: int| 0 <= r < p.len() && 0 <= k < 4 && 0 <= i < t[r]@[k].len() ==>
            0 <= #[trigger] t[r]@[k][i] < p.len() && spec_dest(p[t[r]@[k][i] as int]) is Some,
{
    assert forall|r: int, k: int, i: int| 0 <= r < p.len() && 0 <= k < 4 && 0 <= i < t[r]@[k].len() implies
        0 <= #[trigger] t[r]@[k][i] < p.len() && spec_dest(p[t[r]@[k][i] as int]) is Some by {
        assert(is_dependency_list_of(p, r, t[r]@));
        assert(t[r]@[k].contains(t[r]@[k][i]));
        assert(dep_kept(p, r, dep_at(k), t[r]@[k][i] as int));
    }
}

/// Whether some instruction reads from the previous iteration a register
/// that two of its producers write.
pub fn has_carried_pair(program: &Vec<Instruction>, dependency_table: &Vec<DependencyList>) -> (r: bool)
    requires
        is_dependency_table(program@, dependency_table@),
    ensures
        r == carried_twice(program@, dependency_table@),
{
    let ghost p = program@;
    let ghost t = dependency_table@;
    proof {
        lemma_table_producers(p, t);
    }
    let mut pc: usize = 0;
    while pc < program.len()
        invariant
            p == program@,
            t == dependency_table@,
            t.len() == p.len(),
            pc <= p.len(),
            forall|r: int, i: int| 0 <= r < p.len() && 0 <= i < t[r]@[1].len() ==> 0 <= #[trigger] t[r]@[1][i] < p.len(),
            !carried_twice_before(p, t, pc as int),
        decreases p.len() - pc,
    {
        let ws = dependency_table[pc].iter(Dependency::InterLoop);
        proof {
            assert(crate::dependency::dep_index(Dependency::InterLoop) == 1);
        }
        let mut i: usize = 0;
        while i < ws.len()
            invariant
                p == program@,
                t == dependency_table@,
                t.len() == p.len(),
                pc < p.len(),
                ws@ == t[pc as int]@[1],
                i <= ws@.len(),
                forall|r: int, k: int| 0 <= r < p.len() && 0 <= k < t[r]@[1].len() ==> 0 <= #[trigger] t[r]@[1][k] < p.len(),
                !carried_twice_before(p, t, pc as int),
                forall|a: int, b: int| 0 <= a < b < ws@.len() && a < i ==>
                    spec_dest(p[#[trigger] ws@[a] as int]) != spec_dest(p[#[trigger] ws@[b] as int]),
            decreases ws@.len() - i,
        {
            let mut j: usize = i + 1;
            while j < ws.len()
                invariant
                    p == program@,
                    ws@ == t[pc as int]@[1],
                    pc < p.len(),
                    i < ws@.len(),
                    i + 1 <= j <= ws@.len(),
                    forall|r: int, k: int| 0 <= r < p.len() && 0 <= k < t[r]@[1].len() ==> 0 <= #[trigger] t[r]@[1][k] < p.len(),
                    t == dependency_table@,
                    forall|b: int| i < b < j ==> spec_dest(p[ws@[i as int] as int]) != spec_dest(p[#[trigger] ws@[b] as int]),
                decreases ws@.len() - j,
            {
                if program[ws[i]].dest() == program[ws[j]].dest() {
                    proof {
                        let a = pc as int;
                        let b = i as int;
                        let c = j as int;
                        assert(spec_dest(p[t[a]@[1][b] as int]) == spec_dest(p[t[a]@[1][c] as int]));
                        assert(0 <= a < p.len() && 0 <= b < c < t[a]@[1].len());
                        reveal(carried_twice);
                        assert(carried_twice(p, t));
                    }
                    return true;
                }
                j = j + 1;
            }
            i = i + 1;
        }
        proof {
            assert forall|r: int, a: int, b: int| 0 <= r < pc + 1 && 0 <= a < b < t[r]@[1].len() implies
                #[trigger] spec_dest(p[t[r]@[1][a] as int]) != #[trigger] spec_dest(p[t[r]@[1][b] as int]) by {
                if r < pc {
                    assert(!carried_twice_before(p, t, pc as int));
                } else {
                    assert(ws@[a] == t[r]@[1][a] && ws@[b] == t[r]@[1][b]);
                }
            }
        }
        pc = pc + 1;
    }
    proof {
        reveal(carried_twice);
        if carried_twice(p, t) {
            let (a, b, c) = choose|a: int, b: int, c: int| 0 <= a < p.len() && 0 <= b < c < t[a]@[1].len()
                && #[trigger] spec_dest(p[t[a]@[1][b] as int]) == #[trigger] spec_dest(p[t[a]@[1][c] as int]);
            assert(carried_twice_before(p, t, p.len() as int));
        }
    }
    false
}

/// `m` moves the value of the second of two loop-carried producers of one
/// reader, writing the same register, into the renamed register of the first.
pub open spec fn carried_move(p: Seq<Instruction>, t: Seq<DependencyList>, s: Seq<usize>, bs: Seq<VLIW>, m: Instruction) -> bool {
    exists|pc: int, i: int, j: int| 0 <= pc < p.len() && 0 <= i < j < t[pc]@[1].len()
        && #[trigger] spec_dest(p[t[pc]@[1][i] as int]) == #[trigger] spec_dest(p[t[pc]@[1][j] as int])
        && m == Instruction::Mov(spec_dest(placed_ins(p, s, bs, 0, 0, t[pc]@[1][i] as int))->0,
            spec_dest(placed_ins(p, s, bs, 0, 0, t[pc]@[1][j] as int))->0)
}

fn collect_movs(
    bundles: &Vec<VLIW>,
    program: &Vec<Instruction>,
    dependency_table: &Vec<DependencyList>,
    schedule: &Vec<usize>,
    offsets: &Vec<usize>,
) -> (movs: Vec<Instruction>)
    requires
        is_dependency_table(program@, dependency_table@),
        vliw_loop_ok(program@),
        schedule@.len() == program@.len(),
        offsets@.len() == program@.len(),
        all_placed(program@, schedule@, bundles@, 0, 0),
        forall|pc: int| 0 <= pc < program@.len() && spec_unit(program@[pc]) != ExecutionUnit::Branch ==>
            #[trigger] offsets@[pc] == count_at(program@, schedule@, pc, spec_unit(program@[pc]), schedule@[pc] as int),
    ensures
        forall|i: int| 0 <= i < movs@.len() ==> (#[trigger] movs@[i]) is Mov,
        movs@.no_duplicates(),
        last_loop_before(program@, program@.len() as int) < 0 ==> movs@.len() == 0,
        !carried_twice(program@, dependency_table@) ==> movs@.len() == 0,
        carried_twice(program@, dependency_table@) ==> movs@.len() > 0,
        forall|i: int| 0 <= i < movs@.len() ==>
            carried_move(program@, dependency_table@, schedule@, bundles@, #[trigger] movs@[i]),
{
    let ghost p = program@;
    let ghost s = schedule@;
    let ghost t = dependency_table@;
    proof {
        lemma_table_regions(p, t);
    }
    let mut movs: Vec<Instruction> = Vec::new();
    let n = program.len();
    let mut pc: usize = 0;
    while pc < n
        invariant
            p == program@,
            s == schedule@,
            t == dependency_table@,
            n == p.len(),
            s.len() == n,
            offsets@.len() == n,
            t.len() == n,
            forall|q: int| 0 <= q < n && spec_unit(p[q]) != ExecutionUnit::Branch ==>
                #[trigger] offsets@[q] == count_at(p, s, q, spec_unit(p[q]), s[q] as int),
            forall|r: int, k: int, i: int| 0 <= r < p.len() && 0 <= k < 4 && 0 <= i < t[r]@[k].len() ==>
                0 <= #[trigger] t[r]@[k][i] < p.len() && spec_dest(p[t[r]@[k][i] as int]) is Some,
            last_loop_before(p, p.len() as int) < 0 ==> forall|r: int| 0 <= r < p.len() ==> (#[trigger] t[r])@[1].len() == 0,
            all_placed(p, s, bundles@, 0, 0),
            pc <= n,
            forall|i: int| 0 <= i < movs@.len() ==> (#[trigger] movs@[i]) is Mov,
            movs@.no_duplicates(),
            last_loop_before(p, p.len() as int) < 0 ==> movs@.len() == 0,
            !carried_twice(p, t) ==> movs@.len() == 0,
            carried_twice_before(p, t, pc as int) ==> movs@.len() > 0,
            forall|i: int| 0 <= i < movs@.len() ==> carried_move(p, t, s, bundles@, #[trigger] movs@[i]),
        decreases n - pc,
    {
        let list = dependency_table[pc].iter(Dependency::InterLoop);
        let mut pair_regs: Vec<u8> = Vec::new();
        let mut pair_pcs: Vec<usize> = Vec::new();
        let ghost mut pair_js: Seq<int> = Seq::empty();
        let ghost movs0 = movs@.len();
        let mut j: usize = 0;
        while j < list.len()
            invariant
                p == program@,
                s == schedule@,
                t == dependency_table@,
                n == p.len(),
                pc < n,
                s.len() == n,
                offsets@.len() == n,
                list@ == t[pc as int]@[1],
                forall|q: int| 0 <= q < n && spec_unit(p[q]) != ExecutionUnit::Branch ==>
                    #[trigger] offsets@[q] == count_at(p, s, q, spec_unit(p[q]), s[q] as int),
                forall|r: int, k: int, i: int| 0 <= r < p.len() && 0 <= k < 4 && 0 <= i < t[r]@[k].len() ==>
                    0 <= #[trigger] t[r]@[k][i] < p.len() && spec_dest(p[t[r]@[k][i] as int]) is Some,
                all_placed(p, s, bundles@, 0, 0),
                j <= list@.len(),
                pair_regs@.len() == pair_pcs@.len(),
                forall|i: int| 0 <= i < pair_pcs@.len() ==> #[trigger] pair_pcs@[i] < n && spec_dest(p[pair_pcs@[i] as int]) is Some,
                forall|i: int| 0 <= i < movs@.len() ==> (#[trigger] movs@[i]) is Mov,
                movs@.no_duplicates(),
                last_loop_before(p, p.len() as int) < 0 ==> movs@.len() == 0,
                last_loop_before(p, p.len() as int) < 0 ==> list@.len() == 0,
                !carried_twice(p, t) ==> movs@.len() == 0,
                pair_js.len() == pair_pcs@.len(),
                forall|x: int| 0 <= x < pair_js.len() ==> 0 <= #[trigger] pair_js[x] < j
                    && pair_pcs@[x] == list@[pair_js[x]]
                    && Some(pair_regs@[x]) == spec_dest(p[list@[pair_js[x]] as int]),
                forall|y: int| 0 <= y < j ==> pair_regs@.contains(spec_dest(p[#[trigger] list@[y] as int])->0),
                movs0 <= movs@.len(),
                carried_twice_before(p, t, pc as int) ==> movs0 > 0,
                (exists|y1: int, y2: int| 0 <= y1 < y2 < j
                    && #[trigger] spec_dest(p[list@[y1] as int]) == #[trigger] spec_dest(p[list@[y2] as int])) ==> movs@.len() > 0,
                forall|i: int| 0 <= i < movs@.len() ==> carried_move(p, t, s, bundles@, #[trigger] movs@[i]),
            decreases list@.len() - j,
        {
            let dep_pc = list[j];
            proof {
                assert(0 <= t[pc as int]@[1][j as int] < p.len());
            }
            let reg = program[dep_pc].dest().unwrap();
            let ghost regs0 = pair_regs@;
            let mut idx: usize = 0;
            let mut found = false;
            while idx < pair_regs.len() && !found
                invariant
                    idx <= pair_regs@.len(),
                    found ==> idx > 0 && idx - 1 < pair_regs@.len() && pair_regs@[idx - 1] == reg,
                    !found ==> forall|x: int| 0 <= x < idx ==> pair_regs@[x] != reg,
                decreases pair_regs@.len() - idx + (if found { 0int } else { 1int }),
            {
                if pair_regs[idx] == reg {
                    found = true;
                }
                idx = idx + 1;
            }
            if found {
                let bb0_pc = pair_pcs[idx - 1];
                let bb0_unit = program[bb0_pc].unit();
                let bb1_unit = program[dep_pc].unit();
                proof {
                    assert(spec_unit(p[bb0_pc as int]) != ExecutionUnit::Branch);
                    assert(spec_unit(p[dep_pc as int]) != ExecutionUnit::Branch);
                    assert(placed_at(p, s, bundles@, 0, 0, bb0_pc as int));
                    assert(placed_at(p, s, bundles@, 0, 0, dep_pc as int));
                    lemma_same_form(placed_copy(p, s, bundles@, bb0_pc as int), p[bb0_pc as int], p[bb0_pc as int]);
                    lemma_same_form(placed_copy(p, s, bundles@, dep_pc as int), p[dep_pc as int], p[dep_pc as int]);
                }
                let bb0_dest = bundles[schedule[bb0_pc]].slots(bb0_unit)[offsets[bb0_pc]].dest().unwrap();
                let bb1_dest = bundles[schedule[dep_pc]].slots(bb1_unit)[offsets[dep_pc]].dest().unwrap();
                let mov = Instruction::Mov(bb0_dest, bb1_dest);
                let mut present = false;
                let mut m: usize = 0;
                while m < movs.len()
                    invariant
                        m <= movs@.len(),
                        present == exists|i: int| 0 <= i < m && movs@[i] == mov,
                    decreases movs@.len() - m,
                {
                    if movs[m] == mov {
                        present = true;
                    }
                    m = m + 1;
                }
                proof {
                    let jj = pair_js[idx - 1];
                    assert(spec_dest(p[t[pc as int]@[1][jj] as int]) == spec_dest(p[t[pc as int]@[1][j as int] as int]));
                    reveal(carried_twice);
                    assert(carried_twice(p, t));
                    assert(placed_ins(p, s, bundles@, 0, 0, bb0_pc as int) == bundles@[schedule@[bb0_pc as int] as int]@[unit_index(bb0_unit)][offsets@[bb0_pc as int] as int]);
                    assert(placed_ins(p, s, bundles@, 0, 0, dep_pc as int) == bundles@[schedule@[dep_pc as int] as int]@[unit_index(bb1_unit)][offsets@[dep_pc as int] as int]);
                    assert(carried_move(p, t, s, bundles@, mov));
                }
                if !present {
                    proof {
                        assert(!movs@.contains(mov));
                    }
                    movs.push(mov);
                } else {
                    assert(movs@.len() > 0);
                }
            } else {
                proof {
                    assert(!pair_regs@.contains(reg));
                    assert forall|y1: int, y2: int| 0 <= y1 < y2 < j + 1
                        && #[trigger] spec_dest(p[list@[y1] as int]) == #[trigger] spec_dest(p[list@[y2] as int]) implies
                        y2 < j by {
                        if y2 == j {
                            assert(pair_regs@.contains(spec_dest(p[list@[y1] as int])->0));
                        }
                    }
                }
                pair_regs.push(reg);
                pair_pcs.push(dep_pc);
                proof {
                    pair_js = pair_js.push(j as int);
                }
            }
            proof {
                assert forall|y: int| 0 <= y < j + 1 implies pair_regs@.contains(spec_dest(p[#[trigger] list@[y] as int])->0) by {
                    if y < j {
                        assert(regs0.contains(spec_dest(p[list@[y] as int])->0));
                        let w = choose|w: int| 0 <= w < regs0.len() && regs0[w] == spec_dest(p[list@[y] as int])->0;
                        assert(pair_regs@[w] == regs0[w]);
                    } else if found {
                        assert(pair_regs@[idx - 1] == reg);
                    } else {
                        assert(pair_regs@[pair_regs@.len() - 1] == reg);
                    }
                }
            }
            j = j + 1;
        }
        proof {
            assert(carried_twice_before(p, t, pc + 1) ==> movs@.len() > 0) by {
                if carried_twice_before(p, t, pc + 1) && !carried_twice_before(p, t, pc as int) {
                    let (q, y1, y2) = choose|q: int, y1: int, y2: int| 0 <= q < pc + 1 && 0 <= y1 < y2 < t[q]@[1].len()
                        && #[trigger] spec_dest(p[t[q]@[1][y1] as int]) == #[trigger] spec_dest(p[t[q]@[1][y2] as int]);
                    assert(q == pc);
                }
            }
        }
        pc = pc + 1;
    }
    proof {
        if carried_twice(p, t) {
            reveal(carried_twice);
            let (q, y1, y2) = choose|q: int, y1: int, y2: int| 0 <= q < p.len() && 0 <= y1 < y2 < t[q]@[1].len()
                && #[trigger] spec_dest(p[t[q]@[1][y1] as int]) == #[trigger] spec_dest(p[t[q]@[1][y2] as int]);
            assert(carried_twice_before(p, t, n as int));
        }
    }
    movs
}

/// Bundles `cur2` are bundles `cur` with registers renamed and, on the units
/// other than the branch unit, possibly instructions added after the others.
pub open spec fn grows_from(cur: Seq<VLIW>, cur2: Seq<VLIW>) -> bool {
    &&& cur2.len() == cur.len()
    &&& forall|b: int, u: int| 0 <= b < cur.len() && 0 <= u < 3 ==>
        (#[trigger] cur[b]@[u]).len() <= cur2[b]@[u].len()
    &&& forall|b: int, u: int, i: int| 0 <= b < cur.len() && 0 <= u < 3 && 0 <= i < cur[b]@[u].len() ==>
        #[trigger] same_form(cur2[b]@[u][i], cur[b]@[u][i])
}

proof fn lemma_grows_keeps(old: Seq<VLIW>, cur: Seq<VLIW>, cur2: Seq<VLIW>, split: int, extra: int)
    requires
        keeps_forms(old, cur, split, extra),
        grows_from(cur, cur2),
        0 <= extra,
        split >= -1,
    ensures
        keeps_forms(old, cur2, split, extra),
{
    assert forall|b: int, u: int, i: int| 0 <= b < old.len() && 0 <= u < 3 && 0 <= i < old[b]@[u].len() implies {
        &&& i < cur2[bundle_pos(b, split, extra)]@[u].len()
        &&& #[trigger] same_form(cur2[bundle_pos(b, split, extra)]@[u][i], old[b]@[u][i])
    } by {
        let pb = bundle_pos(b, split, extra);
        assert(same_form(cur[bundle_pos(b, split, extra)]@[u][i], old[b]@[u][i]));
        assert(0 <= pb < cur.len());
        assert(same_form(cur2[pb]@[u][i], cur[pb]@[u][i]));
        lemma_same_form(cur2[pb]@[u][i], cur[pb]@[u][i], old[b]@[u][i]);
    }
}

proof fn lemma_grows_refl(cur: Seq<VLIW>)
    ensures
        grows_from(cur, cur),
{
    assert forall|b: int, u: int, i: int| 0 <= b < cur.len() && 0 <= u < 3 && 0 <= i < cur[b]@[u].len() implies
        i < cur[b]@[u].len() && #[trigger] same_form(cur[b]@[u][i], cur[b]@[u][i]) by {
        lemma_same_form(cur[b]@[u][i], cur[b]@[u][i], cur[b]@[u][i]);
    }
}

proof fn lemma_renamed_grows(a: Seq<VLIW>, b: Seq<VLIW>)
    requires
        renamed_from(a, b),
    ensures
        grows_from(a, b),
{
    assert forall|x: int, u: int, i: int| 0 <= x < a.len() && 0 <= u < 3 && 0 <= i < a[x]@[u].len() implies
        i < b[x]@[u].len() && #[trigger] same_form(b[x]@[u][i], a[x]@[u][i]) by {
        assert(b[x]@[u].len() == a[x]@[u].len());
    }
}

/// Renames, in the bundles from `from` on, every read of the move's
/// destination into a read of its source.
/// The instruction with every read of register `d` turned into a read of `s`.
pub open spec fn forwarded(i: Instruction, d: u8, s: u8) -> Instruction {
    spec_with_operands(i, Seq::new(spec_operands(i).len(), |j: int| if spec_operands(i)[j] == d { s } else { spec_operands(i)[j] }))
}

fn forward_move(bundles: &mut Vec<VLIW>, from: usize, mov: Instruction)
    requires
        mov is Mov,
    ensures
        renamed_from(old(bundles)@, final(bundles)@),
        dests_kept(old(bundles)@, final(bundles)@),
        forall|b: int| 0 <= b < from && b < old(bundles)@.len() ==> #[trigger] final(bundles)@[b] == old(bundles)@[b],
        forall|b: int, u: int, i: int| from <= b < old(bundles)@.len() && 0 <= u < 4 && 0 <= i < old(bundles)@[b]@[u].len() ==>
            #[trigger] final(bundles)@[b]@[u][i] == forwarded(old(bundles)@[b]@[u][i], spec_dest(mov)->0, spec_operands(mov)[0]),
{
    let ghost old_bs = bundles@;
    proof {
        lemma_dests_kept_refl(old_bs);
        assert forall|c: int, u: int, j: int| 0 <= c < old_bs.len() && 0 <= u < 4 && 0 <= j < old_bs[c]@[u].len() implies
            #[trigger] same_form(bundles@[c]@[u][j], old_bs[c]@[u][j]) by {
            lemma_same_form(old_bs[c]@[u][j], old_bs[c]@[u][j], old_bs[c]@[u][j]);
        }
    }
    let mov_dest = mov.dest().unwrap();
    let mov_src = mov.operands()[0];
    let units = ExecutionUnit::iter();
    let mut index = from;
    while index < bundles.len()
        invariant
            units@ == all_units(),
            renamed_from(old_bs, bundles@),
            dests_kept(old_bs, bundles@),
            from <= index,
            forall|b: int| 0 <= b < from && b < old_bs.len() ==> #[trigger] bundles@[b] == old_bs[b],
            mov_dest == spec_dest(mov)->0,
            mov_src == spec_operands(mov)[0],
            forall|b: int| index <= b < old_bs.len() ==> #[trigger] bundles@[b] == old_bs[b],
            forall|b: int, u: int, j: int| from <= b < index && 0 <= u < 4 && 0 <= j < old_bs[b]@[u].len() ==>
                #[trigger] bundles@[b]@[u][j] == forwarded(old_bs[b]@[u][j], mov_dest, mov_src),
        decreases bundles@.len() - index,
    {
        let mut k: usize = 0;
        while k < 4
            invariant
                units@ == all_units(),
                renamed_from(old_bs, bundles@),
                dests_kept(old_bs, bundles@),
                from <= index,
                forall|b: int| 0 <= b < from && b < old_bs.len() ==> #[trigger] bundles@[b] == old_bs[b],
                index < bundles@.len(),
                k <= 4,
                mov_dest == spec_dest(mov)->0,
                mov_src == spec_operands(mov)[0],
                forall|b: int| index < b < old_bs.len() ==> #[trigger] bundles@[b] == old_bs[b],
                forall|u: int| k <= u < 4 ==> #[trigger] bundles@[index as int]@[u] == old_bs[index as int]@[u],
                bundles@[index as int]@.len() == 4,
                forall|b: int, u: int, j: int| from <= b < index && 0 <= u < 4 && 0 <= j < old_bs[b]@[u].len() ==>
                    #[trigger] bundles@[b]@[u][j] == forwarded(old_bs[b]@[u][j], mov_dest, mov_src),
                forall|u: int, j: int| 0 <= u < k && 0 <= j < old_bs[index as int]@[u].len() ==>
                    #[trigger] bundles@[index as int]@[u][j] == forwarded(old_bs[index as int]@[u][j], mov_dest, mov_src),
            decreases 4 - k,
        {
            let unit = units[k];
            proof {
                assert(unit_index(unit) == k);
            }
            let n_i = bundles[index].slots(unit).len();
            let mut i: usize = 0;
            while i < n_i
                invariant
                    renamed_from(old_bs, bundles@),
                    dests_kept(old_bs, bundles@),
                    from <= index,
                    forall|b: int| 0 <= b < from && b < old_bs.len() ==> #[trigger] bundles@[b] == old_bs[b],
                    index < bundles@.len(),
                    k < 4,
                    unit_index(unit) == k,
                    n_i == bundles@[index as int]@[k as int].len(),
                    i <= n_i,
                    mov_dest == spec_dest(mov)->0,
                    mov_src == spec_operands(mov)[0],
                    forall|b: int| index < b < old_bs.len() ==> #[trigger] bundles@[b] == old_bs[b],
                    forall|u: int| k < u < 4 ==> #[trigger] bundles@[index as int]@[u] == old_bs[index as int]@[u],
                    bundles@[index as int]@.len() == 4,
                    forall|j: int| i <= j < n_i ==> #[trigger] bundles@[index as int]@[k as int][j] == old_bs[index as int]@[k as int][j],
                    forall|b: int, u: int, j: int| from <= b < index && 0 <= u < 4 && 0 <= j < old_bs[b]@[u].len() ==>
                        #[trigger] bundles@[b]@[u][j] == forwarded(old_bs[b]@[u][j], mov_dest, mov_src),
                    forall|u: int, j: int| 0 <= u < k && 0 <= j < old_bs[index as int]@[u].len() ==>
                        #[trigger] bundles@[index as int]@[u][j] == forwarded(old_bs[index as int]@[u][j], mov_dest, mov_src),
                    forall|j: int| 0 <= j < i ==>
                        #[trigger] bundles@[index as int]@[k as int][j] == forwarded(old_bs[index as int]@[k as int][j], mov_dest, mov_src),
                decreases n_i - i,
            {
                let mut ins = bundles[index].slots(unit)[i];
                let ghost old_ins = ins;
                let ops = ins.operands();
                let mut new_ops: Vec<u8> = Vec::new();
                let mut o: usize = 0;
                while o < ops.len()
                    invariant
                        o <= ops@.len(),
                        new_ops@.len() == o,
                        forall|x: int| 0 <= x < o ==> #[trigger] new_ops@[x] == (if ops@[x] == mov_dest { mov_src } else { ops@[x] }),
                    decreases ops@.len() - o,
                {
                    if ops[o] == mov_dest {
                        new_ops.push(mov_src);
                    } else {
                        new_ops.push(ops[o]);
                    }
                    o = o + 1;
                }
                let ghost before = bundles@;
                let ghost nops = new_ops@;
                update_ops(&mut ins, new_ops);
                proof {
                    lemma_with_operands(old_ins, nops);
                    assert(old_ins == old_bs[index as int]@[k as int][i as int]);
                    assert(nops =~= Seq::new(spec_operands(old_ins).len(), |x: int| if spec_operands(old_ins)[x] == mov_dest { mov_src } else { spec_operands(old_ins)[x] }));
                    assert(ins == forwarded(old_ins, mov_dest, mov_src));
                }
                bundles[index].set_slot(unit, i, ins);
                proof {
                    lemma_renamed_set(old_bs, before, bundles@, index as int, k as int, i as int, ins);
                    lemma_dests_kept_set(old_bs, before, bundles@, index as int, k as int, i as int, ins);
                    assert forall|b: int| 0 <= b < from && b < old_bs.len() implies #[trigger] bundles@[b] == old_bs[b] by {
                        assert(bundles@[b] == before[b]);
                    }
                    assert forall|b: int| index < b < old_bs.len() implies #[trigger] bundles@[b] == old_bs[b] by {
                        assert(bundles@[b] == before[b]);
                    }
                    assert forall|u: int| k < u < 4 implies #[trigger] bundles@[index as int]@[u] == old_bs[index as int]@[u] by {
                        assert(bundles@[index as int]@[u] == before[index as int]@[u]);
                    }
                    assert forall|j: int| i < j < n_i implies #[trigger] bundles@[index as int]@[k as int][j] == old_bs[index as int]@[k as int][j] by {
                        assert(bundles@[index as int]@[k as int][j] == before[index as int]@[k as int][j]);
                    }
                    assert forall|b: int, u: int, j: int| from <= b < index && 0 <= u < 4 && 0 <= j < old_bs[b]@[u].len() implies
                        #[trigger] bundles@[b]@[u][j] == forwarded(old_bs[b]@[u][j], mov_dest, mov_src) by {
                        assert(bundles@[b] == before[b]);
                    }
                    assert forall|u: int, j: int| 0 <= u < k && 0 <= j < old_bs[index as int]@[u].len() implies
                        #[trigger] bundles@[index as int]@[u][j] == forwarded(old_bs[index as int]@[u][j], mov_dest, mov_src) by {
                        assert(bundles@[index as int]@[u] == before[index as int]@[u]);
                    }
                    assert forall|j: int| 0 <= j <= i implies
                        #[trigger] bundles@[index as int]@[k as int][j] == forwarded(old_bs[index as int]@[k as int][j], mov_dest, mov_src) by {
                        if j < i {
                            assert(bundles@[index as int]@[k as int][j] == before[index as int]@[k as int][j]);
                        }
                    }
                }
                i = i + 1;
            }
            k = k + 1;
        }
        index = index + 1;
    }
}


proof fn lemma_grows_keeps_zero(a: Seq<VLIW>, b: Seq<VLIW>, split: int)
    requires
        grows_from(a, b),
    ensures
        keeps_forms(a, b, split, 0),
{
    assert forall|x: int, u: int| 0 <= x < a.len() && 0 <= u < 3 implies
        (#[trigger] a[x]@[u]).len() <= b[bundle_pos(x, split, 0)]@[u].len() by {
        assert(bundle_pos(x, split, 0) == x);
    }
    assert forall|x: int, u: int, i: int| 0 <= x < a.len() && 0 <= u < 3 && 0 <= i < a[x]@[u].len() implies
        #[trigger] same_form(b[bundle_pos(x, split, 0)]@[u][i], a[x]@[u][i]) by {
        assert(bundle_pos(x, split, 0) == x);
    }
}

#[verifier::rlimit(30)]
proof fn lemma_insert_keeps(old: Seq<VLIW>, cur: Seq<VLIW>, split: int, extra: int, x: VLIW)
    requires
        keeps_forms(old, cur, split, extra),
        0 <= extra,
        0 <= split + 1 + extra <= cur.len(),
    ensures
        keeps_forms(old, cur.insert(split + 1 + extra, x), split, extra + 1),
{
    let at = split + 1 + extra;
    let cur2 = cur.insert(at, x);
    cur.insert_ensures(at, x);
    assert forall|b: int, u: int| 0 <= b < old.len() && 0 <= u < 3 implies
        (#[trigger] old[b]@[u]).len() <= cur2[bundle_pos(b, split, extra + 1)]@[u].len() by {
        if b <= split {
            assert(cur2[b] == cur[b]);
        } else {
            assert(cur2[b + extra + 1] == cur[b + extra]);
        }
    }
    assert forall|b: int, u: int, i: int| 0 <= b < old.len() && 0 <= u < 3 && 0 <= i < old[b]@[u].len() implies
        #[trigger] same_form(cur2[bundle_pos(b, split, extra + 1)]@[u][i], old[b]@[u][i]) by {
        assert(same_form(cur[bundle_pos(b, split, extra)]@[u][i], old[b]@[u][i]));
        if b <= split {
            assert(cur2[b] == cur[b]);
        } else {
            assert(cur2[b + extra + 1] == cur[b + extra]);
        }
    }
}

/// The bundles of `old` up to `last` keep, in `cur`, their instructions off
/// the branch unit unchanged and in place.
spec fn head_kept(old: Seq<VLIW>, cur: Seq<VLIW>, last: int) -> bool {
    forall|b: int, u: int, i: int| 0 <= b <= last && b < old.len() && 0 <= u < 3 && 0 <= i < old[b]@[u].len() ==>
        #[trigger] cur[b]@[u][i] == old[b]@[u][i]
}

/// Every instruction of `old` off the branch unit writes, where `keeps_forms`
/// puts it in `cur`, the register it writes in `old`.
spec fn moved_dests_kept(old: Seq<VLIW>, cur: Seq<VLIW>, split: int, extra: int) -> bool {
    forall|b: int, u: int, i: int| 0 <= b < old.len() && 0 <= u < 3 && 0 <= i < old[b]@[u].len() ==>
        #[trigger] spec_dest(cur[bundle_pos(b, split, extra)]@[u][i]) == spec_dest(old[b]@[u][i])
}

/// Appending an instruction to a unit of one bundle keeps what stood there.
proof fn lemma_append_keeps(old: Seq<VLIW>, cur: Seq<VLIW>, cur2: Seq<VLIW>, split: int, extra: int, x: int)
    requires
        head_kept(old, cur, split),
        moved_dests_kept(old, cur, split, extra),
        keeps_forms(old, cur, split, extra),
        0 <= extra,
        0 <= x < cur.len(),
        cur2.len() == cur.len(),
        forall|b: int| 0 <= b < cur.len() && b != x ==> #[trigger] cur2[b] == cur[b],
        forall|u: int, i: int| 0 <= u < 3 && 0 <= i < cur[x]@[u].len() ==> i < cur2[x]@[u].len() && #[trigger] cur2[x]@[u][i] == cur[x]@[u][i],
    ensures
        head_kept(old, cur2, split),
        moved_dests_kept(old, cur2, split, extra),
{
    assert forall|b: int, u: int, i: int| 0 <= b <= split && b < old.len() && 0 <= u < 3 && 0 <= i < old[b]@[u].len() implies
        #[trigger] cur2[b]@[u][i] == old[b]@[u][i] by {
        assert(bundle_pos(b, split, extra) == b);
        assert(old[b]@[u].len() <= cur[bundle_pos(b, split, extra)]@[u].len());
        assert(cur[b]@[u][i] == old[b]@[u][i]);
        if b == x {
            assert(cur2[x]@[u][i] == cur[x]@[u][i]);
        } else {
            assert(cur2[b] == cur[b]);
        }
    }
    assert forall|b: int, u: int, i: int| 0 <= b < old.len() && 0 <= u < 3 && 0 <= i < old[b]@[u].len() implies
        #[trigger] spec_dest(cur2[bundle_pos(b, split, extra)]@[u][i]) == spec_dest(old[b]@[u][i]) by {
        let c = bundle_pos(b, split, extra);
        assert(old[b]@[u].len() <= cur[c]@[u].len());
        assert(spec_dest(cur[c]@[u][i]) == spec_dest(old[b]@[u][i]));
        if c == x {
            assert(cur2[x]@[u][i] == cur[x]@[u][i]);
        } else {
            assert(cur2[c] == cur[c]);
        }
    }
}

/// Register `r` once the moves `movs[0..n]`, in turn, have made reads of
/// their destination read their source.
pub open spec fn forwarded_reg(r: u8, movs: Seq<Instruction>, n: int) -> u8
    decreases n,
{
    if n <= 0 {
        r
    } else {
        let q = forwarded_reg(r, movs, n - 1);
        if q == spec_dest(movs[n - 1])->0 { spec_operands(movs[n - 1])[0] } else { q }
    }
}

/// Instruction `x` once the moves `movs[0..n]` have been forwarded into it
/// in turn (`forwarded`).
pub open spec fn forwarded_all(x: Instruction, movs: Seq<Instruction>, n: int) -> Instruction
    decreases n,
{
    if n <= 0 {
        x
    } else {
        forwarded(forwarded_all(x, movs, n - 1), spec_dest(movs[n - 1])->0, spec_operands(movs[n - 1])[0])
    }
}

proof fn lemma_forwarded_all(x: Instruction, movs: Seq<Instruction>, n: int)
    ensures
        spec_dest(forwarded_all(x, movs, n)) == spec_dest(x),
        spec_operands(forwarded_all(x, movs, n)).len() == spec_operands(x).len(),
        forall|j: int| 0 <= j < spec_operands(x).len() ==>
            #[trigger] spec_operands(forwarded_all(x, movs, n))[j] == forwarded_reg(spec_operands(x)[j], movs, n),
        same_form(forwarded_all(x, movs, n), x),
    decreases n,
{
    if n <= 0 {
        lemma_same_form(x, x, x);
    } else {
        lemma_forwarded_all(x, movs, n - 1);
        let y = forwarded_all(x, movs, n - 1);
        let d = spec_dest(movs[n - 1])->0;
        let sr = spec_operands(movs[n - 1])[0];
        let ops = Seq::new(spec_operands(y).len(), |j: int| if spec_operands(y)[j] == d { sr } else { spec_operands(y)[j] });
        lemma_with_operands(y, ops);
        assert(forwarded_all(x, movs, n) == spec_with_operands(y, ops));
        assert forall|j: int| 0 <= j < spec_operands(x).len() implies
            #[trigger] spec_operands(forwarded_all(x, movs, n))[j] == forwarded_reg(spec_operands(x)[j], movs, n) by {
            assert(spec_operands(y)[j] == forwarded_reg(spec_operands(x)[j], movs, n - 1));
        }
        lemma_with_operands_form(y, ops);
        lemma_same_form(forwarded_all(x, movs, n), y, x);
    }
}

/// The bundles of `old` after the loop's bundle `split` stand in `cur`
/// where `bundle_pos` puts them, each instruction with the moves
/// `movs[0..n]` forwarded into it.
pub open spec fn post_forwarded(old: Seq<VLIW>, cur: Seq<VLIW>, split: int, extra: int, movs: Seq<Instruction>, n: int) -> bool {
    &&& forall|b: int, u: int| split < b < old.len() && 0 <= u < 4 ==>
        (#[trigger] cur[bundle_pos(b, split, extra)]@[u]).len() == old[b]@[u].len()
    &&& forall|b: int, u: int, i: int| split < b < old.len() && 0 <= u < 4 && 0 <= i < old[b]@[u].len() ==>
        #[trigger] cur[bundle_pos(b, split, extra)]@[u][i] == forwarded_all(old[b]@[u][i], movs, n)
}

proof fn lemma_post_forward(old: Seq<VLIW>, cur: Seq<VLIW>, cur2: Seq<VLIW>, split: int, extra: int,
    movs: Seq<Instruction>, n: int)
    requires
        post_forwarded(old, cur, split, extra, movs, n),
        0 <= n < movs.len(),
        0 <= split,
        cur.len() == old.len() + extra,
        extra >= 0,
        renamed_from(cur, cur2),
        forall|b: int, u: int, i: int| split + 1 + extra <= b < cur.len() && 0 <= u < 4 && 0 <= i < cur[b]@[u].len() ==>
            #[trigger] cur2[b]@[u][i] == forwarded(cur[b]@[u][i], spec_dest(movs[n])->0, spec_operands(movs[n])[0]),
    ensures
        post_forwarded(old, cur2, split, extra, movs, n + 1),
{
    assert forall|b: int, u: int| split < b < old.len() && 0 <= u < 4 implies
        (#[trigger] cur2[bundle_pos(b, split, extra)]@[u]).len() == old[b]@[u].len() by {
        let c = bundle_pos(b, split, extra);
        assert(cur[c]@[u].len() == old[b]@[u].len());
        assert(cur2[c]@[u].len() == cur[c]@[u].len());
    }
    assert forall|b: int, u: int, i: int| split < b < old.len() && 0 <= u < 4 && 0 <= i < old[b]@[u].len() implies
        #[trigger] cur2[bundle_pos(b, split, extra)]@[u][i] == forwarded_all(old[b]@[u][i], movs, n + 1) by {
        let c = bundle_pos(b, split, extra);
        assert(cur[c]@[u].len() == old[b]@[u].len());
        assert(cur[c]@[u][i] == forwarded_all(old[b]@[u][i], movs, n));
        assert(cur2[c]@[u][i] == forwarded(cur[c]@[u][i], spec_dest(movs[n])->0, spec_operands(movs[n])[0]));
    }
}

proof fn lemma_post_same(old: Seq<VLIW>, cur: Seq<VLIW>, cur2: Seq<VLIW>, split: int, extra: int,
    movs: Seq<Instruction>, n: int, x: int)
    requires
        post_forwarded(old, cur, split, extra, movs, n),
        0 <= split,
        extra >= 0,
        cur.len() == old.len() + extra,
        cur2.len() == cur.len(),
        x <= split + extra,
        forall|b: int| 0 <= b < cur.len() && b != x ==> #[trigger] cur2[b] == cur[b],
    ensures
        post_forwarded(old, cur2, split, extra, movs, n),
{
    assert forall|b: int, u: int| split < b < old.len() && 0 <= u < 4 implies
        (#[trigger] cur2[bundle_pos(b, split, extra)]@[u]).len() == old[b]@[u].len() by {
        let c = bundle_pos(b, split, extra);
        assert(cur2[c] == cur[c]);
        assert(cur[c]@[u].len() == old[b]@[u].len());
    }
    assert forall|b: int, u: int, i: int| split < b < old.len() && 0 <= u < 4 && 0 <= i < old[b]@[u].len() implies
        #[trigger] cur2[bundle_pos(b, split, extra)]@[u][i] == forwarded_all(old[b]@[u][i], movs, n) by {
        let c = bundle_pos(b, split, extra);
        assert(cur2[c] == cur[c]);
        assert(cur[c]@[u][i] == forwarded_all(old[b]@[u][i], movs, n));
    }
}

proof fn lemma_post_insert(old: Seq<VLIW>, cur: Seq<VLIW>, split: int, extra: int, movs: Seq<Instruction>, n: int, e: VLIW)
    requires
        post_forwarded(old, cur, split, extra, movs, n),
        cur.len() == old.len() + extra,
        extra >= 0,
        0 <= split < old.len(),
    ensures
        post_forwarded(old, cur.insert(split + 1 + extra, e), split, extra + 1, movs, n),
{
    let d = cur.insert(split + 1 + extra, e);
    cur.insert_ensures(split + 1 + extra, e);
    assert forall|b: int, u: int| split < b < old.len() && 0 <= u < 4 implies
        (#[trigger] d[bundle_pos(b, split, extra + 1)]@[u]).len() == old[b]@[u].len() by {
        let c = bundle_pos(b, split, extra);
        assert(bundle_pos(b, split, extra + 1) == c + 1);
        assert(d[c + 1] == cur[c]);
        assert(cur[c]@[u].len() == old[b]@[u].len());
    }
    assert forall|b: int, u: int, i: int| split < b < old.len() && 0 <= u < 4 && 0 <= i < old[b]@[u].len() implies
        #[trigger] d[bundle_pos(b, split, extra + 1)]@[u][i] == forwarded_all(old[b]@[u][i], movs, n) by {
        let c = bundle_pos(b, split, extra);
        assert(bundle_pos(b, split, extra + 1) == c + 1);
        assert(d[c + 1] == cur[c]);
        assert(cur[c]@[u][i] == forwarded_all(old[b]@[u][i], movs, n));
    }
}

/// From position `k` on, `v` holds only moves of `movs`, and holds any
/// there only where `allowed`.
pub open spec fn tail_moves(movs: Seq<Instruction>, v: Seq<Instruction>, k: int, allowed: bool) -> bool {
    &&& k < v.len() ==> allowed
    &&& forall|i: int| k <= i < v.len() ==> movs.contains(#[trigger] v[i])
}

/// Besides what `keeps_forms` carries over from `old`, `cur` holds only
/// moves of `movs`, and only on the ALUs: after the old instructions of
/// bundle `split`, and in the bundles inserted after it.
pub open spec fn moves_added(old: Seq<VLIW>, cur: Seq<VLIW>, split: int, extra: int, movs: Seq<Instruction>) -> bool {
    &&& forall|b: int, u: int| 0 <= b < old.len() && 0 <= u < 3 ==>
        tail_moves(movs, #[trigger] cur[bundle_pos(b, split, extra)]@[u], old[b]@[u].len() as int, u == 0 && b == split)
    &&& forall|c: int, u: int| 0 <= c && split < c <= split + extra && c < cur.len() && 0 <= u < 3 ==>
        tail_moves(movs, #[trigger] cur[c]@[u], 0, u == 0)
}

proof fn lemma_moves_refl(old: Seq<VLIW>, split: int, movs: Seq<Instruction>)
    ensures
        moves_added(old, old, split, 0, movs),
{
    assert forall|b: int, u: int| 0 <= b < old.len() && 0 <= u < 3 implies
        tail_moves(movs, #[trigger] old[bundle_pos(b, split, 0)]@[u], old[b]@[u].len() as int, u == 0 && b == split) by {
        assert(bundle_pos(b, split, 0) == b);
    }
}

/// Renaming the bundles after those that moves went into adds nothing.
proof fn lemma_moves_renamed(old: Seq<VLIW>, cur: Seq<VLIW>, cur2: Seq<VLIW>, split: int, extra: int, movs: Seq<Instruction>)
    requires
        moves_added(old, cur, split, extra, movs),
        renamed_from(cur, cur2),
        forall|b: int| 0 <= b <= split + extra && b < cur.len() ==> #[trigger] cur2[b] == cur[b],
        cur.len() == old.len() + extra,
        extra >= 0,
        0 <= split,
    ensures
        moves_added(old, cur2, split, extra, movs),
{
    assert forall|b: int, u: int| 0 <= b < old.len() && 0 <= u < 3 implies
        tail_moves(movs, #[trigger] cur2[bundle_pos(b, split, extra)]@[u], old[b]@[u].len() as int, u == 0 && b == split) by {
        let c = bundle_pos(b, split, extra);
        assert(tail_moves(movs, cur[c]@[u], old[b]@[u].len() as int, u == 0 && b == split));
        assert(cur2[c]@[u].len() == cur[c]@[u].len());
        if old[b]@[u].len() < cur[c]@[u].len() {
            assert(b == split);
            assert(cur2[c] == cur[c]);
        }
    }
    assert forall|c: int, u: int| 0 <= c && split < c <= split + extra && c < cur2.len() && 0 <= u < 3 implies
        tail_moves(movs, #[trigger] cur2[c]@[u], 0, u == 0) by {
        assert(cur2[c] == cur[c]);
        assert(tail_moves(movs, cur[c]@[u], 0, u == 0));
    }
}

/// Appending a move of `movs` to the ALUs of bundle `x`, the loop's bundle
/// or an inserted one, adds only moves of `movs`.
proof fn lemma_moves_append(old: Seq<VLIW>, cur: Seq<VLIW>, cur2: Seq<VLIW>, split: int, extra: int, x: int, m: Instruction,
    movs: Seq<Instruction>)
    requires
        moves_added(old, cur, split, extra, movs),
        keeps_forms(old, cur, split, extra),
        cur.len() == old.len() + extra,
        extra >= 0,
        0 <= split < old.len(),
        split <= x <= split + extra,
        cur2.len() == cur.len(),
        forall|b: int| 0 <= b < cur.len() && b != x ==> #[trigger] cur2[b] == cur[b],
        cur2[x]@ == cur[x]@.update(0, cur[x]@[0].push(m)),
        movs.contains(m),
    ensures
        moves_added(old, cur2, split, extra, movs),
{
    assert(cur[x]@.len() == 4);
    assert forall|b: int, u: int| 0 <= b < old.len() && 0 <= u < 3 implies
        tail_moves(movs, #[trigger] cur2[bundle_pos(b, split, extra)]@[u], old[b]@[u].len() as int, u == 0 && b == split) by {
        let c = bundle_pos(b, split, extra);
        assert(tail_moves(movs, cur[c]@[u], old[b]@[u].len() as int, u == 0 && b == split));
        if c != x {
            assert(cur2[c] == cur[c]);
        } else if u != 0 {
            assert(cur2[c]@[u] == cur[c]@[u]);
        } else {
            let v = cur2[c]@[u];
            assert(v == cur[c]@[u].push(m));
            assert(old[b]@[u].len() <= cur[c]@[u].len());
            if b > split {
                assert(c == b + extra);
                assert(false);
            }
            assert forall|i: int| old[b]@[u].len() <= i < v.len() implies movs.contains(#[trigger] v[i]) by {
                if i < cur[c]@[u].len() {
                    assert(v[i] == cur[c]@[u][i]);
                }
            }
        }
    }
    assert forall|c: int, u: int| 0 <= c && split < c <= split + extra && c < cur2.len() && 0 <= u < 3 implies
        tail_moves(movs, #[trigger] cur2[c]@[u], 0, u == 0) by {
        assert(tail_moves(movs, cur[c]@[u], 0, u == 0));
        if c != x {
            assert(cur2[c] == cur[c]);
        } else if u != 0 {
            assert(cur2[c]@[u] == cur[c]@[u]);
        } else {
            let v = cur2[c]@[u];
            assert(v == cur[c]@[u].push(m));
            assert forall|i: int| 0 <= i < v.len() implies movs.contains(#[trigger] v[i]) by {
                if i < cur[c]@[u].len() {
                    assert(v[i] == cur[c]@[u][i]);
                }
            }
        }
    }
}

proof fn lemma_moves_insert(old: Seq<VLIW>, cur: Seq<VLIW>, split: int, extra: int, e: VLIW, movs: Seq<Instruction>)
    requires
        moves_added(old, cur, split, extra, movs),
        cur.len() == old.len() + extra,
        extra >= 0,
        0 <= split < old.len(),
        e@[0].len() == 0 && e@[1].len() == 0 && e@[2].len() == 0,
    ensures
        moves_added(old, cur.insert(split + 1 + extra, e), split, extra + 1, movs),
{
    let d = cur.insert(split + 1 + extra, e);
    cur.insert_ensures(split + 1 + extra, e);
    assert forall|b: int, u: int| 0 <= b < old.len() && 0 <= u < 3 implies
        tail_moves(movs, #[trigger] d[bundle_pos(b, split, extra + 1)]@[u], old[b]@[u].len() as int, u == 0 && b == split) by {
        let c0 = bundle_pos(b, split, extra);
        let c1 = bundle_pos(b, split, extra + 1);
        if b <= split {
            assert(d[b] == cur[b]);
        } else {
            assert(d[b + extra + 1] == cur[b + extra]);
        }
        assert(d[c1] == cur[c0]);
        assert(tail_moves(movs, cur[c0]@[u], old[b]@[u].len() as int, u == 0 && b == split));
    }
    assert forall|c: int, u: int| 0 <= c && split < c <= split + extra + 1 && c < d.len() && 0 <= u < 3 implies
        tail_moves(movs, #[trigger] d[c]@[u], 0, u == 0) by {
        if c < split + 1 + extra {
            assert(d[c] == cur[c]);
            assert(tail_moves(movs, cur[c]@[u], 0, u == 0));
        } else {
            assert(d[c] == e);
        }
    }
}

/// The branch units of `old` stand, instruction by instruction up to
/// registers, in the bundles where `keeps_forms` puts them in `cur`, and the
/// bundles inserted after `split` have an empty branch unit.
pub open spec fn branches_moved(old: Seq<VLIW>, cur: Seq<VLIW>, split: int, extra: int) -> bool {
    &&& forall|b: int| 0 <= b < old.len() ==>
        (#[trigger] cur[bundle_pos(b, split, extra)]@[3]).len() == old[b]@[3].len()
    &&& forall|b: int, i: int| 0 <= b < old.len() && 0 <= i < old[b]@[3].len() ==>
        #[trigger] same_form(cur[bundle_pos(b, split, extra)]@[3][i], old[b]@[3][i])
    &&& forall|c: int| 0 <= c && split < c <= split + extra && c < cur.len() ==> (#[trigger] cur[c]@[3]).len() == 0
}

proof fn lemma_branches_refl(old: Seq<VLIW>, split: int)
    ensures
        branches_moved(old, old, split, 0),
{
    assert forall|b: int, i: int| 0 <= b < old.len() && 0 <= i < old[b]@[3].len() implies
        #[trigger] same_form(old[bundle_pos(b, split, 0)]@[3][i], old[b]@[3][i]) by {
        lemma_same_form(old[b]@[3][i], old[b]@[3][i], old[b]@[3][i]);
    }
}

proof fn lemma_branches_renamed(old: Seq<VLIW>, cur: Seq<VLIW>, cur2: Seq<VLIW>, split: int, extra: int)
    requires
        branches_moved(old, cur, split, extra),
        renamed_from(cur, cur2),
        cur.len() == old.len() + extra,
        extra >= 0,
    ensures
        branches_moved(old, cur2, split, extra),
{
    assert forall|b: int| 0 <= b < old.len() implies
        (#[trigger] cur2[bundle_pos(b, split, extra)]@[3]).len() == old[b]@[3].len() by {
        assert(cur[bundle_pos(b, split, extra)]@[3].len() == old[b]@[3].len());
    }
    assert forall|b: int, i: int| 0 <= b < old.len() && 0 <= i < old[b]@[3].len() implies
        #[trigger] same_form(cur2[bundle_pos(b, split, extra)]@[3][i], old[b]@[3][i]) by {
        let c = bundle_pos(b, split, extra);
        assert(same_form(cur[c]@[3][i], old[b]@[3][i]));
        assert(same_form(cur2[c]@[3][i], cur[c]@[3][i]));
        lemma_same_form(old[b]@[3][i], cur[c]@[3][i], cur2[c]@[3][i]);
        lemma_same_form(cur2[c]@[3][i], cur[c]@[3][i], old[b]@[3][i]);
    }
    assert forall|c: int| 0 <= c && split < c <= split + extra && c < cur2.len() implies (#[trigger] cur2[c]@[3]).len() == 0 by {
        assert(cur[c]@[3].len() == 0);
    }
}

proof fn lemma_branches_same(old: Seq<VLIW>, cur: Seq<VLIW>, cur2: Seq<VLIW>, split: int, extra: int)
    requires
        branches_moved(old, cur, split, extra),
        cur2.len() == cur.len(),
        forall|c: int| 0 <= c < cur.len() ==> (#[trigger] cur2[c])@[3] == cur[c]@[3],
        cur.len() == old.len() + extra,
        extra >= 0,
    ensures
        branches_moved(old, cur2, split, extra),
{
    assert forall|b: int| 0 <= b < old.len() implies
        (#[trigger] cur2[bundle_pos(b, split, extra)]@[3]).len() == old[b]@[3].len() by {
        assert(cur2[bundle_pos(b, split, extra)]@[3] == cur[bundle_pos(b, split, extra)]@[3]);
    }
    assert forall|b: int, i: int| 0 <= b < old.len() && 0 <= i < old[b]@[3].len() implies
        #[trigger] same_form(cur2[bundle_pos(b, split, extra)]@[3][i], old[b]@[3][i]) by {
        assert(cur2[bundle_pos(b, split, extra)]@[3] == cur[bundle_pos(b, split, extra)]@[3]);
    }
    assert forall|c: int| 0 <= c && split < c <= split + extra && c < cur2.len() implies (#[trigger] cur2[c]@[3]).len() == 0 by {
        assert(cur2[c]@[3] == cur[c]@[3]);
    }
}

proof fn lemma_branches_insert(old: Seq<VLIW>, cur: Seq<VLIW>, split: int, extra: int, e: VLIW)
    requires
        branches_moved(old, cur, split, extra),
        cur.len() == old.len() + extra,
        extra >= 0,
        0 <= split < old.len(),
        e@[3].len() == 0,
    ensures
        branches_moved(old, cur.insert(split + 1 + extra, e), split, extra + 1),
{
    let d = cur.insert(split + 1 + extra, e);
    cur.insert_ensures(split + 1 + extra, e);
    assert forall|b: int| 0 <= b < old.len() implies
        (#[trigger] d[bundle_pos(b, split, extra + 1)]@[3]).len() == old[b]@[3].len() by {
        if b <= split {
            assert(d[b] == cur[b]);
        } else {
            assert(d[b + extra + 1] == cur[b + extra]);
        }
        assert(cur[bundle_pos(b, split, extra)]@[3].len() == old[b]@[3].len());
    }
    assert forall|b: int, i: int| 0 <= b < old.len() && 0 <= i < old[b]@[3].len() implies
        #[trigger] same_form(d[bundle_pos(b, split, extra + 1)]@[3][i], old[b]@[3][i]) by {
        if b <= split {
            assert(d[b] == cur[b]);
        } else {
            assert(d[b + extra + 1] == cur[b + extra]);
        }
        assert(same_form(cur[bundle_pos(b, split, extra)]@[3][i], old[b]@[3][i]));
    }
    assert forall|c: int| 0 <= c && split < c <= split + extra + 1 && c < d.len() implies (#[trigger] d[c]@[3]).len() == 0 by {
        if c < split + 1 + extra {
            assert(d[c] == cur[c]);
            assert(cur[c]@[3].len() == 0);
        }
    }
}

/// Adds each move to the first bundle from the loop's bundle on, before the
/// bundles added so far, whose ALUs have room and where the move's source is
/// ready; where there is none, into a new bundle added after those. Before
/// that, the bundles after them read the move's source in place of its
/// destination. Returns the position after the last bundle added.
#[verifier::rlimit(60)]
fn insert_movs(bundles: &mut Vec<VLIW>, movs: &Vec<Instruction>, insert_start: usize) -> (insert_stop: usize)
    requires
        forall|i: int| 0 <= i < movs@.len() ==> (#[trigger] movs@[i]) is Mov,
        movs@.len() > 0 ==> insert_start < old(bundles)@.len(),
        bundles_fit(old(bundles)@),
        insert_start < usize::MAX - 1,
    ensures
        old(bundles)@.len() <= final(bundles)@.len() <= old(bundles)@.len() + movs@.len(),
        keeps_forms(old(bundles)@, final(bundles)@, insert_start as int, final(bundles)@.len() - old(bundles)@.len()),
        bundles_fit(final(bundles)@),
        insert_stop == insert_start + 1 + (final(bundles)@.len() - old(bundles)@.len()),
        movs@.len() > 0 ==> insert_stop <= final(bundles)@.len(),
        movs@.len() == 0 ==> final(bundles)@ == old(bundles)@,
        head_kept(old(bundles)@, final(bundles)@, insert_start as int),
        moved_dests_kept(old(bundles)@, final(bundles)@, insert_start as int, final(bundles)@.len() - old(bundles)@.len()),
        branches_moved(old(bundles)@, final(bundles)@, insert_start as int, final(bundles)@.len() - old(bundles)@.len()),
        moves_added(old(bundles)@, final(bundles)@, insert_start as int, final(bundles)@.len() - old(bundles)@.len(), movs@),
        post_forwarded(old(bundles)@, final(bundles)@, insert_start as int, final(bundles)@.len() - old(bundles)@.len(),
            movs@, movs@.len() as int),
{
    let ghost old_bs = bundles@;
    let insert_start_c = insert_start;
    let mut insert_stop = insert_start + 1;
    proof {
        lemma_grows_refl(old_bs);
        lemma_grows_keeps_zero(old_bs, old_bs, insert_start as int);
        lemma_branches_refl(old_bs, insert_start as int);
        lemma_moves_refl(old_bs, insert_start as int, movs@);
    }
    let mut m: usize = 0;
    while m < movs.len()
        invariant
            forall|i: int| 0 <= i < movs@.len() ==> (#[trigger] movs@[i]) is Mov,
            movs@.len() > 0 ==> insert_start < old_bs.len(),
            insert_start < usize::MAX - 1,
            m <= movs@.len(),
            old_bs.len() <= bundles@.len() <= old_bs.len() + m,
            keeps_forms(old_bs, bundles@, insert_start as int, bundles@.len() - old_bs.len()),
            bundles_fit(bundles@),
            insert_stop == insert_start + 1 + (bundles@.len() - old_bs.len()),
            movs@.len() > 0 ==> insert_stop <= bundles@.len(),
            m == 0 ==> bundles@ == old_bs,
            head_kept(old_bs, bundles@, insert_start as int),
            moved_dests_kept(old_bs, bundles@, insert_start as int, bundles@.len() - old_bs.len()),
            branches_moved(old_bs, bundles@, insert_start as int, bundles@.len() - old_bs.len()),
            moves_added(old_bs, bundles@, insert_start as int, bundles@.len() - old_bs.len(), movs@),
            post_forwarded(old_bs, bundles@, insert_start as int, bundles@.len() - old_bs.len(), movs@, m as int),
        decreases movs@.len() - m,
    {
        let mov = movs[m];
        let mov_src = mov.operands()[0];
        let ghost extra = bundles@.len() - old_bs.len();
        let ghost b0 = bundles@;
        forward_move(bundles, insert_stop, mov);
        proof {
            assert forall|b: int, u: int, i: int| 0 <= b <= insert_start && b < old_bs.len() && 0 <= u < 3 && 0 <= i < old_bs[b]@[u].len() implies
                #[trigger] bundles@[b]@[u][i] == old_bs[b]@[u][i] by {
                assert(bundles@[b] == b0[b]);
            }
            assert forall|b: int, u: int, i: int| 0 <= b < old_bs.len() && 0 <= u < 3 && 0 <= i < old_bs[b]@[u].len() implies
                #[trigger] spec_dest(bundles@[bundle_pos(b, insert_start as int, extra)]@[u][i]) == spec_dest(old_bs[b]@[u][i]) by {
                let c = bundle_pos(b, insert_start as int, extra);
                assert(old_bs[b]@[u].len() <= b0[c]@[u].len());
                assert(spec_dest(bundles@[c]@[u][i]) == spec_dest(b0[c]@[u][i]));
            }
            lemma_renamed_grows(b0, bundles@);
            lemma_grows_keeps(old_bs, b0, bundles@, insert_start as int, extra);
            lemma_renamed_keeps(b0, bundles@, 0);
            lemma_branches_renamed(old_bs, b0, bundles@, insert_start as int, extra);
            lemma_moves_renamed(old_bs, b0, bundles@, insert_start as int, extra, movs@);
            lemma_post_forward(old_bs, b0, bundles@, insert_start as int, extra, movs@, m as int);
        }
        let units = ExecutionUnit::iter();
        let mut has_inserted = false;
        let mut index = insert_start;
        while index < insert_stop && !has_inserted
            invariant
                units@ == all_units(),
                insert_start <= index <= insert_stop,
                insert_stop <= bundles@.len(),
                insert_stop == insert_start + 1 + extra,
                bundles@.len() == old_bs.len() + extra,
                keeps_forms(old_bs, bundles@, insert_start as int, extra),
                head_kept(old_bs, bundles@, insert_start as int),
                moved_dests_kept(old_bs, bundles@, insert_start as int, extra),
                branches_moved(old_bs, bundles@, insert_start as int, extra),
                moves_added(old_bs, bundles@, insert_start as int, extra, movs@),
                post_forwarded(old_bs, bundles@, insert_start as int, extra, movs@, m + 1),
                mov == movs@[m as int],
                m < movs@.len(),
                bundles_fit(bundles@),
                mov is Mov,
            decreases insert_stop - index + (if has_inserted { 0int } else { 1int }),
        {
            let mut can_insert = bundles[index].is_available(ExecutionUnit::Alu);
            let blen = bundles.len();
            let mut j: usize = if index >= 2 { index - 2 } else { 0 };
            while j <= index
                invariant
                    units@ == all_units(),
                    index < blen,
                    blen == bundles@.len(),
                    j <= index + 1,
                    can_insert ==> bundles@[index as int]@[0].len() < 2,
                decreases index + 1 - j,
            {
                let mut k: usize = 0;
                while k < 4
                    invariant
                        units@ == all_units(),
                        j <= index < bundles@.len(),
                        k <= 4,
                        can_insert ==> bundles@[index as int]@[0].len() < 2,
                    decreases 4 - k,
                {
                    let unit = units[k];
                    let slots = bundles[j].slots(unit);
                    let mut i: usize = 0;
                    while i < slots.len()
                        invariant
                            i <= slots@.len(),
                            j <= index,
                            unit == all_units()[k as int],
                            can_insert ==> bundles@[index as int]@[0].len() < 2,
                        decreases slots@.len() - i,
                    {
                        match slots[i].dest() {
                            Some(dest) => {
                                if dest == mov_src && unit.latency() as usize > index - j {
                                    can_insert = false;
                                }
                            },
                            None => {},
                        }
                        i = i + 1;
                    }
                    k = k + 1;
                }
                j = j + 1;
            }
            if can_insert {
                let ghost b1 = bundles@;
                let added = bundles[index].add(mov);
                has_inserted = true;
                proof {
                    assert(added);
                    assert forall|b: int, u: int| 0 <= b < b1.len() && 0 <= u < 3 implies
                        (#[trigger] b1[b]@[u]).len() <= bundles@[b]@[u].len() by {
                        if b != index { assert(bundles@[b] == b1[b]); }
                    }
                    assert forall|b: int, u: int, i: int| 0 <= b < b1.len() && 0 <= u < 3 && 0 <= i < b1[b]@[u].len() implies
                        #[trigger] same_form(bundles@[b]@[u][i], b1[b]@[u][i]) by {
                        if b != index {
                            assert(bundles@[b] == b1[b]);
                        } else if u != 0 {
                            assert(bundles@[b]@[u] == b1[b]@[u]);
                        } else {
                            assert(bundles@[b]@[u][i] == b1[b]@[u][i]);
                        }
                        lemma_same_form(b1[b]@[u][i], b1[b]@[u][i], b1[b]@[u][i]);
                    }
                    assert(grows_from(b1, bundles@));
                    lemma_append_keeps(old_bs, b1, bundles@, insert_start as int, extra, index as int);
                    lemma_grows_keeps(old_bs, b1, bundles@, insert_start as int, extra);
                    assert forall|b: int, u: int| 0 <= b < bundles@.len() && 0 <= u < 4 implies
                        (#[trigger] bundles@[b]@[u]).len() <= unit_capacity(unit_at(u)) by {
                        if b != index { assert(bundles@[b] == b1[b]); }
                        else if u != 0 { assert(bundles@[b]@[u] == b1[b]@[u]); }
                    }
                    assert forall|c: int| 0 <= c < b1.len() implies (#[trigger] bundles@[c])@[3] == b1[c]@[3] by {
                        if c != index { assert(bundles@[c] == b1[c]); }
                    }
                    lemma_branches_same(old_bs, b1, bundles@, insert_start as int, extra);
                    assert(movs@.contains(mov));
                    lemma_moves_append(old_bs, b1, bundles@, insert_start as int, extra, index as int, mov, movs@);
                    lemma_post_same(old_bs, b1, bundles@, insert_start as int, extra, movs@, m + 1, index as int);
                }
            }
            index = index + 1;
        }
        if !has_inserted {
            let ghost b1 = bundles@;
            bundles.insert(insert_stop, VLIW::new());
            proof {
                lemma_insert_keeps(old_bs, b1, insert_start as int, extra, bundles@[insert_stop as int]);
                assert(bundles@ == b1.insert(insert_stop as int, bundles@[insert_stop as int]));
                b1.insert_ensures(insert_stop as int, bundles@[insert_stop as int]);
                assert forall|b: int, u: int, i: int| 0 <= b <= insert_start && b < old_bs.len() && 0 <= u < 3 && 0 <= i < old_bs[b]@[u].len() implies
                    #[trigger] bundles@[b]@[u][i] == old_bs[b]@[u][i] by {
                    assert(bundles@[b] == b1[b]);
                }
                assert forall|b: int, u: int, i: int| 0 <= b < old_bs.len() && 0 <= u < 3 && 0 <= i < old_bs[b]@[u].len() implies
                    #[trigger] spec_dest(bundles@[bundle_pos(b, insert_start as int, extra + 1)]@[u][i]) == spec_dest(old_bs[b]@[u][i]) by {
                    assert(spec_dest(b1[bundle_pos(b, insert_start as int, extra)]@[u][i]) == spec_dest(old_bs[b]@[u][i]));
                    if b <= insert_start {
                        assert(bundles@[b] == b1[b]);
                    } else {
                        assert(bundles@[b + extra + 1] == b1[b + extra]);
                    }
                }
            }
            proof {
                lemma_branches_insert(old_bs, b1, insert_start as int, extra, bundles@[insert_stop as int]);
                lemma_moves_insert(old_bs, b1, insert_start as int, extra, bundles@[insert_stop as int], movs@);
                lemma_post_insert(old_bs, b1, insert_start as int, extra, movs@, m + 1, bundles@[insert_stop as int]);
            }
            let ghost b2 = bundles@;
            bundles[insert_stop].add(mov);
            proof {
                assert forall|c: int| 0 <= c < b2.len() implies (#[trigger] bundles@[c])@[3] == b2[c]@[3] by {
                    if c != insert_stop { assert(bundles@[c] == b2[c]); }
                }
                lemma_branches_same(old_bs, b2, bundles@, insert_start as int, extra + 1);
                assert(movs@.contains(mov));
                lemma_moves_append(old_bs, b2, bundles@, insert_start as int, extra + 1, insert_stop as int, mov, movs@);
                lemma_post_same(old_bs, b2, bundles@, insert_start as int, extra + 1, movs@, m + 1, insert_stop as int);
                b1.insert_ensures(insert_stop as int, b2[insert_stop as int]);
                assert forall|b: int, u: int| 0 <= b < b2.len() && 0 <= u < 3 implies
                    (#[trigger] b2[b]@[u]).len() <= bundles@[b]@[u].len() by {
                    if b != insert_stop { assert(bundles@[b] == b2[b]); }
                }
                assert forall|b: int, u: int, i: int| 0 <= b < b2.len() && 0 <= u < 3 && 0 <= i < b2[b]@[u].len() implies
                    #[trigger] same_form(bundles@[b]@[u][i], b2[b]@[u][i]) by {
                    assert(b != insert_stop);
                    assert(bundles@[b] == b2[b]);
                    lemma_same_form(b2[b]@[u][i], b2[b]@[u][i], b2[b]@[u][i]);
                }
                assert(grows_from(b2, bundles@));
                lemma_append_keeps(old_bs, b2, bundles@, insert_start as int, extra + 1, insert_stop as int);
                lemma_grows_keeps(old_bs, b2, bundles@, insert_start as int, extra + 1);
                assert forall|b: int, u: int| 0 <= b < bundles@.len() && 0 <= u < 4 implies
                    (#[trigger] bundles@[b]@[u]).len() <= unit_capacity(unit_at(u)) by {
                    if b != insert_stop {
                        assert(bundles@[b] == b2[b]);
                        if b < insert_stop {
                            assert(b2[b] == b1[b]);
                        } else {
                            assert(b2[b] == b1[b - 1]);
                        }
                    }
                }
            }
            let blen = bundles.len();
            assert(insert_stop < blen);
            insert_stop = insert_stop + 1;
        }
        m = m + 1;
    }
    insert_stop
}

/// Bundle `v` with `x` added to its unit when that unit has room, as
/// `VLIW::add` does.
pub open spec fn with_added(v: Seq<Seq<Instruction>>, x: Instruction) -> Seq<Seq<Instruction>> {
    let u = unit_index(spec_unit(x));
    if v[u].len() < unit_capacity(spec_unit(x)) { v.update(u, v[u].push(x)) } else { v }
}

/// Moves the branch of bundle `from` to bundle `to`.
fn move_loop(bundles: &mut Vec<VLIW>, from: usize, to: usize)
    requires
        from < old(bundles)@.len(),
        to < old(bundles)@.len(),
        bundles_fit(old(bundles)@),
    ensures
        grows_from(old(bundles)@, final(bundles)@),
        bundles_fit(final(bundles)@),
        forall|b: int, u: int, i: int| 0 <= b < old(bundles)@.len() && 0 <= u < 3 && 0 <= i < old(bundles)@[b]@[u].len() ==>
            #[trigger] final(bundles)@[b]@[u][i] == old(bundles)@[b]@[u][i],
        final(bundles)@.len() == old(bundles)@.len(),
        forall|b: int| 0 <= b < old(bundles)@.len() && b != from && b != to ==> #[trigger] final(bundles)@[b]@ == old(bundles)@[b]@,
        old(bundles)@[from as int]@[3].len() == 0 ==> forall|b: int| 0 <= b < old(bundles)@.len() ==>
            #[trigger] final(bundles)@[b]@ == old(bundles)@[b]@,
        old(bundles)@[from as int]@[3].len() > 0 ==> {
            let x = old(bundles)@[from as int]@[3].last();
            let popped = old(bundles)@[from as int]@.update(3, old(bundles)@[from as int]@[3].drop_last());
            &&& from != to ==> final(bundles)@[from as int]@ == popped
                && final(bundles)@[to as int]@ == with_added(old(bundles)@[to as int]@, x)
            &&& from == to ==> final(bundles)@[to as int]@ == with_added(popped, x)
        },
{
    let ghost b0 = bundles@;
    match bundles[from].pop(ExecutionUnit::Branch) {
        Some(loop_instr) => {
            let ghost b1 = bundles@;
            bundles[to].add(loop_instr);
            proof {
                assert forall|b: int, u: int| 0 <= b < b0.len() && 0 <= u < 3 implies
                    (#[trigger] b0[b]@[u]).len() <= bundles@[b]@[u].len() by {
                    assert(b1[b]@[u] == b0[b]@[u]);
                    if b != to { assert(bundles@[b] == b1[b]); }
                }
                assert forall|b: int, u: int, i: int| 0 <= b < b0.len() && 0 <= u < 3 && 0 <= i < b0[b]@[u].len() implies
                    #[trigger] same_form(bundles@[b]@[u][i], b0[b]@[u][i]) by {
                    assert(b1[b]@[u] == b0[b]@[u]);
                    if b != to { assert(bundles@[b] == b1[b]); }
                    else { assert(bundles@[b]@[u][i] == b1[b]@[u][i]); }
                    lemma_same_form(b0[b]@[u][i], b0[b]@[u][i], b0[b]@[u][i]);
                }
                assert forall|b: int, u: int, i: int| 0 <= b < b0.len() && 0 <= u < 3 && 0 <= i < b0[b]@[u].len() implies
                    #[trigger] bundles@[b]@[u][i] == b0[b]@[u][i] by {
                    assert(b1[b]@[u] == b0[b]@[u]);
                    if b != to { assert(bundles@[b] == b1[b]); }
                    else { assert(bundles@[b]@[u][i] == b1[b]@[u][i]); }
                }
                assert forall|b: int, u: int| 0 <= b < bundles@.len() && 0 <= u < 4 implies
                    (#[trigger] bundles@[b]@[u]).len() <= unit_capacity(unit_at(u)) by {
                    assert(b1[b]@[u].len() <= b0[b]@[u].len());
                    if b != to { assert(bundles@[b] == b1[b]); }
                }
            }
        },
        None => {
            proof {
                lemma_grows_refl(b0);
            }
        },
    }
}

/// How many of the first `j` registers of `ops` are 0.
pub open spec fn zeros_in(ops: Seq<u8>, j: int) -> nat
    decreases j,
{
    if j <= 0 { 0 } else { zeros_in(ops, j - 1) + (if ops[j - 1] == 0 { 1nat } else { 0nat }) }
}

/// How many operands of the first `i` instructions of a unit read register 0.
pub open spec fn unit_zeros(l: Seq<Instruction>, i: int) -> nat
    decreases i,
{
    if i <= 0 { 0 } else { unit_zeros(l, i - 1) + zeros_in(spec_operands(l[i - 1]), spec_operands(l[i - 1]).len() as int) }
}

/// How many operands in the first `u` units of a bundle read register 0.
pub open spec fn units_zeros(v: Seq<Seq<Instruction>>, u: int) -> nat
    decreases u,
{
    if u <= 0 { 0 } else { units_zeros(v, u - 1) + unit_zeros(v[u - 1], v[u - 1].len() as int) }
}

/// How many operands in the first `b` bundles read register 0.
pub open spec fn bundles_zeros(bs: Seq<VLIW>, b: int) -> nat
    decreases b,
{
    if b <= 0 { 0 } else { bundles_zeros(bs, b - 1) + units_zeros(bs[b - 1]@, 4) }
}

/// How many operands reading register 0 come before operand `j` of slot `i`
/// of unit `u` of bundle `b`, in bundle, unit, slot and operand order.
pub open spec fn zero_rank(bs: Seq<VLIW>, b: int, u: int, i: int, j: int) -> nat {
    bundles_zeros(bs, b) + units_zeros(bs[b]@, u) + unit_zeros(bs[b]@[u], i) + zeros_in(spec_operands(bs[b]@[u][i]), j)
}

/// The register `n` places after `next`, in a byte that wraps around.
pub open spec fn fresh_register(next: u8, n: nat) -> u8 {
    ((next + n) % 256) as u8
}

proof fn lemma_next_fresh(next: u8, n: nat)
    ensures
        vstd::wrapping::u8_specs::wrapping_add(fresh_register(next, n), 1) == fresh_register(next, n + 1),
{
}

/// Gives every operand still at register 0 (read before any write) a fresh
/// register, counting on from `next` in bundle, unit and slot order.
fn fill_unwritten(bundles: &mut Vec<VLIW>, next: u8)
    ensures
        renamed_from(old(bundles)@, final(bundles)@),
        dests_kept(old(bundles)@, final(bundles)@),
        forall|b: int, u: int, i: int, j: int| 0 <= b < old(bundles)@.len() && 0 <= u < 4 && 0 <= i < old(bundles)@[b]@[u].len()
            && 0 <= j < spec_operands(old(bundles)@[b]@[u][i]).len() && spec_operands(old(bundles)@[b]@[u][i])[j] != 0 ==>
            #[trigger] spec_operands(final(bundles)@[b]@[u][i])[j] == spec_operands(old(bundles)@[b]@[u][i])[j],
        forall|b: int, u: int, i: int, j: int| 0 <= b < old(bundles)@.len() && 0 <= u < 4 && 0 <= i < old(bundles)@[b]@[u].len()
            && 0 <= j < spec_operands(old(bundles)@[b]@[u][i]).len() && spec_operands(old(bundles)@[b]@[u][i])[j] == 0 ==>
            #[trigger] spec_operands(final(bundles)@[b]@[u][i])[j] == fresh_register(next, zero_rank(old(bundles)@, b, u, i, j)),
{
    let ghost old_bs = bundles@;
    proof {
        lemma_dests_kept_refl(old_bs);
        assert forall|c: int, u: int, j: int| 0 <= c < old_bs.len() && 0 <= u < 4 && 0 <= j < old_bs[c]@[u].len() implies
            #[trigger] same_form(bundles@[c]@[u][j], old_bs[c]@[u][j]) by {
            lemma_same_form(old_bs[c]@[u][j], old_bs[c]@[u][j], old_bs[c]@[u][j]);
        }
    }
    let mut new_register = next;
    let units = ExecutionUnit::iter();
    let mut b: usize = 0;
    while b < bundles.len()
        invariant
            units@ == all_units(),
renamed_from(old_bs, bundles@),
            dests_kept(old_bs, bundles@),
            forall|c: int, u: int, i: int, j: int| 0 <= c < old_bs.len() && 0 <= u < 4 && 0 <= i < old_bs[c]@[u].len()
                && 0 <= j < spec_operands(old_bs[c]@[u][i]).len() && spec_operands(old_bs[c]@[u][i])[j] != 0 ==>
                #[trigger] spec_operands(bundles@[c]@[u][i])[j] == spec_operands(old_bs[c]@[u][i])[j],
            new_register == fresh_register(next, bundles_zeros(old_bs, b as int)),
            forall|c: int| b <= c < old_bs.len() ==> #[trigger] bundles@[c] == old_bs[c],
            forall|c: int, u: int, i: int, j: int| 0 <= c < b && 0 <= u < 4 && 0 <= i < old_bs[c]@[u].len()
                && 0 <= j < spec_operands(old_bs[c]@[u][i]).len() && spec_operands(old_bs[c]@[u][i])[j] == 0 ==>
                #[trigger] spec_operands(bundles@[c]@[u][i])[j] == fresh_register(next, zero_rank(old_bs, c, u, i, j)),
        decreases bundles@.len() - b,
    {
        let mut k: usize = 0;
        while k < 4
            invariant
                units@ == all_units(),
renamed_from(old_bs, bundles@),
                dests_kept(old_bs, bundles@),
                forall|c: int, u: int, i: int, j: int| 0 <= c < old_bs.len() && 0 <= u < 4 && 0 <= i < old_bs[c]@[u].len()
                    && 0 <= j < spec_operands(old_bs[c]@[u][i]).len() && spec_operands(old_bs[c]@[u][i])[j] != 0 ==>
                    #[trigger] spec_operands(bundles@[c]@[u][i])[j] == spec_operands(old_bs[c]@[u][i])[j],
                b < bundles@.len(),
                k <= 4,
                new_register == fresh_register(next, bundles_zeros(old_bs, b as int) + units_zeros(old_bs[b as int]@, k as int)),
                forall|c: int| b < c < old_bs.len() ==> #[trigger] bundles@[c] == old_bs[c],
                forall|u: int| k <= u < 4 ==> #[trigger] bundles@[b as int]@[u] == old_bs[b as int]@[u],
                bundles@[b as int]@.len() == 4,
                forall|c: int, u: int, i: int, j: int| 0 <= c < b && 0 <= u < 4 && 0 <= i < old_bs[c]@[u].len()
                    && 0 <= j < spec_operands(old_bs[c]@[u][i]).len() && spec_operands(old_bs[c]@[u][i])[j] == 0 ==>
                    #[trigger] spec_operands(bundles@[c]@[u][i])[j] == fresh_register(next, zero_rank(old_bs, c, u, i, j)),
                forall|u: int, i: int, j: int| 0 <= u < k && 0 <= i < old_bs[b as int]@[u].len()
                    && 0 <= j < spec_operands(old_bs[b as int]@[u][i]).len() && spec_operands(old_bs[b as int]@[u][i])[j] == 0 ==>
                    #[trigger] spec_operands(bundles@[b as int]@[u][i])[j] == fresh_register(next, zero_rank(old_bs, b as int, u, i, j)),
            decreases 4 - k,
        {
            let unit = units[k];
            proof {
                assert(unit_index(unit) == k);
            }
            let n_i = bundles[b].slots(unit).len();
            let mut i: usize = 0;
            while i < n_i
                invariant
renamed_from(old_bs, bundles@),
                    dests_kept(old_bs, bundles@),
                    forall|c: int, u: int, i: int, j: int| 0 <= c < old_bs.len() && 0 <= u < 4 && 0 <= i < old_bs[c]@[u].len()
                        && 0 <= j < spec_operands(old_bs[c]@[u][i]).len() && spec_operands(old_bs[c]@[u][i])[j] != 0 ==>
                        #[trigger] spec_operands(bundles@[c]@[u][i])[j] == spec_operands(old_bs[c]@[u][i])[j],
                    b < bundles@.len(),
                    k < 4,
                    unit_index(unit) == k,
                    n_i == bundles@[b as int]@[k as int].len(),
                    i <= n_i,
                    new_register == fresh_register(next, zero_rank(old_bs, b as int, k as int, i as int, 0)),
                    forall|c: int| b < c < old_bs.len() ==> #[trigger] bundles@[c] == old_bs[c],
                    forall|u: int| k < u < 4 ==> #[trigger] bundles@[b as int]@[u] == old_bs[b as int]@[u],
                    bundles@[b as int]@.len() == 4,
                    bundles@[b as int]@[k as int].len() == old_bs[b as int]@[k as int].len(),
                    forall|x: int| i <= x < n_i ==> #[trigger] bundles@[b as int]@[k as int][x] == old_bs[b as int]@[k as int][x],
                    forall|c: int, u: int, x: int, j: int| 0 <= c < b && 0 <= u < 4 && 0 <= x < old_bs[c]@[u].len()
                        && 0 <= j < spec_operands(old_bs[c]@[u][x]).len() && spec_operands(old_bs[c]@[u][x])[j] == 0 ==>
                        #[trigger] spec_operands(bundles@[c]@[u][x])[j] == fresh_register(next, zero_rank(old_bs, c, u, x, j)),
                    forall|u: int, x: int, j: int| 0 <= u < k && 0 <= x < old_bs[b as int]@[u].len()
                        && 0 <= j < spec_operands(old_bs[b as int]@[u][x]).len() && spec_operands(old_bs[b as int]@[u][x])[j] == 0 ==>
                        #[trigger] spec_operands(bundles@[b as int]@[u][x])[j] == fresh_register(next, zero_rank(old_bs, b as int, u, x, j)),
                    forall|x: int, j: int| 0 <= x < i && 0 <= j < spec_operands(old_bs[b as int]@[k as int][x]).len()
                        && spec_operands(old_bs[b as int]@[k as int][x])[j] == 0 ==>
                        #[trigger] spec_operands(bundles@[b as int]@[k as int][x])[j] == fresh_register(next, zero_rank(old_bs, b as int, k as int, x, j)),
                decreases n_i - i,
            {
                let mut ins = bundles[b].slots(unit)[i];
                let ghost old_ins = ins;
                proof {
                    assert(ins == old_bs[b as int]@[k as int][i as int]);
                }
                let ops = ins.operands();
                let mut renamed: Vec<u8> = Vec::new();
                let mut o: usize = 0;
                while o < ops.len()
                    invariant
                        o <= ops@.len(),
                        renamed@.len() == o,
                        forall|x: int| 0 <= x < o && ops@[x] != 0 ==> #[trigger] renamed@[x] == ops@[x],
                        ops@ == spec_operands(old_ins),
                        old_ins == old_bs[b as int]@[k as int][i as int],
                        new_register == fresh_register(next, zero_rank(old_bs, b as int, k as int, i as int, o as int)),
                        forall|x: int| 0 <= x < o && ops@[x] == 0 ==>
                            #[trigger] renamed@[x] == fresh_register(next, zero_rank(old_bs, b as int, k as int, i as int, x)),
                    decreases ops@.len() - o,
                {
                    proof {
                        assert(zeros_in(ops@, o + 1) == zeros_in(ops@, o as int) + (if ops@[o as int] == 0 { 1nat } else { 0nat }));
                    }
                    if ops[o] == 0 {
                        renamed.push(new_register);
                        proof {
                            lemma_next_fresh(next, zero_rank(old_bs, b as int, k as int, i as int, o as int));
                        }
                        new_register = new_register.wrapping_add(1);
                    } else {
                        renamed.push(ops[o]);
                    }
                    o = o + 1;
                }
                let ghost before = bundles@;
                let ghost nops = renamed@;
                update_ops(&mut ins, renamed);
                proof {
                    lemma_with_operands(old_ins, nops);
                }
                bundles[b].set_slot(unit, i, ins);
                proof {
                    lemma_renamed_set(old_bs, before, bundles@, b as int, k as int, i as int, ins);
                    lemma_dests_kept_set(old_bs, before, bundles@, b as int, k as int, i as int, ins);
                    assert forall|c: int, u: int, x: int, j: int| 0 <= c < old_bs.len() && 0 <= u < 4 && 0 <= x < old_bs[c]@[u].len()
                        && 0 <= j < spec_operands(old_bs[c]@[u][x]).len() && spec_operands(old_bs[c]@[u][x])[j] != 0 implies
                        #[trigger] spec_operands(bundles@[c]@[u][x])[j] == spec_operands(old_bs[c]@[u][x])[j] by {
                        if c != b {
                            assert(bundles@[c] == before[c]);
                        } else if u != k {
                            assert(bundles@[c]@[u] == before[c]@[u]);
                        } else if x != i {
                            assert(bundles@[c]@[u][x] == before[c]@[u][x]);
                        } else {
                            assert(same_form(before[c]@[u][x], old_bs[c]@[u][x]));
                            lemma_same_form(before[c]@[u][x], old_bs[c]@[u][x], old_bs[c]@[u][x]);
                            assert(old_ins == before[c]@[u][x]);
                            assert(spec_operands(old_ins)[j] == spec_operands(old_bs[c]@[u][x])[j]);
                            assert(bundles@[c]@[u][x] == ins);
                        }
                    }
                    assert(unit_zeros(old_bs[b as int]@[k as int], i + 1) == unit_zeros(old_bs[b as int]@[k as int], i as int)
                        + zeros_in(spec_operands(old_ins), spec_operands(old_ins).len() as int));
                    assert(new_register == fresh_register(next, zero_rank(old_bs, b as int, k as int, i + 1, 0)));
                    assert forall|c: int| b < c < old_bs.len() implies #[trigger] bundles@[c] == old_bs[c] by {
                        assert(bundles@[c] == before[c]);
                    }
                    assert forall|u: int| k < u < 4 implies #[trigger] bundles@[b as int]@[u] == old_bs[b as int]@[u] by {
                        assert(bundles@[b as int]@[u] == before[b as int]@[u]);
                    }
                    assert forall|x: int| i < x < n_i implies #[trigger] bundles@[b as int]@[k as int][x] == old_bs[b as int]@[k as int][x] by {
                        assert(bundles@[b as int]@[k as int][x] == before[b as int]@[k as int][x]);
                    }
                    assert forall|c: int, u: int, x: int, j: int| 0 <= c < b && 0 <= u < 4 && 0 <= x < old_bs[c]@[u].len()
                        && 0 <= j < spec_operands(old_bs[c]@[u][x]).len() && spec_operands(old_bs[c]@[u][x])[j] == 0 implies
                        #[trigger] spec_operands(bundles@[c]@[u][x])[j] == fresh_register(next, zero_rank(old_bs, c, u, x, j)) by {
                        assert(bundles@[c] == before[c]);
                    }
                    assert forall|u: int, x: int, j: int| 0 <= u < k && 0 <= x < old_bs[b as int]@[u].len()
                        && 0 <= j < spec_operands(old_bs[b as int]@[u][x]).len() && spec_operands(old_bs[b as int]@[u][x])[j] == 0 implies
                        #[trigger] spec_operands(bundles@[b as int]@[u][x])[j] == fresh_register(next, zero_rank(old_bs, b as int, u, x, j)) by {
                        assert(bundles@[b as int]@[u] == before[b as int]@[u]);
                    }
                    assert forall|x: int, j: int| 0 <= x <= i && 0 <= j < spec_operands(old_bs[b as int]@[k as int][x]).len()
                        && spec_operands(old_bs[b as int]@[k as int][x])[j] == 0 implies
                        #[trigger] spec_operands(bundles@[b as int]@[k as int][x])[j] == fresh_register(next, zero_rank(old_bs, b as int, k as int, x, j)) by {
                        if x < i {
                            assert(bundles@[b as int]@[k as int][x] == before[b as int]@[k as int][x]);
                        } else {
                            assert(bundles@[b as int]@[k as int][x] == ins);
                            assert(spec_operands(ins)[j] == nops[j]);
                        }
                    }
                }
                i = i + 1;
            }
            k = k + 1;
        }
        b = b + 1;
    }
}


/// The bundle of the last loop instruction of an ASAP schedule, or the
/// program's length when there is no loop.
pub open spec fn loop_bundle(p: Seq<Instruction>, s: Seq<usize>) -> int {
    let k = last_plain_loop(p, p.len() as int);
    if k < 0 { p.len() as int } else { s[k] as int }
}

/// Every operand of an instruction reads, in `bs`, the register that its
/// producer writes there, unless that register is 0; for an instruction after
/// the loop's branch, this is said where there is no loop or where no
/// register is read loop-carried from two producers (no moves are needed).
pub open spec fn reads_follow_producers(
    p: Seq<Instruction>,
    t: Seq<DependencyList>,
    s: Seq<usize>,
    bs: Seq<VLIW>,
    split: int,
    extra: int,
) -> bool {
    forall|pc: int, j: int|
        #![trigger spec_operands(placed_ins(p, s, bs, split, extra, pc))[j]]
        0 <= pc < p.len() && spec_unit(p[pc]) != ExecutionUnit::Branch
            && (last_loop_before(p, p.len() as int) < 0 || !carried_twice(p, t) || s[pc] <= split)
            && 0 <= j < spec_operands(p[pc]).len()
            && producer_of(p, t, pc, spec_operands(p[pc])[j]) is Some
            && spec_dest(placed_ins(p, s, bs, split, extra, producer_of(p, t, pc, spec_operands(p[pc])[j])->0 as int))->0 != 0
        ==> spec_operands(placed_ins(p, s, bs, split, extra, pc))[j]
            == spec_dest(placed_ins(p, s, bs, split, extra, producer_of(p, t, pc, spec_operands(p[pc])[j])->0 as int))->0
}

proof fn lemma_reads_follow(
    p: Seq<Instruction>,
    t: Seq<DependencyList>,
    s: Seq<usize>,
    b1: Seq<VLIW>,
    b2: Seq<VLIW>,
    b3: Seq<VLIW>,
    b4: Seq<VLIW>,
    b5: Seq<VLIW>,
    split: int,
    extra: int,
)
    requires
        s.len() == p.len(),
        is_dependency_table(p, t),
        forall|r: int, k: int, i: int| 0 <= r < p.len() && 0 <= k < 4 && 0 <= i < t[r]@[k].len() ==>
            0 <= #[trigger] t[r]@[k][i] < p.len() && spec_dest(p[t[r]@[k][i] as int]) is Some,
        all_placed(p, s, b1, 0, 0),
        all_placed(p, s, b2, 0, 0),
        dests_kept(b1, b2),
        forall|pc: int, j: int| 0 <= pc < p.len() && spec_unit(p[pc]) != ExecutionUnit::Branch
            && 0 <= j < spec_operands(p[pc]).len() ==>
            #[trigger] spec_operands(placed_copy(p, s, b2, pc))[j]
                == renamed_read(p, t, s, b1, pc, spec_operands(p[pc])[j]),
        0 <= extra,
        keeps_forms(b2, b3, split, extra),
        head_kept(b2, b3, split),
        moved_dests_kept(b2, b3, split, extra),
        last_loop_before(p, p.len() as int) < 0 || !carried_twice(p, t) ==> b3 == b2 && extra == 0,
        b4.len() == b3.len(),
        forall|b: int, u: int, i: int| 0 <= b < b3.len() && 0 <= u < 3 && 0 <= i < b3[b]@[u].len() ==>
            i < b4[b]@[u].len() && #[trigger] b4[b]@[u][i] == b3[b]@[u][i],
        renamed_from(b4, b5),
        dests_kept(b4, b5),
        forall|b: int, u: int, i: int, j: int| 0 <= b < b4.len() && 0 <= u < 4 && 0 <= i < b4[b]@[u].len()
            && 0 <= j < spec_operands(b4[b]@[u][i]).len() && spec_operands(b4[b]@[u][i])[j] != 0 ==>
            #[trigger] spec_operands(b5[b]@[u][i])[j] == spec_operands(b4[b]@[u][i])[j],
    ensures
        reads_follow_producers(p, t, s, b5, split, extra),
{
    assert forall|pc: int, j: int|
        #![trigger spec_operands(placed_ins(p, s, b5, split, extra, pc))[j]]
        0 <= pc < p.len() && spec_unit(p[pc]) != ExecutionUnit::Branch
            && (last_loop_before(p, p.len() as int) < 0 || !carried_twice(p, t) || s[pc] <= split)
            && 0 <= j < spec_operands(p[pc]).len()
            && producer_of(p, t, pc, spec_operands(p[pc])[j]) is Some
            && spec_dest(placed_ins(p, s, b5, split, extra, producer_of(p, t, pc, spec_operands(p[pc])[j])->0 as int))->0 != 0
        implies spec_operands(placed_ins(p, s, b5, split, extra, pc))[j]
            == spec_dest(placed_ins(p, s, b5, split, extra, producer_of(p, t, pc, spec_operands(p[pc])[j])->0 as int))->0 by {
        let reg = spec_operands(p[pc])[j];
        let q = producer_of(p, t, pc, reg)->0 as int;
        lemma_producer_in_table(p, t, pc, reg, 0, 0);
        assert(spec_unit(p[q]) != ExecutionUnit::Branch);
        // the producer's slot
        let uq = unit_index(spec_unit(p[q]));
        let iq = count_at(p, s, q, spec_unit(p[q]), s[q] as int) as int;
        let cq = bundle_pos(s[q] as int, split, extra);
        assert(placed_at(p, s, b1, 0, 0, q));
        assert(placed_at(p, s, b2, 0, 0, q));
        assert(uq < 3);
        assert(spec_dest(b2[s[q] as int]@[uq][iq]) == spec_dest(b1[s[q] as int]@[uq][iq]));
        assert(spec_dest(b3[cq]@[uq][iq]) == spec_dest(b2[s[q] as int]@[uq][iq]));
        assert(b2[s[q] as int]@[uq].len() <= b3[cq]@[uq].len());
        assert(b4[cq]@[uq][iq] == b3[cq]@[uq][iq]);
        assert(spec_dest(b5[cq]@[uq][iq]) == spec_dest(b4[cq]@[uq][iq]));
        // the reader's slot
        let u = unit_index(spec_unit(p[pc]));
        let i = count_at(p, s, pc, spec_unit(p[pc]), s[pc] as int) as int;
        let c = bundle_pos(s[pc] as int, split, extra);
        assert(placed_at(p, s, b2, 0, 0, pc));
        assert(u < 3);
        assert(c == s[pc]) by {
            if last_loop_before(p, p.len() as int) < 0 || !carried_twice(p, t) {
                assert(extra == 0);
            }
        }
        assert(spec_operands(placed_copy(p, s, b2, pc))[j] == spec_dest(b1[s[q] as int]@[uq][iq])->0);
        assert(b3[c]@[u][i] == b2[c]@[u][i]) by {
            if last_loop_before(p, p.len() as int) < 0 || !carried_twice(p, t) {
                assert(b3 == b2);
            }
        }
        assert(b2[c]@[u].len() <= b3[c]@[u].len()) by {
            if last_loop_before(p, p.len() as int) < 0 || !carried_twice(p, t) {
                assert(b3 == b2);
            } else {
                assert(bundle_pos(s[pc] as int, split, extra) == s[pc]);
            }
        }
        assert(b4[c]@[u][i] == b3[c]@[u][i]);
        lemma_same_form(b2[c]@[u][i], p[pc], p[pc]);
        assert(spec_operands(b5[c]@[u][i])[j] == spec_operands(b4[c]@[u][i])[j]);
    }
}

/// Every read of an instruction placed after the loop's bundle `split`
/// reads, in `bs`, the register that its producer writes there, forwarded
/// through the moves `movs` in turn, unless that comes out as register 0.
pub open spec fn post_reads_forwarded(p: Seq<Instruction>, t: Seq<DependencyList>, s: Seq<usize>, bs: Seq<VLIW>,
    split: int, extra: int, movs: Seq<Instruction>) -> bool {
    forall|pc: int, j: int|
        #![trigger spec_operands(placed_ins(p, s, bs, split, extra, pc))[j]]
        0 <= pc < p.len() && spec_unit(p[pc]) != ExecutionUnit::Branch && s[pc] > split
            && 0 <= j < spec_operands(p[pc]).len()
            && producer_of(p, t, pc, spec_operands(p[pc])[j]) is Some
            && forwarded_reg(spec_dest(placed_ins(p, s, bs, split, extra,
                producer_of(p, t, pc, spec_operands(p[pc])[j])->0 as int))->0, movs, movs.len() as int) != 0
        ==> spec_operands(placed_ins(p, s, bs, split, extra, pc))[j]
            == forwarded_reg(spec_dest(placed_ins(p, s, bs, split, extra,
                producer_of(p, t, pc, spec_operands(p[pc])[j])->0 as int))->0, movs, movs.len() as int)
}

/// The code after the loop reads through the moves inserted for registers
/// carried by two producers: there is a list of such moves
/// (`carried_move_in`) that every read after the loop follows in turn.
pub open spec fn reads_after_moves(p: Seq<Instruction>, t: Seq<DependencyList>, s: Seq<usize>, bs: Seq<VLIW>,
    split: int, extra: int) -> bool {
    exists|movs: Seq<Instruction>|
        (forall|k: int| 0 <= k < movs.len() ==> carried_move_in(p, t, s, bs, split, extra, #[trigger] movs[k]))
        && #[trigger] post_reads_forwarded(p, t, s, bs, split, extra, movs)
}

/// The moves, collected from the renamed layout `b2`, are moves of registers
/// carried around the loop in the final bundles, and the reads after the
/// loop follow them.
proof fn lemma_post_reads(p: Seq<Instruction>, t: Seq<DependencyList>, s: Seq<usize>, b1: Seq<VLIW>, b2: Seq<VLIW>,
    b3: Seq<VLIW>, b4: Seq<VLIW>, fin: Seq<VLIW>, split: int, extra: int, movs: Seq<Instruction>)
    requires
        is_dependency_table(p, t),
        s.len() == p.len(),
        forall|r: int, k: int, i: int| 0 <= r < p.len() && 0 <= k < 4 && 0 <= i < t[r]@[k].len() ==>
            0 <= #[trigger] t[r]@[k][i] < p.len() && spec_dest(p[t[r]@[k][i] as int]) is Some,
        all_placed(p, s, b1, 0, 0),
        all_placed(p, s, b2, 0, 0),
        dests_kept(b1, b2),
        forall|pc: int, j: int| 0 <= pc < p.len() && spec_unit(p[pc]) != ExecutionUnit::Branch
            && 0 <= j < spec_operands(p[pc]).len() ==>
            #[trigger] spec_operands(placed_copy(p, s, b2, pc))[j]
                == renamed_read(p, t, s, b1, pc, spec_operands(p[pc])[j]),
        forall|i: int| 0 <= i < movs.len() ==> carried_move(p, t, s, b2, #[trigger] movs[i]),
        0 <= split,
        0 <= extra,
        b3.len() == b2.len() + extra,
        keeps_forms(b2, b3, split, extra),
        moved_dests_kept(b2, b3, split, extra),
        post_forwarded(b2, b3, split, extra, movs, movs.len() as int),
        b4.len() == b3.len(),
        forall|b: int, u: int| 0 <= b < b3.len() && 0 <= u < 3 ==> (#[trigger] b4[b]@[u]) == b3[b]@[u],
        renamed_from(b4, fin),
        dests_kept(b4, fin),
        forall|b: int, u: int, i: int, j: int| 0 <= b < b4.len() && 0 <= u < 4 && 0 <= i < b4[b]@[u].len()
            && 0 <= j < spec_operands(b4[b]@[u][i]).len() && spec_operands(b4[b]@[u][i])[j] != 0 ==>
            #[trigger] spec_operands(fin[b]@[u][i])[j] == spec_operands(b4[b]@[u][i])[j],
    ensures
        reads_after_moves(p, t, s, fin, split, extra),
{
    assert forall|k: int| 0 <= k < movs.len() implies carried_move_in(p, t, s, fin, split, extra, #[trigger] movs[k]) by {
        let m = movs[k];
        assert(carried_move(p, t, s, b2, m));
        let (pc, a, bb) = choose|pc: int, a: int, bb: int| 0 <= pc < p.len() && 0 <= a < bb < t[pc]@[1].len()
            && #[trigger] spec_dest(p[t[pc]@[1][a] as int]) == #[trigger] spec_dest(p[t[pc]@[1][bb] as int])
            && m == Instruction::Mov(spec_dest(placed_ins(p, s, b2, 0, 0, t[pc]@[1][a] as int))->0,
                spec_dest(placed_ins(p, s, b2, 0, 0, t[pc]@[1][bb] as int))->0);
        let wa = t[pc]@[1][a];
        let wb = t[pc]@[1][bb];
        lemma_placed_dest_final(p, s, b2, b3, b4, fin, split, extra, wa as int);
        lemma_placed_dest_final(p, s, b2, b3, b4, fin, split, extra, wb as int);
    }
    assert forall|pc: int, j: int|
        #![trigger spec_operands(placed_ins(p, s, fin, split, extra, pc))[j]]
        0 <= pc < p.len() && spec_unit(p[pc]) != ExecutionUnit::Branch && s[pc] > split
            && 0 <= j < spec_operands(p[pc]).len()
            && producer_of(p, t, pc, spec_operands(p[pc])[j]) is Some
            && forwarded_reg(spec_dest(placed_ins(p, s, fin, split, extra,
                producer_of(p, t, pc, spec_operands(p[pc])[j])->0 as int))->0, movs, movs.len() as int) != 0
        implies spec_operands(placed_ins(p, s, fin, split, extra, pc))[j]
            == forwarded_reg(spec_dest(placed_ins(p, s, fin, split, extra,
                producer_of(p, t, pc, spec_operands(p[pc])[j])->0 as int))->0, movs, movs.len() as int) by {
        let reg = spec_operands(p[pc])[j];
        let q = producer_of(p, t, pc, reg)->0 as int;
        lemma_producer_in_table(p, t, pc, reg, 0, 0);
        assert(0 <= q < p.len() && spec_dest(p[q]) is Some);
        lemma_placed_dest_final(p, s, b2, b3, b4, fin, split, extra, q);
        let uq = unit_index(spec_unit(p[q]));
        let iq = count_at(p, s, q, spec_unit(p[q]), s[q] as int) as int;
        assert(placed_at(p, s, b1, 0, 0, q));
        assert(placed_at(p, s, b2, 0, 0, q));
        assert(spec_dest(b2[s[q] as int]@[uq][iq]) == spec_dest(b1[s[q] as int]@[uq][iq]));
        assert(bundle_pos(s[q] as int, 0, 0) == s[q]);
        // the reader's slot
        let u = unit_index(spec_unit(p[pc]));
        let i = count_at(p, s, pc, spec_unit(p[pc]), s[pc] as int) as int;
        let c = bundle_pos(s[pc] as int, split, extra);
        assert(placed_at(p, s, b2, 0, 0, pc));
        assert(bundle_pos(s[pc] as int, 0, 0) == s[pc]);
        let x = b2[s[pc] as int]@[u][i];
        assert(x == placed_copy(p, s, b2, pc));
        lemma_same_form(x, p[pc], p[pc]);
        assert(spec_operands(x)[j] == spec_dest(b1[s[q] as int]@[uq][iq])->0);
        assert(s[pc] < b2.len());
        assert(b3[c]@[u][i] == forwarded_all(x, movs, movs.len() as int));
        lemma_forwarded_all(x, movs, movs.len() as int);
        assert(b4[c]@[u] == b3[c]@[u]);
        assert(spec_operands(fin[c]@[u][i])[j] == spec_operands(b4[c]@[u][i])[j]);
    }
    assert(post_reads_forwarded(p, t, s, fin, split, extra, movs));
}

/// Every instruction off the branch unit that writes a register writes, in
/// `bs`, the register numbered (from 1, wrapping around a byte) by the writes
/// that come before it in bundle, unit and program order.
pub open spec fn dests_numbered(p: Seq<Instruction>, s: Seq<usize>, bs: Seq<VLIW>, split: int, extra: int) -> bool {
    forall|pc: int| 0 <= pc < p.len() && spec_unit(p[pc]) != ExecutionUnit::Branch && spec_dest(p[pc]) is Some ==>
        spec_dest(#[trigger] placed_ins(p, s, bs, split, extra, pc)) == Some(wrapped_register(writes_before(p, s, pc)))
}

proof fn lemma_units_writes_placed(p: Seq<Instruction>, s: Seq<usize>, b0: Seq<VLIW>, c: int, u: int)
    requires
        0 <= c < b0.len(),
        0 <= u <= 4,
        forall|cc: int, uu: int| 0 <= cc < b0.len() && 0 <= uu < 4 ==>
            #[trigger] unit_writes(b0[cc]@[uu], b0[cc]@[uu].len() as int) == writes_at(p, s, p.len() as int, uu, cc),
    ensures
        units_writes(b0[c]@, u) == writes_in_units(p, s, c, u),
    decreases u,
{
    if u > 0 {
        lemma_units_writes_placed(p, s, b0, c, u - 1);
        assert(unit_writes(b0[c]@[u - 1], b0[c]@[u - 1].len() as int) == writes_at(p, s, p.len() as int, u - 1, c));
    }
}

proof fn lemma_bundles_writes_placed(p: Seq<Instruction>, s: Seq<usize>, b0: Seq<VLIW>, c: int)
    requires
        0 <= c <= b0.len(),
        forall|cc: int, uu: int| 0 <= cc < b0.len() && 0 <= uu < 4 ==>
            #[trigger] unit_writes(b0[cc]@[uu], b0[cc]@[uu].len() as int) == writes_at(p, s, p.len() as int, uu, cc),
    ensures
        bundles_writes(b0, c) == writes_in_bundles(p, s, c),
    decreases c,
{
    if c > 0 {
        lemma_bundles_writes_placed(p, s, b0, c - 1);
        lemma_units_writes_placed(p, s, b0, c - 1, 4);
    }
}

proof fn lemma_dests_numbered(
    p: Seq<Instruction>,
    s: Seq<usize>,
    b0: Seq<VLIW>,
    b1: Seq<VLIW>,
    b2: Seq<VLIW>,
    b3: Seq<VLIW>,
    b4: Seq<VLIW>,
    b5: Seq<VLIW>,
    split: int,
    extra: int,
)
    requires
        s.len() == p.len(),
        all_placed(p, s, b0, 0, 0),
        forall|c: int, u: int| 0 <= c < b0.len() && 0 <= u < 4 ==>
            #[trigger] unit_writes(b0[c]@[u], b0[c]@[u].len() as int) == writes_at(p, s, p.len() as int, u, c),
        forall|pc: int| 0 <= pc < p.len() && spec_unit(p[pc]) != ExecutionUnit::Branch ==>
            unit_writes(b0[s[pc] as int]@[unit_index(spec_unit(p[pc]))],
                #[trigger] count_at(p, s, pc, spec_unit(p[pc]), s[pc] as int) as int)
                == writes_at(p, s, pc, unit_index(spec_unit(p[pc])), s[pc] as int),
        forall|b: int, u: int, i: int| 0 <= b < b0.len() && 0 <= u < 4 && 0 <= i < b0[b]@[u].len()
            && spec_dest(b0[b]@[u][i]) is Some ==>
            #[trigger] spec_dest(b1[b]@[u][i]) == Some(wrapped_register(slot_rank(b0, b, u, i))),
        renamed_from(b0, b1),
        renamed_from(b1, b2),
        dests_kept(b1, b2),
        0 <= extra,
        keeps_forms(b2, b3, split, extra),
        moved_dests_kept(b2, b3, split, extra),
        b4.len() == b3.len(),
        forall|b: int, u: int, i: int| 0 <= b < b3.len() && 0 <= u < 3 && 0 <= i < b3[b]@[u].len() ==>
            i < b4[b]@[u].len() && #[trigger] b4[b]@[u][i] == b3[b]@[u][i],
        renamed_from(b4, b5),
        dests_kept(b4, b5),
        b2.len() == b1.len(),
    ensures
        dests_numbered(p, s, b5, split, extra),
{
    assert forall|pc: int| 0 <= pc < p.len() && spec_unit(p[pc]) != ExecutionUnit::Branch && spec_dest(p[pc]) is Some implies
        spec_dest(#[trigger] placed_ins(p, s, b5, split, extra, pc)) == Some(wrapped_register(writes_before(p, s, pc))) by {
        let u = unit_index(spec_unit(p[pc]));
        let i = count_at(p, s, pc, spec_unit(p[pc]), s[pc] as int) as int;
        let b = s[pc] as int;
        let c = bundle_pos(b, split, extra);
        assert(placed_at(p, s, b0, 0, 0, pc));
        assert(u < 3);
        lemma_same_form(b0[b]@[u][i], p[pc], p[pc]);
        lemma_bundles_writes_placed(p, s, b0, b);
        lemma_units_writes_placed(p, s, b0, b, u);
        assert(slot_rank(b0, b, u, i) == writes_before(p, s, pc));
        assert(b1[b]@[u].len() == b0[b]@[u].len());
        assert(b2[b]@[u].len() == b1[b]@[u].len());
        assert(spec_dest(b2[b]@[u][i]) == spec_dest(b1[b]@[u][i]));
        assert(spec_dest(b3[c]@[u][i]) == spec_dest(b2[b]@[u][i]));
        assert(b2[b]@[u].len() <= b3[c]@[u].len());
        assert(b4[c]@[u][i] == b3[c]@[u][i]);
        assert(spec_dest(b5[c]@[u][i]) == spec_dest(b4[c]@[u][i]));
    }
}

/// How many of the instructions before `n` write a register.
pub open spec fn program_writes(p: Seq<Instruction>, n: int) -> nat
    decreases n,
{
    if n <= 0 {
        0
    } else {
        program_writes(p, n - 1) + (if spec_dest(p[n - 1]) is Some { 1nat } else { 0nat })
    }
}

/// How many of the instructions before `n` write a register and run in a
/// bundle before `b`.
spec fn writes_below(p: Seq<Instruction>, s: Seq<usize>, n: int, b: int) -> nat
    decreases n,
{
    if n <= 0 {
        0
    } else {
        writes_below(p, s, n - 1, b) + (if spec_dest(p[n - 1]) is Some && s[n - 1] < b { 1nat } else { 0nat })
    }
}

proof fn lemma_writes_below_step(p: Seq<Instruction>, s: Seq<usize>, n: int, b: int)
    requires
        0 <= n <= p.len(),
        0 <= b,
    ensures
        writes_below(p, s, n, b + 1) == writes_below(p, s, n, b)
            + writes_at(p, s, n, 0, b) + writes_at(p, s, n, 1, b) + writes_at(p, s, n, 2, b) + writes_at(p, s, n, 3, b),
    decreases n,
{
    if n > 0 {
        lemma_writes_below_step(p, s, n - 1, b);
        let u = unit_index(spec_unit(p[n - 1]));
        assert(0 <= u < 4);
    }
}

proof fn lemma_writes_in_bundles_below(p: Seq<Instruction>, s: Seq<usize>, b: int)
    requires
        0 <= b,
    ensures
        writes_in_bundles(p, s, b) == writes_below(p, s, p.len() as int, b),
    decreases b,
{
    if b == 0 {
        lemma_writes_below_zero(p, s, p.len() as int);
    } else {
        lemma_writes_in_bundles_below(p, s, b - 1);
        lemma_writes_below_step(p, s, p.len() as int, b - 1);
        reveal_with_fuel(writes_in_units, 5);
    }
}

proof fn lemma_writes_below_zero(p: Seq<Instruction>, s: Seq<usize>, n: int)
    ensures
        writes_below(p, s, n, 0) == 0,
    decreases n,
{
    if n > 0 {
        lemma_writes_below_zero(p, s, n - 1);
    }
}

proof fn lemma_writes_below_bound(p: Seq<Instruction>, s: Seq<usize>, n: int, b: int)
    ensures
        writes_below(p, s, n, b) <= program_writes(p, n),
    decreases n,
{
    if n > 0 {
        lemma_writes_below_bound(p, s, n - 1, b);
    }
}

proof fn lemma_writes_below_mono(p: Seq<Instruction>, s: Seq<usize>, n: int, b: int, c: int)
    requires
        b <= c,
    ensures
        writes_below(p, s, n, b) <= writes_below(p, s, n, c),
    decreases n,
{
    if n > 0 {
        lemma_writes_below_mono(p, s, n - 1, b, c);
    }
}

proof fn lemma_writes_at_mono(p: Seq<Instruction>, s: Seq<usize>, m: int, n: int, u: int, b: int)
    requires
        m <= n,
    ensures
        writes_at(p, s, m, u, b) <= writes_at(p, s, n, u, b),
    decreases n - m,
{
    if n > m {
        lemma_writes_at_mono(p, s, m, n - 1, u, b);
    }
}

proof fn lemma_writes_in_units_mono(p: Seq<Instruction>, s: Seq<usize>, b: int, u: int, v: int)
    requires
        u <= v,
    ensures
        writes_in_units(p, s, b, u) <= writes_in_units(p, s, b, v),
    decreases v - u,
{
    if v > u {
        lemma_writes_in_units_mono(p, s, b, u, v - 1);
    }
}

/// The writes that come before a write, and that write itself, all run in
/// its bundle or before.
proof fn lemma_writes_before_below(p: Seq<Instruction>, s: Seq<usize>, q: int)
    requires
        s.len() == p.len(),
        0 <= q < p.len(),
        spec_dest(p[q]) is Some,
    ensures
        writes_before(p, s, q) < writes_below(p, s, p.len() as int, s[q] + 1),
{
    let u = unit_index(spec_unit(p[q]));
    let b = s[q] as int;
    let n = p.len() as int;
    lemma_writes_in_bundles_below(p, s, b);
    lemma_writes_below_step(p, s, n, b);
    lemma_writes_at_mono(p, s, q + 1, n, u, b);
    lemma_writes_in_units_mono(p, s, b, u + 1, 4);
    reveal_with_fuel(writes_in_units, 5);
    assert(0 <= u < 4);
}

/// Renaming hands out registers in order: a write that comes later in
/// bundle, unit and program order gets a later number.
pub proof fn lemma_writes_before_increasing(p: Seq<Instruction>, s: Seq<usize>, a: int, b: int)
    requires
        s.len() == p.len(),
        0 <= a < p.len(),
        0 <= b < p.len(),
        spec_dest(p[a]) is Some,
        s[a] < s[b]
            || (s[a] == s[b] && unit_index(spec_unit(p[a])) < unit_index(spec_unit(p[b])))
            || (s[a] == s[b] && spec_unit(p[a]) == spec_unit(p[b]) && a < b),
    ensures
        writes_before(p, s, a) < writes_before(p, s, b),
{
    let n = p.len() as int;
    let ua = unit_index(spec_unit(p[a]));
    let ub = unit_index(spec_unit(p[b]));
    lemma_writes_in_bundles_below(p, s, s[a] as int);
    lemma_writes_in_bundles_below(p, s, s[b] as int);
    if s[a] < s[b] {
        lemma_writes_before_below(p, s, a);
        lemma_writes_below_mono(p, s, n, s[a] + 1, s[b] as int);
    } else if ua < ub {
        lemma_writes_at_mono(p, s, a + 1, n, ua, s[a] as int);
        lemma_writes_in_units_mono(p, s, s[a] as int, ua + 1, ub);
    } else {
        lemma_writes_at_mono(p, s, a + 1, b, ua, s[a] as int);
    }
}

/// Renaming gives every write a register of its own: two different
/// instructions that write registers get different numbers, as long as the
/// program has at most 256 writes.
pub proof fn lemma_dests_distinct(p: Seq<Instruction>, s: Seq<usize>, a: int, b: int)
    requires
        s.len() == p.len(),
        0 <= a < p.len(),
        0 <= b < p.len(),
        a != b,
        spec_dest(p[a]) is Some,
        spec_dest(p[b]) is Some,
        program_writes(p, p.len() as int) <= 256,
    ensures
        wrapped_register(writes_before(p, s, a)) != wrapped_register(writes_before(p, s, b)),
{
    let n = p.len() as int;
    lemma_writes_before_below(p, s, a);
    lemma_writes_before_below(p, s, b);
    lemma_writes_below_bound(p, s, n, s[a] + 1);
    lemma_writes_below_bound(p, s, n, s[b] + 1);
    let ua = unit_index(spec_unit(p[a]));
    let ub = unit_index(spec_unit(p[b]));
    if s[a] < s[b] || (s[a] == s[b] && ua < ub) || (s[a] == s[b] && ua == ub && a < b) {
        if s[a] == s[b] && ua == ub {
            lemma_unit_index_injective(spec_unit(p[a]), spec_unit(p[b]));
        }
        lemma_writes_before_increasing(p, s, a, b);
    } else {
        if s[a] == s[b] && ua == ub {
            lemma_unit_index_injective(spec_unit(p[a]), spec_unit(p[b]));
        }
        lemma_writes_before_increasing(p, s, b, a);
    }
}

/// The branch units of `bs`, laid out from the schedule `s` of `p` with
/// `extra` bundles inserted after the loop's bundle `split`: each bundle
/// holds the branch instructions scheduled there (`branch_seq`, each `loop`
/// jumping to the bundle of the loop body's first instruction), except that
/// the loop's bundle hands its branch on to the last inserted bundle, and
/// the other inserted bundles hold none.
pub open spec fn branches_placed(p: Seq<Instruction>, s: Seq<usize>, bs: Seq<VLIW>, split: int, extra: int) -> bool {
    let ls = vliw_bounds(p).0;
    let n = p.len() as int;
    &&& forall|c: int| 0 <= c < bundle_count(s) && c != split ==>
        (#[trigger] bs[bundle_pos(c, split, extra)])@[3] == branch_seq(p, s, ls, n, c)
    &&& forall|c: int| 0 <= split < c < split + extra && c < bs.len() ==> (#[trigger] bs[c])@[3].len() == 0
    &&& 0 <= split < bundle_count(s) ==> bs[split + extra]@[3] == branch_seq(p, s, ls, n, split)
    &&& 0 <= split < bundle_count(s) && extra > 0 ==> bs[split]@[3].len() == 0
}

proof fn lemma_branch_form(x: Instruction, y: Instruction)
    requires
        spec_unit(y) == ExecutionUnit::Branch,
        same_form(x, y),
    ensures
        x == y,
{
}

/// Renaming keeps a branch unit that holds only branch instructions.
proof fn lemma_branch_unit_kept(a: Seq<Instruction>, c: Seq<Instruction>)
    requires
        c.len() == a.len(),
        forall|i: int| 0 <= i < a.len() ==> spec_unit(#[trigger] a[i]) == ExecutionUnit::Branch,
        forall|i: int| 0 <= i < a.len() ==> #[trigger] same_form(c[i], a[i]),
    ensures
        c == a,
{
    assert forall|i: int| 0 <= i < a.len() implies c[i] == a[i] by {
        assert(spec_unit(a[i]) == ExecutionUnit::Branch);
        assert(same_form(c[i], a[i]));
        lemma_branch_form(c[i], a[i]);
    }
    assert(c =~= a);
}

/// Through renaming and the insertion of moves, each bundle of the ASAP
/// layout keeps its branch unit, and the inserted bundles have none.
proof fn lemma_branches_through_moves(p: Seq<Instruction>, s: Seq<usize>, ls: int, b0: Seq<VLIW>, b1: Seq<VLIW>,
    b2: Seq<VLIW>, b3: Seq<VLIW>, split: int, extra: int)
    requires
        forall|c: int| 0 <= c < b0.len() ==> (#[trigger] b0[c])@[3] == branch_seq(p, s, ls, p.len() as int, c),
        renamed_from(b0, b1),
        renamed_from(b1, b2),
        branches_moved(b2, b3, split, extra),
        b3.len() == b2.len() + extra,
        extra >= 0,
    ensures
        forall|c: int| 0 <= c < b0.len() ==> (#[trigger] b3[bundle_pos(c, split, extra)])@[3] == branch_seq(p, s, ls, p.len() as int, c),
        forall|c: int| 0 <= c && split < c <= split + extra && c < b3.len() ==> (#[trigger] b3[c])@[3].len() == 0,
{
    assert forall|c: int| 0 <= c < b0.len() implies (#[trigger] b3[bundle_pos(c, split, extra)])@[3] == branch_seq(p, s, ls, p.len() as int, c) by {
        let q = branch_seq(p, s, ls, p.len() as int, c);
        lemma_branch_seq(p, s, ls, p.len() as int, c);
        assert(b0[c]@[3] == q);
        assert forall|i: int| 0 <= i < q.len() implies #[trigger] same_form(b1[c]@[3][i], q[i]) by {
            assert(same_form(b1[c]@[3][i], b0[c]@[3][i]));
        }
        lemma_branch_unit_kept(q, b1[c]@[3]);
        assert forall|i: int| 0 <= i < q.len() implies #[trigger] same_form(b2[c]@[3][i], q[i]) by {
            assert(same_form(b2[c]@[3][i], b1[c]@[3][i]));
        }
        lemma_branch_unit_kept(q, b2[c]@[3]);
        let d = bundle_pos(c, split, extra);
        assert forall|i: int| 0 <= i < q.len() implies #[trigger] same_form(b3[d]@[3][i], q[i]) by {
            assert(same_form(b3[d]@[3][i], b2[c]@[3][i]));
        }
        assert(b3[d]@[3].len() == b2[c]@[3].len());
        lemma_branch_unit_kept(q, b3[d]@[3]);
    }
}

/// Renaming keeps the branch units that `branches_placed` describes.
proof fn lemma_branches_renamed_placed(p: Seq<Instruction>, s: Seq<usize>, b4: Seq<VLIW>, fin: Seq<VLIW>, split: int, extra: int)
    requires
        branches_placed(p, s, b4, split, extra),
        renamed_from(b4, fin),
        b4.len() == bundle_count(s) + extra,
        extra >= 0,
    ensures
        branches_placed(p, s, fin, split, extra),
{
    let ls = vliw_bounds(p).0;
    let n = p.len() as int;
    assert forall|c: int| 0 <= c < bundle_count(s) implies
        #[trigger] branch_seq(p, s, ls, n, c).len() <= 1 && (forall|i: int| 0 <= i < branch_seq(p, s, ls, n, c).len() ==>
            spec_unit(#[trigger] branch_seq(p, s, ls, n, c)[i]) == ExecutionUnit::Branch) by {
        lemma_branch_seq(p, s, ls, n, c);
    }
    assert forall|d: int, c: int| 0 <= d < b4.len() && 0 <= c < bundle_count(s) && b4[d]@[3] == branch_seq(p, s, ls, n, c)
        implies #[trigger] fin[d]@[3] == #[trigger] branch_seq(p, s, ls, n, c) by {
        let q = branch_seq(p, s, ls, n, c);
        assert forall|i: int| 0 <= i < q.len() implies #[trigger] same_form(fin[d]@[3][i], q[i]) by {
            assert(same_form(fin[d]@[3][i], b4[d]@[3][i]));
        }
        lemma_branch_seq(p, s, ls, n, c);
        lemma_branch_unit_kept(q, fin[d]@[3]);
    }
    assert forall|c: int| 0 <= c < bundle_count(s) && c != split implies
        (#[trigger] fin[bundle_pos(c, split, extra)])@[3] == branch_seq(p, s, ls, n, c) by {
        assert(b4[bundle_pos(c, split, extra)]@[3] == branch_seq(p, s, ls, n, c));
    }
    assert forall|c: int| 0 <= split < c < split + extra && c < fin.len() implies (#[trigger] fin[c])@[3].len() == 0 by {
        assert(b4[c]@[3].len() == 0);
    }
    if 0 <= split < bundle_count(s) {
        assert(b4[split + extra]@[3] == branch_seq(p, s, ls, n, split));
        if extra > 0 {
            assert(b4[split]@[3].len() == 0);
        }
    }
}

/// `m` is, in `bs`, a move for a register that two producers carry into the
/// next iteration of one reader: into the register that the first producer
/// writes there, from the register that the second writes (unless that one
/// is register 0, which is filled in like any unwritten read).
pub open spec fn carried_move_in(p: Seq<Instruction>, t: Seq<DependencyList>, s: Seq<usize>, bs: Seq<VLIW>,
    split: int, extra: int, m: Instruction) -> bool {
    exists|pc: int, i: int, j: int| 0 <= pc < p.len() && 0 <= i < j < t[pc]@[1].len()
        && #[trigger] spec_dest(p[t[pc]@[1][i] as int]) == #[trigger] spec_dest(p[t[pc]@[1][j] as int])
        && m is Mov
        && spec_dest(m) == spec_dest(placed_ins(p, s, bs, split, extra, t[pc]@[1][i] as int))
        && (spec_dest(placed_ins(p, s, bs, split, extra, t[pc]@[1][j] as int))->0 != 0 ==>
            spec_operands(m)[0] == spec_dest(placed_ins(p, s, bs, split, extra, t[pc]@[1][j] as int))->0)
}

/// Beyond the instructions of `p` laid out from `s` (as many per bundle and
/// unit as `count_at` counts), `bs` holds only moves of registers carried
/// around the loop (`carried_move_in`), on the ALUs: after the placed
/// instructions of the loop's bundle `split`, and in the bundles inserted
/// after it.
pub open spec fn only_moves_added(p: Seq<Instruction>, t: Seq<DependencyList>, s: Seq<usize>, bs: Seq<VLIW>,
    split: int, extra: int) -> bool {
    let n = p.len() as int;
    &&& forall|c: int, u: int| 0 <= c < bundle_count(s) && 0 <= u < 3 ==>
        count_at(p, s, n, unit_at(u), c) <= (#[trigger] bs[bundle_pos(c, split, extra)]@[u]).len()
    &&& forall|c: int, u: int, i: int| 0 <= c < bundle_count(s) && 0 <= u < 3
        && count_at(p, s, n, unit_at(u), c) <= i < bs[bundle_pos(c, split, extra)]@[u].len() ==>
        u == 0 && c == split && carried_move_in(p, t, s, bs, split, extra, #[trigger] bs[bundle_pos(c, split, extra)]@[u][i])
    &&& forall|c: int, u: int, i: int| 0 <= c && split < c <= split + extra && c < bs.len() && 0 <= u < 3
        && 0 <= i < bs[c]@[u].len() ==> u == 0 && carried_move_in(p, t, s, bs, split, extra, #[trigger] bs[c]@[u][i])
}

/// A producer that writes a register keeps, from the renamed layout `b2`
/// to the final bundles, the register that it writes.
proof fn lemma_placed_dest_final(p: Seq<Instruction>, s: Seq<usize>, b2: Seq<VLIW>, b3: Seq<VLIW>, b4: Seq<VLIW>,
    fin: Seq<VLIW>, split: int, extra: int, w: int)
    requires
        0 <= w < p.len(),
        s.len() == p.len(),
        spec_dest(p[w]) is Some,
        all_placed(p, s, b2, 0, 0),
        moved_dests_kept(b2, b3, split, extra),
        keeps_forms(b2, b3, split, extra),
        b4.len() == b3.len(),
        forall|b: int, u: int| 0 <= b < b3.len() && 0 <= u < 3 ==> (#[trigger] b4[b]@[u]) == b3[b]@[u],
        renamed_from(b4, fin),
        dests_kept(b4, fin),
        extra >= 0,
    ensures
        spec_dest(placed_ins(p, s, fin, split, extra, w)) == spec_dest(placed_ins(p, s, b2, 0, 0, w)),
        spec_dest(placed_ins(p, s, b2, 0, 0, w)) is Some,
{
    assert(spec_unit(p[w]) != ExecutionUnit::Branch);
    assert(placed_at(p, s, b2, 0, 0, w));
    let u = unit_index(spec_unit(p[w]));
    let c = s[w] as int;
    let k = count_at(p, s, w, spec_unit(p[w]), c) as int;
    assert(bundle_pos(c, 0, 0) == c);
    assert(0 <= u < 3);
    let d = bundle_pos(c, split, extra);
    lemma_same_form(b2[c]@[u][k], p[w], p[w]);
    assert(b3.len() == b2.len() + extra);
    assert(spec_dest(b3[d]@[u][k]) == spec_dest(b2[c]@[u][k]));
    assert(b4[d]@[u] == b3[d]@[u]);
    assert(spec_dest(fin[d]@[u][k]) == spec_dest(b4[d]@[u][k]));
}

/// The layout, renamed, with moves inserted, the loop's branch moved and the
/// operands filled in, holds nothing but the program's instructions and the
/// moves of registers carried around the loop.
proof fn lemma_only_moves(p: Seq<Instruction>, t: Seq<DependencyList>, s: Seq<usize>, b0: Seq<VLIW>, b1: Seq<VLIW>,
    b2: Seq<VLIW>, b3: Seq<VLIW>, b4: Seq<VLIW>, fin: Seq<VLIW>, split: int, extra: int, movs: Seq<Instruction>)
    requires
        is_dependency_table(p, t),
        s.len() == p.len(),
        b0.len() == bundle_count(s),
        forall|c: int, u: int| 0 <= c < b0.len() && 0 <= u < 3 ==>
            (#[trigger] b0[c]@[u]).len() == count_at(p, s, p.len() as int, unit_at(u), c),
        renamed_from(b0, b1),
        renamed_from(b1, b2),
        all_placed(p, s, b2, 0, 0),
        forall|i: int| 0 <= i < movs.len() ==> carried_move(p, t, s, b2, #[trigger] movs[i]),
        keeps_forms(b2, b3, split, extra),
        moved_dests_kept(b2, b3, split, extra),
        moves_added(b2, b3, split, extra, movs),
        b3.len() == b2.len() + extra,
        extra >= 0,
        b4.len() == b3.len(),
        forall|b: int, u: int| 0 <= b < b3.len() && 0 <= u < 3 ==> (#[trigger] b4[b]@[u]) == b3[b]@[u],
        renamed_from(b4, fin),
        dests_kept(b4, fin),
        forall|b: int, u: int, i: int, j: int| 0 <= b < b4.len() && 0 <= u < 4 && 0 <= i < b4[b]@[u].len()
            && 0 <= j < spec_operands(b4[b]@[u][i]).len() && spec_operands(b4[b]@[u][i])[j] != 0 ==>
            #[trigger] spec_operands(fin[b]@[u][i])[j] == spec_operands(b4[b]@[u][i])[j],
    ensures
        only_moves_added(p, t, s, fin, split, extra),
{
    let n = p.len() as int;
    assert forall|c: int, u: int, i: int| 0 <= c < fin.len() && 0 <= u < 3 && 0 <= i < fin[c]@[u].len()
        && movs.contains(b4[c]@[u][i]) implies carried_move_in(p, t, s, fin, split, extra, #[trigger] fin[c]@[u][i]) by {
        let m = b4[c]@[u][i];
        let x = choose|x: int| 0 <= x < movs.len() && movs[x] == m;
        assert(carried_move(p, t, s, b2, movs[x]));
        let (pc, a, bb) = choose|pc: int, a: int, bb: int| 0 <= pc < p.len() && 0 <= a < bb < t[pc]@[1].len()
            && #[trigger] spec_dest(p[t[pc]@[1][a] as int]) == #[trigger] spec_dest(p[t[pc]@[1][bb] as int])
            && m == Instruction::Mov(spec_dest(placed_ins(p, s, b2, 0, 0, t[pc]@[1][a] as int))->0,
                spec_dest(placed_ins(p, s, b2, 0, 0, t[pc]@[1][bb] as int))->0);
        let wa = t[pc]@[1][a];
        let wb = t[pc]@[1][bb];
        assert(t[pc]@[1].contains(wa));
        assert(t[pc]@[1].contains(wb));
        assert(crate::dependency::dep_kept(p, pc, crate::dependency::dep_at(1), wa as int));
        assert(crate::dependency::dep_kept(p, pc, crate::dependency::dep_at(1), wb as int));
        lemma_placed_dest_final(p, s, b2, b3, b4, fin, split, extra, wa as int);
        lemma_placed_dest_final(p, s, b2, b3, b4, fin, split, extra, wb as int);
        let y = fin[c]@[u][i];
        assert(same_form(y, m));
        assert(spec_dest(y) == spec_dest(m));
        assert(spec_dest(placed_ins(p, s, b2, 0, 0, wa as int)) is Some);
        assert(spec_dest(placed_ins(p, s, b2, 0, 0, wb as int)) is Some);
        if spec_dest(placed_ins(p, s, fin, split, extra, wb as int))->0 != 0 {
            assert(spec_operands(m)[0] != 0);
            assert(spec_operands(y)[0] == spec_operands(m)[0]);
        }
    }
    assert forall|c: int, u: int| 0 <= c < bundle_count(s) && 0 <= u < 3 implies
        count_at(p, s, n, unit_at(u), c) <= (#[trigger] fin[bundle_pos(c, split, extra)]@[u]).len() by {
        let d = bundle_pos(c, split, extra);
        assert(b0[c]@[u].len() == b1[c]@[u].len());
        assert(b1[c]@[u].len() == b2[c]@[u].len());
        assert(b2[c]@[u].len() <= b3[d]@[u].len());
        assert(b4[d]@[u] == b3[d]@[u]);
    }
    assert forall|c: int, u: int, i: int| 0 <= c < bundle_count(s) && 0 <= u < 3
        && count_at(p, s, n, unit_at(u), c) <= i < fin[bundle_pos(c, split, extra)]@[u].len() implies
        u == 0 && c == split && carried_move_in(p, t, s, fin, split, extra, #[trigger] fin[bundle_pos(c, split, extra)]@[u][i]) by {
        let d = bundle_pos(c, split, extra);
        assert(b0[c]@[u].len() == b1[c]@[u].len());
        assert(b1[c]@[u].len() == b2[c]@[u].len());
        assert(b4[d]@[u] == b3[d]@[u]);
        assert(b4[d]@[u][i] == b3[d]@[u][i]);
        assert(u == 0 && c == split && movs.contains(b3[d]@[u][i]));
        assert(fin[d]@[u].len() == b4[d]@[u].len());
        assert(carried_move_in(p, t, s, fin, split, extra, fin[d]@[u][i]));
    }
    assert forall|c: int, u: int, i: int| 0 <= c && split < c <= split + extra && c < fin.len() && 0 <= u < 3
        && 0 <= i < fin[c]@[u].len() implies u == 0 && carried_move_in(p, t, s, fin, split, extra, #[trigger] fin[c]@[u][i]) by {
        assert(b4[c]@[u] == b3[c]@[u]);
        assert(b4[c]@[u][i] == b3[c]@[u][i]);
        assert(u == 0 && movs.contains(b3[c]@[u][i]));
        assert(fin[c]@[u].len() == b4[c]@[u].len());
        assert(carried_move_in(p, t, s, fin, split, extra, fin[c]@[u][i]));
    }
}

/// Moving the loop's branch leaves the other units of every bundle as they were.
proof fn lemma_loop_move_units(b3: Seq<VLIW>, b4: Seq<VLIW>, split: int, to: int)
    requires
        0 <= split < b3.len(),
        0 <= to < b3.len(),
        b4.len() == b3.len(),
        forall|b: int| 0 <= b < b3.len() ==> (#[trigger] b3[b])@.len() == 4,
        forall|b: int| 0 <= b < b3.len() && b != split && b != to ==> #[trigger] b4[b]@ == b3[b]@,
        b3[split]@[3].len() == 0 ==> forall|b: int| 0 <= b < b3.len() ==> #[trigger] b4[b]@ == b3[b]@,
        b3[split]@[3].len() > 0 ==> {
            let x = b3[split]@[3].last();
            let popped = b3[split]@.update(3, b3[split]@[3].drop_last());
            &&& spec_unit(x) == ExecutionUnit::Branch
            &&& split != to ==> b4[split]@ == popped && b4[to]@ == with_added(b3[to]@, x)
            &&& split == to ==> b4[to]@ == with_added(popped, x)
        },
    ensures
        forall|b: int, u: int| 0 <= b < b3.len() && 0 <= u < 3 ==> (#[trigger] b4[b]@[u]) == b3[b]@[u],
{
    assert forall|b: int, u: int| 0 <= b < b3.len() && 0 <= u < 3 implies (#[trigger] b4[b]@[u]) == b3[b]@[u] by {
        if b3[split]@[3].len() > 0 && (b == split || b == to) {
            assert(unit_index(ExecutionUnit::Branch) == 3);
        }
    }
}

/// Moving the loop's branch to the last inserted bundle gives the branch
/// units that `branches_placed` describes.
proof fn lemma_branches_loop_moved(p: Seq<Instruction>, s: Seq<usize>, b3: Seq<VLIW>, b4: Seq<VLIW>, split: int, extra: int)
    requires
        forall|c: int| 0 <= c < bundle_count(s) ==> (#[trigger] b3[bundle_pos(c, split, extra)])@[3]
            == branch_seq(p, s, vliw_bounds(p).0, p.len() as int, c),
        forall|c: int| 0 <= c && split < c <= split + extra && c < b3.len() ==> (#[trigger] b3[c])@[3].len() == 0,
        b3.len() == bundle_count(s) + extra,
        extra >= 0,
        0 <= split,
        split >= b3.len() ==> b4 == b3 && extra == 0,
        split < b3.len() ==> {
            &&& split + extra < b3.len()
            &&& b4.len() == b3.len()
            &&& forall|b: int| 0 <= b < b3.len() && b != split && b != split + extra ==> #[trigger] b4[b]@ == b3[b]@
            &&& b3[split]@[3].len() == 0 ==> forall|b: int| 0 <= b < b3.len() ==> #[trigger] b4[b]@ == b3[b]@
            &&& b3[split]@[3].len() > 0 ==> {
                let x = b3[split]@[3].last();
                let popped = b3[split]@.update(3, b3[split]@[3].drop_last());
                &&& extra != 0 ==> b4[split]@ == popped && b4[split + extra]@ == with_added(b3[split + extra]@, x)
                &&& extra == 0 ==> b4[split]@ == with_added(popped, x)
            }
        },
    ensures
        branches_placed(p, s, b4, split, extra),
{
    let ls = vliw_bounds(p).0;
    let n = p.len() as int;
    if split < b3.len() {
        assert forall|c: int| 0 <= c < bundle_count(s) && c != split implies
            (#[trigger] b4[bundle_pos(c, split, extra)])@[3] == branch_seq(p, s, ls, n, c) by {
            let d = bundle_pos(c, split, extra);
            assert(b4[d]@ == b3[d]@);
        }
        assert forall|c: int| 0 <= split < c < split + extra && c < b4.len() implies (#[trigger] b4[c])@[3].len() == 0 by {
            assert(b4[c]@ == b3[c]@);
        }
        if split < bundle_count(s) {
            let q = branch_seq(p, s, ls, n, split);
            lemma_branch_seq(p, s, ls, n, split);
            assert(b3[bundle_pos(split, split, extra)]@[3] == q);
            assert(b3[split]@[3] == q);
            if q.len() == 0 {
                assert(b4[split + extra]@ == b3[split + extra]@);
                assert(b4[split]@ == b3[split]@);
                if extra > 0 {
                    assert(b3[split + extra]@[3].len() == 0);
                }
                assert(b4[split + extra]@[3] =~= q);
            } else {
                let x = q.last();
                assert(spec_unit(x) == ExecutionUnit::Branch);
                assert(q =~= seq![x]);
                assert(q.drop_last() =~= Seq::<Instruction>::empty());
                if extra > 0 {
                    assert(b3[split + extra]@[3].len() == 0);
                    assert(b4[split + extra]@[3] =~= q);
                    assert(b4[split]@[3] =~= Seq::<Instruction>::empty());
                } else {
                    assert(b4[split + extra]@[3] =~= q);
                }
            }
        }
    } else {
        assert forall|c: int| 0 <= c < bundle_count(s) && c != split implies
            (#[trigger] b4[bundle_pos(c, split, extra)])@[3] == branch_seq(p, s, ls, n, c) by {
        }
    }
}

/// The non-pipelined schedule of a program: its ASAP schedule put into
/// bundles, with the registers renamed and, for registers that two producers
/// carry into the next iteration, moves added at the end of the loop.
#[verifier::rlimit(60)]
#[verifier::spinoff_prover]
pub fn get_vliw_schedule(
    program: &Vec<Instruction>,
    dependency_table: &Vec<DependencyList>,
) -> (bundles: Vec<VLIW>)
    requires
        is_dependency_table(program@, dependency_table@),
        vliw_loop_ok(program@),
        regions_ok(program@, dependency_table@, vliw_bounds(program@).0, vliw_bounds(program@).1),
        vliw_moves_ok(program@, dependency_table@),
        program@.len() <= usize::MAX / 64,
    ensures
        bundles_fit(bundles@),
        exists|s: Seq<usize>| {
            &&& is_asap_schedule(program@, dependency_table@, vliw_bounds(program@).0, vliw_bounds(program@).1, s)
            &&& bundle_count(s) <= bundles@.len()
            &&& all_placed(program@, s, bundles@, loop_bundle(program@, s), bundles@.len() - bundle_count(s))
            &&& reads_follow_producers(program@, dependency_table@, s, bundles@, loop_bundle(program@, s), bundles@.len() - bundle_count(s))
            &&& dests_numbered(program@, s, bundles@, loop_bundle(program@, s), bundles@.len() - bundle_count(s))
            &&& branches_placed(program@, s, bundles@, loop_bundle(program@, s), bundles@.len() - bundle_count(s))
            &&& only_moves_added(program@, dependency_table@, s, bundles@, loop_bundle(program@, s), bundles@.len() - bundle_count(s))
            &&& reads_after_moves(program@, dependency_table@, s, bundles@, loop_bundle(program@, s), bundles@.len() - bundle_count(s))
        },
{
    let ghost p = program@;
    let ghost t = dependency_table@;
    let n = program.len();
    let mut loop_start = n;
    let mut loop_end = n;
    let mut pc: usize = 0;
    while pc < n
        invariant
            p == program@,
            n == p.len(),
            pc <= n,
            last_plain_loop(p, pc as int) < 0 ==> loop_start == n && loop_end == n,
            last_plain_loop(p, pc as int) >= 0 ==> loop_start == loop_target(p[last_plain_loop(p, pc as int)])
                && loop_end == last_plain_loop(p, pc as int) + 1,
        decreases n - pc,
    {
        match program[pc] {
            Instruction::Loop(val) => {
                loop_start = val;
                loop_end = pc + 1;
            },
            _ => {},
        }
        pc = pc + 1;
    }
    proof {
        lemma_last_plain(p, n as int);
        lemma_last_loop_range(p, n as int);
        lemma_table_regions(p, t);
        assert(loop_start as int == vliw_bounds(p).0 && loop_end as int == vliw_bounds(p).1);
    }
    let schedule = get_asap_schedule(program, dependency_table, loop_start, loop_end);
    let ghost s = schedule@;
    proof {
        lemma_asap_fits_units(p, t, loop_start as int, loop_end as int, s);
    }
    let mut nb_bundles: usize = 0;
    let mut q: usize = 0;
    while q < n
        invariant
            s == schedule@,
            s.len() == n,
            q <= n,
            forall|j: int| 0 <= j < n ==> #[trigger] s[j] <= 16 * n + 16,
            n <= usize::MAX / 64,
            nb_bundles == (if q == 0 { 0 } else { max_prefix(s, q as int) + 1 }),
        decreases n - q,
    {
        proof {
            lemma_max_prefix(s, q as int);
        }
        if schedule[q] + 1 > nb_bundles {
            nb_bundles = schedule[q] + 1;
        }
        q = q + 1;
    }
    proof {
        lemma_max_prefix(s, n as int);
        assert(nb_bundles == bundle_count(s));
        assert forall|j: int| 0 <= j < n implies #[trigger] s[j] < nb_bundles by {}
        assert forall|j: int| 0 <= j < n && (#[trigger] p[j]) is Loop implies loop_start < n by {
            assert(is_loop_instruction(p[j]));
        }
    }
    let placed = place_bundles(program, &schedule, nb_bundles, loop_start);
    let (mut bundles, offsets, loop_bundle_index) = placed;
    proof {
        assert(loop_bundle_index as int == loop_bundle(p, s));
    }
    let ghost b0 = bundles@;
    let next = rename_dests(&mut bundles);
    proof {
        lemma_renamed_keeps(b0, bundles@, 0);
        lemma_placed_keeps(p, s, b0, bundles@, 0, 0, 0);
    }
    let ghost b1 = bundles@;
    rename_operands(&mut bundles, program, dependency_table, &schedule, &offsets);
    proof {
        lemma_renamed_keeps(b1, bundles@, 0);
        lemma_placed_keeps(p, s, b1, bundles@, 0, 0, 0);
    }
    let movs = collect_movs(&bundles, program, dependency_table, &schedule, &offsets);
    let ghost b2 = bundles@;
    proof {
        if movs@.len() > 0 {
            assert(last_loop_before(p, n as int) >= 0);
            lemma_last_plain(p, n as int);
            assert(last_plain_loop(p, n as int) >= 0);
            assert(loop_bundle_index < nb_bundles);
        }
        assert(loop_bundle_index < usize::MAX - 1);
    }
    let insert_stop = insert_movs(&mut bundles, &movs, loop_bundle_index);
    let ghost extra = bundles@.len() - b2.len();
    proof {
        lemma_keeps_forms_placed(p, s, b2, bundles@, 0, loop_bundle_index as int, extra);
    }
    let ghost b3 = bundles@;
    proof {
        lemma_branches_through_moves(p, s, vliw_bounds(p).0, b0, b1, b2, b3, loop_bundle_index as int, extra);
    }
    if loop_bundle_index < bundles.len() {
        proof {
            if movs@.len() == 0 {
                assert(bundles@ == b2);
            }
        }
        move_loop(&mut bundles, loop_bundle_index, insert_stop - 1);
        proof {
            if b3[loop_bundle_index as int]@[3].len() > 0 {
                lemma_branch_seq(p, s, vliw_bounds(p).0, p.len() as int, loop_bundle_index as int);
                assert(b3[bundle_pos(loop_bundle_index as int, loop_bundle_index as int, extra)]@[3]
                    == branch_seq(p, s, vliw_bounds(p).0, p.len() as int, loop_bundle_index as int));
            }
            assert forall|b: int| 0 <= b < b3.len() implies (#[trigger] b3[b])@.len() == 4 by {}
            lemma_loop_move_units(b3, bundles@, loop_bundle_index as int, insert_stop - 1);
            lemma_grows_keeps_zero(b3, bundles@, 0);
            lemma_placed_keeps(p, s, b3, bundles@, loop_bundle_index as int, extra, 0);
        }
    }
    let ghost b4 = bundles@;
    proof {
        lemma_branches_loop_moved(p, s, b3, b4, loop_bundle_index as int, extra);
        assert forall|b: int, u: int, i: int| 0 <= b < b3.len() && 0 <= u < 3 && 0 <= i < b3[b]@[u].len() implies
            i < b4[b]@[u].len() && #[trigger] b4[b]@[u][i] == b3[b]@[u][i] by {
            if loop_bundle_index < b3.len() {
                assert(grows_from(b3, b4));
                assert(b3[b]@[u].len() <= b4[b]@[u].len());
            }
        }
    }
    fill_unwritten(&mut bundles, next);
    proof {
        lemma_renamed_keeps(b4, bundles@, 0);
        lemma_placed_keeps(p, s, b4, bundles@, loop_bundle_index as int, extra, 0);
        lemma_reads_follow(p, t, s, b1, b2, b3, b4, bundles@, loop_bundle_index as int, extra);
        lemma_dests_numbered(p, s, b0, b1, b2, b3, b4, bundles@, loop_bundle_index as int, extra);
        lemma_branches_renamed_placed(p, s, b4, bundles@, loop_bundle_index as int, extra);
        lemma_only_moves(p, t, s, b0, b1, b2, b3, b4, bundles@, loop_bundle_index as int, extra, movs@);
        lemma_post_reads(p, t, s, b1, b2, b3, b4, bundles@, loop_bundle_index as int, extra, movs@);
    }
    bundles
}

} // verus!
