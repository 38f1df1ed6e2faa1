//! Software pipelining: modulo scheduling of the loop body, with list
//! scheduling of the code before and after it, and the layout of the result
//! in five-slot bundles.
use vstd::prelude::*;
use crate::instruction::{
    ExecutionUnit, Instruction, spec_unit, spec_dest, unit_index, unit_at, unit_latency,
    unit_capacity,
};
use crate::dependency::{
    Dependency, DependencyList, dep_kept, dep_candidate, dep_at, spec_dependency_type,
    is_dependency_table, is_dependency_list_of, loop_bounds, last_loop_before, loop_target,
    is_loop_instruction, lemma_last_loop_range, all_dependencies, dep_index,
};
use crate::scheduler::{
    resource_bound, resource_bound_of, is_local_schedule, local_producers_before,
    local_producers, count_at, used_matches, first_free, record_use, local_schedule_with_usage,
    lemma_count_frame, unit_count, ceil_div, max_prefix, lemma_max_prefix, lemma_unit_count_le,
};

verus! {

/// The loop body can be software-pipelined: some code stands before it, and
/// it ends with its loop instruction.
pub open spec fn pip_bounds_ok(p: Seq<Instruction>) -> bool {
    1 <= loop_bounds(p).0 <= loop_bounds(p).1 < p.len()
}

/// Finds the loop body as `(first pc, pc of the loop instruction)`, from the
/// last loop instruction of the program; `(len, len)` where there is none.
pub fn find_loop_bounds(program: &Vec<Instruction>) -> (r: (usize, usize))
    ensures
        r.0 == loop_bounds(program@).0,
        r.1 == loop_bounds(program@).1,
{
    let mut loop_start = program.len();
    let mut loop_end = program.len();
    let mut index: usize = 0;
    while index < program.len()
        invariant
            index <= program.len(),
            last_loop_before(program@, index as int) < 0 ==> loop_start == program.len() && loop_end == program.len(),
            last_loop_before(program@, index as int) >= 0 ==> loop_end == last_loop_before(program@, index as int)
                && loop_start == loop_target(program@[loop_end as int]),
        decreases program.len() - index,
    {
        match program[index] {
            Instruction::Loop(imm) => {
                loop_start = imm;
                loop_end = index;
            },
            Instruction::LoopPip(imm) => {
                loop_start = imm;
                loop_end = index;
            },
            _ => {},
        }
        index = index + 1;
    }
    (loop_start, loop_end)
}

/// The initiation interval bound of the loop body: the fewest bundles that can
/// hold the body, unit by unit.
pub fn compute_initiation_interval(program: &Vec<Instruction>) -> (r: usize)
    requires
        loop_bounds(program@).0 <= loop_bounds(program@).1 + 1,
        loop_bounds(program@).1 < program.len(),
        program.len() < usize::MAX,
    ensures
        r == resource_bound(program@, loop_bounds(program@).0, loop_bounds(program@).1 + 1),
{
    let (loop_start, loop_end) = find_loop_bounds(program);
    resource_bound_of(program.as_slice(), loop_start, loop_end + 1)
}

/// The largest of `s[j] + latency - 1` over the first `n` instructions: the
/// last bundle in which one of them is still running; 0 for none.
pub open spec fn last_busy(p: Seq<Instruction>, s: Seq<usize>, n: int) -> int
    decreases n,
{
    if n <= 0 {
        0
    } else {
        let v = s[n - 1] + unit_latency(spec_unit(p[n - 1])) - 1;
        let r = last_busy(p, s, n - 1);
        if v > r { v } else { r }
    }
}

/// The first bundle at which the results of all the producers `ws` are
/// available; 0 for none.
pub open spec fn ready_over(p: Seq<Instruction>, s: Seq<usize>, ws: Seq<usize>) -> int
    decreases ws.len(),
{
    if ws.len() == 0 {
        0
    } else {
        let w = ws.last() as int;
        let v = s[w] + unit_latency(spec_unit(p[w]));
        let r = ready_over(p, s, ws.drop_last());
        if v > r { v } else { r }
    }
}

/// The producers of every kind, in the order of the kinds.
pub open spec fn all_producers(l: Seq<Seq<usize>>) -> Seq<usize> {
    l[0] + l[1] + l[2] + l[3]
}

/// How many instructions of the loop body `[from, to)` that are not loop
/// instructions run on unit `u` at a bundle `t` with `(t - base) % ii == k`.
pub open spec fn modulo_count(
    p: Seq<Instruction>,
    s: Seq<usize>,
    from: int,
    to: int,
    u: ExecutionUnit,
    base: int,
    ii: int,
    k: int,
) -> nat
    decreases to - from,
{
    if to <= from {
        0
    } else {
        modulo_count(p, s, from, to - 1, u, base, ii, k) + (if spec_unit(p[to - 1]) == u
            && !is_loop_instruction(p[to - 1]) && (s[to - 1] - base) % ii == k { 1nat } else { 0nat })
    }
}

/// Where the producers of a reader stand: before the reader, but for the
/// values carried from one iteration to the next.
proof fn lemma_producer_position(p: Seq<Instruction>, table: Seq<DependencyList>, r: int, t: int, w: usize)
    requires
        is_dependency_table(p, table),
        pip_bounds_ok(p),
        0 <= r < p.len(),
        0 <= t < 4,
        table[r]@[t].contains(w),
    ensures
        w < p.len(),
        spec_dest(p[w as int]) is Some,
        r > loop_bounds(p).1 ==> w < r,
        loop_bounds(p).0 <= r <= loop_bounds(p).1 ==> w < loop_bounds(p).1,
        loop_bounds(p).0 <= r <= loop_bounds(p).1 && t != 1 ==> w < r,
        loop_bounds(p).0 <= r <= loop_bounds(p).1 && t == 1 ==> (w < loop_bounds(p).0 || r <= w),
        r < loop_bounds(p).0 ==> w < r,
{
    assert(is_dependency_list_of(p, r, table[r]@));
    assert(dep_kept(p, r, dep_at(t), w as int));
    lemma_last_loop_range(p, p.len() as int);
    let le = loop_bounds(p).1;
    assert(is_loop_instruction(p[le]));
    assert(spec_dest(p[le]) is None);
}

/// The largest result of `ready_over` is at least each producer's finish.
proof fn lemma_ready_over_ge(p: Seq<Instruction>, s: Seq<usize>, ws: Seq<usize>, i: int)
    requires
        0 <= i < ws.len(),
    ensures
        ready_over(p, s, ws) >= s[ws[i] as int] + unit_latency(spec_unit(p[ws[i] as int])),
        ready_over(p, s, ws) >= 0,
    decreases ws.len(),
{
    if i < ws.len() - 1 {
        lemma_ready_over_ge(p, s, ws.drop_last(), i);
        assert(ws.drop_last()[i] == ws[i]);
    }
    lemma_ready_over_nonneg(p, s, ws.drop_last());
}

proof fn lemma_ready_over_nonneg(p: Seq<Instruction>, s: Seq<usize>, ws: Seq<usize>)
    ensures
        ready_over(p, s, ws) >= 0,
    decreases ws.len(),
{
    if ws.len() > 0 {
        lemma_ready_over_nonneg(p, s, ws.drop_last());
    }
}

/// `ready_over` reads only the bundles of the producers.
proof fn lemma_ready_over_frame(p: Seq<Instruction>, s1: Seq<usize>, s2: Seq<usize>, ws: Seq<usize>)
    requires
        forall|i: int| 0 <= i < ws.len() ==> s1[#[trigger] ws[i] as int] == s2[ws[i] as int],
    ensures
        ready_over(p, s1, ws) == ready_over(p, s2, ws),
    decreases ws.len(),
{
    if ws.len() > 0 {
        let d = ws.drop_last();
        assert forall|i: int| 0 <= i < d.len() implies s1[#[trigger] d[i] as int] == s2[d[i] as int] by {
            assert(d[i] == ws[i]);
        }
        lemma_ready_over_frame(p, s1, s2, d);
        assert(ws[ws.len() - 1] == ws.last());
    }
}

pub(crate) proof fn lemma_last_busy_ge(p: Seq<Instruction>, s: Seq<usize>, n: int, j: int)
    requires
        0 <= j < n,
    ensures
        last_busy(p, s, n) >= s[j] + unit_latency(spec_unit(p[j])) - 1,
        last_busy(p, s, n) >= s[j],
    decreases n,
{
    if j < n - 1 {
        lemma_last_busy_ge(p, s, n - 1, j);
    }
}

proof fn lemma_last_busy_frame(p: Seq<Instruction>, s1: Seq<usize>, s2: Seq<usize>, n: int)
    requires
        forall|j: int| 0 <= j < n ==> s1[j] == s2[j],
    ensures
        last_busy(p, s1, n) == last_busy(p, s2, n),
    decreases n,
{
    if n > 0 {
        lemma_last_busy_frame(p, s1, s2, n - 1);
    }
}


/// The first bundle from `t` on in which unit `u` has room after the first
/// `n` instructions, placed at `s`.
pub open spec fn room_from(p: Seq<Instruction>, s: Seq<usize>, n: int, u: ExecutionUnit, t: int) -> int
    decreases max_prefix(s, n) + 1 - t,
{
    if t > max_prefix(s, n) || count_at(p, s, n, u, t) < unit_capacity(u) {
        t
    } else {
        room_from(p, s, n, u, t + 1)
    }
}

proof fn lemma_room_exact(p: Seq<Instruction>, s: Seq<usize>, n: int, u: ExecutionUnit, t: int, r: int)
    requires
        0 <= n <= s.len(),
        t <= r,
        forall|x: int| t <= x < r ==> count_at(p, s, n, u, x) >= unit_capacity(u),
        count_at(p, s, n, u, r) < unit_capacity(u),
    ensures
        room_from(p, s, n, u, t) == r,
    decreases r - t,
{
    if t < r {
        assert(count_at(p, s, n, u, t) >= unit_capacity(u));
        lemma_max_prefix(s, n);
        if t > max_prefix(s, n) {
            assert forall|j: int| 0 <= j < n implies s[j] < t by {}
            crate::scheduler::lemma_count_zero_above(p, s, n, u, t);
        }
        lemma_room_exact(p, s, n, u, t + 1, r);
    }
}

proof fn lemma_room_le(p: Seq<Instruction>, s: Seq<usize>, n: int, u: ExecutionUnit, t: int)
    requires
        0 <= n <= s.len(),
    ensures
        t <= room_from(p, s, n, u, t),
        room_from(p, s, n, u, t) <= t || room_from(p, s, n, u, t) <= max_prefix(s, n) + 1,
    decreases max_prefix(s, n) + 1 - t,
{
    if !(t > max_prefix(s, n) || count_at(p, s, n, u, t) < unit_capacity(u)) {
        lemma_room_le(p, s, n, u, t + 1);
    }
}

/// The bundle an instruction of the loop body at `r` asks for before its
/// reservation, after its producers of the first `k` kinds: the latest
/// finish among them, pushed to the next bundle with room after each kind.
pub open spec fn loop_ready(p: Seq<Instruction>, table: Seq<DependencyList>, s: Seq<usize>, r: int, base: int, k: int) -> int
    decreases k,
{
    if k <= 0 {
        base
    } else {
        let prev = loop_ready(p, table, s, r, base, k - 1);
        let d = ready_over(p, s, table[r]@[k - 1]);
        room_from(p, s, r, spec_unit(p[r]), if d > prev { d } else { prev })
    }
}

/// How many of the first `n` instructions of the loop body that runs from
/// `ls` on unit `u` reserved row `k`, `rows` holding each one's row.
pub open spec fn reserved_at(p: Seq<Instruction>, rows: Seq<int>, ls: int, n: int, u: ExecutionUnit, k: int) -> nat
    decreases n,
{
    if n <= 0 {
        0
    } else {
        reserved_at(p, rows, ls, n - 1, u, k) + (if spec_unit(p[ls + n - 1]) == u && rows[n - 1] == k { 1nat } else { 0nat })
    }
}

proof fn lemma_reserved_at_frame(p: Seq<Instruction>, rows: Seq<int>, x: int, ls: int, n: int, u: ExecutionUnit, k: int)
    requires
        0 <= n <= rows.len(),
    ensures
        reserved_at(p, rows.push(x), ls, n, u, k) == reserved_at(p, rows, ls, n, u, k),
    decreases n,
{
    if n > 0 {
        lemma_reserved_at_frame(p, rows, x, ls, n - 1, u, k);
        assert(rows.push(x)[n - 1] == rows[n - 1]);
    }
}

/// The row the instruction of unit `u` takes: the first of `r0`, `r0 + 1`,
/// ... with room, counted from `r0`; `ii` when every row of the table is
/// taken; -1 when the search runs past the end of the table.
pub open spec fn slot_found(p: Seq<Instruction>, rows: Seq<int>, ls: int, n: int, u: ExecutionUnit, r0: int, ii: int, i: int) -> int
    decreases ii - i,
{
    if i >= ii {
        ii
    } else if r0 + i >= ii {
        -1
    } else if reserved_at(p, rows, ls, n, u, r0 + i) < unit_capacity(u) {
        i
    } else {
        slot_found(p, rows, ls, n, u, r0, ii, i + 1)
    }
}

/// The values that the producers `ws` carry to the next iteration are ready
/// within one interval of bundle `sr`.
pub open spec fn carried_ok(p: Seq<Instruction>, s: Seq<usize>, ws: Seq<usize>, sr: int, ii: int) -> bool {
    forall|j: int| 0 <= j < ws.len() ==> s[#[trigger] ws[j] as int] + unit_latency(spec_unit(p[ws[j] as int])) <= sr + ii
}

/// The try at interval `ii` after the first `n` instructions of the loop
/// body: `(status, bundles, rows, last bundle)`, the status being 0 while
/// every instruction found its place, 1 once the interval proved too short,
/// and 2 once a reservation search ran past the end of the table.
pub open spec fn try_state(
    p: Seq<Instruction>,
    table: Seq<DependencyList>,
    clean: Seq<usize>,
    b0: int,
    ls: int,
    ii: int,
    n: int,
) -> (int, Seq<usize>, Seq<int>, int)
    decreases n,
{
    if n <= 0 {
        (0, clean, seq![], b0 + 1)
    } else {
        let prev = try_state(p, table, clean, b0, ls, ii, n - 1);
        if prev.0 != 0 {
            prev
        } else {
            let s = prev.1;
            let rows = prev.2;
            let b1 = prev.3;
            let r = ls + n - 1;
            let u = spec_unit(p[r]);
            let sup = loop_ready(p, table, s, r, b0 + 1, 4);
            let r0 = (sup - (b0 + 1)) % ii;
            let i = slot_found(p, rows, ls, n - 1, u, r0, ii, 0);
            if i == ii {
                (1, s, rows, b1)
            } else if i < 0 {
                (2, s, rows, b1)
            } else {
                let sup2 = if is_loop_instruction(p[r]) { sup + ii - 1 } else { sup };
                let sr = sup2 + i;
                let s2 = s.update(r, sr as usize);
                if !carried_ok(p, s2, table[r]@[1], sr, ii) {
                    (1, s2, rows, b1)
                } else {
                    (0, s2, rows.push(r0 + i), if sup2 > b1 { sr } else { b1 })
                }
            }
        }
    }
}

/// Every value that an instruction of the loop body `ls..=le` reads from the
/// previous iteration is ready when the next iteration, `ii` bundles later,
/// reads it: `s[w] + latency(w) <= s[r] + ii` for each loop-carried
/// producer `w` of each reader `r`.
pub open spec fn carried_ready(p: Seq<Instruction>, table: Seq<DependencyList>, s: Seq<usize>, ls: int, le: int, ii: int) -> bool {
    forall|r: int, j: int| ls <= r <= le && 0 <= j < table[r]@[1].len() ==>
        s[#[trigger] table[r]@[1][j] as int] + unit_latency(spec_unit(p[table[r]@[1][j] as int])) <= s[r] + ii
}

/// The try at interval `ii` once the whole body `n` is placed: as
/// `try_state`, except that a placement in which a loop-carried value would
/// not be ready in time (`carried_ready`) is rejected too.
pub open spec fn try_outcome(
    p: Seq<Instruction>,
    table: Seq<DependencyList>,
    clean: Seq<usize>,
    b0: int,
    ls: int,
    ii: int,
    n: int,
) -> (int, Seq<usize>, Seq<int>, int) {
    let t = try_state(p, table, clean, b0, ls, ii, n);
    if t.0 == 0 && !carried_ready(p, table, t.1, ls, ls + n - 1, ii) {
        (1, t.1, t.2, t.3)
    } else {
        t
    }
}

/// The largest interval tried: the body's length, or 3.
pub open spec fn interval_cap(ls: int, le: int) -> int {
    if le - ls + 1 > 3 { le - ls + 1 } else { 3 }
}

/// The search for an interval, from `ii` up to `interval_cap`: `(status,
/// bundles, last bundle, interval)` of the first try that is not rejected,
/// or of the try at the cap (rejected too) where every one is.
pub open spec fn pip_search(
    p: Seq<Instruction>,
    table: Seq<DependencyList>,
    clean: Seq<usize>,
    b0: int,
    ls: int,
    le: int,
    ii: int,
) -> (int, Seq<usize>, int, int)
    decreases interval_cap(ls, le) - ii,
{
    let t = try_outcome(p, table, clean, b0, ls, ii, le - ls + 1);
    if t.0 == 1 && ii < interval_cap(ls, le) {
        pip_search(p, table, clean, b0, ls, le, ii + 1)
    } else {
        (t.0, t.1, t.3, ii)
    }
}

/// The reservations of unit `u` in the first `k` rows of the table.
spec fn reserved_sum(res: Seq<[usize; 4]>, u: int, k: int) -> int
    decreases k,
{
    if k <= 0 {
        0
    } else {
        reserved_sum(res, u, k - 1) + res[k - 1]@[u]
    }
}

proof fn lemma_reserved_sum_update(res: Seq<[usize; 4]>, idx: int, u: int, row: [usize; 4], v: int, k: int)
    requires
        0 <= idx < res.len(),
        0 <= u < 4,
        0 <= v < 4,
        res[idx]@[u] < usize::MAX,
        row@ == res[idx]@.update(u, (res[idx]@[u] + 1) as usize),
        k <= res.len(),
    ensures
        reserved_sum(res.update(idx, row), v, k) == reserved_sum(res, v, k) + (if v == u && idx < k { 1int } else { 0int }),
    decreases k,
{
    if k > 0 {
        lemma_reserved_sum_update(res, idx, u, row, v, k - 1);
        if k - 1 == idx {
            assert(res.update(idx, row)[k - 1] == row);
            assert(row@[v] == res[idx]@[v] + (if v == u { 1int } else { 0int }));
        } else {
            assert(res.update(idx, row)[k - 1] == res[k - 1]);
        }
    }
}

proof fn lemma_mod_shift(a: int, m: int, i: int)
    requires
        a >= 0,
        m > 0,
        i >= 0,
        a % m + i < m,
    ensures
        (a + i) % m == a % m + i,
{
    vstd::arithmetic::div_mod::lemma_fundamental_div_mod(a, m);
    vstd::arithmetic::div_mod::lemma_mod_pos_bound(a, m);
    vstd::arithmetic::mul::lemma_mul_is_commutative(m, a / m);
    vstd::arithmetic::div_mod::lemma_fundamental_div_mod_converse(a + i, m, a / m, a % m + i);
}

proof fn lemma_modulo_count_frame(
    p: Seq<Instruction>, s1: Seq<usize>, s2: Seq<usize>, from: int, to: int,
    u: ExecutionUnit, base: int, ii: int, k: int,
)
    requires
        forall|j: int| from <= j < to ==> s1[j] == s2[j],
    ensures
        modulo_count(p, s1, from, to, u, base, ii, k) == modulo_count(p, s2, from, to, u, base, ii, k),
    decreases to - from,
{
    if to > from {
        lemma_modulo_count_frame(p, s1, s2, from, to - 1, u, base, ii, k);
    }
}

/// The outcome of one try at placing the loop body with a given interval.
enum Attempt {
    /// Every loop instruction found a bundle: the schedule, the usage table
    /// and the last bundle recorded for the body.
    Placed(Vec<usize>, Vec<Vec<usize>>, usize),
    /// The interval is too short for the body.
    Rejected,
    /// A reservation fell outside the table, or a bundle number left `usize`.
    Failed,
}

/// The loop instructions `[ls, ls + n)` are placed after bundle `b0`, after
/// the producers that precede them, and no residue of the interval holds more
/// of them on one unit than the unit has.
pub open spec fn body_placed(p: Seq<Instruction>, table: Seq<DependencyList>, s: Seq<usize>, ls: int, n: int, b0: int, ii: int) -> bool {
    &&& forall|j: int| ls <= j < ls + n ==> s[j] > b0
    &&& forall|j: int, t: int, w: usize| ls <= j < ls + n && 0 <= t < 4 && #[trigger] table[j]@[t].contains(w) && w < j ==>
        s[w as int] + unit_latency(spec_unit(p[w as int])) <= s[j]
}

fn copy_usizes(v: &Vec<usize>) -> (r: Vec<usize>)
    ensures
        r@ == v@,
{
    let mut r: Vec<usize> = Vec::new();
    let mut i: usize = 0;
    while i < v.len()
        invariant
            i <= v.len(),
            r@ == v@.take(i as int),
        decreases v.len() - i,
    {
        r.push(v[i]);
        i = i + 1;
        assert(r@ =~= v@.take(i as int));
    }
    assert(v@.take(v.len() as int) =~= v@);
    r
}

fn copy_usage(v: &Vec<Vec<usize>>) -> (r: Vec<Vec<usize>>)
    ensures
        r@.len() == v@.len(),
        forall|i: int| 0 <= i < v@.len() ==> #[trigger] r@[i]@ == v@[i]@,
{
    let mut r: Vec<Vec<usize>> = Vec::new();
    let mut i: usize = 0;
    while i < v.len()
        invariant
            i <= v.len(),
            r@.len() == i,
            forall|k: int| 0 <= k < i ==> #[trigger] r@[k]@ == v@[k]@,
        decreases v.len() - i,
    {
        r.push(copy_usizes(&v[i]));
        i = i + 1;
    }
    r
}

proof fn lemma_usage_copy(p: Seq<Instruction>, s: Seq<usize>, n: int, a: Seq<Vec<usize>>, b: Seq<Vec<usize>>)
    requires
        used_matches(p, s, n, a),
        a.len() == b.len(),
        forall|i: int| 0 <= i < a.len() ==> #[trigger] b[i]@ == a[i]@,
    ensures
        used_matches(p, s, n, b),
{
    assert forall|u: int, t: int| 0 <= u < 4 && 0 <= t implies
        #[trigger] count_at(p, s, n, unit_at(u), t) == (if t < b[u]@.len() { b[u]@[t] as nat } else { 0nat }) by {
        assert(b[u]@ == a[u]@);
    }
}


proof fn lemma_reserved_sum_zero(res: Seq<[usize; 4]>, u: int, k: int)
    requires
        0 <= k <= res.len(),
        forall|x: int| 0 <= x < k ==> #[trigger] res[x]@[u] == 0,
    ensures
        reserved_sum(res, u, k) == 0,
    decreases k,
{
    if k > 0 {
        lemma_reserved_sum_zero(res, u, k - 1);
    }
}

proof fn lemma_used_frame(p: Seq<Instruction>, s1: Seq<usize>, s2: Seq<usize>, n: int, used: Seq<Vec<usize>>)
    requires
        used_matches(p, s1, n, used),
        forall|j: int| 0 <= j < n ==> s1[j] == s2[j],
    ensures
        used_matches(p, s2, n, used),
{
    assert forall|u: int, t: int| 0 <= u < 4 && 0 <= t implies
        #[trigger] count_at(p, s2, n, unit_at(u), t) == (if t < used[u]@.len() { used[u]@[t] as nat } else { 0nat }) by {
        lemma_count_frame(p, s1, s2, n, unit_at(u), t);
    }
}

/// Where the search for a reservation slot ended.
enum Slot {
    /// The slot `r0 + i` has room.
    Free(usize),
    /// Every slot of the table is taken for the unit.
    Full,
    /// The search ran past the end of the table at its `i`-th row.
    OutOfTable(usize),
}

/// Row `k` of the reservation table has no room left for unit `u`.
spec fn row_full(reserved: Seq<[usize; 4]>, k: int, u: int, cap: usize) -> bool {
    reserved[k]@[u] >= cap
}

/// Looks for room for unit `unit_id` in the rows `r0, r0 + 1, ...` of the
/// reservation table, trying as many rows as the table has.
fn find_slot(reserved: &Vec<[usize; 4]>, r0: usize, unit_id: usize, cap: usize) -> (r: Slot)
    requires
        unit_id < 4,
        r0 < reserved@.len(),
    ensures
        r matches Slot::Free(i) ==> {
            &&& i < reserved@.len()
            &&& r0 + i < reserved@.len()
            &&& reserved@[r0 + i]@[unit_id as int] < cap
            &&& forall|k: int| r0 <= k < r0 + i ==> #[trigger] row_full(reserved@, k, unit_id as int, cap)
        },
        r is Full ==> r0 == 0 && forall|k: int| 0 <= k < reserved@.len() ==> #[trigger] row_full(reserved@, k, unit_id as int, cap),
        r matches Slot::OutOfTable(i) ==> i < reserved@.len() && r0 + i == reserved@.len()
            && forall|k: int| r0 <= k < r0 + i ==> #[trigger] row_full(reserved@, k, unit_id as int, cap),
{
    let ii = reserved.len();
    let mut i: usize = 0;
    while i < ii
        invariant
            i <= ii,
            ii == reserved@.len(),
            unit_id < 4,
            r0 < ii,
            r0 + i <= ii,
            forall|k: int| r0 <= k < r0 + i ==> #[trigger] row_full(reserved@, k, unit_id as int, cap),
        decreases ii - i,
    {
        if i >= ii - r0 {
            return Slot::OutOfTable(i);
        }
        let row = reserved[r0 + i];
        if row[unit_id] < cap {
            return Slot::Free(i);
        }
        proof {
            assert(row_full(reserved@, r0 + i, unit_id as int, cap));
        }
        i = i + 1;
    }
    Slot::Full
}

proof fn lemma_slot_found(p: Seq<Instruction>, rows: Seq<int>, ls: int, n: int, u: ExecutionUnit, r0: int, ii: int, i: int, j: int)
    requires
        0 <= i <= j,
        r0 + j <= ii,
        forall|k: int| r0 + i <= k < r0 + j ==> #[trigger] reserved_at(p, rows, ls, n, u, k) >= unit_capacity(u),
    ensures
        slot_found(p, rows, ls, n, u, r0, ii, i) == slot_found(p, rows, ls, n, u, r0, ii, j),
    decreases j - i,
{
    if i < j {
        assert(reserved_at(p, rows, ls, n, u, r0 + i) >= unit_capacity(u));
        lemma_slot_found(p, rows, ls, n, u, r0, ii, i + 1, j);
    }
}

/// What a successful try guarantees of the loop body `[ls, le]`.
spec fn placed_ok(
    p: Seq<Instruction>,
    table: Seq<DependencyList>,
    clean: Seq<usize>,
    s: Seq<usize>,
    used: Seq<Vec<usize>>,
    b1: int,
    b0: int,
    ls: int,
    le: int,
    ii: int,
) -> bool {
    &&& s.len() == le + 1
    &&& forall|j: int| 0 <= j < ls ==> s[j] == clean[j]
    &&& body_placed(p, table, s, ls, le - ls + 1, b0, ii)
    &&& forall|u: ExecutionUnit, k: int| 0 <= k < ii ==>
        #[trigger] modulo_count(p, s, ls, le + 1, u, b0 + 1, ii, k) <= unit_capacity(u)
    &&& used_matches(p, s, le + 1, used)
    &&& b1 > b0
    &&& b1 <= b0 + (le - ls + 1) * (2 * ii + 3) + 1
    &&& forall|j: int| 0 <= j <= le ==> s[j] <= b0 + (le - ls + 1) * (2 * ii + 3)
}

proof fn lemma_ready_over_le(p: Seq<Instruction>, s: Seq<usize>, ws: Seq<usize>, m: int)
    requires
        0 <= m,
        forall|i: int| 0 <= i < ws.len() ==> s[#[trigger] ws[i] as int] <= m,
    ensures
        ready_over(p, s, ws) <= m + 3,
    decreases ws.len(),
{
    if ws.len() > 0 {
        let d = ws.drop_last();
        assert forall|i: int| 0 <= i < d.len() implies s[#[trigger] d[i] as int] <= m by {
            assert(d[i] == ws[i]);
        }
        lemma_ready_over_le(p, s, d, m);
        assert(ws[ws.len() - 1] == ws.last());
    }
}

proof fn lemma_max_prefix_le(s: Seq<usize>, n: int, m: int)
    requires
        0 <= m,
        0 <= n <= s.len(),
        forall|j: int| 0 <= j < n ==> s[j] <= m,
    ensures
        max_prefix(s, n) <= m,
    decreases n,
{
    if n > 0 {
        lemma_max_prefix_le(s, n - 1, m);
    }
}

/// Places the loop body `[ls, le]` with initiation interval `ii`, starting
/// from the schedule and usage of the code before the loop; rejects the
/// interval where an instruction finds no reservation or a value carried to
/// the next iteration would not be ready in time (`try_outcome`).
#[verifier::rlimit(100)]
fn try_interval(
    program: &Vec<Instruction>,
    dependency_table: &Vec<DependencyList>,
    clean_schedule: &Vec<usize>,
    clean_used: &Vec<Vec<usize>>,
    b0: usize,
    ls: usize,
    le: usize,
    ii: usize,
) -> (r: Attempt)
    requires
        is_dependency_table(program@, dependency_table@),
        pip_bounds_ok(program@),
        ls == loop_bounds(program@).0,
        le == loop_bounds(program@).1,
        clean_schedule@.len() == le + 1,
        forall|j: int| ls <= j <= le ==> #[trigger] clean_schedule@[j] == b0,
        forall|j: int| 0 <= j < ls ==> #[trigger] clean_schedule@[j] + unit_latency(spec_unit(program@[j])) - 1 <= b0,
        used_matches(program@, clean_schedule@, ls as int, clean_used@),
        1 <= ii,
        b0 + (le - ls + 1) * (2 * ii + 3) + ii + 3 <= usize::MAX,
    ensures
        r is Rejected <==> try_outcome(program@, dependency_table@, clean_schedule@, b0 as int, ls as int, ii as int, le - ls + 1).0 == 1,
        r is Failed <==> try_outcome(program@, dependency_table@, clean_schedule@, b0 as int, ls as int, ii as int, le - ls + 1).0 == 2,
        r matches Attempt::Placed(s, used, b1) ==> {
            &&& try_outcome(program@, dependency_table@, clean_schedule@, b0 as int, ls as int, ii as int, le - ls + 1).0 == 0
            &&& try_outcome(program@, dependency_table@, clean_schedule@, b0 as int, ls as int, ii as int, le - ls + 1).1 == s@
            &&& try_outcome(program@, dependency_table@, clean_schedule@, b0 as int, ls as int, ii as int, le - ls + 1).3 == b1
            &&& placed_ok(program@, dependency_table@, clean_schedule@, s@, used@, b1 as int, b0 as int, ls as int, le as int, ii as int)
            &&& carried_ready(program@, dependency_table@, s@, ls as int, le as int, ii as int)
        },
{
    let ghost p = program@;
    let ghost table = dependency_table@;
    let ghost clean = clean_schedule@;
    let mut schedule = copy_usizes(clean_schedule);
    let mut used = copy_usage(clean_used);
    proof {
        lemma_usage_copy(p, clean_schedule@, ls as int, clean_used@, used@);
    }
    let mut reserved: Vec<[usize; 4]> = Vec::new();
    let mut k: usize = 0;
    while k < ii
        invariant
            k <= ii,
            reserved@.len() == k,
            forall|x: int, u: int| 0 <= x < k && 0 <= u < 4 ==> #[trigger] reserved@[x]@[u] == 0,
        decreases ii - k,
    {
        let row: [usize; 4] = [0usize, 0usize, 0usize, 0usize];
        reserved.push(row);
        k = k + 1;
    }
    let ghost mut rows: Seq<int> = seq![];
    proof {
        assert forall|u: int| 0 <= u < 4 implies reserved_sum(reserved@, u, ii as int) == 0 by {
            lemma_reserved_sum_zero(reserved@, u, ii as int);
        }
        assert forall|x: int, u: int| 0 <= x < ii && 0 <= u < 4 implies
            #[trigger] modulo_count(p, schedule@, ls as int, ls as int, unit_at(u), b0 + 1, ii as int, x) <= reserved@[x]@[u] by {
        }
        assert forall|j: int| 0 <= j <= le implies schedule@[j] <= b0 + 0 * (2 * ii + 3) by {
            if j < ls {
                assert(clean_schedule@[j] + unit_latency(spec_unit(p[j])) - 1 <= b0);
            }
        }
    }
    let base = b0 + 1;
    let mut b1 = base;
    let n = le - ls + 1;
    let mut pc: usize = 0;
    while pc < n
        invariant
            p == program@,
            table == dependency_table@,
            clean == clean_schedule@,
            is_dependency_table(p, table),
            pip_bounds_ok(p),
            ls == loop_bounds(p).0,
            le == loop_bounds(p).1,
            n == le - ls + 1,
            base == b0 + 1,
            1 <= ii,
            b0 + n * (2 * ii + 3) + ii + 3 <= usize::MAX,
            pc <= n,
            clean.len() == le + 1,
            forall|j: int| 0 <= j < ls ==> #[trigger] clean[j] + unit_latency(spec_unit(p[j])) - 1 <= b0,
            schedule@.len() == le + 1,
            forall|j: int| 0 <= j < ls ==> #[trigger] schedule@[j] == clean[j],
            forall|j: int| ls + pc <= j <= le ==> #[trigger] schedule@[j] == b0,
            forall|j: int| 0 <= j <= le ==> #[trigger] schedule@[j] <= b0 + pc * (2 * ii + 3),
            body_placed(p, table, schedule@, ls as int, pc as int, b0 as int, ii as int),
            reserved@.len() == ii,
            rows.len() == pc,
            try_state(p, table, clean, b0 as int, ls as int, ii as int, pc as int) == (0int, schedule@, rows, b1 as int),
            forall|x: int, u: int| 0 <= x < ii && 0 <= u < 4 ==>
                #[trigger] reserved@[x]@[u] == reserved_at(p, rows, ls as int, pc as int, unit_at(u), x),
            forall|x: int, u: int| 0 <= x < ii && 0 <= u < 4 ==> #[trigger] reserved@[x]@[u] <= unit_capacity(unit_at(u)),
            forall|x: int, u: int| 0 <= x < ii && 0 <= u < 4 ==>
                #[trigger] modulo_count(p, schedule@, ls as int, ls + pc, unit_at(u), b0 + 1, ii as int, x) <= reserved@[x]@[u],
            forall|u: int| 0 <= u < 4 ==> #[trigger] reserved_sum(reserved@, u, ii as int) <= pc,
            used_matches(p, schedule@, ls + pc, used@),
            b0 < b1 <= b0 + pc * (2 * ii + 3) + 1,
        decreases n - pc,
    {
        let r = ls + pc;
        let ghost s0 = schedule@;
        let ghost m = b0 + pc * (2 * ii + 3);
        let instr = program[r];
        let unit = instr.unit();
        let unit_id = unit.index();
        let cap = unit.nb_available();
        proof {
            assert(unit_at(unit_id as int) == unit);
            assert(r < program.len());
            assert((pc + 1) * (2 * ii + 3) == pc * (2 * ii + 3) + (2 * ii + 3)) by (nonlinear_arith);
            assert(pc * (2 * ii + 3) <= n * (2 * ii + 3)) by (nonlinear_arith)
                requires pc <= n;
            assert(0 <= pc * (2 * ii + 3)) by (nonlinear_arith);
            lemma_max_prefix_le(s0, r as int, m);
        }
        let mut supposed = base;
        let deps = Dependency::iter();
        let mut t: usize = 0;
        while t < 4
            invariant
                p == program@,
                table == dependency_table@,
                is_dependency_table(p, table),
                pip_bounds_ok(p),
                ls == loop_bounds(p).0,
                le == loop_bounds(p).1,
                ls <= r <= le,
                schedule@ == s0,
                s0.len() == le + 1,
                used@.len() == 4,
                used_matches(p, s0, r as int, used@),
                unit_id < 4,
                unit == spec_unit(p[r as int]),
                unit_at(unit_id as int) == unit,
                cap == unit_capacity(unit),
                t <= 4,
                deps@ == all_dependencies(),
                supposed >= base,
                base == b0 + 1,
                0 <= m,
                forall|j: int| 0 <= j <= le ==> #[trigger] s0[j] <= m,
                max_prefix(s0, r as int) <= m,
                supposed <= m + 3,
                m + 3 <= usize::MAX,
                supposed == loop_ready(p, table, s0, r as int, base as int, t as int),
                forall|tt: int, w: usize| 0 <= tt < t && #[trigger] table[r as int]@[tt].contains(w) ==>
                    supposed >= s0[w as int] + unit_latency(spec_unit(p[w as int])),
            decreases 4 - t,
        {
            let ws = dependency_table[r].iter(deps[t]);
            proof {
                assert(dep_index(deps@[t as int]) == t);
            }
            let ghost prev = supposed as int;
            let mut j: usize = 0;
            proof {
                lemma_ready_over_nonneg(p, s0, ws@.take(0));
                assert(ws@.take(0) =~= Seq::<usize>::empty());
            }
            while j < ws.len()
                invariant
                    p == program@,
                    table == dependency_table@,
                    is_dependency_table(p, table),
                    pip_bounds_ok(p),
                    ls <= r <= le,
                    le == loop_bounds(p).1,
                    schedule@ == s0,
                    s0.len() == le + 1,
                    t < 4,
                    ws@ == table[r as int]@[t as int],
                    j <= ws@.len(),
                    prev >= base,
                    prev <= m + 3,
                    0 <= m,
                    m + 3 <= usize::MAX,
                    forall|x: int| 0 <= x <= le ==> #[trigger] s0[x] <= m,
                    supposed == (if ready_over(p, s0, ws@.take(j as int)) > prev { ready_over(p, s0, ws@.take(j as int)) } else { prev }),
                    forall|tt: int, w: usize| 0 <= tt < t && #[trigger] table[r as int]@[tt].contains(w) ==>
                        supposed >= s0[w as int] + unit_latency(spec_unit(p[w as int])),
                    forall|jj: int| 0 <= jj < j ==>
                        supposed >= s0[#[trigger] ws@[jj] as int] + unit_latency(spec_unit(p[ws@[jj] as int])),
                decreases ws.len() - j,
            {
                let w = ws[j];
                proof {
                    assert(table[r as int]@[t as int].contains(w));
                    lemma_producer_position(p, table, r as int, t as int, w);
                    assert(s0[w as int] <= m);
                }
                let lat = program[w].unit().latency() as usize;
                let c = schedule[w] + lat;
                if c > supposed {
                    supposed = c;
                }
                proof {
                    let a = ws@.take(j as int);
                    let b = ws@.take(j + 1);
                    assert(b.drop_last() =~= a);
                    assert(b.last() == w);
                }
                j = j + 1;
            }
            proof {
                assert(ws@.take(ws@.len() as int) =~= ws@);
                assert forall|w: usize| #[trigger] table[r as int]@[t as int].contains(w) implies
                    supposed >= s0[w as int] + unit_latency(spec_unit(p[w as int])) by {
                    let jj = choose|jj: int| 0 <= jj < ws@.len() && ws@[jj] == w;
                    assert(ws@[jj] == w);
                }
                assert forall|i: int| 0 <= i < ws@.len() implies s0[#[trigger] ws@[i] as int] <= m by {
                    assert(table[r as int]@[t as int].contains(ws@[i]));
                    lemma_producer_position(p, table, r as int, t as int, ws@[i]);
                }
                lemma_ready_over_le(p, s0, ws@, m);
            }
            let ghost before_room = supposed as int;
            supposed = first_free(&used, unit_id, cap, supposed);
            proof {
                let u = unit;
                assert forall|x: int| before_room <= x < supposed implies count_at(p, s0, r as int, u, x) >= unit_capacity(u) by {
                    assert(used@[unit_id as int]@[x] >= cap);
                    assert(count_at(p, s0, r as int, unit_at(unit_id as int), x) == used@[unit_id as int]@[x] as nat);
                }
                assert(count_at(p, s0, r as int, unit_at(unit_id as int), supposed as int)
                    == (if supposed < used@[unit_id as int]@.len() { used@[unit_id as int]@[supposed as int] as nat } else { 0nat }));
                lemma_room_exact(p, s0, r as int, u, before_room, supposed as int);
                lemma_room_le(p, s0, r as int, u, before_room);
                assert(loop_ready(p, table, s0, r as int, base as int, t + 1) == supposed);
            }
            t = t + 1;
        }
        let r0 = (supposed - base) % ii;
        let slot = find_slot(&reserved, r0, unit_id, cap);
        let ghost sup = supposed as int;
        proof {
            assert forall|x: int| 0 <= x < ii implies
                #[trigger] reserved@[x]@[unit_id as int] == reserved_at(p, rows, ls as int, pc as int, unit, x) by {
            }
        }
        let i = match slot {
            Slot::OutOfTable(i0) => {
                proof {
                    assert forall|k: int| r0 + 0 <= k < r0 + i0 implies
                        #[trigger] reserved_at(p, rows, ls as int, pc as int, unit, k) >= unit_capacity(unit) by {
                        assert(row_full(reserved@, k, unit_id as int, cap));
                    }
                    lemma_slot_found(p, rows, ls as int, pc as int, unit, r0 as int, ii as int, 0, i0 as int);
                    lemma_try_state_stuck(p, table, clean, b0 as int, ls as int, ii as int, pc as int + 1, n as int);
                }
                return Attempt::Failed;
            },
            Slot::Full => {
                proof {
                    assert forall|k: int| 0 <= k < ii implies #[trigger] reserved@[k]@[unit_id as int] >= cap by {
                        assert(row_full(reserved@, k, unit_id as int, cap));
                    }
                    assert forall|k: int| r0 + 0 <= k < r0 + ii implies
                        #[trigger] reserved_at(p, rows, ls as int, pc as int, unit, k) >= unit_capacity(unit) by {
                        assert(row_full(reserved@, k, unit_id as int, cap));
                    }
                    lemma_slot_found(p, rows, ls as int, pc as int, unit, r0 as int, ii as int, 0, ii as int);
                    lemma_try_state_stuck(p, table, clean, b0 as int, ls as int, ii as int, pc as int + 1, n as int);
                }
                return Attempt::Rejected;
            },
            Slot::Free(i) => i,
        };
        let index = r0 + i;
        proof {
            assert forall|k: int| r0 + 0 <= k < r0 + i implies
                #[trigger] reserved_at(p, rows, ls as int, pc as int, unit, k) >= unit_capacity(unit) by {
                assert(row_full(reserved@, k, unit_id as int, cap));
            }
            lemma_slot_found(p, rows, ls as int, pc as int, unit, r0 as int, ii as int, 0, i as int);
            assert(slot_found(p, rows, ls as int, pc as int, unit, r0 as int, ii as int, 0) == i);
        }
        let ghost res0 = reserved@;
        let mut row = reserved[index];
        row[unit_id] = row[unit_id] + 1;
        reserved.set(index, row);
        proof {
            assert(row@ =~= res0[index as int]@.update(unit_id as int, (res0[index as int]@[unit_id as int] + 1) as usize));
            assert forall|v: int| 0 <= v < 4 implies #[trigger] reserved_sum(reserved@, v, ii as int) <= pc + 1 by {
                lemma_reserved_sum_update(res0, index as int, unit_id as int, row, v, ii as int);
            }
        }
        let is_loop = match instr {
            Instruction::Loop(_) => true,
            Instruction::LoopPip(_) => true,
            _ => false,
        };
        proof {
            assert(is_loop == is_loop_instruction(p[r as int]));
            assert(m + 2 * ii + 3 <= b0 + n * (2 * ii + 3)) by (nonlinear_arith)
                requires
                    m == b0 + pc * (2 * ii + 3),
                    pc + 1 <= n,
            ;
        }
        if is_loop {
            supposed = supposed + (ii - 1);
        }
        let placed = supposed + i;
        let ghost sup2 = supposed as int;
        schedule.set(r, placed);
        proof {
            let s1 = schedule@;
            assert(s1 == s0.update(r as int, placed));
            if !is_loop {
                lemma_mod_shift((supposed - base) as int, ii as int, i as int);
            }
            assert forall|x: int, u: int| 0 <= x < ii && 0 <= u < 4 implies
                #[trigger] modulo_count(p, s1, ls as int, ls + pc + 1, unit_at(u), b0 + 1, ii as int, x) <= reserved@[x]@[u] by {
                lemma_modulo_count_frame(p, s0, s1, ls as int, ls + pc, unit_at(u), b0 + 1, ii as int, x);
                if x == index && u == unit_id {
                    assert(reserved@[x]@[u] == res0[x]@[u] + 1);
                } else {
                    assert(reserved@[x]@[u] == res0[x]@[u]);
                }
            }
        }
        let inter = dependency_table[r].iter(Dependency::InterLoop);
        let mut j: usize = 0;
        while j < inter.len()
            invariant
                p == program@,
                table == dependency_table@,
                is_dependency_table(p, table),
                pip_bounds_ok(p),
                ls == loop_bounds(p).0,
                le == loop_bounds(p).1,
                ls <= r <= le,
                r == ls + pc,
                schedule@ == s0.update(r as int, placed),
                s0.len() == le + 1,
                placed > b0,
                placed <= m + 2 * ii + 1,
                m + 2 * ii + 3 + ii + 3 <= usize::MAX,
                forall|x: int| 0 <= x <= le ==> #[trigger] s0[x] <= m,
                m + 3 <= usize::MAX,
                forall|jj: int| 0 <= jj < ls ==> #[trigger] s0[jj] + unit_latency(spec_unit(p[jj])) - 1 <= b0,
                forall|jj: int| ls + pc <= jj <= le ==> #[trigger] s0[jj] == b0,
                inter@ == table[r as int]@[1],
                j <= inter@.len(),
                clean == clean_schedule@,
                rows.len() == pc,
                pc < n,
                n == le - ls + 1,
                try_state(p, table, clean, b0 as int, ls as int, ii as int, pc as int) == (0int, s0, rows, b1 as int),
                sup == loop_ready(p, table, s0, r as int, b0 + 1, 4),
                r0 == (sup - (b0 + 1)) % (ii as int),
                slot_found(p, rows, ls as int, pc as int, spec_unit(p[r as int]), r0 as int, ii as int, 0) == i,
                i < ii,
                placed == (if is_loop_instruction(p[r as int]) { sup + ii - 1 } else { sup }) + i,
                forall|jj: int| 0 <= jj < j ==> schedule@[#[trigger] inter@[jj] as int] + unit_latency(spec_unit(p[inter@[jj] as int])) <= placed + ii,
            decreases inter.len() - j,
        {
            let w = inter[j];
            proof {
                assert(table[r as int]@[1].contains(w));
                lemma_producer_position(p, table, r as int, 1, w);
                if w != r {
                    assert(schedule@[w as int] == s0[w as int]);
                }
            }
            let lat = program[w].unit().latency() as usize;
            let lhs = schedule[w] + lat;
            let rhs = schedule[r] + ii;
            if lhs > rhs {
                proof {
                    if w < ls {
                        assert(s0[w as int] + unit_latency(spec_unit(p[w as int])) - 1 <= b0);
                    } else if w > r {
                        assert(s0[w as int] == b0);
                    }
                    assert(!carried_ok(p, schedule@, table[r as int]@[1], placed as int, ii as int));
                    assert(try_state(p, table, clean, b0 as int, ls as int, ii as int, pc + 1).0 == 1);
                    lemma_try_state_stuck(p, table, clean, b0 as int, ls as int, ii as int, pc as int + 1, n as int);
                }
                return Attempt::Rejected;
            }
            j = j + 1;
        }
        let ghost b1_old = b1 as int;
        b1 = if supposed > b1 {
            placed
        } else {
            b1
        };
        proof {
            lemma_used_frame(p, s0, schedule@, ls + pc, used@);
        }
        record_use(&mut used, unit_id, placed, Ghost(p), Ghost(schedule@), Ghost(r as int));
        proof {
            let s1 = schedule@;
            assert forall|jj: int, tt: int, w: usize| ls <= jj < ls + pc + 1 && 0 <= tt < 4
                && #[trigger] table[jj]@[tt].contains(w) && w < jj implies
                s1[w as int] + unit_latency(spec_unit(p[w as int])) <= s1[jj] by {
                if jj < r {
                    assert(s1[jj] == s0[jj]);
                    assert(s1[w as int] == s0[w as int]);
                } else {
                    assert(s1[w as int] == s0[w as int]);
                }
            }
            assert(carried_ok(p, s1, table[r as int]@[1], placed as int, ii as int));
            let nrows = rows.push(index as int);
            assert forall|x: int, u: int| 0 <= x < ii && 0 <= u < 4 implies
                #[trigger] reserved@[x]@[u] == reserved_at(p, nrows, ls as int, pc + 1, unit_at(u), x) by {
                lemma_reserved_at_frame(p, rows, index as int, ls as int, pc as int, unit_at(u), x);
                assert(nrows[pc as int] == index);
                if x == index && u == unit_id {
                    assert(reserved@[x]@[u] == res0[x]@[u] + 1);
                } else {
                    assert(reserved@[x]@[u] == res0[x]@[u]);
                }
            }
            assert(try_state(p, table, clean, b0 as int, ls as int, ii as int, pc + 1) == (0int, s1, nrows, b1 as int));
            rows = nrows;
        }
        pc = pc + 1;
    }
    proof {
        let s1 = schedule@;
        assert forall|u: ExecutionUnit, k: int| 0 <= k < ii implies
            #[trigger] modulo_count(p, s1, ls as int, le + 1, u, b0 + 1, ii as int, k) <= unit_capacity(u) by {
            let ui = unit_index(u);
            assert(unit_at(ui) == u);
            assert(modulo_count(p, s1, ls as int, ls + pc, unit_at(ui), b0 + 1, ii as int, k) <= reserved@[k]@[ui]);
        }
    }
    let ghost sf = schedule@;
    let mut r = ls;
    while r <= le
        invariant
            p == program@,
            table == dependency_table@,
            is_dependency_table(p, table),
            pip_bounds_ok(p),
            ls == loop_bounds(p).0,
            le == loop_bounds(p).1,
            sf == schedule@,
            sf.len() == le + 1,
            le < p.len(),
            le < program.len(),
            clean == clean_schedule@,
            ls <= r <= le + 1,
            forall|j: int| 0 <= j <= le ==> #[trigger] sf[j] <= b0 + n * (2 * ii + 3),
            b0 + n * (2 * ii + 3) + ii + 3 <= usize::MAX,
            n == le - ls + 1,
            try_state(p, table, clean, b0 as int, ls as int, ii as int, n as int) == (0int, sf, rows, b1 as int),
            forall|q: int, j: int| ls <= q < r && 0 <= j < table[q]@[1].len() ==>
                sf[#[trigger] table[q]@[1][j] as int] + unit_latency(spec_unit(p[table[q]@[1][j] as int])) <= sf[q] + ii,
        decreases le + 1 - r,
    {
        let inter = dependency_table[r].iter(Dependency::InterLoop);
        proof {
            assert(crate::dependency::dep_index(Dependency::InterLoop) == 1);
        }
        let mut j: usize = 0;
        while j < inter.len()
            invariant
                p == program@,
                table == dependency_table@,
                is_dependency_table(p, table),
                pip_bounds_ok(p),
                ls == loop_bounds(p).0,
                le == loop_bounds(p).1,
                sf == schedule@,
                sf.len() == le + 1,
                le < p.len(),
                le < program.len(),
                clean == clean_schedule@,
                n == le - ls + 1,
                try_state(p, table, clean, b0 as int, ls as int, ii as int, n as int) == (0int, sf, rows, b1 as int),
                ls <= r <= le,
                forall|jj: int| 0 <= jj <= le ==> #[trigger] sf[jj] <= b0 + n * (2 * ii + 3),
                b0 + n * (2 * ii + 3) + ii + 3 <= usize::MAX,
                inter@ == table[r as int]@[1],
                j <= inter@.len(),
                forall|k: int| 0 <= k < j ==>
                    sf[#[trigger] inter@[k] as int] + unit_latency(spec_unit(p[inter@[k] as int])) <= sf[r as int] + ii,
            decreases inter.len() - j,
        {
            let w = inter[j];
            proof {
                assert(table[r as int]@[1].contains(w));
                lemma_producer_position(p, table, r as int, 1, w);
            }
            let lat = program[w].unit().latency() as usize;
            if schedule[w] + lat > schedule[r] + ii {
                proof {
                    assert(table[r as int]@[1][j as int] == w);
                    assert(!carried_ready(p, table, sf, ls as int, le as int, ii as int));
                }
                return Attempt::Rejected;
            }
            j = j + 1;
        }
        r = r + 1;
    }
    Attempt::Placed(schedule, used, b1)
}

/// Once a try stops, later instructions do not change its outcome.
proof fn lemma_try_state_stuck(p: Seq<Instruction>, table: Seq<DependencyList>, clean: Seq<usize>, b0: int, ls: int, ii: int, k: int, n: int)
    requires
        1 <= k <= n,
        try_state(p, table, clean, b0, ls, ii, k).0 != 0,
    ensures
        try_state(p, table, clean, b0, ls, ii, n).0 == try_state(p, table, clean, b0, ls, ii, k).0,
    decreases n - k,
{
    if k < n {
        lemma_try_state_stuck(p, table, clean, b0, ls, ii, k, n - 1);
    }
}

/// The input of the pipelined scheduler: at least one instruction before the
/// loop body, and a body that ends with its loop instruction, unless the
/// whole program stands before the (absent) loop.
pub open spec fn pip_input_ok(p: Seq<Instruction>) -> bool {
    &&& 1 <= loop_bounds(p).0 <= p.len()
    &&& (loop_bounds(p).0 == p.len() || loop_bounds(p).0 <= loop_bounds(p).1)
}

/// The instruction at `r`, after the loop, stands in the first bundle from
/// the time its producers' results are ready, and not before bundle `b1 + 1`,
/// whose unit still has room after the instructions before it.
pub open spec fn tail_ok(p: Seq<Instruction>, table: Seq<DependencyList>, s: Seq<usize>, b1: int, r: int) -> bool {
    let u = spec_unit(p[r]);
    let d = ready_over(p, s, all_producers(table[r]@));
    let ready = if d > b1 + 1 { d } else { b1 + 1 };
    &&& ready <= s[r]
    &&& count_at(p, s, r, u, s[r] as int) < unit_capacity(u)
    &&& forall|t: int| ready <= t < s[r] ==> count_at(p, s, r, u, t) >= unit_capacity(u)
}

/// The pipelined schedule `s` of program `p`, with the last bundles `b0`,
/// `b1` and `b2` of the code before the loop, of the loop and of the whole
/// program, and the initiation interval `ii`.
pub open spec fn pip_schedule_ok(
    p: Seq<Instruction>,
    table: Seq<DependencyList>,
    s: Seq<usize>,
    b0: int,
    b1: int,
    b2: int,
    ii: int,
) -> bool {
    let ls = loop_bounds(p).0;
    let le = loop_bounds(p).1;
    &&& s.len() == p.len()
    &&& is_local_schedule(p.take(ls), table, 0, s.take(ls))
    &&& (ls == p.len() ==> b0 == max_prefix(s, ls) && b1 == ls && b2 == ls && ii == 1)
    &&& (ls < p.len() ==> {
        &&& b0 == last_busy(p, s, ls)
        &&& resource_bound(p, ls, le + 1) <= ii
        &&& body_placed(p, table, s, ls, le - ls + 1, b0, ii)
        &&& carried_ready(p, table, s, ls, le, ii)
        &&& forall|u: ExecutionUnit, k: int| 0 <= k < ii ==>
            #[trigger] modulo_count(p, s, ls, le + 1, u, b0 + 1, ii, k) <= unit_capacity(u)
        &&& b0 <= b1
        &&& (le + 1 == p.len() ==> b2 == b1)
        &&& (le + 1 < p.len() ==> {
            &&& (b1 - b0) % ii == 0
            &&& forall|r: int| le < r < p.len() ==> tail_ok(p, table, s, b1, r)
            &&& b1 < b2
            &&& forall|r: int| le < r < p.len() ==> s[r] <= b2
            &&& (b2 == b1 + 1 || exists|r: int| le < r < p.len() && s[r] == b2)
        })
    })
}

proof fn lemma_last_busy_max(p: Seq<Instruction>, s: Seq<usize>, n: int)
    requires
        0 <= n <= s.len(),
    ensures
        max_prefix(s, n) <= last_busy(p, s, n),
        last_busy(p, s, n) >= 0,
    decreases n,
{
    if n > 0 {
        lemma_last_busy_max(p, s, n - 1);
    }
}

proof fn lemma_interval_range(p: Seq<Instruction>)
    requires
        pip_bounds_ok(p),
    ensures
        1 <= resource_bound(p, loop_bounds(p).0, loop_bounds(p).1 + 1) <= loop_bounds(p).1 - loop_bounds(p).0 + 1,
{
    let ls = loop_bounds(p).0;
    let le = loop_bounds(p).1;
    lemma_last_loop_range(p, p.len() as int);
    assert(spec_unit(p[le]) == ExecutionUnit::Branch);
    assert(unit_count(p, ls, le + 1, ExecutionUnit::Branch) >= 1);
    lemma_unit_count_le(p, ls, le + 1, ExecutionUnit::Alu);
    lemma_unit_count_le(p, ls, le + 1, ExecutionUnit::Mul);
    lemma_unit_count_le(p, ls, le + 1, ExecutionUnit::Mem);
    lemma_unit_count_le(p, ls, le + 1, ExecutionUnit::Branch);
}

/// The producers of the first `t` kinds, in the order of the kinds.
spec fn producers_upto(l: Seq<Seq<usize>>, t: int) -> Seq<usize>
    decreases t,
{
    if t <= 0 {
        seq![]
    } else {
        producers_upto(l, t - 1) + l[t - 1]
    }
}

proof fn lemma_producers_upto_all(l: Seq<Seq<usize>>)
    ensures
        producers_upto(l, 4) =~= all_producers(l),
{
    assert(producers_upto(l, 0) =~= Seq::<usize>::empty());
    assert(producers_upto(l, 1) =~= l[0]);
    assert(producers_upto(l, 2) =~= l[0] + l[1]);
    assert(producers_upto(l, 3) =~= l[0] + l[1] + l[2]);
}

proof fn lemma_producer_in_lists(l: Seq<Seq<usize>>, i: int)
    requires
        l.len() == 4,
        0 <= i < all_producers(l).len(),
    ensures
        exists|tt: int| 0 <= tt < 4 && #[trigger] l[tt].contains(all_producers(l)[i]),
{
    let x = all_producers(l)[i];
    let n0 = l[0].len() as int;
    let n1 = l[1].len() as int;
    let n2 = l[2].len() as int;
    assert(all_producers(l) == ((l[0] + l[1]) + l[2]) + l[3]);
    if i < n0 {
        assert(l[0][i] == x);
        assert(l[0].contains(x));
    } else if i < n0 + n1 {
        assert(l[1][i - n0] == x);
        assert(l[1].contains(x));
    } else if i < n0 + n1 + n2 {
        assert(l[2][i - n0 - n1] == x);
        assert(l[2].contains(x));
    } else {
        assert(l[3][i - n0 - n1 - n2] == x);
        assert(l[3].contains(x));
    }
}

proof fn lemma_count_prefix(p: Seq<Instruction>, q: Seq<Instruction>, s: Seq<usize>, n: int, u: ExecutionUnit, t: int)
    requires
        n <= p.len(),
        n <= q.len(),
        forall|j: int| 0 <= j < n ==> p[j] == q[j],
    ensures
        count_at(p, s, n, u, t) == count_at(q, s, n, u, t),
    decreases n,
{
    if n > 0 {
        lemma_count_prefix(p, q, s, n - 1, u, t);
    }
}

proof fn lemma_last_busy_le(p: Seq<Instruction>, s: Seq<usize>, n: int, bound: int)
    requires
        0 <= bound,
        forall|j: int| 0 <= j < n ==> #[trigger] s[j] + unit_latency(spec_unit(p[j])) - 1 <= bound,
    ensures
        last_busy(p, s, n) <= bound,
    decreases n,
{
    if n > 0 {
        lemma_last_busy_le(p, s, n - 1, bound);
    }
}

proof fn lemma_tail_ok_frame(p: Seq<Instruction>, table: Seq<DependencyList>, s0: Seq<usize>, s1: Seq<usize>, b1: int, j: int)
    requires
        is_dependency_table(p, table),
        pip_bounds_ok(p),
        loop_bounds(p).1 < j < p.len(),
        forall|x: int| 0 <= x <= j ==> s0[x] == s1[x],
    ensures
        tail_ok(p, table, s0, b1, j) == tail_ok(p, table, s1, b1, j),
{
    let lists = table[j]@;
    assert(is_dependency_list_of(p, j, lists));
    assert forall|i: int| 0 <= i < all_producers(lists).len() implies
        s0[#[trigger] all_producers(lists)[i] as int] == s1[all_producers(lists)[i] as int] by {
        let w = all_producers(lists)[i];
        lemma_producer_in_lists(lists, i);
        let tt = choose|tt: int| 0 <= tt < 4 && lists[tt].contains(w);
        lemma_producer_position(p, table, j, tt, w);
    }
    lemma_ready_over_frame(p, s0, s1, all_producers(lists));
    let u = spec_unit(p[j]);
    assert forall|t: int| count_at(p, s0, j, u, t) == count_at(p, s1, j, u, t) by {
        lemma_count_frame(p, s0, s1, j, u, t);
    }
}

fn is_rejected(a: &Attempt) -> (r: bool)
    ensures
        r == (*a is Rejected),
{
    match a {
        Attempt::Rejected => true,
        _ => false,
    }
}

fn copy_prefix(v: &Vec<Instruction>, n: usize) -> (r: Vec<Instruction>)
    requires
        n <= v@.len(),
    ensures
        r@ == v@.take(n as int),
{
    let mut r: Vec<Instruction> = Vec::new();
    let mut i: usize = 0;
    while i < n
        invariant
            i <= n <= v@.len(),
            r@ == v@.take(i as int),
        decreases n - i,
    {
        r.push(v[i]);
        i = i + 1;
        assert(r@ =~= v@.take(i as int));
    }
    r
}

/// The bundle numbers the pipelined scheduler reaches on a program of `n`
/// instructions fit in a `usize`.
pub open spec fn pip_size_ok(n: int) -> bool {
    3 * n * n + 16 * n + 16 <= usize::MAX
}

/// The list schedule of the code before the loop.
pub open spec fn schedule_before(p: Seq<Instruction>, table: Seq<DependencyList>) -> Seq<usize> {
    choose|s: Seq<usize>| #[trigger] is_local_schedule(p.take(loop_bounds(p).0), table, 0, s)
}

/// The search for an interval for the loop body of `p`, from the resource
/// bound up, the body starting after the code before the loop:
/// `(status, bundles up to the loop instruction, last bundle, interval)`.
pub open spec fn loop_search(p: Seq<Instruction>, table: Seq<DependencyList>) -> (int, Seq<usize>, int, int) {
    let ls = loop_bounds(p).0;
    let le = loop_bounds(p).1;
    let s0 = schedule_before(p, table);
    let b0 = last_busy(p, s0, ls);
    let clean = s0 + Seq::new((le - ls + 1) as nat, |i: int| b0 as usize);
    pip_search(p, table, clean, b0, ls, le, resource_bound(p, ls, le + 1) as int)
}

proof fn lemma_pip_search_first(
    p: Seq<Instruction>,
    table: Seq<DependencyList>,
    clean: Seq<usize>,
    b0: int,
    ls: int,
    le: int,
    start: int,
    k: int,
)
    requires
        start <= k < pip_search(p, table, clean, b0, ls, le, start).3,
    ensures
        try_outcome(p, table, clean, b0, ls, k, le - ls + 1).0 == 1,
    decreases interval_cap(ls, le) - start,
{
    let t = try_outcome(p, table, clean, b0, ls, start, le - ls + 1);
    if t.0 == 1 && start < interval_cap(ls, le) {
        if k > start {
            lemma_pip_search_first(p, table, clean, b0, ls, le, start + 1, k);
        }
    }
}

/// The loop search settles on the smallest interval, from the resource bound
/// up, at which modulo scheduling of the loop body is not rejected: the
/// attempt at every interval from the bound up to the one chosen was
/// rejected as too short.
pub proof fn lemma_loop_search_smallest(p: Seq<Instruction>, table: Seq<DependencyList>, k: int)
    requires
        resource_bound(p, loop_bounds(p).0, loop_bounds(p).1 + 1) <= k < loop_search(p, table).3,
    ensures
        ({
            let ls = loop_bounds(p).0;
            let le = loop_bounds(p).1;
            let s0 = schedule_before(p, table);
            let b0 = last_busy(p, s0, ls);
            let clean = s0 + Seq::new((le - ls + 1) as nat, |i: int| b0 as usize);
            try_outcome(p, table, clean, b0, ls, k, le - ls + 1).0 == 1
        }),
{
    let ls = loop_bounds(p).0;
    let le = loop_bounds(p).1;
    let s0 = schedule_before(p, table);
    let b0 = last_busy(p, s0, ls);
    let clean = s0 + Seq::new((le - ls + 1) as nat, |i: int| b0 as usize);
    let start = resource_bound(p, ls, le + 1) as int;
    lemma_pip_search_first(p, table, clean, b0, ls, le, start, k);
}

/// The last bundle of the pipelined loop: the one the search recorded (the
/// last bundle before the loop for a body of one instruction), rounded up to
/// a whole number of intervals when code follows the loop.
pub open spec fn loop_last_bundle(p: Seq<Instruction>, b0: int, found: int, ii: int) -> int {
    let b1 = if loop_bounds(p).0 == loop_bounds(p).1 { b0 } else { found };
    if loop_bounds(p).1 + 1 == p.len() { b1 } else { b1 + (ii - (b1 - b0) % ii) % ii }
}

proof fn lemma_local_schedule_unique(ins: Seq<Instruction>, table: Seq<DependencyList>, start: int, s1: Seq<usize>, s2: Seq<usize>)
    requires
        is_local_schedule(ins, table, start, s1),
        is_local_schedule(ins, table, start, s2),
    ensures
        s1 == s2,
{
    lemma_local_prefix(ins, table, start, s1, s2, ins.len() as int);
    assert(s1 =~= s2);
}

proof fn lemma_local_prefix(ins: Seq<Instruction>, table: Seq<DependencyList>, start: int, s1: Seq<usize>, s2: Seq<usize>, k: int)
    requires
        is_local_schedule(ins, table, start, s1),
        is_local_schedule(ins, table, start, s2),
        0 <= k <= ins.len(),
    ensures
        forall|j: int| 0 <= j < k ==> s1[j] == s2[j],
    decreases k,
{
    if k > 0 {
        lemma_local_prefix(ins, table, start, s1, s2, k - 1);
        let pc = k - 1;
        crate::scheduler::lemma_ready_frame(ins, start, s1, s2, pc, local_producers(table, start, pc));
        let u = spec_unit(ins[pc]);
        assert forall|t: int| count_at(ins, s1, pc, u, t) == count_at(ins, s2, pc, u, t) by {
            lemma_count_frame(ins, s1, s2, pc, u, t);
        }
        assert(crate::scheduler::local_ok(ins, table, start, s1, pc));
        assert(crate::scheduler::local_ok(ins, table, start, s2, pc));
        if s1[pc] < s2[pc] {
            assert(count_at(ins, s2, pc, u, s1[pc] as int) >= unit_capacity(u));
        } else if s2[pc] < s1[pc] {
            assert(count_at(ins, s1, pc, u, s2[pc] as int) >= unit_capacity(u));
        }
    }
}

/// Schedules the program with the loop body software-pipelined: the code
/// before the loop is list-scheduled, the body is modulo-scheduled with the
/// smallest interval, from the resource bound on, at which every instruction
/// finds a reservation and every value carried to the next iteration is ready
/// in time, and the code after the loop is list-scheduled after the body.
/// Returns the bundle of each instruction, the last bundles of the three
/// regions and the interval.
#[verifier::rlimit(80)]
pub fn internal_pip_scheduler(
    program: &Vec<Instruction>,
    dependency_table: &Vec<DependencyList>,
) -> (r: Option<(Vec<usize>, usize, usize, usize, usize)>)
    requires
        is_dependency_table(program@, dependency_table@),
        pip_input_ok(program@),
        pip_size_ok(program.len() as int),
    ensures
        r matches Some(res) ==> pip_schedule_ok(program@, dependency_table@, res.0@,
            res.1 as int, res.2 as int, res.3 as int, res.4 as int),
        loop_bounds(program@).0 == program.len() ==> r is Some,
        loop_bounds(program@).0 < program.len() ==> (r is Some <==> loop_search(program@, dependency_table@).0 == 0),
        loop_bounds(program@).0 < program.len() ==> (r matches Some(res) ==> {
            &&& res.4 == loop_search(program@, dependency_table@).3
            &&& res.0@.take(loop_bounds(program@).1 + 1) == loop_search(program@, dependency_table@).1
            &&& res.2 == loop_last_bundle(program@, res.1 as int, loop_search(program@, dependency_table@).2, res.4 as int)
        }),
{
    let ghost p = program@;
    let ghost table = dependency_table@;
    proof {
        let n = program.len() as int;
        assert(n <= usize::MAX / 8) by (nonlinear_arith)
            requires
                3 * n * n + 16 * n + 16 <= usize::MAX,
                0 <= n,
        ;
    }
    let (loop_start, loop_end) = find_loop_bounds(program);
    let bb0 = copy_prefix(program, loop_start);
    proof {
        assert forall|pc: int, i: int| 0 <= pc < bb0@.len() && 0 <= i < local_producers(table, 0, pc).len() implies
            0 <= #[trigger] local_producers(table, 0, pc)[i] < 0 + pc by {
            assert(table[pc]@[0].contains(local_producers(table, 0, pc)[i]));
            lemma_last_loop_range(p, p.len() as int);
            if pip_bounds_ok(p) {
                lemma_producer_position(p, table, pc, 0, local_producers(table, 0, pc)[i]);
            } else {
                assert(is_dependency_list_of(p, pc, table[pc]@));
                assert(dep_kept(p, pc, dep_at(0), local_producers(table, 0, pc)[i] as int));
            }
        }
        assert(local_producers_before(bb0@, table, 0));
    }
    let (bb0_schedule, bb0_used) = local_schedule_with_usage(bb0.as_slice(), dependency_table, 0);
    let ghost s_bb0 = bb0_schedule@;
    proof {
        assert(bb0@ == p.take(loop_start as int));
        assert(is_local_schedule(p.take(loop_start as int), table, 0, s_bb0));
        lemma_local_schedule_unique(p.take(loop_start as int), table, 0, schedule_before(p, table), s_bb0);
    }
    let mut max_bb0: usize = 0;
    let mut i: usize = 0;
    while i < loop_start
        invariant
            i <= loop_start,
            bb0_schedule@ == s_bb0,
            s_bb0.len() == loop_start,
            forall|j: int| 0 <= j < s_bb0.len() ==> #[trigger] s_bb0[j] <= 3 * j,
            loop_start <= usize::MAX / 8,
            max_bb0 == max_prefix(s_bb0, i as int),
        decreases loop_start - i,
    {
        if bb0_schedule[i] > max_bb0 {
            max_bb0 = bb0_schedule[i];
        }
        i = i + 1;
    }
    if loop_start == program.len() {
        proof {
            assert(s_bb0.take(loop_start as int) =~= s_bb0);
            assert(p.take(loop_start as int) =~= p);
        }
        return Some((bb0_schedule, max_bb0, loop_start, loop_start, 1));
    }
    proof {
        lemma_last_loop_range(p, p.len() as int);
        assert(pip_bounds_ok(p));
    }
    // The last bundle in which an instruction before the loop still runs.
    let mut b0 = max_bb0;
    let mut i: usize = 0;
    proof {
        lemma_last_busy_max(p, s_bb0, loop_start as int);
    }
    while i < loop_start
        invariant
            p == program@,
            i <= loop_start,
            loop_start < p.len(),
            bb0_schedule@ == s_bb0,
            s_bb0.len() == loop_start,
            forall|j: int| 0 <= j < s_bb0.len() ==> #[trigger] s_bb0[j] <= 3 * j,
            loop_start <= usize::MAX / 8,
            max_prefix(s_bb0, loop_start as int) <= last_busy(p, s_bb0, loop_start as int),
            b0 == if max_prefix(s_bb0, loop_start as int) > last_busy(p, s_bb0, i as int) {
                max_prefix(s_bb0, loop_start as int)
            } else {
                last_busy(p, s_bb0, i as int)
            },
        decreases loop_start - i,
    {
        let v = bb0_schedule[i] + program[i].unit().latency() as usize - 1;
        if v > b0 {
            b0 = v;
        }
        i = i + 1;
    }
    proof {
        assert(b0 == last_busy(p, s_bb0, loop_start as int));
        assert forall|j: int| 0 <= j < loop_start implies
            #[trigger] s_bb0[j] + unit_latency(spec_unit(p[j])) - 1 <= 3 * loop_start + 2 by {
            assert(s_bb0[j] <= 3 * j);
        }
        lemma_last_busy_le(p, s_bb0, loop_start as int, 3 * loop_start + 2);
    }
    let mut schedule = copy_usizes(&bb0_schedule);
    let mut k: usize = loop_start;
    while k <= loop_end
        invariant
            loop_start <= k <= loop_end + 1,
            loop_end < program.len(),
            schedule@.len() == k,
            forall|j: int| 0 <= j < loop_start ==> #[trigger] schedule@[j] == s_bb0[j],
            forall|j: int| loop_start <= j < k ==> #[trigger] schedule@[j] == b0,
        decreases loop_end + 1 - k,
    {
        schedule.push(b0);
        k = k + 1;
    }
    proof {
        assert forall|j: int| 0 <= j < loop_start implies
            #[trigger] schedule@[j] + unit_latency(spec_unit(p[j])) - 1 <= b0 by {
            lemma_last_busy_ge(p, s_bb0, loop_start as int, j);
        }
        assert(p.take(loop_start as int).len() == loop_start);
        assert forall|u: int, t: int| 0 <= u < 4 && 0 <= t implies
            #[trigger] count_at(p, s_bb0, loop_start as int, unit_at(u), t) == count_at(bb0@, s_bb0, loop_start as int, unit_at(u), t) by {
            lemma_count_prefix(p, bb0@, s_bb0, loop_start as int, unit_at(u), t);
        }
        assert(used_matches(p, s_bb0, loop_start as int, bb0_used@));
        lemma_used_frame(p, s_bb0, schedule@, loop_start as int, bb0_used@);
        lemma_interval_range(p);
    }
    let ii0 = compute_initiation_interval(program);
    let bound: usize = if loop_end - loop_start + 1 > 3 { loop_end - loop_start + 1 } else { 3 };
    let ghost nl = loop_end - loop_start + 1;
    let ghost cap_value = b0 + nl * (2 * bound + 3) + bound + 3;
    proof {
        let nn = p.len() as int;
        assert(b0 <= 3 * nn);
        assert(nl <= nn);
        assert(bound <= nn + 3);
        assert(cap_value <= 3 * nn * nn + 16 * nn + 16) by (nonlinear_arith)
            requires
                cap_value == b0 + nl * (2 * bound + 3) + bound + 3,
                b0 <= 3 * nn,
                0 <= nl <= nn,
                0 <= bound <= nn + 3,
        ;
        assert(b0 + nl * (2 * ii0 + 3) + ii0 + 3 <= cap_value) by (nonlinear_arith)
            requires
                cap_value == b0 + nl * (2 * bound + 3) + bound + 3,
                0 <= nl,
                ii0 <= bound,
        ;
    }
    let ghost clean = schedule@;
    let mut ii = ii0;
    let mut outcome = try_interval(program, dependency_table, &schedule, &bb0_used, b0, loop_start, loop_end, ii);
    while is_rejected(&outcome) && ii < bound
        invariant
            p == program@,
            table == dependency_table@,
            is_dependency_table(p, table),
            pip_bounds_ok(p),
            loop_start == loop_bounds(p).0,
            loop_end == loop_bounds(p).1,
            schedule@ == clean,
            schedule@.len() == loop_end + 1,
            forall|j: int| loop_start <= j <= loop_end ==> #[trigger] schedule@[j] == b0,
            forall|j: int| 0 <= j < loop_start ==> #[trigger] schedule@[j] + unit_latency(spec_unit(p[j])) - 1 <= b0,
            b0 < usize::MAX,
            used_matches(p, schedule@, loop_start as int, bb0_used@),
            1 <= ii0 <= ii <= bound,
            bound == if loop_end - loop_start + 1 > 3 { loop_end - loop_start + 1 } else { 3 },
            bound == interval_cap(loop_start as int, loop_end as int),
            nl == loop_end - loop_start + 1,
            cap_value == b0 + nl * (2 * bound + 3) + bound + 3,
            cap_value <= usize::MAX,
            pip_search(p, table, clean, b0 as int, loop_start as int, loop_end as int, ii0 as int)
                == pip_search(p, table, clean, b0 as int, loop_start as int, loop_end as int, ii as int),
            outcome is Rejected <==> try_outcome(p, table, clean, b0 as int, loop_start as int, ii as int, nl).0 == 1,
            outcome is Failed <==> try_outcome(p, table, clean, b0 as int, loop_start as int, ii as int, nl).0 == 2,
            outcome matches Attempt::Placed(s, used, b1) ==> {
                &&& try_outcome(p, table, clean, b0 as int, loop_start as int, ii as int, nl).0 == 0
                &&& try_outcome(p, table, clean, b0 as int, loop_start as int, ii as int, nl).1 == s@
                &&& try_outcome(p, table, clean, b0 as int, loop_start as int, ii as int, nl).3 == b1
                &&& placed_ok(p, table, clean, s@, used@, b1 as int, b0 as int, loop_start as int, loop_end as int, ii as int)
                &&& carried_ready(p, table, s@, loop_start as int, loop_end as int, ii as int)
            },
        decreases bound - ii,
    {
        proof {
            assert(pip_search(p, table, clean, b0 as int, loop_start as int, loop_end as int, ii as int)
                == pip_search(p, table, clean, b0 as int, loop_start as int, loop_end as int, ii + 1));
            assert(b0 + nl * (2 * (ii + 1) + 3) + (ii + 1) + 3 <= cap_value) by (nonlinear_arith)
                requires
                    cap_value == b0 + nl * (2 * bound + 3) + bound + 3,
                    0 <= nl,
                    ii + 1 <= bound,
            ;
        }
        ii = ii + 1;
        outcome = try_interval(program, dependency_table, &schedule, &bb0_used, b0, loop_start, loop_end, ii);
    }
    proof {
        let ls = loop_start as int;
        let le = loop_end as int;
        let s0 = schedule_before(p, table);
        assert(s0 == s_bb0);
        assert(last_busy(p, s0, ls) == b0);
        assert(s0 + Seq::new((le - ls + 1) as nat, |i: int| b0 as usize) =~= clean);
        assert(resource_bound(p, ls, le + 1) == ii0);
        assert(loop_search(p, table) == pip_search(p, table, clean, b0 as int, ls, le, ii0 as int));
        let t = try_outcome(p, table, clean, b0 as int, ls, ii as int, nl);
        assert(pip_search(p, table, clean, b0 as int, ls, le, ii as int) == (t.0, t.1, t.3, ii as int));
    }
    let (mut schedule, mut used, b1_loop) = match outcome {
        Attempt::Placed(s, used, b1) => (s, used, b1),
        _ => {
            return None;
        },
    };
    let ghost m = b0 + nl * (2 * ii + 3);
    proof {
        assert(m + ii + 3 <= cap_value) by (nonlinear_arith)
            requires
                cap_value == b0 + nl * (2 * bound + 3) + bound + 3,
                m == b0 + nl * (2 * ii + 3),
                0 <= nl,
                ii <= bound,
        ;
    }
    let mut b1 = if loop_start == loop_end { b0 } else { b1_loop };
    proof {
        assert(schedule@.take(loop_start as int) =~= s_bb0.take(loop_start as int));
        assert(s_bb0.take(loop_start as int) =~= s_bb0);
        lemma_last_busy_frame(p, s_bb0, schedule@, loop_start as int);
    }
    if loop_end + 1 == program.len() {
        return Some((schedule, b0, b1, b1, ii));
    }
    let ghost b1_raw = b1;
    let offset = (ii - (b1 - b0) % ii) % ii;
    proof {
        assert(b1 <= m + 1);
        assert(offset < ii);
    }
    b1 = b1 + offset;
    proof {
        let d = (b1_raw - b0) as int;
        let m = ii as int;
        vstd::arithmetic::div_mod::lemma_mod_pos_bound(d, m);
        vstd::arithmetic::div_mod::lemma_fundamental_div_mod(d, m);
        vstd::arithmetic::mul::lemma_mul_is_commutative(m, d / m);
        if d % m == 0 {
            vstd::arithmetic::div_mod::lemma_mod_self_0(m);
            assert(offset == 0);
            assert(b1 - b0 == d);
        } else {
            vstd::arithmetic::div_mod::lemma_small_mod((m - d % m) as nat, m as nat);
            assert(offset == m - d % m);
            assert(d + offset == (d / m + 1) * m) by (nonlinear_arith)
                requires
                    d == m * (d / m) + d % m,
                    offset == m - d % m,
            ;
            vstd::arithmetic::div_mod::lemma_fundamental_div_mod_converse(d + offset, m, d / m + 1, 0);
        }
        assert((b1 - b0) % m == 0);
    }
    let first_tail = b1 + 1;
    proof {
        let nn = p.len() as int;
        assert(m + ii + 4 + 3 * nn <= usize::MAX) by (nonlinear_arith)
            requires
                m == b0 + nl * (2 * ii + 3),
                b0 <= 3 * nn,
                0 <= nl <= nn,
                1 <= ii <= nn + 3,
                3 * nn * nn + 16 * nn + 16 <= usize::MAX,
        ;
    }
    let mut max_bb2 = first_tail;
    let n = program.len();
    let ghost s_loop = schedule@;
    let mut k: usize = loop_end + 1;
    while k < n
        invariant
            loop_end + 1 <= k <= n,
            n == p.len(),
            s_loop.len() == loop_end + 1,
            schedule@.len() == k,
            forall|j: int| 0 <= j <= loop_end ==> #[trigger] schedule@[j] == s_loop[j],
            forall|j: int| loop_end < j < k ==> #[trigger] schedule@[j] == first_tail,
            first_tail <= m + ii + 1,
            forall|j: int| 0 <= j <= loop_end ==> #[trigger] s_loop[j] <= m,
        decreases n - k,
    {
        schedule.push(first_tail);
        k = k + 1;
    }
    proof {
        lemma_used_frame(p, s_loop, schedule@, loop_end + 1, used@);
    }
    let mut eff: usize = loop_end + 1;
    while eff < n
        invariant
            p == program@,
            table == dependency_table@,
            is_dependency_table(p, table),
            pip_bounds_ok(p),
            loop_start == loop_bounds(p).0,
            loop_end == loop_bounds(p).1,
            n == p.len(),
            n <= usize::MAX / 8,
            loop_end + 1 <= eff <= n,
            first_tail == b1 + 1,
            schedule@.len() == n,
            forall|j: int| 0 <= j <= loop_end ==> #[trigger] schedule@[j] == s_loop[j],
            forall|j: int| eff <= j < n ==> #[trigger] schedule@[j] == first_tail,
            forall|j: int| loop_end < j < eff ==> tail_ok(p, table, schedule@, b1 as int, j),
            used_matches(p, schedule@, eff as int, used@),
            max_bb2 >= first_tail,
            forall|j: int| loop_end < j < eff ==> #[trigger] schedule@[j] <= max_bb2,
            max_bb2 == first_tail || exists|j: int| loop_end < j < eff && schedule@[j] == max_bb2,
            first_tail <= m + ii + 1,
            m + ii + 4 + 3 * n <= usize::MAX,
            forall|j: int| 0 <= j < n ==> #[trigger] schedule@[j] <= m + ii + 1 + 3 * (eff - loop_end - 1),
        decreases n - eff,
    {
        let ghost s0 = schedule@;
        let instr = program[eff];
        let unit = instr.unit();
        let unit_id = unit.index();
        let cap = unit.nb_available();
        proof {
            assert(unit_at(unit_id as int) == unit);
        }
        let ghost v = m + ii + 1 + 3 * (eff - loop_end - 1);
        let mut cur = schedule[eff];
        let ghost lists = table[eff as int]@;
        let deps = Dependency::iter();
        let mut t: usize = 0;
        proof {
            lemma_ready_over_nonneg(p, s0, Seq::<usize>::empty());
        }
        while t < 4
            invariant
                p == program@,
                table == dependency_table@,
                is_dependency_table(p, table),
                pip_bounds_ok(p),
                loop_end == loop_bounds(p).1,
                loop_end < eff < n,
                n == p.len(),
                schedule@ == s0,
                s0.len() == n,
                lists == table[eff as int]@,
                lists.len() == 4,
                t <= 4,
                deps@ == all_dependencies(),
                v + 3 <= usize::MAX,
                forall|j: int| 0 <= j < n ==> #[trigger] s0[j] <= v,
                cur == (if ready_over(p, s0, producers_upto(lists, t as int)) > first_tail {
                    ready_over(p, s0, producers_upto(lists, t as int))
                } else {
                    first_tail as int
                }),
            decreases 4 - t,
        {
            let ws = dependency_table[eff].iter(deps[t]);
            proof {
                assert(dep_index(deps@[t as int]) == t);
            }
            let ghost before = producers_upto(lists, t as int);
            let mut j: usize = 0;
            while j < ws.len()
                invariant
                    p == program@,
                    table == dependency_table@,
                    is_dependency_table(p, table),
                    pip_bounds_ok(p),
                    loop_end == loop_bounds(p).1,
                    loop_end < eff < n,
                    n == p.len(),
                    schedule@ == s0,
                    s0.len() == n,
                    t < 4,
                    ws@ == table[eff as int]@[t as int],
                    j <= ws@.len(),
                    v + 3 <= usize::MAX,
                    forall|x: int| 0 <= x < n ==> #[trigger] s0[x] <= v,
                    cur == (if ready_over(p, s0, before + ws@.take(j as int)) > first_tail {
                        ready_over(p, s0, before + ws@.take(j as int))
                    } else {
                        first_tail as int
                    }),
                decreases ws.len() - j,
            {
                let w = ws[j];
                proof {
                    assert(table[eff as int]@[t as int].contains(w));
                    lemma_producer_position(p, table, eff as int, t as int, w);
                }
                let lat = program[w].unit().latency() as usize;
                proof {
                    assert(s0[w as int] <= v);
                }
                let c = schedule[w] + lat;
                if c > cur {
                    cur = c;
                }
                proof {
                    let a = before + ws@.take(j as int);
                    let b = before + ws@.take(j + 1);
                    assert(b.drop_last() =~= a);
                    assert(b.last() == w);
                }
                j = j + 1;
            }
            proof {
                assert(ws@.take(ws@.len() as int) =~= ws@);
                assert(producers_upto(lists, t + 1) == before + ws@);
            }
            t = t + 1;
        }
        proof {
            lemma_producers_upto_all(lists);
            assert forall|i: int| 0 <= i < all_producers(lists).len() implies s0[#[trigger] all_producers(lists)[i] as int] <= v by {
                let w = all_producers(lists)[i];
                lemma_producer_in_lists(lists, i);
                let tt = choose|tt: int| 0 <= tt < 4 && lists[tt].contains(w);
                lemma_producer_position(p, table, eff as int, tt, w);
            }
            lemma_ready_over_le(p, s0, all_producers(lists), v);
            lemma_max_prefix_le(s0, eff as int, v);
        }
        let ghost before_room = cur as int;
        let placed = first_free(&used, unit_id, cap, cur);
        proof {
            let u = unit;
            assert forall|x: int| before_room <= x < placed implies count_at(p, s0, eff as int, u, x) >= unit_capacity(u) by {
                assert(used@[unit_id as int]@[x] >= cap);
                assert(count_at(p, s0, eff as int, unit_at(unit_id as int), x) == used@[unit_id as int]@[x] as nat);
            }
            assert(count_at(p, s0, eff as int, unit_at(unit_id as int), placed as int)
                == (if placed < used@[unit_id as int]@.len() { used@[unit_id as int]@[placed as int] as nat } else { 0nat }));
            lemma_room_exact(p, s0, eff as int, u, before_room, placed as int);
            lemma_room_le(p, s0, eff as int, u, before_room);
            assert(placed <= v + 3);
        }
        schedule.set(eff, placed);
        proof {
            let s1 = schedule@;
            assert forall|i: int| 0 <= i < all_producers(lists).len() implies
                s0[#[trigger] all_producers(lists)[i] as int] == s1[all_producers(lists)[i] as int] by {
                let w = all_producers(lists)[i];
                lemma_producer_in_lists(lists, i);
                let tt = choose|tt: int| 0 <= tt < 4 && lists[tt].contains(w);
                lemma_producer_position(p, table, eff as int, tt, w);
            }
            lemma_ready_over_frame(p, s0, s1, all_producers(lists));
            assert forall|u: int, tt: int| 0 <= u < 4 && 0 <= tt implies
                #[trigger] count_at(p, s1, eff as int, unit_at(u), tt) == count_at(p, s0, eff as int, unit_at(u), tt) by {
                lemma_count_frame(p, s0, s1, eff as int, unit_at(u), tt);
            }
            assert(tail_ok(p, table, s1, b1 as int, eff as int));
            assert forall|j: int| loop_end < j < eff implies tail_ok(p, table, s1, b1 as int, j) by {
                lemma_tail_ok_frame(p, table, s0, s1, b1 as int, j);
            }
            lemma_used_frame(p, s0, s1, eff as int, used@);
        }
        let ghost mb0 = max_bb2;
        if placed > max_bb2 {
            max_bb2 = placed;
        }
        record_use(&mut used, unit_id, placed, Ghost(p), Ghost(schedule@), Ghost(eff as int));
        proof {
            let s1 = schedule@;
            assert(s1[eff as int] == placed);
            assert forall|j: int| 0 <= j < n implies #[trigger] s1[j] <= m + ii + 1 + 3 * (eff + 1 - loop_end - 1) by {
                if j != eff {
                    assert(s1[j] == s0[j]);
                }
            }
            if max_bb2 != first_tail {
                if placed > mb0 {
                    assert(s1[eff as int] == max_bb2);
                } else {
                    let j = choose|j: int| loop_end < j < eff && s0[j] == mb0;
                    assert(s1[j] == max_bb2);
                }
            }
        }
        eff = eff + 1;
    }
    proof {
        let sf = schedule@;
        let ls = loop_start as int;
        let le = loop_end as int;
        assert(sf.take(ls) =~= s_loop.take(ls));
        assert(is_local_schedule(p.take(ls), table, 0, s_loop.take(ls)));
        lemma_last_busy_frame(p, s_loop, sf, ls);
        assert forall|j: int, t: int, w: usize| ls <= j < ls + (le - ls + 1) && 0 <= t < 4
            && #[trigger] table[j]@[t].contains(w) && w < j implies
            sf[w as int] + unit_latency(spec_unit(p[w as int])) <= sf[j] by {
            assert(sf[j] == s_loop[j]);
            assert(sf[w as int] == s_loop[w as int]);
        }
        assert forall|u: ExecutionUnit, k: int| 0 <= k < ii implies
            #[trigger] modulo_count(p, sf, ls, le + 1, u, b0 + 1, ii as int, k) <= unit_capacity(u) by {
            lemma_modulo_count_frame(p, s_loop, sf, ls, le + 1, u, b0 + 1, ii as int, k);
        }
        assert forall|r: int, j: int| ls <= r <= le && 0 <= j < table[r]@[1].len() implies
            sf[#[trigger] table[r]@[1][j] as int] + unit_latency(spec_unit(p[table[r]@[1][j] as int])) <= sf[r] + ii by {
            let w = table[r]@[1][j];
            assert(table[r]@[1].contains(w));
            lemma_producer_position(p, table, r, 1, w);
            assert(sf[r] == s_loop[r]);
            assert(sf[w as int] == s_loop[w as int]);
            assert(s_loop[w as int] + unit_latency(spec_unit(p[w as int])) <= s_loop[r] + ii);
        }
    }
    Some((schedule, b0, b1, max_bb2, ii))
}


/// A bundle of five empty slots.
pub open spec fn nop_bundle() -> Seq<Instruction> {
    seq![Instruction::Nop, Instruction::Nop, Instruction::Nop, Instruction::Nop, Instruction::Nop]
}

/// The slot of a bundle that an instruction takes: ALU 0 or, once that one is
/// taken, ALU 1; then the multiplier, the memory unit and the branch unit.
pub open spec fn slot_of(bundle: Seq<Instruction>, ins: Instruction) -> int {
    match spec_unit(ins) {
        ExecutionUnit::Alu => if bundle[0] is Nop { 0 } else { 1 },
        ExecutionUnit::Mul => 2,
        ExecutionUnit::Mem => 3,
        ExecutionUnit::Branch => 4,
    }
}

/// The bundles and the placement map after laying out the first `n`
/// instructions of `p` at their bundles `s` into `nb` bundles of five slots.
/// A loop instruction is written as its pipelined form.
pub open spec fn layout(p: Seq<Instruction>, s: Seq<usize>, n: int, nb: nat) -> (Seq<Seq<Instruction>>, Seq<(usize, usize)>)
    decreases n,
{
    if n <= 0 {
        (Seq::new(nb, |b: int| nop_bundle()), Seq::new(p.len(), |i: int| (0usize, 0usize)))
    } else {
        let prev = layout(p, s, n - 1, nb);
        let pc = n - 1;
        let b = s[pc] as int;
        let ins = p[pc];
        let k = slot_of(prev.0[b], ins);
        let bundles = match ins {
            Instruction::Loop(t) => prev.0.update(b, prev.0[b].update(k, Instruction::LoopPip(t))),
            _ => prev.0.update(b, prev.0[b].update(k, ins)),
        };
        (bundles, prev.1.update(pc, (s[pc], k as usize)))
    }
}

proof fn lemma_layout_shape(p: Seq<Instruction>, s: Seq<usize>, n: int, nb: nat)
    requires
        0 <= n <= s.len(),
        n <= p.len(),
        forall|j: int| 0 <= j < n ==> s[j] < nb,
    ensures
        layout(p, s, n, nb).0.len() == nb,
        forall|b: int| 0 <= b < nb ==> (#[trigger] layout(p, s, n, nb).0[b]).len() == 5,
        layout(p, s, n, nb).1.len() == p.len(),
    decreases n,
{
    if n > 0 {
        lemma_layout_shape(p, s, n - 1, nb);
    }
}

/// Lays the instructions out in bundles of five slots (ALU 0, ALU 1,
/// multiplier, memory, branch), and records for each instruction its bundle
/// and slot.
pub fn format_scheduler(
    program: Vec<Instruction>,
    schedule: Vec<usize>,
    max_bundle_number: usize,
) -> (r: (Vec<[Instruction; 5]>, Vec<(usize, usize)>))
    requires
        schedule.len() <= program.len(),
        forall|j: int| 0 <= j < schedule.len() ==> #[trigger] schedule@[j] <= max_bundle_number,
        max_bundle_number < usize::MAX,
    ensures
        r.0@.len() == max_bundle_number + 1,
        forall|b: int| 0 <= b <= max_bundle_number ==>
            (#[trigger] r.0@[b])@ == layout(program@, schedule@, schedule@.len() as int, (max_bundle_number + 1) as nat).0[b],
        r.1@ == layout(program@, schedule@, schedule@.len() as int, (max_bundle_number + 1) as nat).1,
{
    let ghost p = program@;
    let ghost nb = (max_bundle_number + 1) as nat;
    let mut final_schedule: Vec<[Instruction; 5]> = Vec::new();
    let mut b: usize = 0;
    while b <= max_bundle_number
        invariant
            b <= max_bundle_number + 1,
            max_bundle_number < usize::MAX,
            final_schedule@.len() == b,
            forall|x: int| 0 <= x < b ==> (#[trigger] final_schedule@[x])@ == nop_bundle(),
        decreases max_bundle_number + 1 - b,
    {
        let empty: [Instruction; 5] = [Instruction::Nop, Instruction::Nop, Instruction::Nop, Instruction::Nop, Instruction::Nop];
        final_schedule.push(empty);
        proof {
            assert(final_schedule@[b as int]@ =~= nop_bundle());
        }
        b = b + 1;
    }
    let mut placement_map: Vec<(usize, usize)> = Vec::new();
    let mut i: usize = 0;
    while i < program.len()
        invariant
            i <= program.len(),
            placement_map@.len() == i,
            forall|x: int| 0 <= x < i ==> #[trigger] placement_map@[x] == (0usize, 0usize),
        decreases program.len() - i,
    {
        placement_map.push((0, 0));
        i = i + 1;
    }
    proof {
        assert(placement_map@ =~= layout(p, schedule@, 0, nb).1);
    }
    let mut orig_pc: usize = 0;
    while orig_pc < schedule.len()
        invariant
            p == program@,
            nb == max_bundle_number + 1,
            orig_pc <= schedule@.len() <= p.len(),
            forall|j: int| 0 <= j < schedule.len() ==> #[trigger] schedule@[j] <= max_bundle_number,
            final_schedule@.len() == nb,
            forall|x: int| 0 <= x < nb ==> (#[trigger] final_schedule@[x])@ == layout(p, schedule@, orig_pc as int, nb).0[x],
            placement_map@ == layout(p, schedule@, orig_pc as int, nb).1,
        decreases schedule.len() - orig_pc,
    {
        proof {
            lemma_layout_shape(p, schedule@, orig_pc as int, nb);
        }
        let bundle_pc = schedule[orig_pc];
        let ins = program[orig_pc];
        let mut bundle = final_schedule[bundle_pc];
        let ghost prev = layout(p, schedule@, orig_pc as int, nb);
        let k: usize = match ins.unit() {
            ExecutionUnit::Alu => match bundle[0] {
                Instruction::Nop => 0,
                _ => 1,
            },
            ExecutionUnit::Mul => 2,
            ExecutionUnit::Mem => 3,
            ExecutionUnit::Branch => 4,
        };
        proof {
            assert(bundle@ == prev.0[bundle_pc as int]);
            assert(k == slot_of(prev.0[bundle_pc as int], ins));
        }
        match ins {
            Instruction::Loop(t) => {
                bundle[k] = Instruction::LoopPip(t);
                final_schedule.set(bundle_pc, bundle);
            },
            _ => {
                bundle[k] = ins;
                final_schedule.set(bundle_pc, bundle);
            },
        }
        placement_map.set(orig_pc, (bundle_pc, k));
        proof {
            let next = layout(p, schedule@, orig_pc + 1, nb);
            assert(placement_map@ =~= next.1);
            assert forall|x: int| 0 <= x < nb implies (#[trigger] final_schedule@[x])@ == next.0[x] by {
                if x == bundle_pc as int {
                    assert(final_schedule@[x]@ =~= next.0[x]);
                }
            }
        }
        orig_pc = orig_pc + 1;
    }
    (final_schedule, placement_map)
}

/// `s` is the pipelined schedule of `p` with the given last bundles and
/// interval, all of its bundles are among the `b2 + 1` bundles, and `bundles`
/// and `map` are its layout.
pub open spec fn pip_layout_of(
    p: Seq<Instruction>,
    table: Seq<DependencyList>,
    s: Seq<usize>,
    bundles: Seq<[Instruction; 5]>,
    map: Seq<(usize, usize)>,
    b0: int,
    b1: int,
    b2: int,
    ii: int,
) -> bool {
    &&& is_dependency_table(p, table)
    &&& pip_schedule_ok(p, table, s, b0, b1, b2, ii)
    &&& pip_searched(p, table, s, b0, b1, ii)
    &&& forall|j: int| 0 <= j < s.len() ==> s[j] <= b2
    &&& bundles.len() == b2 + 1
    &&& forall|b: int| 0 <= b <= b2 ==> (#[trigger] bundles[b])@ == layout(p, s, s.len() as int, (b2 + 1) as nat).0[b]
    &&& map == layout(p, s, s.len() as int, (b2 + 1) as nat).1
}

/// The schedule `s` is the one the search gives: without a loop, the list
/// schedule; with one, the search's schedule up to the loop's branch, at the
/// smallest interval `ii` that the search finds, with the loop ending at its
/// last bundle `b1`.
pub open spec fn pip_searched(p: Seq<Instruction>, table: Seq<DependencyList>, s: Seq<usize>, b0: int, b1: int, ii: int) -> bool {
    let ls = loop_bounds(p).0;
    let le = loop_bounds(p).1;
    &&& ls == p.len() ==> s == schedule_before(p, table)
    &&& ls < p.len() ==> {
        &&& loop_search(p, table).0 == 0
        &&& ii == loop_search(p, table).3
        &&& s.take(le + 1) == loop_search(p, table).1
        &&& b1 == loop_last_bundle(p, b0, loop_search(p, table).2, ii)
    }
}

/// The result of pipelining `p`: the layout of a pipelined schedule of `p`.
pub open spec fn pip_result_ok(
    p: Seq<Instruction>,
    bundles: Seq<[Instruction; 5]>,
    map: Seq<(usize, usize)>,
    b0: int,
    b1: int,
    b2: int,
    ii: int,
) -> bool {
    exists|table: Seq<DependencyList>, s: Seq<usize>| #[trigger] pip_layout_of(p, table, s, bundles, map, b0, b1, b2, ii)
}

/// The search's bundles fit the layout that ends the loop at its last bundle:
/// that bundle is below `usize::MAX` and no instruction up to the loop's
/// branch lies beyond it.
pub open spec fn loop_fits(p: Seq<Instruction>, table: Seq<DependencyList>) -> bool {
    let ls = loop_bounds(p).0;
    let le = loop_bounds(p).1;
    let found = loop_search(p, table);
    let last = loop_last_bundle(p, last_busy(p, found.1, ls), found.2, found.3);
    &&& last < usize::MAX
    &&& forall|j: int| 0 <= j <= le ==> #[trigger] found.1[j] <= last
}

/// When the pipelined layout exists: without a loop, when the list schedule
/// stays within as many bundles as there are instructions; with a loop that
/// ends the program, when the search finds an interval and its bundles fit
/// the layout; with code after the loop, only where the search finds an
/// interval, and where it does but no layout is made, the schedule it gives
/// does not fit.
pub open spec fn pip_outcome(p: Seq<Instruction>, table: Seq<DependencyList>, some: bool) -> bool {
    let ls = loop_bounds(p).0;
    let le = loop_bounds(p).1;
    if ls == p.len() {
        some <==> forall|j: int| 0 <= j < p.len() ==> #[trigger] schedule_before(p, table)[j] <= p.len()
    } else if le + 1 == p.len() {
        some <==> (loop_search(p, table).0 == 0 && loop_fits(p, table))
    } else {
        &&& some ==> loop_search(p, table).0 == 0
        &&& !some ==> loop_search(p, table).0 != 0 || exists|s: Seq<usize>, b0: int, b1: int, b2: int, ii: int|
            #[trigger] pip_schedule_ok(p, table, s, b0, b1, b2, ii) && pip_searched(p, table, s, b0, b1, ii)
                && !layout_fits(s, b2)
    }
}

/// The schedule `s` fits a layout of bundles `0..=b2`.
pub open spec fn layout_fits(s: Seq<usize>, b2: int) -> bool {
    &&& forall|j: int| 0 <= j < s.len() ==> #[trigger] s[j] <= b2
    &&& b2 < usize::MAX
}

/// Software-pipelines the program and lays the result out in bundles of five
/// slots: the bundles, each instruction's bundle and slot, the last bundles of
/// the code before the loop, of the loop and of the program, and the
/// initiation interval. `None` where no interval gives a schedule, or where a
/// bundle number falls outside the bundles.
pub fn loop_pip_schedule(
    program: Vec<Instruction>,
) -> (r: Option<(Vec<[Instruction; 5]>, Vec<(usize, usize)>, usize, usize, usize, usize)>)
    requires
        pip_input_ok(program@),
        pip_size_ok(program.len() as int),
    ensures
        r matches Some(res) ==> pip_result_ok(program@, res.0@, res.1@, res.2 as int, res.3 as int,
            res.4 as int, res.5 as int),
        exists|t: Seq<DependencyList>| #[trigger] is_dependency_table(program@, t) && pip_outcome(program@, t, r is Some),
{
    let dependency_table = crate::dependency::get_dependency_table(&program);
    let ghost p = program@;
    let ghost tb = dependency_table@;
    let (linear_schedule, b0, b1, b2, ii) = match internal_pip_scheduler(&program, &dependency_table) {
        None => {
            proof {
                assert(pip_outcome(p, tb, false));
                assert(is_dependency_table(p, tb));
            }
            return None;
        },
        Some(res) => res,
    };
    let ghost ls = loop_bounds(p).0;
    let ghost le = loop_bounds(p).1;
    proof {
        assert(pip_schedule_ok(p, tb, linear_schedule@, b0 as int, b1 as int, b2 as int, ii as int));
        if ls == p.len() {
            assert(p.take(ls) =~= p);
            lemma_local_schedule_unique(p.take(ls), tb, 0, linear_schedule@.take(ls), schedule_before(p, tb));
            assert(linear_schedule@.take(ls) =~= linear_schedule@);
            assert(b2 as int == p.len());
        } else if le + 1 == p.len() {
            assert(linear_schedule@.take(le + 1) =~= linear_schedule@);
            assert(loop_search(p, tb).1 == linear_schedule@);
            assert(b2 as int == loop_last_bundle(p, last_busy(p, loop_search(p, tb).1, ls), loop_search(p, tb).2, loop_search(p, tb).3));
        }
        assert(pip_searched(p, tb, linear_schedule@, b0 as int, b1 as int, ii as int));
    }
    let mut j: usize = 0;
    while j < linear_schedule.len()
        invariant
            j <= linear_schedule.len(),
            forall|x: int| 0 <= x < j ==> #[trigger] linear_schedule@[x] <= b2,
            p == program@,
            is_dependency_table(p, tb),
            linear_schedule@.len() == p.len(),
            ls == loop_bounds(p).0,
            le == loop_bounds(p).1,
            pip_input_ok(p),
            ls == p.len() ==> linear_schedule@ == schedule_before(p, tb) && b2 as int == p.len(),
            ls < p.len() ==> loop_search(p, tb).0 == 0,
            pip_schedule_ok(p, tb, linear_schedule@, b0 as int, b1 as int, b2 as int, ii as int),
            pip_searched(p, tb, linear_schedule@, b0 as int, b1 as int, ii as int),
            ls < p.len() && le + 1 == p.len() ==> loop_search(p, tb).1 == linear_schedule@
                && b2 as int == loop_last_bundle(p, last_busy(p, loop_search(p, tb).1, ls), loop_search(p, tb).2, loop_search(p, tb).3),
        decreases linear_schedule.len() - j,
    {
        if linear_schedule[j] > b2 {
            proof {
                assert(is_dependency_table(p, tb));
                assert(!layout_fits(linear_schedule@, b2 as int));
                if ls == p.len() {
                    assert(schedule_before(p, tb)[j as int] > p.len());
                } else if le + 1 == p.len() {
                    assert(loop_search(p, tb).1[j as int] > b2);
                    assert(!loop_fits(p, tb));
                }
                assert(pip_outcome(p, tb, false));
            }
            return None;
        }
        j = j + 1;
    }
    if b2 == usize::MAX {
        proof {
            assert(p.len() < usize::MAX) by (nonlinear_arith)
                requires
                    3 * p.len() * p.len() + 16 * p.len() + 16 <= usize::MAX,
            ;
            assert(!layout_fits(linear_schedule@, b2 as int));
            assert(pip_outcome(p, tb, false));
        }
        return None;
    }
    proof {
        assert(pip_outcome(p, tb, true));
    }
    let ghost s = linear_schedule@;
    let ghost p = program@;
    let (final_schedule, placement_map) = format_scheduler(program, linear_schedule, b2);
    proof {
        assert(pip_layout_of(p, dependency_table@, s, final_schedule@, placement_map@, b0 as int, b1 as int, b2 as int, ii as int));
    }
    Some((final_schedule, placement_map, b0, b1, b2, ii))
}

} // verus!
