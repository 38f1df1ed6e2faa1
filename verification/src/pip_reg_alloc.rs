//! Register allocation for the pipelined schedule (rotating registers for
//! the loop body, fresh registers for the values that stay put), and the
//! final layout with predicated loop stages.
use vstd::prelude::*;
use crate::instruction::{
    Instruction, PredicatedInstruction, SpecialRegister, spec_dest, spec_operands, spec_with_dest,
    same_form, lemma_same_form, spec_predicate,
};
use crate::dependency::{
    Dependency, DependencyList, get_dependency_table, get_depended_upon, is_dependency_table,
    is_dependency_list_of, dep_kept, dep_candidate, dep_at,
};
use crate::scheduler::update_dest;
use crate::pip_scheduler::{
    find_loop_bounds, layout, pip_result_ok, pip_layout_of, pip_schedule_ok, last_busy, tail_ok,
};

verus! {

/// The instruction with every operand register `old` replaced by `new`.
pub open spec fn renamed_operands(i: Instruction, old: u8, new: u8) -> Instruction {
    let f = |x: u8| if x == old { new } else { x };
    match i {
        Instruction::Add(d, a, b) => Instruction::Add(d, f(a), f(b)),
        Instruction::Addi(d, a, imm) => Instruction::Addi(d, f(a), imm),
        Instruction::Sub(d, a, b) => Instruction::Sub(d, f(a), f(b)),
        Instruction::Mulu(d, a, b) => Instruction::Mulu(d, f(a), f(b)),
        Instruction::Ld(d, imm, a) => Instruction::Ld(d, imm, f(a)),
        Instruction::St(s, imm, a) => Instruction::St(f(s), imm, f(a)),
        Instruction::Mov(d, s) => Instruction::Mov(d, f(s)),
        _ => i,
    }
}

/// Renames the operand register `old_dest_reg` of an instruction to
/// `remap_value`, wherever it is read.
pub fn realloc_operands(source_instruction: Instruction, old_dest_reg: u8, remap_value: u8) -> (r: Instruction)
    ensures
        r == renamed_operands(source_instruction, old_dest_reg, remap_value),
{
    let f = |x: u8| -> (y: u8)
        ensures
            y == (if x == old_dest_reg { remap_value } else { x }),
    {
        if x == old_dest_reg {
            remap_value
        } else {
            x
        }
    };
    match source_instruction {
        Instruction::Add(dest, opa, opb) => Instruction::Add(dest, f(opa), f(opb)),
        Instruction::Addi(dest, opa, imm) => Instruction::Addi(dest, f(opa), imm),
        Instruction::Sub(dest, opa, opb) => Instruction::Sub(dest, f(opa), f(opb)),
        Instruction::Mulu(dest, opa, opb) => Instruction::Mulu(dest, f(opa), f(opb)),
        Instruction::Ld(dest, imm, addr) => Instruction::Ld(dest, imm, f(addr)),
        Instruction::St(source, imm, addr) => Instruction::St(f(source), imm, f(addr)),
        Instruction::Mov(dest, src) => Instruction::Mov(dest, f(src)),
        _ => source_instruction,
    }
}

/// Renaming registers keeps the form of an instruction.
pub proof fn lemma_renaming_keeps_form(i: Instruction, old: u8, new: u8, r: u8)
    ensures
        same_form(i, renamed_operands(i, old, new)),
        same_form(i, spec_with_dest(i, r)),
        spec_dest(renamed_operands(i, old, new)) == spec_dest(i),
        no_registers(i) ==> renamed_operands(i, old, new) == i && spec_with_dest(i, r) == i,
{
}

/// The instruction names no general-purpose register: it writes none and
/// reads none (`nop`, the loop branches, the moves into special and
/// predicate registers).
pub open spec fn no_registers(i: Instruction) -> bool {
    spec_dest(i) is None && spec_operands(i).len() == 0
}

/// `ins` has, up to register numbers, the form of slot `k` of bundle `b` of
/// `sched`, and is that very instruction where it names no register.
pub open spec fn form_at(sched: Seq<[Instruction; 5]>, b: int, k: int, ins: Instruction) -> bool {
    &&& 0 <= b < sched.len()
    &&& 0 <= k < 5
    &&& same_form(sched[b]@[k], ins)
    &&& no_registers(sched[b]@[k]) ==> ins == sched[b]@[k]
}

/// `cur` has as many bundles as `orig`, and each of its slots holds, up to
/// register numbers, the instruction of the same slot of `orig`: the same
/// kind of instruction with the same immediates, and the very same
/// instruction where it names no general-purpose register.
pub open spec fn forms_from(orig: Seq<[Instruction; 5]>, cur: Seq<[Instruction; 5]>) -> bool {
    &&& cur.len() == orig.len()
    &&& forall|b: int, k: int| #![trigger cur[b]@[k]] 0 <= b < cur.len() && 0 <= k < 5 ==> form_at(orig, b, k, cur[b]@[k])
}

/// Slot `k` of bundle `b` has in `c` the form and the destination it has in `a`.
pub open spec fn slot_kept(a: Seq<[Instruction; 5]>, c: Seq<[Instruction; 5]>, b: int, k: int) -> bool {
    same_form(a[b]@[k], c[b]@[k]) && spec_dest(a[b]@[k]) == spec_dest(c[b]@[k])
}

/// The bundles `first..=last` of `c` hold, slot by slot, the forms and the
/// destinations they hold in `a`.
pub open spec fn loop_kept(a: Seq<[Instruction; 5]>, c: Seq<[Instruction; 5]>, first: int, last: int) -> bool {
    &&& a.len() == c.len()
    &&& forall|b: int, k: int| first <= b <= last && 0 <= b < a.len() && 0 <= k < 5 ==> #[trigger] slot_kept(a, c, b, k)
}

/// How many of the first `k` slots of a bundle write a register.
pub open spec fn dests_in_row(row: Seq<Instruction>, k: int) -> nat
    decreases k,
{
    if k <= 0 {
        0
    } else {
        dests_in_row(row, k - 1) + (if spec_dest(row[k - 1]) is Some { 1nat } else { 0nat })
    }
}

/// The registers that the first `k` slots of `row` write, in slot order.
pub open spec fn dest_regs_in_row(row: Seq<Instruction>, k: int) -> Seq<u8>
    decreases k,
{
    if k <= 0 {
        Seq::empty()
    } else {
        dest_regs_in_row(row, k - 1) + (if spec_dest(row[k - 1]) is Some { seq![spec_dest(row[k - 1])->0] } else { Seq::empty() })
    }
}

/// The registers that the slots of the bundles `first..b` write, in bundle
/// and slot order.
pub open spec fn dest_regs_before(sched: Seq<[Instruction; 5]>, first: int, b: int) -> Seq<u8>
    decreases b - first,
{
    if b <= first {
        Seq::empty()
    } else {
        dest_regs_before(sched, first, b - 1) + dest_regs_in_row(sched[b - 1]@, 5)
    }
}

/// How many slots of the bundles `first..b` write a register.
pub open spec fn dests_before(sched: Seq<[Instruction; 5]>, first: int, b: int) -> nat
    decreases b - first,
{
    if b <= first {
        0
    } else {
        dests_before(sched, first, b - 1) + dests_in_row(sched[b - 1]@, 5)
    }
}

/// The rotating register of the destination in slot `k` of bundle `b` of the
/// loop that starts at bundle `first`: the destinations of the loop, bundle by
/// bundle and slot by slot, get 32, 32 + (stages + 1), 32 + 2 (stages + 1), ...
pub open spec fn rotating_reg(sched: Seq<[Instruction; 5]>, first: int, b: int, k: int, stages: int) -> int {
    32 + (dests_before(sched, first, b) + dests_in_row(sched[b]@, k)) * (stages + 1)
}

/// Every destination in the bundles `first..=last` of `cur` is the rotating
/// register of its slot in `orig`.
pub open spec fn loop_dests_rotate(orig: Seq<[Instruction; 5]>, cur: Seq<[Instruction; 5]>, first: int, last: int, stages: int) -> bool {
    forall|b: int, k: int| first <= b <= last && 0 <= k < 5 ==>
        (#[trigger] spec_dest(cur[b]@[k]) is Some <==> spec_dest(orig[b]@[k]) is Some)
        && (spec_dest(orig[b]@[k]) is Some ==> spec_dest(cur[b]@[k])->0 == rotating_reg(orig, first, b, k, stages))
}

/// The placement map keeps each region in its bundles: an instruction before
/// the loop in a bundle up to `b0`, one after the loop in a bundle after `b1`.
pub open spec fn map_respects_regions(p: Seq<Instruction>, map: Seq<(usize, usize)>, b0: int, b1: int) -> bool {
    forall|j: int| 0 <= j < map.len() && j < p.len() ==>
        (j < crate::dependency::loop_bounds(p).0 ==> (#[trigger] map[j]).0 <= b0)
        && (j > crate::dependency::loop_bounds(p).1 ==> map[j].0 > b1)
}

/// Every slot of `c` has the form and the destination of the same slot of `a`.
pub open spec fn all_kept(a: Seq<[Instruction; 5]>, c: Seq<[Instruction; 5]>) -> bool {
    &&& a.len() == c.len()
    &&& forall|b: int, k: int| 0 <= b < a.len() && 0 <= k < 5 ==> #[trigger] slot_kept(a, c, b, k)
}

proof fn lemma_all_kept_loop(a: Seq<[Instruction; 5]>, c: Seq<[Instruction; 5]>, d: Seq<[Instruction; 5]>, first: int, last: int)
    requires
        loop_kept(a, c, first, last),
        all_kept(c, d),
    ensures
        loop_kept(a, d, first, last),
{
    assert forall|x: int, y: int| first <= x <= last && 0 <= x < a.len() && 0 <= y < 5 implies #[trigger] slot_kept(a, d, x, y) by {
        assert(slot_kept(a, c, x, y));
        assert(slot_kept(c, d, x, y));
        lemma_same_form(a[x]@[y], c[x]@[y], d[x]@[y]);
    }
}

proof fn lemma_all_kept_step(a: Seq<[Instruction; 5]>, c: Seq<[Instruction; 5]>, d: Seq<[Instruction; 5]>, b: int, k: int)
    requires
        all_kept(a, c),
        d.len() == c.len(),
        forall|x: int, y: int| 0 <= x < c.len() && 0 <= y < 5 && !(x == b && y == k) ==> #[trigger] d[x]@[y] == c[x]@[y],
        0 <= b < c.len() && 0 <= k < 5 ==> same_form(c[b]@[k], d[b]@[k]) && spec_dest(c[b]@[k]) == spec_dest(d[b]@[k]),
    ensures
        all_kept(a, d),
{
    assert forall|x: int, y: int| 0 <= x < a.len() && 0 <= y < 5 implies #[trigger] slot_kept(a, d, x, y) by {
        assert(slot_kept(a, c, x, y));
        if x == b && y == k {
            lemma_same_form(a[x]@[y], c[x]@[y], d[x]@[y]);
        }
    }
}

proof fn lemma_all_kept_refl(a: Seq<[Instruction; 5]>)
    ensures
        all_kept(a, a),
{
    assert forall|x: int, y: int| 0 <= x < a.len() && 0 <= y < 5 implies #[trigger] slot_kept(a, a, x, y) by {
        lemma_same_form(a[x]@[y], a[x]@[y], a[x]@[y]);
    }
}

proof fn lemma_all_kept_trans(a: Seq<[Instruction; 5]>, c: Seq<[Instruction; 5]>, d: Seq<[Instruction; 5]>)
    requires
        all_kept(a, c),
        all_kept(c, d),
    ensures
        all_kept(a, d),
{
    assert forall|x: int, y: int| 0 <= x < a.len() && 0 <= y < 5 implies #[trigger] slot_kept(a, d, x, y) by {
        assert(slot_kept(a, c, x, y));
        assert(slot_kept(c, d, x, y));
        lemma_same_form(a[x]@[y], c[x]@[y], d[x]@[y]);
    }
}

proof fn lemma_loop_kept_step(
    a: Seq<[Instruction; 5]>,
    c: Seq<[Instruction; 5]>,
    d: Seq<[Instruction; 5]>,
    b: int,
    k: int,
    first: int,
    last: int,
)
    requires
        loop_kept(a, c, first, last),
        d.len() == c.len(),
        forall|x: int, y: int| 0 <= x < c.len() && 0 <= y < 5 && !(x == b && y == k) ==> #[trigger] d[x]@[y] == c[x]@[y],
        b < first || b > last || (same_form(c[b]@[k], d[b]@[k]) && spec_dest(c[b]@[k]) == spec_dest(d[b]@[k])),
    ensures
        loop_kept(a, d, first, last),
{
    assert forall|x: int, y: int| first <= x <= last && 0 <= x < a.len() && 0 <= y < 5 implies #[trigger] slot_kept(a, d, x, y) by {
        assert(slot_kept(a, c, x, y));
        if x == b && y == k {
            lemma_same_form(a[x]@[y], c[x]@[y], d[x]@[y]);
        }
    }
}

proof fn lemma_loop_kept_refl(a: Seq<[Instruction; 5]>, first: int, last: int)
    ensures
        loop_kept(a, a, first, last),
{
    assert forall|x: int, y: int| first <= x <= last && 0 <= x < a.len() && 0 <= y < 5 implies #[trigger] slot_kept(a, a, x, y) by {
        lemma_same_form(a[x]@[y], a[x]@[y], a[x]@[y]);
    }
}

proof fn lemma_loop_kept_trans(a: Seq<[Instruction; 5]>, c: Seq<[Instruction; 5]>, d: Seq<[Instruction; 5]>, first: int, last: int)
    requires
        loop_kept(a, c, first, last),
        loop_kept(c, d, first, last),
    ensures
        loop_kept(a, d, first, last),
{
    assert forall|x: int, y: int| first <= x <= last && 0 <= x < a.len() && 0 <= y < 5 implies #[trigger] slot_kept(a, d, x, y) by {
        assert(slot_kept(a, c, x, y));
        assert(slot_kept(c, d, x, y));
        lemma_same_form(a[x]@[y], c[x]@[y], d[x]@[y]);
    }
}

proof fn lemma_form_at_step(orig: Seq<[Instruction; 5]>, x: int, y: int, a: Instruction, b: Instruction)
    requires
        form_at(orig, x, y, a),
        same_form(a, b),
        no_registers(a) ==> b == a,
    ensures
        form_at(orig, x, y, b),
{
    lemma_same_form(orig[x]@[y], a, b);
}

proof fn lemma_forms_from_refl(orig: Seq<[Instruction; 5]>)
    ensures
        forms_from(orig, orig),
{
    assert forall|b: int, k: int| #![trigger orig[b]@[k]] 0 <= b < orig.len() && 0 <= k < 5 implies form_at(orig, b, k, orig[b]@[k]) by {
        lemma_same_form(orig[b]@[k], orig[b]@[k], orig[b]@[k]);
    }
}

/// `cur` is `before` with slot `k` of bundle `b` holding `ins` and every
/// other slot unchanged.
pub open spec fn slot_changed(before: Seq<[Instruction; 5]>, cur: Seq<[Instruction; 5]>, b: int, k: int, ins: Instruction) -> bool {
    &&& cur.len() == before.len()
    &&& 0 <= b < before.len()
    &&& 0 <= k < 5
    &&& cur[b]@[k] == ins
    &&& forall|x: int, y: int| 0 <= x < before.len() && 0 <= y < 5 && !(x == b && y == k) ==>
        #[trigger] cur[x]@[y] == before[x]@[y]
}

/// The instruction in slot `k` of bundle `b`, if there is such a slot.
fn get_slot(schedule: &Vec<[Instruction; 5]>, b: usize, k: usize, Ghost(orig): Ghost<Seq<[Instruction; 5]>>) -> (r: Option<Instruction>)
    requires
        forms_from(orig, schedule@),
    ensures
        r matches Some(i) ==> b < schedule@.len() && k < 5 && i == schedule@[b as int]@[k as int] && form_at(orig, b as int, k as int, i),
        r is None ==> !(b < schedule@.len() && k < 5),
{
    if b < schedule.len() && k < 5 {
        let row = schedule[b];
        Some(row[k])
    } else {
        None
    }
}

/// Writes `ins` into slot `k` of bundle `b`; `false` where there is no such slot.
fn put_slot(
    schedule: &mut Vec<[Instruction; 5]>,
    b: usize,
    k: usize,
    ins: Instruction,
    Ghost(orig): Ghost<Seq<[Instruction; 5]>>,
) -> (ok: bool)
    requires
        forms_from(orig, old(schedule)@),
        b < old(schedule)@.len() && k < 5 ==> form_at(orig, b as int, k as int, ins),
    ensures
        forms_from(orig, final(schedule)@),
        ok == (b < old(schedule)@.len() && k < 5),
        ok ==> final(schedule)@[b as int]@[k as int] == ins,
        !ok ==> final(schedule)@ == old(schedule)@,
        forall|x: int, y: int| 0 <= x < old(schedule)@.len() && 0 <= y < 5 && !(ok && x == b && y == k) ==>
            #[trigger] final(schedule)@[x]@[y] == old(schedule)@[x]@[y],
        final(schedule)@.len() == old(schedule)@.len(),
{
    if b < schedule.len() && k < 5 {
        let mut row = schedule[b];
        row[k] = ins;
        schedule.set(b, row);
        proof {
            let cur = schedule@;
            assert forall|x: int, y: int| #![trigger cur[x]@[y]] 0 <= x < cur.len() && 0 <= y < 5 implies form_at(orig, x, y, cur[x]@[y]) by {
                if x != b {
                    assert(cur[x] == old(schedule)@[x]);
                } else if y != k {
                    assert(cur[x]@[y] == old(schedule)@[x]@[y]);
                }
            }
            assert forall|x: int, y: int| 0 <= x < old(schedule)@.len() && 0 <= y < 5 && !(x == b && y == k) implies
                #[trigger] cur[x]@[y] == old(schedule)@[x]@[y] by {
                if x != b {
                    assert(cur[x] == old(schedule)@[x]);
                }
            }
        }
        true
    } else {
        false
    }
}

fn get_pair(v: &Vec<(usize, usize)>, i: usize) -> (r: Option<(usize, usize)>)
    ensures
        r matches Some(x) ==> i < v@.len() && x == v@[i as int],
        r is None ==> i >= v@.len(),
{
    if i < v.len() {
        Some(v[i])
    } else {
        None
    }
}

/// The first position of `target` in `v`.
fn position_of(v: &Vec<(usize, usize)>, target: (usize, usize)) -> (r: Option<usize>)
    ensures
        r matches Some(i) ==> i < v@.len() && v@[i as int] == target
            && forall|j: int| 0 <= j < i ==> v@[j] != target,
        r is None ==> forall|j: int| 0 <= j < v@.len() ==> v@[j] != target,
{
    let mut i: usize = 0;
    while i < v.len()
        invariant
            i <= v@.len(),
            forall|j: int| 0 <= j < i ==> v@[j] != target,
        decreases v.len() - i,
    {
        let x = v[i];
        if x.0 == target.0 && x.1 == target.1 {
            return Some(i);
        }
        i = i + 1;
    }
    None
}

fn contains_u8(v: &Vec<u8>, x: u8) -> (r: bool)
    ensures
        r == v@.contains(x),
{
    let mut i: usize = 0;
    while i < v.len()
        invariant
            i <= v@.len(),
            forall|j: int| 0 <= j < i ==> v@[j] != x,
        decreases v.len() - i,
    {
        if v[i] == x {
            return true;
        }
        i = i + 1;
    }
    false
}

fn contains_usize(v: &Vec<usize>, x: usize) -> (r: bool)
    ensures
        r == v@.contains(x),
{
    let mut i: usize = 0;
    while i < v.len()
        invariant
            i <= v@.len(),
            forall|j: int| 0 <= j < i ==> v@[j] != x,
        decreases v.len() - i,
    {
        if v[i] == x {
            return true;
        }
        i = i + 1;
    }
    false
}

fn with_dest(i: Instruction, r: u8) -> (o: Instruction)
    ensures
        o == spec_with_dest(i, r),
{
    let mut o = i;
    update_dest(&mut o, r);
    o
}


/// Every producer listed in a dependency table is an instruction of the program.
proof fn lemma_listed(p: Seq<Instruction>, table: Seq<DependencyList>, r: int, t: int, w: usize)
    requires
        is_dependency_table(p, table),
        0 <= r < p.len(),
        0 <= t < 4,
        table[r]@[t].contains(w),
    ensures
        w < p.len(),
        t == 2 ==> w < crate::dependency::loop_bounds(p).0,
        t == 0 && r < crate::dependency::loop_bounds(p).0 ==> w < r,
        t == 0 && crate::dependency::loop_bounds(p).0 <= crate::dependency::loop_bounds(p).1 + 1
            && r > crate::dependency::loop_bounds(p).1 ==> crate::dependency::loop_bounds(p).1 < w < r,
{
    assert(is_dependency_list_of(p, r, table[r]@));
    assert(dep_kept(p, r, dep_at(t), w as int));
    crate::dependency::lemma_last_loop_range(p, p.len() as int);
}

/// The allocator's bookkeeping: the registers of the input that were given a
/// new number, the numbers handed out, and the next number for a value that
/// does not rotate.
struct AllocState {
    used: Vec<u8>,
    allocated: Vec<u8>,
    next_inv: u8,
}

/// The first `d` rotating registers handed out to the loop's destinations:
/// 32, 32 + (stages + 1), 32 + 2 (stages + 1), ...
pub open spec fn rot_regs(d: int, stages: int) -> Seq<u8> {
    Seq::new(d as nat, |i: int| (32 + i * (stages + 1)) as u8)
}

/// The non-rotating registers `n0, n0 + 1, ..., n1 - 1`, handed out in turn.
pub open spec fn fresh_regs(n0: int, n1: int) -> Seq<u8> {
    Seq::new((n1 - n0) as nat, |i: int| (n0 + i) as u8)
}

proof fn lemma_fresh_push(n0: int, n: int)
    requires
        n0 <= n,
    ensures
        fresh_regs(n0, n + 1) == fresh_regs(n0, n).push(n as u8),
{
    assert(fresh_regs(n0, n + 1) =~= fresh_regs(n0, n).push(n as u8));
}

proof fn lemma_fresh_concat(a: Seq<u8>, n0: int, n1: int, n2: int)
    requires
        n0 <= n1 <= n2,
    ensures
        a + fresh_regs(n0, n1) + fresh_regs(n1, n2) == a + fresh_regs(n0, n2),
{
    assert(a + fresh_regs(n0, n1) + fresh_regs(n1, n2) =~= a + fresh_regs(n0, n2));
}

/// Gives the next non-rotating register to the destination of slot `(b, k)`,
/// recording the old destination. `false` where the numbers run out.
fn take_next_inv(
    schedule: &mut Vec<[Instruction; 5]>,
    b: usize,
    k: usize,
    ins: Instruction,
    dest: u8,
    st: &mut AllocState,
    Ghost(orig): Ghost<Seq<[Instruction; 5]>>,
    Ghost(first): Ghost<int>,
    Ghost(last): Ghost<int>,
) -> (ok: bool)
    requires
        forms_from(orig, old(schedule)@),
        b < old(schedule)@.len() && k < 5 ==> form_at(orig, b as int, k as int, ins),
    ensures
        forms_from(orig, final(schedule)@),
        (b < first || b > last) ==> loop_kept(old(schedule)@, final(schedule)@, first, last),
        ok == (b < old(schedule)@.len() && k < 5 && old(st).next_inv < 255),
        b < old(schedule)@.len() && k < 5 ==> {
            &&& slot_changed(old(schedule)@, final(schedule)@, b as int, k as int, spec_with_dest(ins, old(st).next_inv))
            &&& final(st).used@ == old(st).used@.push(dest)
            &&& final(st).allocated@ == old(st).allocated@.push(old(st).next_inv)
            &&& final(st).next_inv == if old(st).next_inv < 255 { (old(st).next_inv + 1) as u8 } else { old(st).next_inv }
        },
        !(b < old(schedule)@.len() && k < 5) ==> final(schedule)@ == old(schedule)@ && *final(st) == *old(st),
{
    let new_instr = with_dest(ins, st.next_inv);
    proof {
        lemma_renaming_keeps_form(ins, 0, 0, st.next_inv);
        if b < schedule@.len() && k < 5 {
            lemma_form_at_step(orig, b as int, k as int, ins, new_instr);
        }
        lemma_loop_kept_refl(schedule@, first, last);
    }
    let ghost before = schedule@;
    let written = put_slot(schedule, b, k, new_instr, Ghost(orig));
    proof {
        if b < first || b > last {
            lemma_loop_kept_step(before, before, schedule@, b as int, k as int, first, last);
        }
    }
    if !written {
        return false;
    }
    st.used.push(dest);
    st.allocated.push(st.next_inv);
    match st.next_inv.checked_add(1) {
        None => false,
        Some(v) => {
            st.next_inv = v;
            true
        },
    }
}

/// Slot `k` of bundle `b` of `cur` keeps the form it has in `entry`, and its
/// destination, if any, is the slot's rotating register.
pub open spec fn rotated_slot(entry: Seq<[Instruction; 5]>, cur: Seq<[Instruction; 5]>, first: int, b: int, k: int, stages: int) -> bool {
    &&& same_form(entry[b]@[k], cur[b]@[k])
    &&& (spec_dest(cur[b]@[k]) is Some <==> spec_dest(entry[b]@[k]) is Some)
    &&& (spec_dest(entry[b]@[k]) is Some ==> spec_dest(cur[b]@[k])->0 == rotating_reg(entry, first, b, k, stages))
}

/// Whether the rotating registers of the loop body `first..=last` fit in a
/// byte: the body writes no register, or there are fewer than 255 stages and
/// the last rotating register block, `32 + d (stages + 1)` for `d`
/// destinations, stays within 255.
#[verifier::opaque]
pub open spec fn rotating_regs_fit(sched: Seq<[Instruction; 5]>, first: int, last: int, stages: int) -> bool {
    let d = dests_before(sched, first, last + 1);
    d == 0 || (stages < 255 && 32 + d * (stages + 1) <= 255)
}

proof fn lemma_dests_in_row_mono(row: Seq<Instruction>, k: int, m: int)
    requires
        k <= m,
    ensures
        dests_in_row(row, k) <= dests_in_row(row, m),
    decreases m - k,
{
    if m > k {
        lemma_dests_in_row_mono(row, k, m - 1);
    }
}

proof fn lemma_dests_before_mono(sched: Seq<[Instruction; 5]>, first: int, b: int, c: int)
    requires
        b <= c,
    ensures
        dests_before(sched, first, b) <= dests_before(sched, first, c),
    decreases c - b,
{
    if c > b {
        lemma_dests_before_mono(sched, first, b, c - 1);
    }
}

/// The destinations counted up to slot `k` of bundle `b` are at most those of
/// the whole body.
proof fn lemma_dests_upto(sched: Seq<[Instruction; 5]>, first: int, b: int, k: int, last: int)
    requires
        first <= b <= last,
        0 <= k <= 5,
    ensures
        dests_before(sched, first, b) + dests_in_row(sched[b]@, k) <= dests_before(sched, first, last + 1),
{
    lemma_dests_in_row_mono(sched[b]@, k, 5);
    lemma_dests_before_mono(sched, first, b + 1, last + 1);
}

/// Loop destinations: the destinations of the loop body, bundle by bundle and slot by
/// slot, get the rotating registers 32, 32 + (stages + 1), ...
fn rename_loop_dests(
    schedule: &mut Vec<[Instruction; 5]>,
    first: usize,
    last: usize,
    nb_stages: u8,
    st: &mut AllocState,
    Ghost(orig): Ghost<Seq<[Instruction; 5]>>,
) -> (ok: bool)
    requires
        forms_from(orig, old(schedule)@),
        last < old(schedule).len(),
        first <= last + 1,
    ensures
        final(st).next_inv == old(st).next_inv,
        forms_from(orig, final(schedule)@),
        final(schedule)@.len() == old(schedule)@.len(),
        forall|x: int, y: int| 0 <= x < old(schedule)@.len() && (x < first || x > last) && 0 <= y < 5 ==>
            #[trigger] final(schedule)@[x]@[y] == old(schedule)@[x]@[y],
        ok ==> forall|x: int, y: int| first <= x <= last && 0 <= y < 5 ==>
            #[trigger] rotated_slot(old(schedule)@, final(schedule)@, first as int, x, y, nb_stages as int),
        ok == rotating_regs_fit(old(schedule)@, first as int, last as int, nb_stages as int),
        ok ==> final(st).used@ == old(st).used@ + dest_regs_before(old(schedule)@, first as int, last + 1),
        ok ==> final(st).allocated@ == old(st).allocated@ + rot_regs(dests_before(old(schedule)@, first as int, last + 1) as int, nb_stages as int),
{
    let ghost entry = schedule@;
    let ghost sg = nb_stages as int;
    let ghost u0 = st.used@;
    let mut reg: u8 = 32;
    let mut b = first;
    proof {
        assert(dests_before(entry, first as int, first as int) == 0);
        assert(0 * (sg + 1) == 0);
        assert(st.used@ =~= u0 + dest_regs_before(entry, first as int, first as int));
        assert(st.allocated@ =~= old(st).allocated@ + rot_regs(0, sg));
    }
    while b <= last
        invariant
            st.next_inv == old(st).next_inv,
            entry == old(schedule)@,
            forms_from(orig, schedule@),
            last < schedule.len(),
            first <= b <= last + 1,
            schedule@.len() == entry.len(),
            sg == nb_stages as int,
            forall|x: int, y: int| 0 <= x < entry.len() && !(first <= x < b) && 0 <= y < 5 ==>
                #[trigger] schedule@[x]@[y] == entry[x]@[y],
            forall|x: int, y: int| first <= x < b && 0 <= y < 5 ==>
                #[trigger] rotated_slot(entry, schedule@, first as int, x, y, sg),
            reg as int == 32 + dests_before(entry, first as int, b as int) * (sg + 1),
            dests_before(entry, first as int, b as int) > 0 ==> sg < 255,
            u0 == old(st).used@,
            st.used@ == u0 + dest_regs_before(entry, first as int, b as int),
            st.allocated@ == old(st).allocated@ + rot_regs(dests_before(entry, first as int, b as int) as int, sg),
        decreases last + 1 - b,
    {
        let mut k: usize = 0;
        while k < 5
            invariant
                st.next_inv == old(st).next_inv,
                entry == old(schedule)@,
                forms_from(orig, schedule@),
                first <= b <= last < schedule.len(),
                k <= 5,
                schedule@.len() == entry.len(),
                sg == nb_stages as int,
                forall|x: int, y: int| 0 <= x < entry.len() && !(first <= x < b) && x != b && 0 <= y < 5 ==>
                    #[trigger] schedule@[x]@[y] == entry[x]@[y],
                forall|y: int| k <= y < 5 ==> #[trigger] schedule@[b as int]@[y] == entry[b as int]@[y],
                forall|x: int, y: int| first <= x < b && 0 <= y < 5 ==>
                    #[trigger] rotated_slot(entry, schedule@, first as int, x, y, sg),
                forall|y: int| 0 <= y < k ==> #[trigger] rotated_slot(entry, schedule@, first as int, b as int, y, sg),
                reg as int == 32 + (dests_before(entry, first as int, b as int) + dests_in_row(entry[b as int]@, k as int)) * (sg + 1),
                u0 == old(st).used@,
                st.used@ == u0 + dest_regs_before(entry, first as int, b as int) + dest_regs_in_row(entry[b as int]@, k as int),
                st.allocated@ == old(st).allocated@ + rot_regs((dests_before(entry, first as int, b as int) + dests_in_row(entry[b as int]@, k as int)) as int, sg),
                dests_before(entry, first as int, b as int) + dests_in_row(entry[b as int]@, k as int) > 0 ==> sg < 255,
            decreases 5 - k,
        {
            let ins = match get_slot(schedule, b, k, Ghost(orig)) {
                Some(i) => i,
                None => {
                    proof {
                        reveal(rotating_regs_fit);
                    }
                    return false;
                },
            };
            proof {
                assert(ins == entry[b as int]@[k as int]);
            }
            let ghost before = schedule@;
            let ghost c = dests_before(entry, first as int, b as int) + dests_in_row(entry[b as int]@, k as int);
            match ins.dest() {
                Some(dest) => {
                    let new_instr = with_dest(ins, reg);
                    proof {
                        lemma_renaming_keeps_form(ins, 0, 0, reg);
                        lemma_form_at_step(orig, b as int, k as int, ins, new_instr);
                    }
                    put_slot(schedule, b, k, new_instr, Ghost(orig));
                    st.used.push(dest);
                    st.allocated.push(reg);
                    proof {
                        assert(rot_regs(c + 1 as int, sg) =~= rot_regs(c as int, sg).push(reg));
                    }
                    proof {
                        lemma_dests_upto(entry, first as int, b as int, k as int + 1, last as int);
                        assert(dests_in_row(entry[b as int]@, k + 1) == dests_in_row(entry[b as int]@, k as int) + 1);
                    }
                    let step = match nb_stages.checked_add(1) {
                        Some(v) => v,
                        None => {
                            proof {
                                reveal(rotating_regs_fit);
                            }
                            return false;
                        },
                    };
                    proof {
                        assert(rotated_slot(entry, schedule@, first as int, b as int, k as int, sg));
                        assert((c + 1) * (sg + 1) == c * (sg + 1) + (sg + 1)) by (nonlinear_arith);
                    }
                    reg = match reg.checked_add(step) {
                        Some(v) => v,
                        None => {
                            proof {
                                let d = dests_before(entry, first as int, last + 1);
                                assert(32 + d * (sg + 1) > 255) by (nonlinear_arith)
                                    requires
                                        32 + (c + 1) * (sg + 1) > 255,
                                        c + 1 <= d,
                                        sg >= 0,
                                ;
                            }
                            proof {
                                reveal(rotating_regs_fit);
                            }
                            return false;
                        },
                    };
                },
                None => {
                    proof {
                        lemma_same_form(ins, ins, ins);
                    }
                },
            }
            proof {
                assert(dests_in_row(entry[b as int]@, k + 1) == dests_in_row(entry[b as int]@, k as int)
                    + (if spec_dest(entry[b as int]@[k as int]) is Some { 1nat } else { 0nat }));
                assert(dest_regs_in_row(entry[b as int]@, k + 1) == dest_regs_in_row(entry[b as int]@, k as int)
                    + (if spec_dest(entry[b as int]@[k as int]) is Some { seq![spec_dest(entry[b as int]@[k as int])->0] } else { Seq::empty() }));
                assert(st.used@ =~= u0 + dest_regs_before(entry, first as int, b as int) + dest_regs_in_row(entry[b as int]@, k + 1));
                assert forall|x: int, y: int| first <= x < b && 0 <= y < 5 implies
                    #[trigger] rotated_slot(entry, schedule@, first as int, x, y, sg) by {
                    assert(schedule@[x]@[y] == before[x]@[y]);
                    assert(rotated_slot(entry, before, first as int, x, y, sg));
                }
                assert forall|y: int| 0 <= y < k + 1 implies #[trigger] rotated_slot(entry, schedule@, first as int, b as int, y, sg) by {
                    if y < k {
                        assert(schedule@[b as int]@[y] == before[b as int]@[y]);
                        assert(rotated_slot(entry, before, first as int, b as int, y, sg));
                    }
                }
            }
            k = k + 1;
        }
        proof {
            assert(dests_before(entry, first as int, b + 1) == dests_before(entry, first as int, b as int)
                + dests_in_row(entry[b as int]@, 5));
            assert(dest_regs_before(entry, first as int, b + 1) == dest_regs_before(entry, first as int, b as int)
                + dest_regs_in_row(entry[b as int]@, 5));
            assert(st.used@ =~= u0 + dest_regs_before(entry, first as int, b + 1));
        }
        b = b + 1;
    }
    proof {
        reveal(rotating_regs_fit);
    }
    true
}

/// The first position of `target` in `map`.
pub open spec fn first_index(map: Seq<(usize, usize)>, target: (usize, usize)) -> int {
    choose|i: int| 0 <= i < map.len() && map[i] == target && forall|j: int| 0 <= j < i ==> map[j] != target
}

/// Slot `k` of bundle `b` of `sched` writes a register and the map places
/// there an instruction (its first one) whose result no instruction reads.
#[verifier::opaque]
pub open spec fn unread_slot(p: Seq<Instruction>, t: Seq<DependencyList>, map: Seq<(usize, usize)>,
    sched: Seq<[Instruction; 5]>, b: int, k: int) -> bool {
    &&& spec_dest(sched[b]@[k]) is Some
    &&& exists|i: int| 0 <= i < map.len() && map[i] == (b as usize, k as usize)
    &&& crate::dependency::depended_upon(t, first_index(map, (b as usize, k as usize)) as usize, p.len() as int).len() == 0
}

/// How many of the first `k` slots of bundle `b` are unread slots.
pub open spec fn unread_in_row(p: Seq<Instruction>, t: Seq<DependencyList>, map: Seq<(usize, usize)>,
    sched: Seq<[Instruction; 5]>, b: int, k: int) -> nat
    decreases k,
{
    if k <= 0 {
        0
    } else {
        unread_in_row(p, t, map, sched, b, k - 1) + (if unread_slot(p, t, map, sched, b, k - 1) { 1nat } else { 0nat })
    }
}

/// The registers that the unread slots among the first `k` slots of bundle
/// `b` write, in slot order.
pub open spec fn unread_regs_in_row(p: Seq<Instruction>, t: Seq<DependencyList>, map: Seq<(usize, usize)>,
    sched: Seq<[Instruction; 5]>, b: int, k: int) -> Seq<u8>
    decreases k,
{
    if k <= 0 {
        Seq::empty()
    } else {
        unread_regs_in_row(p, t, map, sched, b, k - 1)
            + (if unread_slot(p, t, map, sched, b, k - 1) { seq![spec_dest(sched[b]@[k - 1])->0] } else { Seq::empty() })
    }
}

/// The registers that the unread slots of the bundles `from..b` write, in
/// bundle and slot order.
pub open spec fn unread_regs(p: Seq<Instruction>, t: Seq<DependencyList>, map: Seq<(usize, usize)>,
    sched: Seq<[Instruction; 5]>, from: int, b: int) -> Seq<u8>
    decreases b - from,
{
    if b <= from {
        Seq::empty()
    } else {
        unread_regs(p, t, map, sched, from, b - 1) + unread_regs_in_row(p, t, map, sched, b - 1, 5)
    }
}

/// How many slots of the bundles `from..b` are unread slots.
pub open spec fn unread_upto(p: Seq<Instruction>, t: Seq<DependencyList>, map: Seq<(usize, usize)>,
    sched: Seq<[Instruction; 5]>, from: int, b: int) -> nat
    decreases b - from,
{
    if b <= from {
        0
    } else {
        unread_upto(p, t, map, sched, from, b - 1) + unread_in_row(p, t, map, sched, b - 1, 5)
    }
}

/// `cur` is `sched` with every unread slot of the bundles `from..to` given,
/// in bundle and slot order, the registers `n0`, `n0 + 1`, ..., which end
/// at `n1`, and every other slot unchanged.
#[verifier::opaque]
pub open spec fn unread_renamed(p: Seq<Instruction>, t: Seq<DependencyList>, map: Seq<(usize, usize)>,
    sched: Seq<[Instruction; 5]>, cur: Seq<[Instruction; 5]>, from: int, to: int, n0: int, n1: int) -> bool {
    &&& cur.len() == sched.len()
    &&& forall|x: int, y: int| 0 <= x < sched.len() && !(from <= x < to) && 0 <= y < 5 ==>
        #[trigger] cur[x]@[y] == sched[x]@[y]
    &&& forall|x: int, y: int| from <= x < to && 0 <= y < 5 ==>
        #[trigger] cur[x]@[y] == if unread_slot(p, t, map, sched, x, y) {
            spec_with_dest(sched[x]@[y], (n0 + unread_upto(p, t, map, sched, from, x) + unread_in_row(p, t, map, sched, x, y)) as u8)
        } else {
            sched[x]@[y]
        }
    &&& n1 == n0 + unread_upto(p, t, map, sched, from, to)
}

proof fn lemma_unread_row_mono(p: Seq<Instruction>, t: Seq<DependencyList>, map: Seq<(usize, usize)>,
    sched: Seq<[Instruction; 5]>, b: int, k: int, m: int)
    requires
        k <= m,
    ensures
        unread_in_row(p, t, map, sched, b, k) <= unread_in_row(p, t, map, sched, b, m),
    decreases m - k,
{
    if m > k {
        lemma_unread_row_mono(p, t, map, sched, b, k, m - 1);
    }
}

proof fn lemma_unread_upto_mono(p: Seq<Instruction>, t: Seq<DependencyList>, map: Seq<(usize, usize)>,
    sched: Seq<[Instruction; 5]>, from: int, b: int, c: int)
    requires
        b <= c,
    ensures
        unread_upto(p, t, map, sched, from, b) <= unread_upto(p, t, map, sched, from, c),
    decreases c - b,
{
    if c > b {
        lemma_unread_upto_mono(p, t, map, sched, from, b, c - 1);
    }
}

/// The destinations, in the bundles `[from, to)`, of the instructions whose
/// results nobody reads get fresh non-rotating registers.
#[verifier::rlimit(100)]
#[verifier::spinoff_prover]
fn rename_unread_dests(
    program: &Vec<Instruction>,
    table: &Vec<DependencyList>,
    placement_map: &Vec<(usize, usize)>,
    schedule: &mut Vec<[Instruction; 5]>,
    from: usize,
    to: usize,
    st: &mut AllocState,
    Ghost(orig): Ghost<Seq<[Instruction; 5]>>,
    Ghost(first): Ghost<int>,
    Ghost(last): Ghost<int>,
) -> (ok: bool)
    requires
        forms_from(orig, old(schedule)@),
        to <= old(schedule)@.len(),
        table@.len() >= program@.len(),
    ensures
        ok ==> final(st).allocated@ == old(st).allocated@ + fresh_regs(old(st).next_inv as int, final(st).next_inv as int),
        forms_from(orig, final(schedule)@),
        (to <= first || from > last) ==> loop_kept(old(schedule)@, final(schedule)@, first, last),
        ok == (old(st).next_inv + unread_upto(program@, table@, placement_map@, old(schedule)@, from as int, to as int) <= 255),
        ok ==> unread_renamed(program@, table@, placement_map@, old(schedule)@, final(schedule)@, from as int, to as int,
            old(st).next_inv as int, final(st).next_inv as int),
        ok ==> final(st).used@ == old(st).used@ + unread_regs(program@, table@, placement_map@, old(schedule)@, from as int, to as int),
{
    proof {
        assert(st.allocated@ =~= st.allocated@ + fresh_regs(st.next_inv as int, st.next_inv as int));
    }
    let ghost entry = schedule@;
    let ghost u0 = st.used@;
    proof {
        lemma_loop_kept_refl(entry, first, last);
    }
    let ghost n0 = st.next_inv;
    let ghost p = program@;
    let ghost tt = table@;
    let ghost mp = placement_map@;
    let mut b = from;
    proof {
        if from < to {
            lemma_unread_upto_mono(p, tt, mp, entry, from as int, from as int, to as int);
        }
    }
    while b < to
        invariant
            st.allocated@ == old(st).allocated@ + fresh_regs(old(st).next_inv as int, st.next_inv as int),
            old(st).next_inv <= st.next_inv,
            entry == old(schedule)@,
            forms_from(orig, schedule@),
            to <= schedule@.len(),
            from <= b || b >= to,
            table@.len() >= program@.len(),
            (to <= first || from > last) ==> loop_kept(entry, schedule@, first, last),
            n0 == old(st).next_inv,
            p == program@,
            tt == table@,
            mp == placement_map@,
            schedule@.len() == entry.len(),
            b >= to ==> b == from || b == to,
            from <= b ==> st.next_inv == n0 + unread_upto(p, tt, mp, entry, from as int, b as int),
            b < from ==> st.next_inv == n0,
            u0 == old(st).used@,
            from <= b ==> st.used@ == u0 + unread_regs(p, tt, mp, entry, from as int, b as int),
            b < from ==> st.used@ == u0,
            forall|x: int, y: int| 0 <= x < entry.len() && !(from <= x < b) && 0 <= y < 5 ==>
                #[trigger] schedule@[x]@[y] == entry[x]@[y],
            forall|x: int, y: int| from <= x < b && 0 <= y < 5 ==>
                #[trigger] schedule@[x]@[y] == if unread_slot(p, tt, mp, entry, x, y) {
                    spec_with_dest(entry[x]@[y], (n0 + unread_upto(p, tt, mp, entry, from as int, x)
                        + unread_in_row(p, tt, mp, entry, x, y)) as u8)
                } else {
                    entry[x]@[y]
                },
        decreases to - b,
    {
        proof {
            lemma_unread_upto_mono(p, tt, mp, entry, from as int, b + 1, to as int);
        }
        let mut k: usize = 0;
        while k < 5
            invariant
                st.allocated@ == old(st).allocated@ + fresh_regs(old(st).next_inv as int, st.next_inv as int),
                old(st).next_inv <= st.next_inv,
                entry == old(schedule)@,
                forms_from(orig, schedule@),
                from <= b < to <= schedule@.len(),
                k <= 5,
                table@.len() >= program@.len(),
                (to <= first || from > last) ==> loop_kept(entry, schedule@, first, last),
                n0 == old(st).next_inv,
                p == program@,
                tt == table@,
                mp == placement_map@,
                schedule@.len() == entry.len(),
                unread_upto(p, tt, mp, entry, from as int, b + 1) <= unread_upto(p, tt, mp, entry, from as int, to as int),
                st.next_inv == n0 + unread_upto(p, tt, mp, entry, from as int, b as int) + unread_in_row(p, tt, mp, entry, b as int, k as int),
                u0 == old(st).used@,
                st.used@ == u0 + unread_regs(p, tt, mp, entry, from as int, b as int) + unread_regs_in_row(p, tt, mp, entry, b as int, k as int),
                forall|x: int, y: int| 0 <= x < entry.len() && !(from <= x < b) && x != b && 0 <= y < 5 ==>
                    #[trigger] schedule@[x]@[y] == entry[x]@[y],
                forall|y: int| k <= y < 5 ==> #[trigger] schedule@[b as int]@[y] == entry[b as int]@[y],
                forall|x: int, y: int| from <= x < b && 0 <= y < 5 ==>
                    #[trigger] schedule@[x]@[y] == if unread_slot(p, tt, mp, entry, x, y) {
                        spec_with_dest(entry[x]@[y], (n0 + unread_upto(p, tt, mp, entry, from as int, x)
                            + unread_in_row(p, tt, mp, entry, x, y)) as u8)
                    } else {
                        entry[x]@[y]
                    },
                forall|y: int| 0 <= y < k ==> #[trigger] schedule@[b as int]@[y] == if unread_slot(p, tt, mp, entry, b as int, y) {
                        spec_with_dest(entry[b as int]@[y], (n0 + unread_upto(p, tt, mp, entry, from as int, b as int)
                            + unread_in_row(p, tt, mp, entry, b as int, y)) as u8)
                    } else {
                        entry[b as int]@[y]
                    },
            decreases 5 - k,
        {
            let ins = match get_slot(schedule, b, k, Ghost(orig)) {
                Some(i) => i,
                None => {
                    return false;
                },
            };
            let ghost before = schedule@;
            let ghost nv = st.next_inv;
            let ghost target = (b, k);
            proof {
                assert(ins == entry[b as int]@[k as int]);
                lemma_unread_row_mono(p, tt, mp, entry, b as int, k + 1, 5);
                assert(unread_in_row(p, tt, mp, entry, b as int, k + 1) == unread_in_row(p, tt, mp, entry, b as int, k as int)
                    + (if unread_slot(p, tt, mp, entry, b as int, k as int) { 1nat } else { 0nat }));
                assert(unread_regs_in_row(p, tt, mp, entry, b as int, k + 1) == unread_regs_in_row(p, tt, mp, entry, b as int, k as int)
                    + (if unread_slot(p, tt, mp, entry, b as int, k as int) { seq![spec_dest(entry[b as int]@[k as int])->0] } else { Seq::empty() }));
            }
            let mut renamed = false;
            match ins.dest() {
                Some(dest) => {
                    match position_of(placement_map, (b, k)) {
                        Some(orig_pc) => {
                            proof {
                                let fi = first_index(mp, target);
                                assert(0 <= orig_pc < mp.len() && mp[orig_pc as int] == target
                                    && forall|j: int| 0 <= j < orig_pc ==> mp[j] != target);
                                assert(0 <= fi < mp.len() && mp[fi] == target && forall|j: int| 0 <= j < fi ==> mp[j] != target);
                                assert(fi == orig_pc as int);
                            }
                            if get_depended_upon(program, table, orig_pc).len() == 0 {
                                proof {
                                    reveal(unread_slot);
                                    assert(unread_slot(p, tt, mp, entry, b as int, k as int));
                                }
                                let done = take_next_inv(schedule, b, k, ins, dest, st, Ghost(orig), Ghost(first), Ghost(last));
                                proof {
                                    lemma_fresh_push(old(st).next_inv as int, nv as int);
                                }
                                proof {
                                    if to <= first || from > last {
                                        lemma_loop_kept_trans(entry, before, schedule@, first, last);
                                    }
                                }
                                if !done {
                                    proof {
                                        assert(nv == 255);
                                    }
                                    return false;
                                }
                                renamed = true;
                            } else {
                                proof {
                                    reveal(unread_slot);
                                    assert(!unread_slot(p, tt, mp, entry, b as int, k as int));
                                }
                            }
                        },
                        None => {
                            proof {
                                reveal(unread_slot);
                                assert(!unread_slot(p, tt, mp, entry, b as int, k as int));
                            }
                        },
                    }
                },
                None => {},
            }
            proof {
                if renamed {
                    assert forall|x: int, y: int| 0 <= x < entry.len() && !(from <= x < b) && x != b && 0 <= y < 5 implies
                        #[trigger] schedule@[x]@[y] == entry[x]@[y] by {
                        assert(schedule@[x]@[y] == before[x]@[y]);
                    }
                    assert forall|y: int| k < y < 5 implies #[trigger] schedule@[b as int]@[y] == entry[b as int]@[y] by {
                        assert(schedule@[b as int]@[y] == before[b as int]@[y]);
                    }
                    assert forall|x: int, y: int| from <= x < b && 0 <= y < 5 implies
                        #[trigger] schedule@[x]@[y] == if unread_slot(p, tt, mp, entry, x, y) {
                            spec_with_dest(entry[x]@[y], (n0 + unread_upto(p, tt, mp, entry, from as int, x)
                                + unread_in_row(p, tt, mp, entry, x, y)) as u8)
                        } else {
                            entry[x]@[y]
                        } by {
                        assert(schedule@[x]@[y] == before[x]@[y]);
                    }
                    assert forall|y: int| 0 <= y < k + 1 implies #[trigger] schedule@[b as int]@[y] == if unread_slot(p, tt, mp, entry, b as int, y) {
                            spec_with_dest(entry[b as int]@[y], (n0 + unread_upto(p, tt, mp, entry, from as int, b as int)
                                + unread_in_row(p, tt, mp, entry, b as int, y)) as u8)
                        } else {
                            entry[b as int]@[y]
                        } by {
                        if y < k {
                            assert(schedule@[b as int]@[y] == before[b as int]@[y]);
                        }
                    }
                } else {
                    reveal(unread_slot);
                    assert(!unread_slot(p, tt, mp, entry, b as int, k as int));
                    assert(schedule@ == before);
                }
                assert(st.used@ =~= u0 + unread_regs(p, tt, mp, entry, from as int, b as int)
                    + unread_regs_in_row(p, tt, mp, entry, b as int, k + 1));
            }
            k = k + 1;
        }
        proof {
            assert(unread_regs(p, tt, mp, entry, from as int, b + 1) == unread_regs(p, tt, mp, entry, from as int, b as int)
                + unread_regs_in_row(p, tt, mp, entry, b as int, 5));
            assert(st.used@ =~= u0 + unread_regs(p, tt, mp, entry, from as int, b + 1));
        }
        b = b + 1;
    }
    proof {
        reveal(unread_renamed);
    }
    true
}

/// The allocator's state in a proof: the bundle contents, the renamed
/// registers of the input, and the next non-rotating register.
pub type InvState = (Seq<Seq<Instruction>>, Seq<u8>, u8);

/// One slot `k` of bundle `b`: if it holds `produced`, writes a register not
/// renamed yet, that destination takes the next register; `None` where the
/// registers run out.
pub open spec fn inv_slot_step(s: InvState, b: int, k: int, produced: Instruction) -> Option<InvState> {
    let ins = s.0[b][k];
    if ins == produced && spec_dest(ins) is Some && !s.1.contains(spec_dest(ins)->0) {
        if s.2 < 255 {
            Some((s.0.update(b, s.0[b].update(k, spec_with_dest(ins, s.2))), s.1.push(spec_dest(ins)->0), (s.2 + 1) as u8))
        } else {
            None
        }
    } else {
        Some(s)
    }
}

/// The first `k` slots of bundle `b` in turn.
pub open spec fn inv_slots(s: InvState, b: int, produced: Instruction, k: int) -> Option<InvState>
    decreases k,
{
    if k <= 0 {
        Some(s)
    } else {
        match inv_slots(s, b, produced, k - 1) {
            None => None,
            Some(u) => inv_slot_step(u, b, k - 1, produced),
        }
    }
}

/// The loop-invariant producers `ws[0..j]` in turn, each in the bundle the
/// map gives it; `None` where the map has no place for one.
pub open spec fn inv_prods(p: Seq<Instruction>, map: Seq<(usize, usize)>, s: InvState, ws: Seq<usize>, j: int) -> Option<InvState>
    decreases j,
{
    if j <= 0 {
        Some(s)
    } else {
        match inv_prods(p, map, s, ws, j - 1) {
            None => None,
            Some(u) => {
                let w = ws[j - 1] as int;
                if w >= map.len() || map[w].0 >= u.0.len() {
                    None
                } else {
                    inv_slots(u, map[w].0 as int, p[w], 5)
                }
            },
        }
    }
}

/// The readers `0..n` in turn, each with its loop-invariant producers.
pub open spec fn inv_pcs(p: Seq<Instruction>, t: Seq<DependencyList>, map: Seq<(usize, usize)>, s: InvState, n: int) -> Option<InvState>
    decreases n,
{
    if n <= 0 {
        Some(s)
    } else {
        match inv_pcs(p, t, map, s, n - 1) {
            None => None,
            Some(u) => inv_prods(p, map, u, t[n - 1]@[2], t[n - 1]@[2].len() as int),
        }
    }
}

/// Running the loop-invariant producers of every reader from state `s0`
/// succeeds exactly when `ok`, and then ends in state `s1`.
#[verifier::opaque]
pub open spec fn invariant_producers_renamed(p: Seq<Instruction>, t: Seq<DependencyList>, map: Seq<(usize, usize)>,
    s0: InvState, s1: InvState, ok: bool) -> bool {
    &&& ok == inv_pcs(p, t, map, s0, p.len() as int) is Some
    &&& ok ==> s1 == inv_pcs(p, t, map, s0, p.len() as int)->0
}

proof fn lemma_inv_slots_none(s: InvState, b: int, produced: Instruction, k: int, m: int)
    requires
        k <= m,
        inv_slots(s, b, produced, k) is None,
    ensures
        inv_slots(s, b, produced, m) is None,
    decreases m - k,
{
    if m > k {
        lemma_inv_slots_none(s, b, produced, k, m - 1);
    }
}

proof fn lemma_inv_prods_none(p: Seq<Instruction>, map: Seq<(usize, usize)>, s: InvState, ws: Seq<usize>, j: int, m: int)
    requires
        j <= m,
        inv_prods(p, map, s, ws, j) is None,
    ensures
        inv_prods(p, map, s, ws, m) is None,
    decreases m - j,
{
    if m > j {
        lemma_inv_prods_none(p, map, s, ws, j, m - 1);
    }
}

proof fn lemma_inv_pcs_none(p: Seq<Instruction>, t: Seq<DependencyList>, map: Seq<(usize, usize)>, s: InvState, n: int, m: int)
    requires
        n <= m,
        inv_pcs(p, t, map, s, n) is None,
    ensures
        inv_pcs(p, t, map, s, m) is None,
    decreases m - n,
{
    if m > n {
        lemma_inv_pcs_none(p, t, map, s, n, m - 1);
    }
}

/// Loop-invariant producers: the instructions that produce values read unchanged by the loop
/// get fresh non-rotating destinations, unless their destination was already
/// renamed.
fn rename_invariant_producers(
    program: &Vec<Instruction>,
    table: &Vec<DependencyList>,
    placement_map: &Vec<(usize, usize)>,
    schedule: &mut Vec<[Instruction; 5]>,
    st: &mut AllocState,
    Ghost(orig): Ghost<Seq<[Instruction; 5]>>,
    Ghost(first): Ghost<int>,
    Ghost(last): Ghost<int>,
) -> (ok: bool)
    requires
        forms_from(orig, old(schedule)@),
        is_dependency_table(program@, table@),
    ensures
        ok ==> final(st).allocated@ == old(st).allocated@ + fresh_regs(old(st).next_inv as int, final(st).next_inv as int),
        forms_from(orig, final(schedule)@),
        map_respects_regions(program@, placement_map@, first - 1, last) ==> loop_kept(old(schedule)@, final(schedule)@, first, last),
        invariant_producers_renamed(program@, table@, placement_map@,
            (sched_view(old(schedule)@), old(st).used@, old(st).next_inv),
            (sched_view(final(schedule)@), final(st).used@, final(st).next_inv), ok),
{
    proof {
        assert(st.allocated@ =~= st.allocated@ + fresh_regs(st.next_inv as int, st.next_inv as int));
    }
    proof {
        reveal(invariant_producers_renamed);
    }
    let ghost entry = schedule@;
    let ghost s0: InvState = (sched_view(entry), st.used@, st.next_inv);
    let ghost p = program@;
    let ghost tb = table@;
    let ghost mp = placement_map@;
    let ghost regions = map_respects_regions(program@, placement_map@, first - 1, last);
    proof {
        lemma_loop_kept_refl(entry, first, last);
    }
    let mut pc: usize = 0;
    while pc < program.len()
        invariant
            st.allocated@ == old(st).allocated@ + fresh_regs(old(st).next_inv as int, st.next_inv as int),
            old(st).next_inv <= st.next_inv,
            entry == old(schedule)@,
            forms_from(orig, schedule@),
            is_dependency_table(program@, table@),
            pc <= program.len(),
            regions == map_respects_regions(program@, placement_map@, first - 1, last),
            regions ==> loop_kept(entry, schedule@, first, last),
            p == program@,
            tb == table@,
            mp == placement_map@,
            s0 == (sched_view(entry), old(st).used@, old(st).next_inv),
            inv_pcs(p, tb, mp, s0, pc as int) is Some,
            (sched_view(schedule@), st.used@, st.next_inv) == inv_pcs(p, tb, mp, s0, pc as int)->0,
        decreases program.len() - pc,
    {
        let ws = table[pc].iter(Dependency::LoopInvariant);
        let ghost u0 = inv_pcs(p, tb, mp, s0, pc as int)->0;
        let mut j: usize = 0;
        while j < ws.len()
            invariant
                st.allocated@ == old(st).allocated@ + fresh_regs(old(st).next_inv as int, st.next_inv as int),
                old(st).next_inv <= st.next_inv,
                entry == old(schedule)@,
                forms_from(orig, schedule@),
                is_dependency_table(program@, table@),
                pc < program.len(),
                ws@ == table@[pc as int]@[2],
                j <= ws@.len(),
                regions == map_respects_regions(program@, placement_map@, first - 1, last),
                regions ==> loop_kept(entry, schedule@, first, last),
                p == program@,
                tb == table@,
                mp == placement_map@,
                pc < p.len(),
                s0 == (sched_view(entry), old(st).used@, old(st).next_inv),
                inv_pcs(p, tb, mp, s0, pc as int) == Some(u0),
                inv_prods(p, mp, u0, ws@, j as int) is Some,
                (sched_view(schedule@), st.used@, st.next_inv) == inv_prods(p, mp, u0, ws@, j as int)->0,
            decreases ws.len() - j,
        {
            let w = ws[j];
            proof {
                assert(table@[pc as int]@[2].contains(w));
                lemma_listed(program@, table@, pc as int, 2, w);
            }
            let ghost v0 = inv_prods(p, mp, u0, ws@, j as int)->0;
            proof {
                if inv_prods(p, mp, u0, ws@, j + 1) is None {
                    lemma_inv_prods_none(p, mp, u0, ws@, j + 1, ws@.len() as int);
                    assert(inv_pcs(p, tb, mp, s0, pc + 1) is None);
                    lemma_inv_pcs_none(p, tb, mp, s0, pc + 1, p.len() as int);
                }
            }
            let b = match get_pair(placement_map, w) {
                Some(pos) => pos.0,
                None => {
                    proof {
                        reveal(invariant_producers_renamed);
                    }
                    return false;
                },
            };
            proof {
                if regions {
                    assert(placement_map@[w as int].0 <= first - 1);
                }
            }
            if b >= schedule.len() {
                proof {
                    reveal(invariant_producers_renamed);
                }
                return false;
            }
            let produced = program[w];
            proof {
                assert(inv_prods(p, mp, u0, ws@, j + 1) == inv_slots(v0, b as int, produced, 5));
                if inv_slots(v0, b as int, produced, 5) is None {
                    lemma_inv_prods_none(p, mp, u0, ws@, j + 1, ws@.len() as int);
                    assert(inv_pcs(p, tb, mp, s0, pc + 1) is None);
                    lemma_inv_pcs_none(p, tb, mp, s0, pc + 1, p.len() as int);
                }
                assert(sched_view(schedule@).len() == schedule@.len());
            }
            let mut k: usize = 0;
            while k < 5
                invariant
                    st.allocated@ == old(st).allocated@ + fresh_regs(old(st).next_inv as int, st.next_inv as int),
                    old(st).next_inv <= st.next_inv,
                    entry == old(schedule)@,
                    forms_from(orig, schedule@),
                    b < schedule@.len(),
                    k <= 5,
                    regions ==> b < first,
                    regions == map_respects_regions(program@, placement_map@, first - 1, last),
                    regions ==> loop_kept(entry, schedule@, first, last),
                    p == program@,
                    tb == table@,
                    mp == placement_map@,
                    pc < p.len(),
                    w < p.len(),
                    w < mp.len(),
                    b == mp[w as int].0,
                    produced == p[w as int],
                    s0 == (sched_view(entry), old(st).used@, old(st).next_inv),
                    inv_pcs(p, tb, mp, s0, pc as int) == Some(u0),
                    inv_prods(p, mp, u0, ws@, j as int) == Some(v0),
                    ws@ == table@[pc as int]@[2],
                    j < ws@.len(),
                    w == ws@[j as int],
                    inv_slots(v0, b as int, produced, k as int) is Some,
                    (sched_view(schedule@), st.used@, st.next_inv) == inv_slots(v0, b as int, produced, k as int)->0,
                    inv_slots(v0, b as int, produced, 5) is None ==> inv_pcs(p, tb, mp, s0, p.len() as int) is None,
                decreases 5 - k,
            {
                let ins = match get_slot(schedule, b, k, Ghost(orig)) {
                    Some(i) => i,
                    None => {
                        proof {
                            reveal(invariant_producers_renamed);
                        }
                        return false;
                    },
                };
                let ghost cs = inv_slots(v0, b as int, produced, k as int)->0;
                proof {
                    assert(ins == schedule@[b as int]@[k as int]);
                    assert(cs.0[b as int][k as int] == ins);
                    if inv_slots(v0, b as int, produced, k + 1) is None {
                        lemma_inv_slots_none(v0, b as int, produced, k + 1, 5);
                    }
                }
                if ins == produced {
                    match ins.dest() {
                        Some(dest) => {
                            if !contains_u8(&st.used, dest) {
                                let ghost before = schedule@;
                                let done = take_next_inv(schedule, b, k, ins, dest, st, Ghost(orig), Ghost(first), Ghost(last));
                                proof {
                                    if regions {
                                        lemma_loop_kept_trans(entry, before, schedule@, first, last);
                                    }
                                }
                                if !done {
                                    proof {
                                        reveal(invariant_producers_renamed);
                                    }
                                    return false;
                                }
                                proof {
                                    lemma_view_slot_changed(before, schedule@, b as int, k as int, spec_with_dest(ins, cs.2));
                                }
                            }
                        },
                        None => {},
                    }
                }
                k = k + 1;
            }
            j = j + 1;
        }
        proof {
            assert(inv_pcs(p, tb, mp, s0, pc + 1) == inv_prods(p, mp, u0, ws@, ws@.len() as int));
        }
        pc = pc + 1;
    }
    true
}

/// The bundle of producer `w` and the register that its slot writes, where
/// the map places it in a slot of the schedule and that slot writes one.
pub open spec fn slot_dest(sched: Seq<[Instruction; 5]>, map: Seq<(usize, usize)>, w: int) -> Option<(usize, u8)> {
    if 0 <= w < map.len() && map[w].0 < sched.len() && map[w].1 < 5
        && spec_dest(sched[map[w].0 as int]@[map[w].1 as int]) is Some {
        Some((map[w].0, spec_dest(sched[map[w].0 as int]@[map[w].1 as int])->0))
    } else {
        None
    }
}

/// The destination register of the instruction in the slot at `pos`, where
/// there is such a slot and the instruction writes a register.
fn dest_at(
    schedule: &Vec<[Instruction; 5]>,
    placement_map: &Vec<(usize, usize)>,
    w: usize,
    Ghost(orig): Ghost<Seq<[Instruction; 5]>>,
) -> (r: Option<(usize, u8)>)
    requires
        forms_from(orig, schedule@),
    ensures
        r == slot_dest(schedule@, placement_map@, w as int),
{
    let pos = match get_pair(placement_map, w) {
        Some(p) => p,
        None => {
            return None;
        },
    };
    match get_slot(schedule, pos.0, pos.1, Ghost(orig)) {
        Some(ins) => match ins.dest() {
            Some(d) => Some((pos.0, d)),
            None => None,
        },
        None => None,
    }
}

/// Renames, in the slot at `pos`, the operand `old` to `new`.
fn rename_operand_at(
    schedule: &mut Vec<[Instruction; 5]>,
    pos: (usize, usize),
    old_reg: u8,
    new_reg: u8,
    Ghost(orig): Ghost<Seq<[Instruction; 5]>>,
) -> (ok: bool)
    requires
        forms_from(orig, old(schedule)@),
    ensures
        forms_from(orig, final(schedule)@),
        all_kept(old(schedule)@, final(schedule)@),
        ok == (pos.0 < old(schedule)@.len() && pos.1 < 5),
        ok ==> slot_changed(old(schedule)@, final(schedule)@, pos.0 as int, pos.1 as int,
            renamed_operands(old(schedule)@[pos.0 as int]@[pos.1 as int], old_reg, new_reg)),
        !ok ==> final(schedule)@ == old(schedule)@,
{
    proof {
        lemma_all_kept_refl(schedule@);
    }
    let ins = match get_slot(schedule, pos.0, pos.1, Ghost(orig)) {
        Some(i) => i,
        None => {
            return false;
        },
    };
    let new_instr = realloc_operands(ins, old_reg, new_reg);
    proof {
        lemma_renaming_keeps_form(ins, old_reg, new_reg, 0);
        lemma_form_at_step(orig, pos.0 as int, pos.1 as int, ins, new_instr);
    }
    let ghost before = schedule@;
    let done = put_slot(schedule, pos.0, pos.1, new_instr, Ghost(orig));
    proof {
        lemma_all_kept_step(before, before, schedule@, pos.0 as int, pos.1 as int);
    }
    done
}

/// Renames, in the slot at `pos`, the operand that the producer `w` wrote to
/// the register that its own slot now writes.
fn rename_use(
    program: &Vec<Instruction>,
    placement_map: &Vec<(usize, usize)>,
    schedule: &mut Vec<[Instruction; 5]>,
    w: usize,
    pos: (usize, usize),
    Ghost(orig): Ghost<Seq<[Instruction; 5]>>,
    Ghost(first): Ghost<int>,
    Ghost(last): Ghost<int>,
) -> (ok: bool)
    requires
        forms_from(orig, old(schedule)@),
        w < program@.len(),
    ensures
        forms_from(orig, final(schedule)@),
        loop_kept(old(schedule)@, final(schedule)@, first, last),
        all_kept(old(schedule)@, final(schedule)@),
        ok == (slot_dest(old(schedule)@, placement_map@, w as int) is Some
            && pos.0 < old(schedule)@.len() && pos.1 < 5
            && spec_dest(program@[w as int]) is Some),
        ok ==> slot_changed(old(schedule)@, final(schedule)@, pos.0 as int, pos.1 as int,
            renamed_operands(old(schedule)@[pos.0 as int]@[pos.1 as int], spec_dest(program@[w as int])->0,
                (slot_dest(old(schedule)@, placement_map@, w as int)->0).1)),
        !ok ==> final(schedule)@ == old(schedule)@,
{
    proof {
        lemma_loop_kept_refl(schedule@, first, last);
        lemma_all_kept_refl(schedule@);
    }
    let remap_value = match dest_at(schedule, placement_map, w, Ghost(orig)) {
        Some((_, d)) => d,
        None => {
            return false;
        },
    };
    let ins = match get_slot(schedule, pos.0, pos.1, Ghost(orig)) {
        Some(i) => i,
        None => {
            return false;
        },
    };
    let old_reg = match program[w].dest() {
        Some(d) => d,
        None => {
            return false;
        },
    };
    let new_instr = realloc_operands(ins, old_reg, remap_value);
    proof {
        lemma_renaming_keeps_form(ins, old_reg, remap_value, 0);
        lemma_form_at_step(orig, pos.0 as int, pos.1 as int, ins, new_instr);
    }
    let ghost before = schedule@;
    let done = put_slot(schedule, pos.0, pos.1, new_instr, Ghost(orig));
    proof {
        lemma_loop_kept_step(before, before, schedule@, pos.0 as int, pos.1 as int, first, last);
        lemma_all_kept_step(before, before, schedule@, pos.0 as int, pos.1 as int);
    }
    done
}

/// Slot `pos` of `v` with its reads of `old_reg` renamed to `new_reg`; `None`
/// where there is no such slot or `new_reg` leaves the byte.
pub open spec fn operand_renamed(v: Seq<Seq<Instruction>>, pos: (usize, usize), old_reg: u8, new_reg: int)
    -> Option<Seq<Seq<Instruction>>> {
    if pos.0 < v.len() && pos.1 < 5 && 0 <= new_reg <= 255 {
        Some(v.update(pos.0 as int, v[pos.0 as int].update(pos.1 as int,
            renamed_operands(v[pos.0 as int][pos.1 as int], old_reg, new_reg as u8))))
    } else {
        None
    }
}

/// One producer `w` of the loop instruction in slot `pos`, `bpc` bundles into
/// the loop body that starts at bundle `first`: reads of `w`'s register are
/// renamed to the register `w`'s slot writes, raised by the stages between
/// the two. A carried value (`carried`) counts its stage from the bundle
/// before the loop and one iteration later, and a producer before the loop
/// leaves it alone. `None` where a slot or register is missing, a local
/// producer lies before the loop or the register leaves the byte.
pub open spec fn loop_read_step(p: Seq<Instruction>, map: Seq<(usize, usize)>, v: Seq<Seq<Instruction>>,
    first: int, ii: int, bpc: int, pos: (usize, usize), w: int, carried: bool) -> Option<Seq<Seq<Instruction>>> {
    if carried && !(0 <= w < map.len()) {
        None
    } else if carried && (map[w].0 as int) < first {
        Some(v)
    } else {
        let sd = view_dest(v, map, w);
        if sd is None || ((sd->0).0 as int) < first || !(0 <= w < p.len()) || spec_dest(p[w]) is None {
            None
        } else {
            let q1 = if carried { (bpc + 1) / ii } else { bpc / ii };
            let q2 = if carried { ((sd->0).0 - first + 1) / ii } else { ((sd->0).0 - first) / ii };
            if q1 < q2 {
                None
            } else {
                operand_renamed(v, pos, spec_dest(p[w])->0,
                    (sd->0).1 + (((q1 - q2) as u8) as int) + (if carried { 1int } else { 0int }))
            }
        }
    }
}

/// The register that `loop_read_step` hands out: the one the read is renamed
/// to, unless a carried value comes from before the loop.
pub open spec fn loop_read_regs(map: Seq<(usize, usize)>, v: Seq<Seq<Instruction>>,
    first: int, ii: int, bpc: int, w: int, carried: bool) -> Seq<u8> {
    if carried && (map[w].0 as int) < first {
        Seq::empty()
    } else {
        let sd = view_dest(v, map, w);
        let q1 = if carried { (bpc + 1) / ii } else { bpc / ii };
        let q2 = if carried { ((sd->0).0 - first + 1) / ii } else { ((sd->0).0 - first) / ii };
        seq![((sd->0).1 + (((q1 - q2) as u8) as int) + (if carried { 1int } else { 0int })) as u8]
    }
}

/// The registers that `loop_reads` hands out, in turn.
pub open spec fn loop_reads_regs(p: Seq<Instruction>, map: Seq<(usize, usize)>, v: Seq<Seq<Instruction>>,
    first: int, ii: int, bpc: int, pos: (usize, usize), ws: Seq<usize>, n: int, carried: bool) -> Seq<u8>
    decreases n,
{
    if n <= 0 {
        Seq::empty()
    } else {
        loop_reads_regs(p, map, v, first, ii, bpc, pos, ws, n - 1, carried)
            + loop_read_regs(map, loop_reads(p, map, v, first, ii, bpc, pos, ws, n - 1, carried)->0, first, ii, bpc,
                ws[n - 1] as int, carried)
    }
}

/// The first `n` producers `ws` in turn through `loop_read_step`.
pub open spec fn loop_reads(p: Seq<Instruction>, map: Seq<(usize, usize)>, v: Seq<Seq<Instruction>>,
    first: int, ii: int, bpc: int, pos: (usize, usize), ws: Seq<usize>, n: int, carried: bool)
    -> Option<Seq<Seq<Instruction>>>
    decreases n,
{
    if n <= 0 {
        Some(v)
    } else {
        match loop_reads(p, map, v, first, ii, bpc, pos, ws, n - 1, carried) {
            None => None,
            Some(u) => loop_read_step(p, map, u, first, ii, bpc, pos, ws[n - 1] as int, carried),
        }
    }
}

proof fn lemma_loop_reads_none(p: Seq<Instruction>, map: Seq<(usize, usize)>, v: Seq<Seq<Instruction>>,
    first: int, ii: int, bpc: int, pos: (usize, usize), ws: Seq<usize>, n: int, m: int, carried: bool)
    requires
        n <= m,
        loop_reads(p, map, v, first, ii, bpc, pos, ws, n, carried) is None,
    ensures
        loop_reads(p, map, v, first, ii, bpc, pos, ws, m, carried) is None,
    decreases m - n,
{
    if m > n {
        lemma_loop_reads_none(p, map, v, first, ii, bpc, pos, ws, n, m - 1, carried);
    }
}

/// Slot `k` of the bundle `bpc` into the loop body: where the map places an
/// instruction there (its first one), the slot follows that instruction's
/// loop-invariant producers in place, then its local producers, then its
/// carried producers, through `loop_read_step`.
#[verifier::opaque]
pub open spec fn loop_slot_ops(p: Seq<Instruction>, t: Seq<DependencyList>, map: Seq<(usize, usize)>,
    v: Seq<Seq<Instruction>>, first: int, ii: int, bpc: int, k: int) -> Option<Seq<Seq<Instruction>>> {
    let pos = ((first + bpc) as usize, k as usize);
    if !(exists|i: int| 0 <= i < map.len() && map[i] == pos) {
        Some(v)
    } else {
        let pc = first_index(map, pos);
        if pc >= p.len() {
            None
        } else {
            match uses_apply(p, v, map, t[pc]@[2], pos, pos) {
                None => None,
                Some(v1) => match loop_reads(p, map, v1, first, ii, bpc, pos, t[pc]@[0], t[pc]@[0].len() as int, false) {
                    None => None,
                    Some(v2) => loop_reads(p, map, v2, first, ii, bpc, pos, t[pc]@[1], t[pc]@[1].len() as int, true),
                },
            }
        }
    }
}

/// The registers that `loop_slot_ops` hands out.
pub open spec fn loop_slot_regs(p: Seq<Instruction>, t: Seq<DependencyList>, map: Seq<(usize, usize)>,
    v: Seq<Seq<Instruction>>, first: int, ii: int, bpc: int, k: int) -> Seq<u8> {
    let pos = ((first + bpc) as usize, k as usize);
    if !(exists|i: int| 0 <= i < map.len() && map[i] == pos) {
        Seq::empty()
    } else {
        let pc = first_index(map, pos);
        let v1 = uses_apply(p, v, map, t[pc]@[2], pos, pos)->0;
        let v2 = loop_reads(p, map, v1, first, ii, bpc, pos, t[pc]@[0], t[pc]@[0].len() as int, false)->0;
        loop_reads_regs(p, map, v1, first, ii, bpc, pos, t[pc]@[0], t[pc]@[0].len() as int, false)
            + loop_reads_regs(p, map, v2, first, ii, bpc, pos, t[pc]@[1], t[pc]@[1].len() as int, true)
    }
}

/// The registers that `loop_bundle_ops` hands out, in turn.
pub open spec fn loop_bundle_regs(p: Seq<Instruction>, t: Seq<DependencyList>, map: Seq<(usize, usize)>,
    v: Seq<Seq<Instruction>>, first: int, ii: int, bpc: int, k: int) -> Seq<u8>
    decreases k,
{
    if k <= 0 {
        Seq::empty()
    } else {
        loop_bundle_regs(p, t, map, v, first, ii, bpc, k - 1)
            + loop_slot_regs(p, t, map, loop_bundle_ops(p, t, map, v, first, ii, bpc, k - 1)->0, first, ii, bpc, k - 1)
    }
}

/// The registers that `loop_ops_all` hands out, in turn.
pub open spec fn loop_ops_regs(p: Seq<Instruction>, t: Seq<DependencyList>, map: Seq<(usize, usize)>,
    v: Seq<Seq<Instruction>>, first: int, ii: int, n: int) -> Seq<u8>
    decreases n,
{
    if n <= 0 {
        Seq::empty()
    } else {
        loop_ops_regs(p, t, map, v, first, ii, n - 1)
            + loop_bundle_regs(p, t, map, loop_ops_all(p, t, map, v, first, ii, n - 1)->0, first, ii, n - 1, 5)
    }
}

/// Slots `0..k` of bundle `bpc` of the loop body in turn.
pub open spec fn loop_bundle_ops(p: Seq<Instruction>, t: Seq<DependencyList>, map: Seq<(usize, usize)>,
    v: Seq<Seq<Instruction>>, first: int, ii: int, bpc: int, k: int) -> Option<Seq<Seq<Instruction>>>
    decreases k,
{
    if k <= 0 {
        Some(v)
    } else {
        match loop_bundle_ops(p, t, map, v, first, ii, bpc, k - 1) {
            None => None,
            Some(u) => loop_slot_ops(p, t, map, u, first, ii, bpc, k - 1),
        }
    }
}

/// Bundles `0..n` of the loop body in turn.
pub open spec fn loop_ops_all(p: Seq<Instruction>, t: Seq<DependencyList>, map: Seq<(usize, usize)>,
    v: Seq<Seq<Instruction>>, first: int, ii: int, n: int) -> Option<Seq<Seq<Instruction>>>
    decreases n,
{
    if n <= 0 {
        Some(v)
    } else {
        match loop_ops_all(p, t, map, v, first, ii, n - 1) {
            None => None,
            Some(u) => loop_bundle_ops(p, t, map, u, first, ii, n - 1, 5),
        }
    }
}

/// Renaming the operands of the `count` bundles of the loop body, from
/// bundle `first` of `sched`, succeeds exactly when `ok`, and then gives `cur`.
#[verifier::opaque]
pub open spec fn loop_operands_renamed(p: Seq<Instruction>, t: Seq<DependencyList>, map: Seq<(usize, usize)>,
    sched: Seq<[Instruction; 5]>, cur: Seq<[Instruction; 5]>, first: int, ii: int, count: int, ok: bool) -> bool {
    &&& ok == loop_ops_all(p, t, map, sched_view(sched), first, ii, count) is Some
    &&& ok ==> sched_view(cur) == loop_ops_all(p, t, map, sched_view(sched), first, ii, count)->0
}

proof fn lemma_loop_bundle_none(p: Seq<Instruction>, t: Seq<DependencyList>, map: Seq<(usize, usize)>,
    v: Seq<Seq<Instruction>>, first: int, ii: int, bpc: int, k: int, m: int)
    requires
        k <= m,
        loop_bundle_ops(p, t, map, v, first, ii, bpc, k) is None,
    ensures
        loop_bundle_ops(p, t, map, v, first, ii, bpc, m) is None,
    decreases m - k,
{
    if m > k {
        lemma_loop_bundle_none(p, t, map, v, first, ii, bpc, k, m - 1);
    }
}

proof fn lemma_loop_all_none(p: Seq<Instruction>, t: Seq<DependencyList>, map: Seq<(usize, usize)>,
    v: Seq<Seq<Instruction>>, first: int, ii: int, n: int, m: int)
    requires
        n <= m,
        loop_ops_all(p, t, map, v, first, ii, n) is None,
    ensures
        loop_ops_all(p, t, map, v, first, ii, m) is None,
    decreases m - n,
{
    if m > n {
        lemma_loop_all_none(p, t, map, v, first, ii, n, m - 1);
    }
}

/// A slot of the loop body that fails makes the whole renaming fail.
proof fn lemma_loop_slot_fails(p: Seq<Instruction>, t: Seq<DependencyList>, map: Seq<(usize, usize)>,
    v: Seq<Seq<Instruction>>, first: int, ii: int, bpc: int, k: int, count: int)
    requires
        0 <= bpc < count,
        0 <= k < 5,
        loop_ops_all(p, t, map, v, first, ii, bpc) is Some,
        loop_bundle_ops(p, t, map, loop_ops_all(p, t, map, v, first, ii, bpc)->0, first, ii, bpc, k) is Some,
        loop_slot_ops(p, t, map, loop_bundle_ops(p, t, map, loop_ops_all(p, t, map, v, first, ii, bpc)->0,
            first, ii, bpc, k)->0, first, ii, bpc, k) is None,
    ensures
        loop_ops_all(p, t, map, v, first, ii, count) is None,
{
    let sp = loop_ops_all(p, t, map, v, first, ii, bpc)->0;
    assert(loop_bundle_ops(p, t, map, sp, first, ii, bpc, k + 1) is None);
    lemma_loop_bundle_none(p, t, map, sp, first, ii, bpc, k + 1, 5);
    assert(loop_ops_all(p, t, map, v, first, ii, bpc + 1) is None);
    lemma_loop_all_none(p, t, map, v, first, ii, bpc + 1, count);
}

/// Reads of producer `w` in slot `pos` of the loop body, `bpc` bundles in,
/// renamed to the register `w`'s slot writes, raised by the stages between
/// them; for a carried value (`carried`), counted from the bundle before the
/// loop and one iteration later, and left alone where `w` lies before the
/// loop. `false` where a slot or register is missing, a local producer lies
/// before the loop or the register leaves the byte.
fn rename_loop_read(
    program: &Vec<Instruction>,
    placement_map: &Vec<(usize, usize)>,
    schedule: &mut Vec<[Instruction; 5]>,
    w: usize,
    pos: (usize, usize),
    first: usize,
    ii: usize,
    bpc: usize,
    carried: bool,
    st: &mut AllocState,
    Ghost(orig): Ghost<Seq<[Instruction; 5]>>,
) -> (ok: bool)
    requires
        forms_from(orig, old(schedule)@),
        w < program@.len(),
        first >= 1,
        ii > 0,
        bpc < old(schedule).len(),
    ensures
        final(st).used@ == old(st).used@,
        forms_from(orig, final(schedule)@),
        all_kept(old(schedule)@, final(schedule)@),
        final(st).next_inv == old(st).next_inv,
        ok == loop_read_step(program@, placement_map@, sched_view(old(schedule)@), first as int, ii as int,
            bpc as int, pos, w as int, carried) is Some,
        ok ==> sched_view(final(schedule)@) == loop_read_step(program@, placement_map@, sched_view(old(schedule)@),
            first as int, ii as int, bpc as int, pos, w as int, carried)->0,
        ok ==> final(st).allocated@ == old(st).allocated@ + loop_read_regs(placement_map@, sched_view(old(schedule)@),
            first as int, ii as int, bpc as int, w as int, carried),
{
    proof {
        lemma_all_kept_refl(schedule@);
        lemma_view_dest(schedule@, placement_map@, w as int);
    }
    if carried {
        let pos_w = match get_pair(placement_map, w) {
            Some(x) => x,
            None => {
                return false;
            },
        };
        if pos_w.0 < first {
            proof {
                assert(st.allocated@ =~= old(st).allocated@ + loop_read_regs(placement_map@, sched_view(old(schedule)@),
                    first as int, ii as int, bpc as int, w as int, carried));
            }
            return true;
        }
    }
    let (wb, d) = match dest_at(schedule, placement_map, w, Ghost(orig)) {
        Some(x) => x,
        None => {
            return false;
        },
    };
    if wb < first {
        return false;
    }
    let q1 = if carried { (bpc + 1) / ii } else { bpc / ii };
    let q2 = if carried { (wb - (first - 1)) / ii } else { (wb - first) / ii };
    if q1 < q2 {
        return false;
    }
    let mut remap_value = match d.checked_add((q1 - q2) as u8) {
        Some(v) => v,
        None => {
            return false;
        },
    };
    if carried {
        remap_value = match remap_value.checked_add(1) {
            Some(v) => v,
            None => {
                return false;
            },
        };
    }
    let old_reg = match program[w].dest() {
        Some(v) => v,
        None => {
            return false;
        },
    };
    st.allocated.push(remap_value);
    proof {
        assert(loop_read_regs(placement_map@, sched_view(old(schedule)@), first as int, ii as int, bpc as int, w as int, carried)
            == seq![remap_value]);
        assert(st.allocated@ =~= old(st).allocated@ + loop_read_regs(placement_map@, sched_view(old(schedule)@),
            first as int, ii as int, bpc as int, w as int, carried));
    }
    let ghost before = schedule@;
    let done = rename_operand_at(schedule, pos, old_reg, remap_value, Ghost(orig));
    proof {
        if done {
            lemma_view_slot_changed(before, schedule@, pos.0 as int, pos.1 as int,
                renamed_operands(before[pos.0 as int]@[pos.1 as int], old_reg, remap_value));
        }
    }
    done
}

/// The producers `ws` of the loop instruction in slot `pos` in turn through
/// `rename_loop_read`; `false` at the first that fails.
fn rename_loop_reads(
    program: &Vec<Instruction>,
    placement_map: &Vec<(usize, usize)>,
    schedule: &mut Vec<[Instruction; 5]>,
    ws: &Vec<usize>,
    pos: (usize, usize),
    first: usize,
    ii: usize,
    bpc: usize,
    carried: bool,
    st: &mut AllocState,
    Ghost(orig): Ghost<Seq<[Instruction; 5]>>,
) -> (ok: bool)
    requires
        forms_from(orig, old(schedule)@),
        forall|i: int| 0 <= i < ws@.len() ==> #[trigger] ws@[i] < program@.len(),
        first >= 1,
        ii > 0,
        bpc < old(schedule).len(),
    ensures
        final(st).used@ == old(st).used@,
        forms_from(orig, final(schedule)@),
        all_kept(old(schedule)@, final(schedule)@),
        final(st).next_inv == old(st).next_inv,
        ok == loop_reads(program@, placement_map@, sched_view(old(schedule)@), first as int, ii as int,
            bpc as int, pos, ws@, ws@.len() as int, carried) is Some,
        ok ==> sched_view(final(schedule)@) == loop_reads(program@, placement_map@, sched_view(old(schedule)@),
            first as int, ii as int, bpc as int, pos, ws@, ws@.len() as int, carried)->0,
        ok ==> final(st).allocated@ == old(st).allocated@ + loop_reads_regs(program@, placement_map@, sched_view(old(schedule)@),
            first as int, ii as int, bpc as int, pos, ws@, ws@.len() as int, carried),
{
    let ghost entry = schedule@;
    let ghost v0 = sched_view(entry);
    let ghost p = program@;
    let ghost mp = placement_map@;
    proof {
        lemma_all_kept_refl(entry);
        assert(st.allocated@ =~= old(st).allocated@ + loop_reads_regs(p, mp, v0, first as int, ii as int, bpc as int, pos, ws@, 0, carried));
    }
    let mut j: usize = 0;
    while j < ws.len()
        invariant
            st.used@ == old(st).used@,
            entry == old(schedule)@,
            v0 == sched_view(entry),
            forms_from(orig, schedule@),
            all_kept(entry, schedule@),
            schedule@.len() == entry.len(),
            forall|i: int| 0 <= i < ws@.len() ==> #[trigger] ws@[i] < program@.len(),
            first >= 1,
            ii > 0,
            bpc < schedule.len(),
            j <= ws@.len(),
            p == program@,
            mp == placement_map@,
            st.next_inv == old(st).next_inv,
            loop_reads(p, mp, v0, first as int, ii as int, bpc as int, pos, ws@, j as int, carried) is Some,
            sched_view(schedule@) == loop_reads(p, mp, v0, first as int, ii as int, bpc as int, pos, ws@, j as int, carried)->0,
            st.allocated@ == old(st).allocated@ + loop_reads_regs(p, mp, v0, first as int, ii as int, bpc as int, pos, ws@, j as int, carried),
        decreases ws.len() - j,
    {
        let w = ws[j];
        let ghost before = schedule@;
        let ghost a_before = st.allocated@;
        let done = rename_loop_read(program, placement_map, schedule, w, pos, first, ii, bpc, carried, st, Ghost(orig));
        proof {
            lemma_all_kept_trans(entry, before, schedule@);
            assert(loop_reads(p, mp, v0, first as int, ii as int, bpc as int, pos, ws@, j + 1, carried)
                == loop_read_step(p, mp, sched_view(before), first as int, ii as int, bpc as int, pos, w as int, carried));
        }
        if !done {
            proof {
                lemma_loop_reads_none(p, mp, v0, first as int, ii as int, bpc as int, pos, ws@, j + 1, ws@.len() as int, carried);
            }
            return false;
        }
        proof {
            assert(loop_reads_regs(p, mp, v0, first as int, ii as int, bpc as int, pos, ws@, j + 1, carried)
                == loop_reads_regs(p, mp, v0, first as int, ii as int, bpc as int, pos, ws@, j as int, carried)
                    + loop_read_regs(mp, sched_view(before), first as int, ii as int, bpc as int, w as int, carried));
            assert(st.allocated@ =~= old(st).allocated@
                + loop_reads_regs(p, mp, v0, first as int, ii as int, bpc as int, pos, ws@, j + 1, carried));
        }
        j = j + 1;
    }
    true
}

/// Slot `k` of bundle `b`, `bpc` bundles into the loop body: the instruction
/// the map places there (its first one) follows its loop-invariant, then its
/// local, then its carried producers; `false` where one of them fails.
fn rename_loop_slot(
    program: &Vec<Instruction>,
    table: &Vec<DependencyList>,
    placement_map: &Vec<(usize, usize)>,
    schedule: &mut Vec<[Instruction; 5]>,
    b: usize,
    k: usize,
    first: usize,
    ii: usize,
    bpc: usize,
    st: &mut AllocState,
    Ghost(orig): Ghost<Seq<[Instruction; 5]>>,
) -> (ok: bool)
    requires
        forms_from(orig, old(schedule)@),
        is_dependency_table(program@, table@),
        b == first + bpc,
        k < 5,
        first >= 1,
        ii > 0,
        bpc < old(schedule).len(),
    ensures
        final(st).used@ == old(st).used@,
        forms_from(orig, final(schedule)@),
        all_kept(old(schedule)@, final(schedule)@),
        final(st).next_inv == old(st).next_inv,
        ok == loop_slot_ops(program@, table@, placement_map@, sched_view(old(schedule)@), first as int, ii as int,
            bpc as int, k as int) is Some,
        ok ==> sched_view(final(schedule)@) == loop_slot_ops(program@, table@, placement_map@,
            sched_view(old(schedule)@), first as int, ii as int, bpc as int, k as int)->0,
        ok ==> final(st).allocated@ == old(st).allocated@ + loop_slot_regs(program@, table@, placement_map@,
            sched_view(old(schedule)@), first as int, ii as int, bpc as int, k as int),
{
    let ghost entry = schedule@;
    let ghost p = program@;
    let ghost tb = table@;
    let ghost mp = placement_map@;
    let ghost target = (b, k);
    proof {
        reveal(loop_slot_ops);
        lemma_all_kept_refl(entry);
    }
    let orig_pc = match position_of(placement_map, (b, k)) {
        None => {
            proof {
                assert(st.allocated@ =~= old(st).allocated@ + loop_slot_regs(p, tb, mp, sched_view(entry), first as int,
                    ii as int, bpc as int, k as int));
            }
            return true;
        },
        Some(x) => x,
    };
    proof {
        let fi = first_index(mp, target);
        assert(0 <= orig_pc < mp.len() && mp[orig_pc as int] == target
            && forall|j: int| 0 <= j < orig_pc ==> mp[j] != target);
        assert(0 <= fi < mp.len() && mp[fi] == target && forall|j: int| 0 <= j < fi ==> mp[j] != target);
        assert(fi == orig_pc as int);
    }
    if orig_pc >= program.len() {
        return false;
    }
    let done = rename_uses(program, table, placement_map, schedule, orig_pc, 2, (b, k), Ghost(orig), Ghost(0int), Ghost(0int));
    proof {
        lemma_uses_apply(p, entry, schedule@, mp, tb[orig_pc as int]@[2], (b, k), (b, k), done);
    }
    if !done {
        return false;
    }
    let ghost s1 = schedule@;
    let local = table[orig_pc].iter(Dependency::Local);
    proof {
        assert forall|i: int| 0 <= i < local@.len() implies #[trigger] local@[i] < program@.len() by {
            assert(table@[orig_pc as int]@[0].contains(local@[i]));
            lemma_listed(program@, table@, orig_pc as int, 0, local@[i]);
        }
    }
    let done = rename_loop_reads(program, placement_map, schedule, local, (b, k), first, ii, bpc, false, st, Ghost(orig));
    proof {
        lemma_all_kept_trans(entry, s1, schedule@);
    }
    if !done {
        return false;
    }
    let ghost s2 = schedule@;
    let inter = table[orig_pc].iter(Dependency::InterLoop);
    proof {
        assert forall|i: int| 0 <= i < inter@.len() implies #[trigger] inter@[i] < program@.len() by {
            assert(table@[orig_pc as int]@[1].contains(inter@[i]));
            lemma_listed(program@, table@, orig_pc as int, 1, inter@[i]);
        }
    }
    let done = rename_loop_reads(program, placement_map, schedule, inter, (b, k), first, ii, bpc, true, st, Ghost(orig));
    proof {
        lemma_all_kept_trans(entry, s2, schedule@);
        if done {
            assert(st.allocated@ =~= old(st).allocated@ + loop_slot_regs(p, tb, mp, sched_view(entry), first as int,
                ii as int, bpc as int, k as int));
        }
    }
    done
}

/// Loop operands: in the loop body, for each producer of an instruction in
/// turn, the reads of the producer's register are renamed to the register it
/// now writes, shifted by the number of stages between the two.
fn rename_loop_operands(
    program: &Vec<Instruction>,
    table: &Vec<DependencyList>,
    placement_map: &Vec<(usize, usize)>,
    schedule: &mut Vec<[Instruction; 5]>,
    first: usize,
    last: usize,
    b0: usize,
    ii: usize,
    st: &mut AllocState,
    Ghost(orig): Ghost<Seq<[Instruction; 5]>>,
) -> (ok: bool)
    requires
        forms_from(orig, old(schedule)@),
        is_dependency_table(program@, table@),
        first == b0 + 1,
        first <= last + 1,
        last < old(schedule).len(),
        ii > 0,
    ensures
        final(st).used@ == old(st).used@,
        final(st).next_inv == old(st).next_inv,
        forms_from(orig, final(schedule)@),
        all_kept(old(schedule)@, final(schedule)@),
        loop_operands_renamed(program@, table@, placement_map@, old(schedule)@, final(schedule)@, first as int,
            ii as int, last + 1 - first, ok),
        ok ==> final(st).allocated@ == old(st).allocated@ + loop_ops_regs(program@, table@, placement_map@,
            sched_view(old(schedule)@), first as int, ii as int, last + 1 - first),
{
    let ghost entry = schedule@;
    let ghost p = program@;
    let ghost tb = table@;
    let ghost mp = placement_map@;
    proof {
        lemma_all_kept_refl(entry);
        assert(st.allocated@ =~= old(st).allocated@ + loop_ops_regs(p, tb, mp, sched_view(entry), first as int, ii as int, 0));
    }
    let count = last + 1 - first;
    let mut bpc: usize = 0;
    while bpc < count
        invariant
            st.used@ == old(st).used@,
            st.next_inv == old(st).next_inv,
            entry == old(schedule)@,
            forms_from(orig, schedule@),
            all_kept(entry, schedule@),
            is_dependency_table(program@, table@),
            first == b0 + 1,
            count == last + 1 - first,
            last < schedule.len(),
            bpc <= count,
            ii > 0,
            p == program@,
            tb == table@,
            mp == placement_map@,
            loop_ops_all(p, tb, mp, sched_view(entry), first as int, ii as int, bpc as int) is Some,
            sched_view(schedule@) == loop_ops_all(p, tb, mp, sched_view(entry), first as int, ii as int, bpc as int)->0,
            st.allocated@ == old(st).allocated@ + loop_ops_regs(p, tb, mp, sched_view(entry), first as int, ii as int, bpc as int),
        decreases count - bpc,
    {
        let b = bpc + first;
        let ghost sp = loop_ops_all(p, tb, mp, sched_view(entry), first as int, ii as int, bpc as int)->0;
        proof {
            assert(loop_ops_all(p, tb, mp, sched_view(entry), first as int, ii as int, bpc + 1)
                == loop_bundle_ops(p, tb, mp, sp, first as int, ii as int, bpc as int, 5));
        }
        proof {
            assert(st.allocated@ =~= old(st).allocated@ + loop_ops_regs(p, tb, mp, sched_view(entry), first as int, ii as int, bpc as int) + loop_bundle_regs(p, tb, mp, sp, first as int, ii as int, bpc as int, 0));
        }
        let mut k: usize = 0;
        while k < 5
            invariant
                st.used@ == old(st).used@,
                st.next_inv == old(st).next_inv,
                entry == old(schedule)@,
                forms_from(orig, schedule@),
                all_kept(entry, schedule@),
                is_dependency_table(program@, table@),
                first == b0 + 1,
                b == bpc + first,
                bpc < count,
                count == last + 1 - first,
                last < schedule.len(),
                k <= 5,
                ii > 0,
                p == program@,
                tb == table@,
                mp == placement_map@,
                loop_ops_all(p, tb, mp, sched_view(entry), first as int, ii as int, bpc as int) is Some,
                sp == loop_ops_all(p, tb, mp, sched_view(entry), first as int, ii as int, bpc as int)->0,
                loop_ops_all(p, tb, mp, sched_view(entry), first as int, ii as int, bpc + 1)
                    == loop_bundle_ops(p, tb, mp, sp, first as int, ii as int, bpc as int, 5),
                loop_bundle_ops(p, tb, mp, sp, first as int, ii as int, bpc as int, k as int) is Some,
                sched_view(schedule@) == loop_bundle_ops(p, tb, mp, sp, first as int, ii as int, bpc as int, k as int)->0,
                st.allocated@ == old(st).allocated@ + loop_ops_regs(p, tb, mp, sched_view(entry), first as int, ii as int, bpc as int) + loop_bundle_regs(p, tb, mp, sp, first as int, ii as int, bpc as int, k as int),
            decreases 5 - k,
        {
            let ghost before = schedule@;
            proof {
                assert(loop_bundle_ops(p, tb, mp, sp, first as int, ii as int, bpc as int, k + 1)
                    == loop_slot_ops(p, tb, mp, sched_view(before), first as int, ii as int, bpc as int, k as int));
            }
            let done = rename_loop_slot(program, table, placement_map, schedule, b, k, first, ii, bpc, st, Ghost(orig));
            proof {
                lemma_all_kept_trans(entry, before, schedule@);
            }
            if !done {
                proof {
                    lemma_loop_slot_fails(p, tb, mp, sched_view(entry), first as int, ii as int, bpc as int, k as int, count as int);
                    reveal(loop_operands_renamed);
                }
                return false;
            }
            proof {
                assert(loop_bundle_regs(p, tb, mp, sp, first as int, ii as int, bpc as int, k + 1)
                    == loop_bundle_regs(p, tb, mp, sp, first as int, ii as int, bpc as int, k as int) + loop_slot_regs(p, tb, mp, sched_view(before), first as int, ii as int, bpc as int, k as int));
                assert(st.allocated@ =~= old(st).allocated@ + loop_ops_regs(p, tb, mp, sched_view(entry), first as int, ii as int, bpc as int)
                    + loop_bundle_regs(p, tb, mp, sp, first as int, ii as int, bpc as int, k + 1));
            }
            k = k + 1;
        }
        proof {
            assert(loop_ops_regs(p, tb, mp, sched_view(entry), first as int, ii as int, bpc + 1)
                == loop_ops_regs(p, tb, mp, sched_view(entry), first as int, ii as int, bpc as int) + loop_bundle_regs(p, tb, mp, sp, first as int, ii as int, bpc as int, 5));
            assert(st.allocated@ =~= old(st).allocated@ + loop_ops_regs(p, tb, mp, sched_view(entry), first as int, ii as int, bpc + 1));
        }
        bpc = bpc + 1;
    }
    proof {
        reveal(loop_operands_renamed);
    }
    true
}

proof fn lemma_slot_changed_put(before: Seq<[Instruction; 5]>, cur: Seq<[Instruction; 5]>, b: int, k: int, x: Instruction)
    requires
        0 <= b < before.len(),
        0 <= k < 5,
        cur.len() == before.len(),
        cur[b]@[k] == x,
        forall|xx: int, y: int| 0 <= xx < before.len() && 0 <= y < 5 && !(xx == b && y == k) ==>
            #[trigger] cur[xx]@[y] == before[xx]@[y],
    ensures
        slot_changed(before, cur, b, k, x),
{
}

/// `slot_dest` on the bundle contents `v`.
pub open spec fn view_dest(v: Seq<Seq<Instruction>>, map: Seq<(usize, usize)>, w: int) -> Option<(usize, u8)> {
    if 0 <= w < map.len() && map[w].0 < v.len() && map[w].1 < 5
        && spec_dest(v[map[w].0 as int][map[w].1 as int]) is Some {
        Some((map[w].0, spec_dest(v[map[w].0 as int][map[w].1 as int])->0))
    } else {
        None
    }
}

/// One pair: producer `bb0` before the loop and the loop's producer `w` of a
/// value read around the loop; `bb0`'s destination takes `w`'s register,
/// lowered by `w`'s stage, plus one. `None` where a slot is missing, `w` lies
/// before the loop or the register leaves the byte.
pub open spec fn carried_step(map: Seq<(usize, usize)>, v: Seq<Seq<Instruction>>, first: int, ii: int, bb0: int, w: int)
    -> Option<Seq<Seq<Instruction>>> {
    let sd = view_dest(v, map, w);
    if sd is None || ((sd->0).0 as int) < first {
        None
    } else {
        let d = (sd->0).1 as int;
        let q = ((((sd->0).0 - first) / ii) as u8) as int;
        if d < q || d - q + 1 > 255 || bb0 >= map.len() || map[bb0].0 >= v.len() || map[bb0].1 >= 5 {
            None
        } else {
            let pos = map[bb0];
            let ins0 = v[pos.0 as int][pos.1 as int];
            if spec_dest(ins0) is Some {
                Some(v.update(pos.0 as int, v[pos.0 as int].update(pos.1 as int, spec_with_dest(ins0, (d - q + 1) as u8))))
            } else {
                Some(v)
            }
        }
    }
}

/// The loop's producers `ls + 0..ls + k` in `inter`, in turn, for `bb0`.
pub open spec fn carried_bis(map: Seq<(usize, usize)>, v: Seq<Seq<Instruction>>, first: int, ii: int, bb0: int,
    inter: Seq<usize>, ls: int, k: int) -> Option<Seq<Seq<Instruction>>>
    decreases k,
{
    if k <= 0 {
        Some(v)
    } else {
        match carried_bis(map, v, first, ii, bb0, inter, ls, k - 1) {
            None => None,
            Some(u) => if inter.contains((ls + k - 1) as usize) { carried_step(map, u, first, ii, bb0, ls + k - 1) } else { Some(u) },
        }
    }
}

/// The loop readers `ls + 0..ls + j` in turn, for producer `bb0`: where one
/// reads `bb0`'s value around the loop, all its loop-carried producers in
/// the loop.
pub open spec fn carried_bb1(t: Seq<DependencyList>, map: Seq<(usize, usize)>, v: Seq<Seq<Instruction>>, first: int,
    ii: int, bb0: int, ls: int, n: int, j: int) -> Option<Seq<Seq<Instruction>>>
    decreases j,
{
    if j <= 0 {
        Some(v)
    } else {
        match carried_bb1(t, map, v, first, ii, bb0, ls, n, j - 1) {
            None => None,
            Some(u) => {
                let inter = t[ls + j - 1]@[1];
                if inter.contains(bb0 as usize) { carried_bis(map, u, first, ii, bb0, inter, ls, n) } else { Some(u) }
            },
        }
    }
}

/// The producers `0..m` before the loop in turn.
pub open spec fn carried_all(t: Seq<DependencyList>, map: Seq<(usize, usize)>, v: Seq<Seq<Instruction>>, first: int,
    ii: int, ls: int, n: int, m: int) -> Option<Seq<Seq<Instruction>>>
    decreases m,
{
    if m <= 0 {
        Some(v)
    } else {
        match carried_all(t, map, v, first, ii, ls, n, m - 1) {
            None => None,
            Some(u) => carried_bb1(t, map, u, first, ii, m - 1, ls, n, n),
        }
    }
}

/// The register that `carried_step` hands out, where the producer `bb0`
/// writes one.
pub open spec fn carried_step_regs(map: Seq<(usize, usize)>, v: Seq<Seq<Instruction>>, first: int, ii: int, bb0: int, w: int)
    -> Seq<u8> {
    let sd = view_dest(v, map, w);
    let d = (sd->0).1 as int;
    let q = ((((sd->0).0 - first) / ii) as u8) as int;
    let pos = map[bb0];
    if spec_dest(v[pos.0 as int][pos.1 as int]) is Some { seq![(d - q + 1) as u8] } else { Seq::empty() }
}

/// The registers that `carried_bis` hands out, in turn.
pub open spec fn carried_bis_regs(map: Seq<(usize, usize)>, v: Seq<Seq<Instruction>>, first: int, ii: int, bb0: int,
    inter: Seq<usize>, ls: int, k: int) -> Seq<u8>
    decreases k,
{
    if k <= 0 {
        Seq::empty()
    } else {
        carried_bis_regs(map, v, first, ii, bb0, inter, ls, k - 1)
            + (if inter.contains((ls + k - 1) as usize) {
                carried_step_regs(map, carried_bis(map, v, first, ii, bb0, inter, ls, k - 1)->0, first, ii, bb0, ls + k - 1)
            } else {
                Seq::empty()
            })
    }
}

/// The registers that `carried_bb1` hands out, in turn.
pub open spec fn carried_bb1_regs(t: Seq<DependencyList>, map: Seq<(usize, usize)>, v: Seq<Seq<Instruction>>, first: int,
    ii: int, bb0: int, ls: int, n: int, j: int) -> Seq<u8>
    decreases j,
{
    if j <= 0 {
        Seq::empty()
    } else {
        let inter = t[ls + j - 1]@[1];
        carried_bb1_regs(t, map, v, first, ii, bb0, ls, n, j - 1)
            + (if inter.contains(bb0 as usize) {
                carried_bis_regs(map, carried_bb1(t, map, v, first, ii, bb0, ls, n, j - 1)->0, first, ii, bb0, inter, ls, n)
            } else {
                Seq::empty()
            })
    }
}

/// The registers that `carried_all` hands out, in turn.
pub open spec fn carried_all_regs(t: Seq<DependencyList>, map: Seq<(usize, usize)>, v: Seq<Seq<Instruction>>, first: int,
    ii: int, ls: int, n: int, m: int) -> Seq<u8>
    decreases m,
{
    if m <= 0 {
        Seq::empty()
    } else {
        carried_all_regs(t, map, v, first, ii, ls, n, m - 1)
            + carried_bb1_regs(t, map, carried_all(t, map, v, first, ii, ls, n, m - 1)->0, first, ii, m - 1, ls, n, n)
    }
}

/// Renaming the producers of values carried into the loop from `sched`
/// succeeds exactly when `ok`, and then gives `cur`.
#[verifier::opaque]
pub open spec fn carried_renamed(t: Seq<DependencyList>, map: Seq<(usize, usize)>, sched: Seq<[Instruction; 5]>,
    cur: Seq<[Instruction; 5]>, first: int, ii: int, ls: int, le: int, ok: bool) -> bool {
    &&& ok == carried_all(t, map, sched_view(sched), first, ii, ls, le + 1 - ls, ls) is Some
    &&& ok ==> sched_view(cur) == carried_all(t, map, sched_view(sched), first, ii, ls, le + 1 - ls, ls)->0
}

proof fn lemma_carried_bis_none(map: Seq<(usize, usize)>, v: Seq<Seq<Instruction>>, first: int, ii: int, bb0: int,
    inter: Seq<usize>, ls: int, k: int, m: int)
    requires
        k <= m,
        carried_bis(map, v, first, ii, bb0, inter, ls, k) is None,
    ensures
        carried_bis(map, v, first, ii, bb0, inter, ls, m) is None,
    decreases m - k,
{
    if m > k {
        lemma_carried_bis_none(map, v, first, ii, bb0, inter, ls, k, m - 1);
    }
}

proof fn lemma_carried_bb1_none(t: Seq<DependencyList>, map: Seq<(usize, usize)>, v: Seq<Seq<Instruction>>, first: int,
    ii: int, bb0: int, ls: int, n: int, j: int, m: int)
    requires
        j <= m,
        carried_bb1(t, map, v, first, ii, bb0, ls, n, j) is None,
    ensures
        carried_bb1(t, map, v, first, ii, bb0, ls, n, m) is None,
    decreases m - j,
{
    if m > j {
        lemma_carried_bb1_none(t, map, v, first, ii, bb0, ls, n, j, m - 1);
    }
}

proof fn lemma_carried_all_none(t: Seq<DependencyList>, map: Seq<(usize, usize)>, v: Seq<Seq<Instruction>>, first: int,
    ii: int, ls: int, n: int, m: int, k: int)
    requires
        m <= k,
        carried_all(t, map, v, first, ii, ls, n, m) is None,
    ensures
        carried_all(t, map, v, first, ii, ls, n, k) is None,
    decreases k - m,
{
    if k > m {
        lemma_carried_all_none(t, map, v, first, ii, ls, n, m, k - 1);
    }
}

proof fn lemma_view_dest(s: Seq<[Instruction; 5]>, map: Seq<(usize, usize)>, w: int)
    ensures
        slot_dest(s, map, w) == view_dest(sched_view(s), map, w),
{
}

/// Values carried into the loop: a value produced before the loop and carried
/// around it gets, in its producer, the rotating register that the loop's own
/// producer of the same value uses on entry.
#[verifier::rlimit(30)]
fn rename_carried_producers(
    table: &Vec<DependencyList>,
    placement_map: &Vec<(usize, usize)>,
    schedule: &mut Vec<[Instruction; 5]>,
    ls: usize,
    le: usize,
    first: usize,
    ii: usize,
    st: &mut AllocState,
    Ghost(orig): Ghost<Seq<[Instruction; 5]>>,
    Ghost(p): Ghost<Seq<Instruction>>,
    Ghost(lo): Ghost<int>,
    Ghost(hi): Ghost<int>,
) -> (ok: bool)
    requires
        forms_from(orig, old(schedule)@),
        ls <= le + 1,
        le < table.len(),
        le < p.len(),
        ls == crate::dependency::loop_bounds(p).0,
        ii > 0,
    ensures
        final(st).used@ == old(st).used@,
        final(st).next_inv == old(st).next_inv,
        forms_from(orig, final(schedule)@),
        map_respects_regions(p, placement_map@, lo - 1, hi) ==> loop_kept(old(schedule)@, final(schedule)@, lo, hi),
        carried_renamed(table@, placement_map@, old(schedule)@, final(schedule)@, first as int, ii as int, ls as int, le as int, ok),
        ok ==> final(st).allocated@ == old(st).allocated@ + carried_all_regs(table@, placement_map@, sched_view(old(schedule)@),
            first as int, ii as int, ls as int, le + 1 - ls, ls as int),
{
    proof {
        reveal(carried_renamed);
    }
    let ghost entry = schedule@;
    let ghost tb = table@;
    let ghost mp = placement_map@;
    let ghost regions = map_respects_regions(p, placement_map@, lo - 1, hi);
    proof {
        lemma_loop_kept_refl(entry, lo, hi);
    }
    let n = le + 1 - ls;
    proof {
        assert(st.allocated@ =~= old(st).allocated@ + carried_all_regs(tb, mp, sched_view(entry), first as int, ii as int, ls as int, n as int, 0));
    }
    let mut bb0_pc: usize = 0;
    while bb0_pc < ls
        invariant
            st.used@ == old(st).used@,
            st.next_inv == old(st).next_inv,
            entry == old(schedule)@,
            forms_from(orig, schedule@),
            ls <= le + 1, le < table.len(),
            le < p.len(),
            ls == crate::dependency::loop_bounds(p).0,
            n == le + 1 - ls,
            bb0_pc <= ls,
            ii > 0,
            regions == map_respects_regions(p, placement_map@, lo - 1, hi),
            regions ==> loop_kept(entry, schedule@, lo, hi),
            tb == table@,
            mp == placement_map@,
            carried_all(tb, mp, sched_view(entry), first as int, ii as int, ls as int, n as int, bb0_pc as int) is Some,
            sched_view(schedule@) == carried_all(tb, mp, sched_view(entry), first as int, ii as int, ls as int, n as int, bb0_pc as int)->0,
            st.allocated@ == old(st).allocated@ + carried_all_regs(tb, mp, sched_view(entry), first as int, ii as int, ls as int, n as int, bb0_pc as int),
        decreases ls - bb0_pc,
    {
        let ghost u0 = carried_all(tb, mp, sched_view(entry), first as int, ii as int, ls as int, n as int, bb0_pc as int)->0;
        proof {
            assert(st.allocated@ =~= old(st).allocated@ + carried_all_regs(tb, mp, sched_view(entry), first as int, ii as int, ls as int, n as int, bb0_pc as int)
                + carried_bb1_regs(tb, mp, u0, first as int, ii as int, bb0_pc as int, ls as int, n as int, 0));
        }
        let mut bb1_pc: usize = 0;
        while bb1_pc < n
            invariant
                st.used@ == old(st).used@,
                st.next_inv == old(st).next_inv,
                entry == old(schedule)@,
                forms_from(orig, schedule@),
                ls <= le + 1, le < table.len(),
                le < p.len(),
                ls == crate::dependency::loop_bounds(p).0,
                n == le + 1 - ls,
                bb0_pc < ls,
                bb1_pc <= n,
                ii > 0,
                regions == map_respects_regions(p, placement_map@, lo - 1, hi),
                regions ==> loop_kept(entry, schedule@, lo, hi),
                tb == table@,
                mp == placement_map@,
                carried_all(tb, mp, sched_view(entry), first as int, ii as int, ls as int, n as int, bb0_pc as int) == Some(u0),
                carried_bb1(tb, mp, u0, first as int, ii as int, bb0_pc as int, ls as int, n as int, bb1_pc as int) is Some,
                sched_view(schedule@) == carried_bb1(tb, mp, u0, first as int, ii as int, bb0_pc as int, ls as int, n as int, bb1_pc as int)->0,
                st.allocated@ == old(st).allocated@ + carried_all_regs(tb, mp, sched_view(entry), first as int, ii as int, ls as int, n as int, bb0_pc as int) + carried_bb1_regs(tb, mp, u0, first as int, ii as int, bb0_pc as int, ls as int, n as int, bb1_pc as int),
            decreases n - bb1_pc,
        {
            let inter = table[bb1_pc + ls].iter(Dependency::InterLoop);
            let ghost w0 = carried_bb1(tb, mp, u0, first as int, ii as int, bb0_pc as int, ls as int, n as int, bb1_pc as int)->0;
            proof {
                assert(ls as int + (bb1_pc + 1) - 1 == bb1_pc + ls);
                if carried_bb1(tb, mp, u0, first as int, ii as int, bb0_pc as int, ls as int, n as int, bb1_pc + 1) is None {
                    lemma_carried_bb1_none(tb, mp, u0, first as int, ii as int, bb0_pc as int, ls as int, n as int, bb1_pc + 1, n as int);
                    assert(carried_all(tb, mp, sched_view(entry), first as int, ii as int, ls as int, n as int, bb0_pc + 1) is None);
                    lemma_carried_all_none(tb, mp, sched_view(entry), first as int, ii as int, ls as int, n as int, bb0_pc + 1, ls as int);
                }
            }
            if contains_usize(inter, bb0_pc) {
                proof {
                    assert(st.allocated@ =~= old(st).allocated@ + carried_all_regs(tb, mp, sched_view(entry), first as int, ii as int, ls as int, n as int, bb0_pc as int) + carried_bb1_regs(tb, mp, u0, first as int, ii as int, bb0_pc as int, ls as int, n as int, bb1_pc as int)
                        + carried_bis_regs(mp, w0, first as int, ii as int, bb0_pc as int, inter@, ls as int, 0));
                }
                let mut bis: usize = 0;
                while bis < n
                    invariant
                        st.used@ == old(st).used@,
                        st.next_inv == old(st).next_inv,
                        entry == old(schedule)@,
                        forms_from(orig, schedule@),
                        ls <= le + 1, le < table.len(),
                        le < p.len(),
                        ls == crate::dependency::loop_bounds(p).0,
                        n == le + 1 - ls,
                        bb0_pc < ls,
                        bis <= n,
                        ii > 0,
                        regions == map_respects_regions(p, placement_map@, lo - 1, hi),
                        regions ==> loop_kept(entry, schedule@, lo, hi),
                        tb == table@,
                        mp == placement_map@,
                        inter@ == tb[bb1_pc + ls]@[1],
                        inter@.contains(bb0_pc),
                        bb1_pc < n,
                        carried_bb1(tb, mp, u0, first as int, ii as int, bb0_pc as int, ls as int, n as int, bb1_pc + 1)
                            == carried_bis(mp, w0, first as int, ii as int, bb0_pc as int, inter@, ls as int, n as int),
                        carried_bis(mp, w0, first as int, ii as int, bb0_pc as int, inter@, ls as int, n as int) is None
                            ==> carried_all(tb, mp, sched_view(entry), first as int, ii as int, ls as int, n as int, ls as int) is None,
                        carried_bis(mp, w0, first as int, ii as int, bb0_pc as int, inter@, ls as int, bis as int) is Some,
                        sched_view(schedule@) == carried_bis(mp, w0, first as int, ii as int, bb0_pc as int, inter@, ls as int, bis as int)->0,
                        st.allocated@ == old(st).allocated@ + carried_all_regs(tb, mp, sched_view(entry), first as int, ii as int, ls as int, n as int, bb0_pc as int) + carried_bb1_regs(tb, mp, u0, first as int, ii as int, bb0_pc as int, ls as int, n as int, bb1_pc as int) + carried_bis_regs(mp, w0, first as int, ii as int, bb0_pc as int, inter@, ls as int, bis as int),
                    decreases n - bis,
                {
                    let ghost x0 = carried_bis(mp, w0, first as int, ii as int, bb0_pc as int, inter@, ls as int, bis as int)->0;
                    let ghost a_in = st.allocated@;
                    proof {
                        assert(carried_bis_regs(mp, w0, first as int, ii as int, bb0_pc as int, inter@, ls as int, bis + 1)
                            == carried_bis_regs(mp, w0, first as int, ii as int, bb0_pc as int, inter@, ls as int, bis as int) + (if inter@.contains((ls as int + (bis + 1) - 1) as usize) {
                                carried_step_regs(mp, x0, first as int, ii as int, bb0_pc as int, ls as int + (bis + 1) - 1)
                            } else {
                                Seq::empty()
                            }));
                    }
                    proof {
                        assert(ls as int + (bis + 1) - 1 == bis + ls);
                        if carried_bis(mp, w0, first as int, ii as int, bb0_pc as int, inter@, ls as int, bis + 1) is None {
                            lemma_carried_bis_none(mp, w0, first as int, ii as int, bb0_pc as int, inter@, ls as int, bis + 1, n as int);
                        }
                        lemma_view_dest(schedule@, mp, bis + ls);
                    }
                    if contains_usize(inter, bis + ls) {
                        let (xb, d) = match dest_at(schedule, placement_map, bis + ls, Ghost(orig)) {
                            Some(x) => x,
                            None => {
                                proof {
                                    reveal(carried_renamed);
                                }
                                return false;
                            },
                        };
                        if xb < first {
                            proof {
                                reveal(carried_renamed);
                            }
                            return false;
                        }
                        let q = ((xb - first) / ii) as u8;
                        if d < q {
                            proof {
                                reveal(carried_renamed);
                            }
                            return false;
                        }
                        let remap_value = match (d - q).checked_add(1) {
                            Some(v) => v,
                            None => {
                                proof {
                                    reveal(carried_renamed);
                                }
                                return false;
                            },
                        };
                        let pos0 = match get_pair(placement_map, bb0_pc) {
                            Some(x) => x,
                            None => {
                                proof {
                                    reveal(carried_renamed);
                                }
                                return false;
                            },
                        };
                        let ins0 = match get_slot(schedule, pos0.0, pos0.1, Ghost(orig)) {
                            Some(i) => i,
                            None => {
                                proof {
                                    reveal(carried_renamed);
                                }
                                return false;
                            },
                        };
                        if ins0.dest().is_some() {
                            let new_instr = with_dest(ins0, remap_value);
                            proof {
                                lemma_renaming_keeps_form(ins0, 0, 0, remap_value);
                                lemma_form_at_step(orig, pos0.0 as int, pos0.1 as int, ins0, new_instr);
                            }
                            st.allocated.push(remap_value);
                            proof {
                                assert(carried_step_regs(mp, x0, first as int, ii as int, bb0_pc as int, (bis + ls) as int)
                                    == seq![remap_value]);
                                if regions {
                                    assert(placement_map@[bb0_pc as int].0 <= lo - 1);
                                }
                            }
                            let ghost before = schedule@;
                            put_slot(schedule, pos0.0, pos0.1, new_instr, Ghost(orig));
                            proof {
                                if regions {
                                    lemma_loop_kept_step(entry, before, schedule@, pos0.0 as int, pos0.1 as int, lo, hi);
                                }
                                lemma_slot_changed_put(before, schedule@, pos0.0 as int, pos0.1 as int, new_instr);
                                lemma_view_slot_changed(before, schedule@, pos0.0 as int, pos0.1 as int, new_instr);
                            }
                        }
                    }
                    proof {
                        assert(ls as int + (bis + 1) - 1 == (bis + ls) as int);
                        assert(st.allocated@ =~= old(st).allocated@ + carried_all_regs(tb, mp, sched_view(entry), first as int, ii as int, ls as int, n as int, bb0_pc as int) + carried_bb1_regs(tb, mp, u0, first as int, ii as int, bb0_pc as int, ls as int, n as int, bb1_pc as int)
                            + carried_bis_regs(mp, w0, first as int, ii as int, bb0_pc as int, inter@, ls as int, bis + 1));
                    }
                    bis = bis + 1;
                }
            }
            proof {
                if !inter@.contains(bb0_pc) {
                    assert(carried_bb1(tb, mp, u0, first as int, ii as int, bb0_pc as int, ls as int, n as int, bb1_pc + 1) == Some(w0));
                }
                assert(carried_bb1_regs(tb, mp, u0, first as int, ii as int, bb0_pc as int, ls as int, n as int, bb1_pc + 1)
                    == carried_bb1_regs(tb, mp, u0, first as int, ii as int, bb0_pc as int, ls as int, n as int, bb1_pc as int) + (if tb[ls + bb1_pc]@[1].contains(bb0_pc) {
                        carried_bis_regs(mp, w0, first as int, ii as int, bb0_pc as int, tb[ls + bb1_pc]@[1], ls as int, n as int)
                    } else {
                        Seq::empty()
                    }));
                assert(st.allocated@ =~= old(st).allocated@ + carried_all_regs(tb, mp, sched_view(entry), first as int, ii as int, ls as int, n as int, bb0_pc as int)
                    + carried_bb1_regs(tb, mp, u0, first as int, ii as int, bb0_pc as int, ls as int, n as int, bb1_pc + 1));
            }
            bb1_pc = bb1_pc + 1;
        }
        proof {
            assert(carried_all(tb, mp, sched_view(entry), first as int, ii as int, ls as int, n as int, bb0_pc + 1)
                == carried_bb1(tb, mp, u0, first as int, ii as int, bb0_pc as int, ls as int, n as int, n as int));
            assert(carried_all_regs(tb, mp, sched_view(entry), first as int, ii as int, ls as int, n as int, bb0_pc + 1)
                == carried_all_regs(tb, mp, sched_view(entry), first as int, ii as int, ls as int, n as int, bb0_pc as int) + carried_bb1_regs(tb, mp, u0, first as int, ii as int, bb0_pc as int, ls as int, n as int, n as int));
            assert(st.allocated@ =~= old(st).allocated@
                + carried_all_regs(tb, mp, sched_view(entry), first as int, ii as int, ls as int, n as int, bb0_pc + 1));
        }
        bb0_pc = bb0_pc + 1;
    }
    true
}

/// How many of the first `k` slots of `row` hold `target` and write a register.
pub open spec fn copies_before(row: Seq<Instruction>, target: Instruction, k: int) -> nat
    decreases k,
{
    if k <= 0 {
        0
    } else {
        copies_before(row, target, k - 1) + (if row[k - 1] == target && spec_dest(target) is Some { 1nat } else { 0nat })
    }
}

/// The registers recorded as renamed when the copies of `target` among the
/// first `k` slots of `row` get fresh destinations: its destination, once per
/// copy.
pub open spec fn copies_regs(row: Seq<Instruction>, target: Instruction, k: int) -> Seq<u8> {
    Seq::new(copies_before(row, target, k), |i: int| spec_dest(target)->0)
}

proof fn lemma_copies_mono(row: Seq<Instruction>, target: Instruction, k: int, m: int)
    requires
        k <= m,
    ensures
        copies_before(row, target, k) <= copies_before(row, target, m),
    decreases m - k,
{
    if m > k {
        lemma_copies_mono(row, target, k, m - 1);
    }
}

/// Gives fresh non-rotating destinations to the instructions of the producer
/// `w`'s bundle that are equal to it.
fn rename_producer_dest(
    placement_map: &Vec<(usize, usize)>,
    schedule: &mut Vec<[Instruction; 5]>,
    w: usize,
    st: &mut AllocState,
    Ghost(orig): Ghost<Seq<[Instruction; 5]>>,
    Ghost(first): Ghost<int>,
    Ghost(last): Ghost<int>,
) -> (ok: bool)
    requires
        forms_from(orig, old(schedule)@),
    ensures
        forms_from(orig, final(schedule)@),
        (w < placement_map@.len() ==> placement_map@[w as int].0 < first || placement_map@[w as int].0 > last)
            ==> loop_kept(old(schedule)@, final(schedule)@, first, last),
        ok == (w < placement_map@.len() && placement_map@[w as int].0 < old(schedule)@.len() && placement_map@[w as int].1 < 5
            && old(st).next_inv + copies_before(old(schedule)@[placement_map@[w as int].0 as int]@,
                old(schedule)@[placement_map@[w as int].0 as int]@[placement_map@[w as int].1 as int], 5) <= 255),
        ok ==> ({
            let b = placement_map@[w as int].0 as int;
            let row = old(schedule)@[b]@;
            let target = row[placement_map@[w as int].1 as int];
            &&& final(schedule)@.len() == old(schedule)@.len()
            &&& forall|x: int, y: int| 0 <= x < old(schedule)@.len() && x != b && 0 <= y < 5 ==>
                #[trigger] final(schedule)@[x]@[y] == old(schedule)@[x]@[y]
            &&& forall|y: int| 0 <= y < 5 ==> #[trigger] final(schedule)@[b]@[y] == if row[y] == target && spec_dest(target) is Some {
                    spec_with_dest(target, (old(st).next_inv + copies_before(row, target, y)) as u8)
                } else {
                    row[y]
                }
            &&& final(st).next_inv == old(st).next_inv + copies_before(row, target, 5)
            &&& final(st).used@ == old(st).used@ + copies_regs(row, target, 5)
            &&& final(st).allocated@ == old(st).allocated@ + fresh_regs(old(st).next_inv as int, final(st).next_inv as int)
        }),
{
    proof {
        assert(st.allocated@ =~= st.allocated@ + fresh_regs(st.next_inv as int, st.next_inv as int));
    }
    let ghost entry = schedule@;
    let ghost u0 = st.used@;
    let ghost outside = w < placement_map@.len() ==> placement_map@[w as int].0 < first || placement_map@[w as int].0 > last;
    proof {
        lemma_loop_kept_refl(entry, first, last);
    }
    let pos = match get_pair(placement_map, w) {
        Some(x) => x,
        None => {
            return false;
        },
    };
    let b = pos.0;
    let target = match get_slot(schedule, b, pos.1, Ghost(orig)) {
        Some(i) => i,
        None => {
            return false;
        },
    };
    let ghost row = entry[b as int]@;
    let ghost n0 = st.next_inv;
    proof {
        assert(target == row[pos.1 as int]);
    }
    let mut k: usize = 0;
    while k < 5
        invariant
            st.allocated@ == old(st).allocated@ + fresh_regs(old(st).next_inv as int, st.next_inv as int),
            old(st).next_inv <= st.next_inv,
            entry == old(schedule)@,
            forms_from(orig, schedule@),
            b < schedule@.len(),
            k <= 5,
            row == entry[b as int]@,
            n0 == old(st).next_inv,
            w < placement_map@.len(),
            pos == placement_map@[w as int],
            b == pos.0,
            pos.1 < 5,
            target == row[pos.1 as int],
            schedule@.len() == entry.len(),
            st.next_inv == n0 + copies_before(row, target, k as int),
            u0 == old(st).used@,
            st.used@ == u0 + copies_regs(row, target, k as int),
            forall|x: int, y: int| 0 <= x < entry.len() && x != b && 0 <= y < 5 ==>
                #[trigger] schedule@[x]@[y] == entry[x]@[y],
            forall|y: int| k <= y < 5 ==> #[trigger] schedule@[b as int]@[y] == row[y],
            forall|y: int| 0 <= y < k ==> #[trigger] schedule@[b as int]@[y] == if row[y] == target && spec_dest(target) is Some {
                    spec_with_dest(target, (n0 + copies_before(row, target, y)) as u8)
                } else {
                    row[y]
                },
            outside ==> (b < first || b > last),
            outside == (w < placement_map@.len() ==> placement_map@[w as int].0 < first || placement_map@[w as int].0 > last),
            outside ==> loop_kept(entry, schedule@, first, last),
        decreases 5 - k,
    {
        let ins = match get_slot(schedule, b, k, Ghost(orig)) {
            Some(i) => i,
            None => {
                return false;
            },
        };
        proof {
            assert(ins == row[k as int]);
            lemma_copies_mono(row, target, k as int + 1, 5);
            assert(copies_before(row, target, k + 1) == copies_before(row, target, k as int)
                + (if row[k as int] == target && spec_dest(target) is Some { 1nat } else { 0nat }));
        }
        let ghost uk = st.used@;
        if ins == target {
            match ins.dest() {
                Some(dest) => {
                    let ghost before = schedule@;
                    let ghost nv = st.next_inv;
                    let done = take_next_inv(schedule, b, k, ins, dest, st, Ghost(orig), Ghost(first), Ghost(last));
                    proof {
                        if outside {
                            lemma_loop_kept_trans(entry, before, schedule@, first, last);
                        }
                        assert(copies_before(row, target, k + 1) == copies_before(row, target, k as int) + 1);
                    }
                    if !done {
                        proof {
                            assert(nv == 255);
                            assert(n0 + copies_before(row, target, 5) > 255);
                            assert(pos == placement_map@[w as int]);
                            assert(old(schedule)@[placement_map@[w as int].0 as int]@ == row);
                            assert(row[placement_map@[w as int].1 as int] == target);
                        }
                        return false;
                    }
                    proof {
                        assert forall|x: int, y: int| 0 <= x < entry.len() && x != b && 0 <= y < 5 implies
                            #[trigger] schedule@[x]@[y] == entry[x]@[y] by {
                            assert(schedule@[x]@[y] == before[x]@[y]);
                        }
                        assert forall|y: int| k < y < 5 implies #[trigger] schedule@[b as int]@[y] == row[y] by {
                            assert(schedule@[b as int]@[y] == before[b as int]@[y]);
                        }
                        assert forall|y: int| 0 <= y < k + 1 implies #[trigger] schedule@[b as int]@[y] == if row[y] == target && spec_dest(target) is Some {
                                spec_with_dest(target, (n0 + copies_before(row, target, y)) as u8)
                            } else {
                                row[y]
                            } by {
                            if y < k {
                                assert(schedule@[b as int]@[y] == before[b as int]@[y]);
                            }
                        }
                    }
                },
                None => {},
            }
        }
        proof {
            assert(st.used@ =~= u0 + copies_regs(row, target, k + 1));
        }
        k = k + 1;
    }
    true
}

/// Code before the loop: local producers get fresh registers, and
/// the local and loop-invariant operands follow their producers.
fn rename_local_before(
    program: &Vec<Instruction>,
    table: &Vec<DependencyList>,
    placement_map: &Vec<(usize, usize)>,
    schedule: &mut Vec<[Instruction; 5]>,
    ls: usize,
    st: &mut AllocState,
    Ghost(orig): Ghost<Seq<[Instruction; 5]>>,
    Ghost(first): Ghost<int>,
    Ghost(last): Ghost<int>,
) -> (ok: bool)
    requires
        forms_from(orig, old(schedule)@),
        is_dependency_table(program@, table@),
        ls <= program@.len(),
        ls == crate::dependency::loop_bounds(program@).0,
    ensures
        ok ==> final(st).allocated@ == old(st).allocated@ + fresh_regs(old(st).next_inv as int, final(st).next_inv as int),
        forms_from(orig, final(schedule)@),
        map_respects_regions(program@, placement_map@, first - 1, last) ==> loop_kept(old(schedule)@, final(schedule)@, first, last),
        local_before_renamed(program@, table@, placement_map@, old(schedule)@, old(st).next_inv, final(schedule)@,
            final(st).next_inv, ls as int, ok),
        ok ==> final(st).used@ == old(st).used@ + local_before_regs(program@, table@, placement_map@,
            (sched_view(old(schedule)@), old(st).next_inv), ls as int),
{
    proof {
        assert(st.allocated@ =~= st.allocated@ + fresh_regs(st.next_inv as int, st.next_inv as int));
    }
    proof {
        reveal(local_before_renamed);
    }
    let ghost entry = schedule@;
    let ghost n0 = st.next_inv;
    let ghost p = program@;
    let ghost tb = table@;
    let ghost mp = placement_map@;
    let ghost u0 = st.used@;
    let ghost regions = map_respects_regions(program@, placement_map@, first - 1, last);
    proof {
        lemma_loop_kept_refl(entry, first, last);
    }
    let mut pc: usize = 0;
    while pc < ls
        invariant
            st.allocated@ == old(st).allocated@ + fresh_regs(old(st).next_inv as int, st.next_inv as int),
            old(st).next_inv <= st.next_inv,
            entry == old(schedule)@,
            forms_from(orig, schedule@),
            is_dependency_table(program@, table@),
            ls <= program@.len(),
            ls == crate::dependency::loop_bounds(program@).0,
            pc <= ls,
            regions == map_respects_regions(program@, placement_map@, first - 1, last),
            regions ==> loop_kept(entry, schedule@, first, last),
            p == program@,
            tb == table@,
            mp == placement_map@,
            n0 == old(st).next_inv,
            u0 == old(st).used@,
            st.used@ == u0 + local_before_regs(p, tb, mp, (sched_view(entry), n0), pc as int),
            local_before_all(p, tb, mp, (sched_view(entry), n0), pc as int) is Some,
            (sched_view(schedule@), st.next_inv) == local_before_all(p, tb, mp, (sched_view(entry), n0), pc as int)->0,
        decreases ls - pc,
    {
        let local = table[pc].iter(Dependency::Local);
        let ghost sp = local_before_all(p, tb, mp, (sched_view(entry), n0), pc as int)->0;
        proof {
            assert(local_before_all(p, tb, mp, (sched_view(entry), n0), pc + 1) == local_before_step(p, tb, mp, sp, pc as int));
        }
        let mut j: usize = 0;
        while j < local.len()
            invariant
                st.allocated@ == old(st).allocated@ + fresh_regs(old(st).next_inv as int, st.next_inv as int),
                old(st).next_inv <= st.next_inv,
                entry == old(schedule)@,
                forms_from(orig, schedule@),
                is_dependency_table(program@, table@),
                pc < ls <= program@.len(),
                ls == crate::dependency::loop_bounds(program@).0,
                local@ == table@[pc as int]@[0],
                j <= local@.len(),
                regions == map_respects_regions(program@, placement_map@, first - 1, last),
                regions ==> loop_kept(entry, schedule@, first, last),
                p == program@,
                tb == table@,
                mp == placement_map@,
                n0 == old(st).next_inv,
                u0 == old(st).used@,
                st.used@ == u0 + local_before_regs(p, tb, mp, (sched_view(entry), n0), pc as int) + local_producers_regs(mp, sp, local@, j as int),
                local_before_all(p, tb, mp, (sched_view(entry), n0), pc + 1) == local_before_step(p, tb, mp, sp, pc as int),
                local_producers_view(mp, sp, local@, j as int) is Some,
                (sched_view(schedule@), st.next_inv) == local_producers_view(mp, sp, local@, j as int)->0,
            decreases local.len() - j,
        {
            let w = local[j];
            proof {
                assert(table@[pc as int]@[0].contains(w));
                lemma_listed(program@, table@, pc as int, 0, w);
                if regions && w < placement_map@.len() {
                    assert(placement_map@[w as int].0 <= first - 1);
                }
            }
            let ghost before = schedule@;
            let ghost nb = st.next_inv;
            let done = rename_producer_dest(placement_map, schedule, w, st, Ghost(orig), Ghost(first), Ghost(last));
            proof {
                if regions {
                    lemma_loop_kept_trans(entry, before, schedule@, first, last);
                }
                lemma_producer_dest_view(before, schedule@, mp, w as int, nb, st.next_inv, done);
                if !done {
                    assert(local_producers_view(mp, sp, local@, j + 1) is None);
                    lemma_local_producers_none(mp, sp, local@, j + 1, local@.len() as int);
                    lemma_local_before_none(p, tb, mp, (sched_view(entry), n0), pc + 1, ls as int);
                }
            }
            if !done {
                proof {
                    reveal(local_before_renamed);
                }
                return false;
            }
            proof {
                assert(local_producers_regs(mp, sp, local@, j + 1) == local_producers_regs(mp, sp, local@, j as int)
                    + producer_regs_view(mp, (local_producers_view(mp, sp, local@, j as int)->0).0, w as int));
                assert(st.used@ =~= u0 + local_before_regs(p, tb, mp, (sched_view(entry), n0), pc as int) + local_producers_regs(mp, sp, local@, j + 1));
            }
            j = j + 1;
        }
        proof {
            assert(local_before_regs(p, tb, mp, (sched_view(entry), n0), pc + 1) == local_before_regs(p, tb, mp, (sched_view(entry), n0), pc as int)
                + local_producers_regs(mp, sp, local@, local@.len() as int));
        }
        proof {
            assert(local_producers_view(mp, sp, local@, local@.len() as int) is Some);
            if pc >= mp.len() {
                lemma_local_before_none(p, tb, mp, (sched_view(entry), n0), pc + 1, ls as int);
            }
        }
        let pos = match get_pair(placement_map, pc) {
            Some(x) => x,
            None => {
                proof {
                    reveal(local_before_renamed);
                }
                return false;
            },
        };
        let ghost before = schedule@;
        let done = rename_uses(program, table, placement_map, schedule, pc, 0, pos, Ghost(orig), Ghost(first), Ghost(last));
        proof {
            if regions {
                lemma_loop_kept_trans(entry, before, schedule@, first, last);
            }
            lemma_uses_apply(p, before, schedule@, mp, tb[pc as int]@[0], pos, pos, done);
            if !done {
                lemma_local_before_none(p, tb, mp, (sched_view(entry), n0), pc + 1, ls as int);
            }
        }
        if !done {
            proof {
                reveal(local_before_renamed);
            }
            return false;
        }
        let ghost before = schedule@;
        let done = rename_uses(program, table, placement_map, schedule, pc, 2, pos, Ghost(orig), Ghost(first), Ghost(last));
        proof {
            if regions {
                lemma_loop_kept_trans(entry, before, schedule@, first, last);
            }
            lemma_uses_apply(p, before, schedule@, mp, tb[pc as int]@[2], pos, pos, done);
            if !done {
                lemma_local_before_none(p, tb, mp, (sched_view(entry), n0), pc + 1, ls as int);
            }
        }
        if !done {
            proof {
                reveal(local_before_renamed);
            }
            return false;
        }
        pc = pc + 1;
    }
    true
}

/// `slot_dest` of `sched` with slot `dst` holding `x`.
pub open spec fn slot_dest_with(sched: Seq<[Instruction; 5]>, map: Seq<(usize, usize)>, w: int, dst: (usize, usize), x: Instruction) -> Option<(usize, u8)> {
    if dst.0 < sched.len() && dst.1 < 5 && 0 <= w < map.len() && map[w] == dst {
        if spec_dest(x) is Some { Some((dst.0, spec_dest(x)->0)) } else { None }
    } else {
        slot_dest(sched, map, w)
    }
}

/// Running `rename_use` for the first `n` producers `ws` from the schedule
/// `entry`: whether every run succeeded, and what slot `dst` holds then.
pub open spec fn uses_state(
    p: Seq<Instruction>,
    entry: Seq<[Instruction; 5]>,
    map: Seq<(usize, usize)>,
    ws: Seq<usize>,
    src: (usize, usize),
    dst: (usize, usize),
    n: int,
) -> (bool, Instruction)
    decreases n,
{
    if n <= 0 {
        (true, entry[dst.0 as int]@[dst.1 as int])
    } else {
        let prev = uses_state(p, entry, map, ws, src, dst, n - 1);
        if !prev.0 {
            prev
        } else {
            let w = ws[n - 1] as int;
            let cur_src = if src == dst { prev.1 } else { entry[src.0 as int]@[src.1 as int] };
            let sd = if n - 1 == 0 { slot_dest(entry, map, w) } else { slot_dest_with(entry, map, w, dst, prev.1) };
            if sd is Some && src.0 < entry.len() && src.1 < 5 && spec_dest(p[w]) is Some
                && dst.0 < entry.len() && dst.1 < 5 {
                (true, renamed_operands(cur_src, spec_dest(p[w])->0, (sd->0).1))
            } else {
                (false, prev.1)
            }
        }
    }
}

proof fn lemma_uses_state_fails(
    p: Seq<Instruction>,
    entry: Seq<[Instruction; 5]>,
    map: Seq<(usize, usize)>,
    ws: Seq<usize>,
    src: (usize, usize),
    dst: (usize, usize),
    n: int,
    m: int,
)
    requires
        n <= m,
        !uses_state(p, entry, map, ws, src, dst, n).0,
    ensures
        !uses_state(p, entry, map, ws, src, dst, m).0,
    decreases m - n,
{
    if m > n {
        lemma_uses_state_fails(p, entry, map, ws, src, dst, n, m - 1);
    }
}

/// Runs `rename_use` at `pos` for every producer of kind `t` of the reader
/// `pc`.
fn rename_uses(
    program: &Vec<Instruction>,
    table: &Vec<DependencyList>,
    placement_map: &Vec<(usize, usize)>,
    schedule: &mut Vec<[Instruction; 5]>,
    pc: usize,
    t: usize,
    pos: (usize, usize),
    Ghost(orig): Ghost<Seq<[Instruction; 5]>>,
    Ghost(first): Ghost<int>,
    Ghost(last): Ghost<int>,
) -> (ok: bool)
    requires
        forms_from(orig, old(schedule)@),
        is_dependency_table(program@, table@),
        pc < program@.len(),
        t < 4,
    ensures
        forms_from(orig, final(schedule)@),
        loop_kept(old(schedule)@, final(schedule)@, first, last),
        all_kept(old(schedule)@, final(schedule)@),
        ok == uses_state(program@, old(schedule)@, placement_map@, table@[pc as int]@[t as int], pos, pos,
            table@[pc as int]@[t as int].len() as int).0,
        ok && table@[pc as int]@[t as int].len() == 0 ==> final(schedule)@ == old(schedule)@,
        ok && table@[pc as int]@[t as int].len() > 0 ==> slot_changed(old(schedule)@, final(schedule)@, pos.0 as int, pos.1 as int,
            uses_state(program@, old(schedule)@, placement_map@, table@[pc as int]@[t as int], pos, pos,
                table@[pc as int]@[t as int].len() as int).1),
{
    let ghost entry = schedule@;
    proof {
        lemma_loop_kept_refl(entry, first, last);
        lemma_all_kept_refl(entry);
    }
    let kinds = Dependency::iter();
    let ws = table[pc].iter(kinds[t]);
    proof {
        assert(crate::dependency::dep_index(kinds@[t as int]) == t);
    }
    let mut j: usize = 0;
    while j < ws.len()
        invariant
            entry == old(schedule)@,
            forms_from(orig, schedule@),
            is_dependency_table(program@, table@),
            pc < program@.len(),
            t < 4,
            ws@ == table@[pc as int]@[t as int],
            j <= ws@.len(),
            loop_kept(entry, schedule@, first, last),
            all_kept(entry, schedule@),
            uses_state(program@, entry, placement_map@, ws@, pos, pos, j as int).0,
            j == 0 ==> schedule@ == entry,
            j > 0 ==> slot_changed(entry, schedule@, pos.0 as int, pos.1 as int,
                uses_state(program@, entry, placement_map@, ws@, pos, pos, j as int).1),
        decreases ws.len() - j,
    {
        let w = ws[j];
        proof {
            assert(table@[pc as int]@[t as int].contains(w));
            lemma_listed(program@, table@, pc as int, t as int, w);
        }
        let ghost before = schedule@;
        let done = rename_use(program, placement_map, schedule, w, pos, Ghost(orig), Ghost(first), Ghost(last));
        proof {
            lemma_loop_kept_trans(entry, before, schedule@, first, last);
            lemma_all_kept_trans(entry, before, schedule@);
        }
        proof {
            let prev = uses_state(program@, entry, placement_map@, ws@, pos, pos, j as int);
            let wi = w as int;
            if j > 0 {
                assert(slot_dest(before, placement_map@, wi) == slot_dest_with(entry, placement_map@, wi, pos, prev.1));
                if pos.0 < entry.len() && pos.1 < 5 {
                    assert(before[pos.0 as int]@[pos.1 as int] == prev.1);
                }
            }
            if done {
                assert forall|x: int, y: int| 0 <= x < entry.len() && 0 <= y < 5 && !(x == pos.0 && y == pos.1) implies
                    #[trigger] schedule@[x]@[y] == entry[x]@[y] by {
                    assert(schedule@[x]@[y] == before[x]@[y]);
                }
            } else {
                lemma_uses_state_fails(program@, entry, placement_map@, ws@, pos, pos, j + 1, ws@.len() as int);
            }
        }
        if !done {
            return false;
        }
        j = j + 1;
    }
    true
}

/// `rename_producer_dest` on the bundle contents `v` with next register `n`.
pub open spec fn producer_dest_view(map: Seq<(usize, usize)>, v: Seq<Seq<Instruction>>, w: int, n: u8)
    -> Option<(Seq<Seq<Instruction>>, u8)> {
    if !(0 <= w < map.len() && map[w].0 < v.len() && map[w].1 < 5) {
        None
    } else {
        let b = map[w].0 as int;
        let row = v[b];
        let target = row[map[w].1 as int];
        if n + copies_before(row, target, 5) > 255 {
            None
        } else {
            Some((v.update(b, Seq::new(5, |y: int| if row[y] == target && spec_dest(target) is Some {
                    spec_with_dest(target, (n + copies_before(row, target, y)) as u8)
                } else {
                    row[y]
                })), (n + copies_before(row, target, 5)) as u8))
        }
    }
}

/// `uses_state` on the bundle contents `v`.
pub open spec fn uses_view(p: Seq<Instruction>, v: Seq<Seq<Instruction>>, map: Seq<(usize, usize)>, ws: Seq<usize>,
    src: (usize, usize), dst: (usize, usize), n: int) -> (bool, Instruction)
    decreases n,
{
    if n <= 0 {
        (true, v[dst.0 as int][dst.1 as int])
    } else {
        let prev = uses_view(p, v, map, ws, src, dst, n - 1);
        if !prev.0 {
            prev
        } else {
            let w = ws[n - 1] as int;
            let cur_src = if src == dst { prev.1 } else { v[src.0 as int][src.1 as int] };
            let sd = if n - 1 == 0 {
                view_dest(v, map, w)
            } else if dst.0 < v.len() && dst.1 < 5 && 0 <= w < map.len() && map[w] == dst {
                if spec_dest(prev.1) is Some { Some((dst.0, spec_dest(prev.1)->0)) } else { None }
            } else {
                view_dest(v, map, w)
            };
            if sd is Some && src.0 < v.len() && src.1 < 5 && spec_dest(p[w]) is Some && dst.0 < v.len() && dst.1 < 5 {
                (true, renamed_operands(cur_src, spec_dest(p[w])->0, (sd->0).1))
            } else {
                (false, prev.1)
            }
        }
    }
}

/// `rename_uses` on the bundle contents `v`.
pub open spec fn uses_apply(p: Seq<Instruction>, v: Seq<Seq<Instruction>>, map: Seq<(usize, usize)>, ws: Seq<usize>,
    src: (usize, usize), dst: (usize, usize)) -> Option<Seq<Seq<Instruction>>> {
    let r = uses_view(p, v, map, ws, src, dst, ws.len() as int);
    if !r.0 {
        None
    } else if ws.len() == 0 {
        Some(v)
    } else {
        Some(v.update(dst.0 as int, v[dst.0 as int].update(dst.1 as int, r.1)))
    }
}

proof fn lemma_uses_view(p: Seq<Instruction>, e: Seq<[Instruction; 5]>, map: Seq<(usize, usize)>, ws: Seq<usize>,
    src: (usize, usize), dst: (usize, usize), n: int)
    ensures
        (dst.0 < e.len() && dst.1 < 5) ==> uses_state(p, e, map, ws, src, dst, n) == uses_view(p, sched_view(e), map, ws, src, dst, n),
        uses_state(p, e, map, ws, src, dst, n).0 == uses_view(p, sched_view(e), map, ws, src, dst, n).0,
    decreases n,
{
    if n > 0 {
        lemma_uses_view(p, e, map, ws, src, dst, n - 1);
        lemma_view_dest(e, map, ws[n - 1] as int);
    }
}

proof fn lemma_uses_state_dst(p: Seq<Instruction>, e: Seq<[Instruction; 5]>, map: Seq<(usize, usize)>, ws: Seq<usize>,
    src: (usize, usize), dst: (usize, usize), n: int)
    requires
        n > 0,
        uses_state(p, e, map, ws, src, dst, n).0,
    ensures
        dst.0 < e.len() && dst.1 < 5,
    decreases n,
{
    if n > 1 {
        lemma_uses_state_dst(p, e, map, ws, src, dst, n - 1);
    }
}

proof fn lemma_uses_apply(p: Seq<Instruction>, before: Seq<[Instruction; 5]>, after: Seq<[Instruction; 5]>,
    map: Seq<(usize, usize)>, ws: Seq<usize>, src: (usize, usize), dst: (usize, usize), ok: bool)
    requires
        ok == uses_state(p, before, map, ws, src, dst, ws.len() as int).0,
        ok && ws.len() == 0 ==> after == before,
        ok && ws.len() > 0 ==> slot_changed(before, after, dst.0 as int, dst.1 as int,
            uses_state(p, before, map, ws, src, dst, ws.len() as int).1),
    ensures
        ok == uses_apply(p, sched_view(before), map, ws, src, dst) is Some,
        ok ==> sched_view(after) == uses_apply(p, sched_view(before), map, ws, src, dst)->0,
{
    lemma_uses_view(p, before, map, ws, src, dst, ws.len() as int);
    if ok && ws.len() > 0 {
        lemma_uses_state_dst(p, before, map, ws, src, dst, ws.len() as int);
        lemma_view_slot_changed(before, after, dst.0 as int, dst.1 as int, uses_state(p, before, map, ws, src, dst, ws.len() as int).1);
    }
}

proof fn lemma_producer_dest_view(before: Seq<[Instruction; 5]>, after: Seq<[Instruction; 5]>, map: Seq<(usize, usize)>,
    w: int, n0: u8, n1: u8, ok: bool)
    requires
        ok == (0 <= w < map.len() && map[w].0 < before.len() && map[w].1 < 5
            && n0 + copies_before(before[map[w].0 as int]@, before[map[w].0 as int]@[map[w].1 as int], 5) <= 255),
        ok ==> ({
            let b = map[w].0 as int;
            let row = before[b]@;
            let target = row[map[w].1 as int];
            &&& after.len() == before.len()
            &&& forall|x: int, y: int| 0 <= x < before.len() && x != b && 0 <= y < 5 ==>
                #[trigger] after[x]@[y] == before[x]@[y]
            &&& forall|y: int| 0 <= y < 5 ==> #[trigger] after[b]@[y] == if row[y] == target && spec_dest(target) is Some {
                    spec_with_dest(target, (n0 + copies_before(row, target, y)) as u8)
                } else {
                    row[y]
                }
            &&& n1 == n0 + copies_before(row, target, 5)
        }),
    ensures
        ok == producer_dest_view(map, sched_view(before), w, n0) is Some,
        ok ==> (sched_view(after), n1) == producer_dest_view(map, sched_view(before), w, n0)->0,
{
    if ok {
        let m = (producer_dest_view(map, sched_view(before), w, n0)->0).0;
        assert forall|c: int| 0 <= c < after.len() implies #[trigger] sched_view(after)[c] == m[c] by {
            assert(after[c]@.len() == 5);
            assert(before[c]@.len() == 5);
            assert(sched_view(after)[c] =~= m[c]);
        }
        assert(sched_view(after) =~= m);
    }
}

/// Position `pc` before the loop: its local producers' destinations get
/// fresh registers, then it follows its local and then its loop-invariant
/// producers in place; `None` where a step fails.
pub open spec fn local_before_step(p: Seq<Instruction>, t: Seq<DependencyList>, map: Seq<(usize, usize)>,
    s: (Seq<Seq<Instruction>>, u8), pc: int) -> Option<(Seq<Seq<Instruction>>, u8)> {
    match local_producers_view(map, s, t[pc]@[0], t[pc]@[0].len() as int) {
        None => None,
        Some(s1) => {
            if pc >= map.len() {
                None
            } else {
                let pos = map[pc];
                match uses_apply(p, s1.0, map, t[pc]@[0], pos, pos) {
                    None => None,
                    Some(v2) => match uses_apply(p, v2, map, t[pc]@[2], pos, pos) {
                        None => None,
                        Some(v3) => Some((v3, s1.1)),
                    },
                }
            }
        },
    }
}

/// The positions `0..n` in turn through `local_before_step`.
pub open spec fn local_before_all(p: Seq<Instruction>, t: Seq<DependencyList>, map: Seq<(usize, usize)>,
    s: (Seq<Seq<Instruction>>, u8), n: int) -> Option<(Seq<Seq<Instruction>>, u8)>
    decreases n,
{
    if n <= 0 {
        Some(s)
    } else {
        match local_before_all(p, t, map, s, n - 1) {
            None => None,
            Some(u) => local_before_step(p, t, map, u, n - 1),
        }
    }
}

/// Handling the code before the loop (positions `0..ls`) from `sched` with
/// next register `n0` succeeds exactly when `ok`, and then gives `cur` and
/// next register `n1`.
#[verifier::opaque]
pub open spec fn local_before_renamed(p: Seq<Instruction>, t: Seq<DependencyList>, map: Seq<(usize, usize)>,
    sched: Seq<[Instruction; 5]>, n0: u8, cur: Seq<[Instruction; 5]>, n1: u8, ls: int, ok: bool) -> bool {
    &&& ok == local_before_all(p, t, map, (sched_view(sched), n0), ls) is Some
    &&& ok ==> (sched_view(cur), n1) == local_before_all(p, t, map, (sched_view(sched), n0), ls)->0
}

proof fn lemma_local_before_none(p: Seq<Instruction>, t: Seq<DependencyList>, map: Seq<(usize, usize)>,
    s: (Seq<Seq<Instruction>>, u8), n: int, m: int)
    requires
        n <= m,
        local_before_all(p, t, map, s, n) is None,
    ensures
        local_before_all(p, t, map, s, m) is None,
    decreases m - n,
{
    if m > n {
        lemma_local_before_none(p, t, map, s, n, m - 1);
    }
}

/// Reader `reader = pc + le + 1` after the loop: its local producers'
/// destinations get fresh registers, then its slot follows its local and
/// then its loop-invariant producers in place; `None` where a step fails.
pub open spec fn local_after_step(p: Seq<Instruction>, t: Seq<DependencyList>, map: Seq<(usize, usize)>,
    s: (Seq<Seq<Instruction>>, u8), le: int, pc: int) -> Option<(Seq<Seq<Instruction>>, u8)> {
    let reader = pc + le + 1;
    match local_producers_view(map, s, t[reader]@[0], t[reader]@[0].len() as int) {
        None => None,
        Some(s1) => {
            if reader >= map.len() {
                None
            } else {
                let pos = map[reader];
                match uses_apply(p, s1.0, map, t[reader]@[0], pos, pos) {
                    None => None,
                    Some(v2) => match uses_apply(p, v2, map, t[reader]@[2], pos, pos) {
                        None => None,
                        Some(v3) => Some((v3, s1.1)),
                    },
                }
            }
        },
    }
}

/// The producers `ws[0..j]` in turn through `producer_dest_view`.
pub open spec fn local_producers_view(map: Seq<(usize, usize)>, s: (Seq<Seq<Instruction>>, u8), ws: Seq<usize>, j: int)
    -> Option<(Seq<Seq<Instruction>>, u8)>
    decreases j,
{
    if j <= 0 {
        Some(s)
    } else {
        match local_producers_view(map, s, ws, j - 1) {
            None => None,
            Some(u) => producer_dest_view(map, u.0, ws[j - 1] as int, u.1),
        }
    }
}

/// What `producer_dest_view` of producer `w` adds to the registers recorded
/// as renamed.
pub open spec fn producer_regs_view(map: Seq<(usize, usize)>, v: Seq<Seq<Instruction>>, w: int) -> Seq<u8> {
    let row = v[map[w].0 as int];
    copies_regs(row, row[map[w].1 as int], 5)
}

/// What `local_producers_view` of the first `j` producers `ws` adds to the
/// registers recorded as renamed.
pub open spec fn local_producers_regs(map: Seq<(usize, usize)>, s: (Seq<Seq<Instruction>>, u8), ws: Seq<usize>, j: int)
    -> Seq<u8>
    decreases j,
{
    if j <= 0 {
        Seq::empty()
    } else {
        local_producers_regs(map, s, ws, j - 1)
            + producer_regs_view(map, (local_producers_view(map, s, ws, j - 1)->0).0, ws[j - 1] as int)
    }
}

/// What `local_before_all` over the positions `0..n` adds to the registers
/// recorded as renamed.
pub open spec fn local_before_regs(p: Seq<Instruction>, t: Seq<DependencyList>, map: Seq<(usize, usize)>,
    s: (Seq<Seq<Instruction>>, u8), n: int) -> Seq<u8>
    decreases n,
{
    if n <= 0 {
        Seq::empty()
    } else {
        local_before_regs(p, t, map, s, n - 1)
            + local_producers_regs(map, local_before_all(p, t, map, s, n - 1)->0, t[n - 1]@[0], t[n - 1]@[0].len() as int)
    }
}

/// What `local_after_all` over the readers `le + 1..le + 1 + n` adds to the
/// registers recorded as renamed.
pub open spec fn local_after_regs(p: Seq<Instruction>, t: Seq<DependencyList>, map: Seq<(usize, usize)>,
    s: (Seq<Seq<Instruction>>, u8), le: int, n: int) -> Seq<u8>
    decreases n,
{
    if n <= 0 {
        Seq::empty()
    } else {
        local_after_regs(p, t, map, s, le, n - 1)
            + local_producers_regs(map, local_after_all(p, t, map, s, le, n - 1)->0, t[n + le]@[0], t[n + le]@[0].len() as int)
    }
}

/// The positions `0..n` in turn through `local_after_step`.
pub open spec fn local_after_all(p: Seq<Instruction>, t: Seq<DependencyList>, map: Seq<(usize, usize)>,
    s: (Seq<Seq<Instruction>>, u8), le: int, n: int) -> Option<(Seq<Seq<Instruction>>, u8)>
    decreases n,
{
    if n <= 0 {
        Some(s)
    } else {
        match local_after_all(p, t, map, s, le, n - 1) {
            None => None,
            Some(u) => local_after_step(p, t, map, u, le, n - 1),
        }
    }
}

/// Handling the code after the loop from `sched` with next register `n0`
/// succeeds exactly when `ok`, and then gives `cur` and next register `n1`.
#[verifier::opaque]
pub open spec fn local_after_renamed(p: Seq<Instruction>, t: Seq<DependencyList>, map: Seq<(usize, usize)>,
    sched: Seq<[Instruction; 5]>, n0: u8, cur: Seq<[Instruction; 5]>, n1: u8, le: int, ok: bool) -> bool {
    &&& ok == local_after_all(p, t, map, (sched_view(sched), n0), le, p.len() - le - 1) is Some
    &&& ok ==> (sched_view(cur), n1) == local_after_all(p, t, map, (sched_view(sched), n0), le, p.len() - le - 1)->0
}

proof fn lemma_local_producers_none(map: Seq<(usize, usize)>, s: (Seq<Seq<Instruction>>, u8), ws: Seq<usize>, j: int, m: int)
    requires
        j <= m,
        local_producers_view(map, s, ws, j) is None,
    ensures
        local_producers_view(map, s, ws, m) is None,
    decreases m - j,
{
    if m > j {
        lemma_local_producers_none(map, s, ws, j, m - 1);
    }
}

proof fn lemma_local_after_none(p: Seq<Instruction>, t: Seq<DependencyList>, map: Seq<(usize, usize)>,
    s: (Seq<Seq<Instruction>>, u8), le: int, n: int, m: int)
    requires
        n <= m,
        local_after_all(p, t, map, s, le, n) is None,
    ensures
        local_after_all(p, t, map, s, le, m) is None,
    decreases m - n,
{
    if m > n {
        lemma_local_after_none(p, t, map, s, le, n, m - 1);
    }
}

/// After the loop: each reader's local producers get fresh registers, then
/// the reader follows its local and loop-invariant producers.
fn rename_local_after(
    program: &Vec<Instruction>,
    table: &Vec<DependencyList>,
    placement_map: &Vec<(usize, usize)>,
    schedule: &mut Vec<[Instruction; 5]>,
    le: usize,
    st: &mut AllocState,
    Ghost(orig): Ghost<Seq<[Instruction; 5]>>,
    Ghost(first): Ghost<int>,
    Ghost(last): Ghost<int>,
) -> (ok: bool)
    requires
        forms_from(orig, old(schedule)@),
        is_dependency_table(program@, table@),
        le < program.len(),
        le == crate::dependency::loop_bounds(program@).1,
        crate::dependency::loop_bounds(program@).0 <= le + 1,
    ensures
        ok ==> final(st).allocated@ == old(st).allocated@ + fresh_regs(old(st).next_inv as int, final(st).next_inv as int),
        forms_from(orig, final(schedule)@),
        map_respects_regions(program@, placement_map@, first - 1, last) ==> loop_kept(old(schedule)@, final(schedule)@, first, last),
        local_after_renamed(program@, table@, placement_map@, old(schedule)@, old(st).next_inv, final(schedule)@,
            final(st).next_inv, le as int, ok),
        ok ==> final(st).used@ == old(st).used@ + local_after_regs(program@, table@, placement_map@,
            (sched_view(old(schedule)@), old(st).next_inv), le as int, program@.len() - le - 1),
{
    proof {
        assert(st.allocated@ =~= st.allocated@ + fresh_regs(st.next_inv as int, st.next_inv as int));
    }
    proof {
        reveal(local_after_renamed);
    }
    let ghost entry = schedule@;
    let ghost n0 = st.next_inv;
    let ghost p = program@;
    let ghost tb = table@;
    let ghost mp = placement_map@;
    let ghost u0 = st.used@;
    let ghost regions = map_respects_regions(program@, placement_map@, first - 1, last);
    proof {
        lemma_loop_kept_refl(entry, first, last);
    }
    let count = program.len() - le - 1;
    let mut pc: usize = 0;
    while pc < count
        invariant
            st.allocated@ == old(st).allocated@ + fresh_regs(old(st).next_inv as int, st.next_inv as int),
            old(st).next_inv <= st.next_inv,
            entry == old(schedule)@,
            forms_from(orig, schedule@),
            is_dependency_table(program@, table@),
            le < program.len(),
            le == crate::dependency::loop_bounds(program@).1,
            crate::dependency::loop_bounds(program@).0 <= le + 1,
            count == program.len() - le - 1,
            pc <= count,
            regions == map_respects_regions(program@, placement_map@, first - 1, last),
            regions ==> loop_kept(entry, schedule@, first, last),
            p == program@,
            tb == table@,
            mp == placement_map@,
            n0 == old(st).next_inv,
            u0 == old(st).used@,
            st.used@ == u0 + local_after_regs(p, tb, mp, (sched_view(entry), n0), le as int, pc as int),
            local_after_all(p, tb, mp, (sched_view(entry), n0), le as int, pc as int) is Some,
            (sched_view(schedule@), st.next_inv) == local_after_all(p, tb, mp, (sched_view(entry), n0), le as int, pc as int)->0,
        decreases count - pc,
    {
        let reader = pc + le + 1;
        let local = table[reader].iter(Dependency::Local);
        let ghost sp = local_after_all(p, tb, mp, (sched_view(entry), n0), le as int, pc as int)->0;
        proof {
            assert(local_after_all(p, tb, mp, (sched_view(entry), n0), le as int, pc + 1) == local_after_step(p, tb, mp, sp, le as int, pc as int));
        }
        let mut j: usize = 0;
        while j < local.len()
            invariant
                st.allocated@ == old(st).allocated@ + fresh_regs(old(st).next_inv as int, st.next_inv as int),
                old(st).next_inv <= st.next_inv,
                entry == old(schedule)@,
                forms_from(orig, schedule@),
                is_dependency_table(program@, table@),
                le < reader < program.len(),
                le == crate::dependency::loop_bounds(program@).1,
                crate::dependency::loop_bounds(program@).0 <= le + 1,
                local@ == table@[reader as int]@[0],
                j <= local@.len(),
                regions == map_respects_regions(program@, placement_map@, first - 1, last),
                regions ==> loop_kept(entry, schedule@, first, last),
                p == program@,
                tb == table@,
                mp == placement_map@,
                pc < count,
                count == program.len() - le - 1,
                reader == pc + le + 1,
                n0 == old(st).next_inv,
                u0 == old(st).used@,
                st.used@ == u0 + local_after_regs(p, tb, mp, (sched_view(entry), n0), le as int, pc as int) + local_producers_regs(mp, sp, local@, j as int),
                local_after_all(p, tb, mp, (sched_view(entry), n0), le as int, pc + 1) == local_after_step(p, tb, mp, sp, le as int, pc as int),
                local_producers_view(mp, sp, local@, j as int) is Some,
                (sched_view(schedule@), st.next_inv) == local_producers_view(mp, sp, local@, j as int)->0,
            decreases local.len() - j,
        {
            let w = local[j];
            proof {
                assert(table@[reader as int]@[0].contains(w));
                lemma_listed(program@, table@, reader as int, 0, w);
                if regions && w < placement_map@.len() {
                    assert(placement_map@[w as int].0 > last);
                }
            }
            let ghost before = schedule@;
            let ghost nb = st.next_inv;
            let done = rename_producer_dest(placement_map, schedule, w, st, Ghost(orig), Ghost(first), Ghost(last));
            proof {
                if regions {
                    lemma_loop_kept_trans(entry, before, schedule@, first, last);
                }
                lemma_producer_dest_view(before, schedule@, mp, w as int, nb, st.next_inv, done);
                if !done {
                    assert(producer_dest_view(mp, sched_view(before), w as int, nb) is None);
                    assert(local_producers_view(mp, sp, local@, j as int) == Some((sched_view(before), nb)));
                    assert(local_producers_view(mp, sp, local@, j + 1) is None);
                    lemma_local_producers_none(mp, sp, local@, j + 1, local@.len() as int);
                    assert(local_after_step(p, tb, mp, sp, le as int, pc as int) is None);
                    assert(local_after_all(p, tb, mp, (sched_view(entry), n0), le as int, pc + 1) is None);
                    lemma_local_after_none(p, tb, mp, (sched_view(entry), n0), le as int, pc + 1, count as int);
                }
            }
            if !done {
                proof {
                    reveal(local_after_renamed);
                }
                return false;
            }
            proof {
                assert(local_producers_regs(mp, sp, local@, j + 1) == local_producers_regs(mp, sp, local@, j as int)
                    + producer_regs_view(mp, (local_producers_view(mp, sp, local@, j as int)->0).0, w as int));
                assert(st.used@ =~= u0 + local_after_regs(p, tb, mp, (sched_view(entry), n0), le as int, pc as int) + local_producers_regs(mp, sp, local@, j + 1));
            }
            j = j + 1;
        }
        proof {
            assert(local_after_regs(p, tb, mp, (sched_view(entry), n0), le as int, pc + 1) == local_after_regs(p, tb, mp, (sched_view(entry), n0), le as int, pc as int)
                + local_producers_regs(mp, sp, local@, local@.len() as int));
        }
        let ghost s1 = local_producers_view(mp, sp, local@, local@.len() as int)->0;
        proof {
            assert(local_producers_view(mp, sp, local@, local@.len() as int) == Some(s1));
            assert(local@ == tb[reader as int]@[0]);
            if pc >= mp.len() {
                lemma_local_after_none(p, tb, mp, (sched_view(entry), n0), le as int, pc + 1, count as int);
            }
        }
        proof {
            if reader >= mp.len() {
                lemma_local_after_none(p, tb, mp, (sched_view(entry), n0), le as int, pc + 1, count as int);
            }
        }
        let pos = match get_pair(placement_map, reader) {
            Some(x) => x,
            None => {
                proof {
                    reveal(local_after_renamed);
                }
                return false;
            },
        };
        let ghost before = schedule@;
        let done = rename_uses(program, table, placement_map, schedule, reader, 0, pos, Ghost(orig), Ghost(first), Ghost(last));
        proof {
            if regions {
                lemma_loop_kept_trans(entry, before, schedule@, first, last);
            }
            lemma_uses_apply(p, before, schedule@, mp, tb[reader as int]@[0], pos, pos, done);
            if !done {
                lemma_local_after_none(p, tb, mp, (sched_view(entry), n0), le as int, pc + 1, count as int);
            }
        }
        if !done {
            proof {
                reveal(local_after_renamed);
            }
            return false;
        }
        let ghost before = schedule@;
        let done = rename_uses(program, table, placement_map, schedule, reader, 2, pos, Ghost(orig), Ghost(first), Ghost(last));
        proof {
            if regions {
                lemma_loop_kept_trans(entry, before, schedule@, first, last);
            }
            lemma_uses_apply(p, before, schedule@, mp, tb[reader as int]@[2], pos, pos, done);
            if !done {
                lemma_local_after_none(p, tb, mp, (sched_view(entry), n0), le as int, pc + 1, count as int);
            }
        }
        if !done {
            proof {
                reveal(local_after_renamed);
            }
            return false;
        }
        pc = pc + 1;
    }
    true
}

proof fn lemma_slot_dest_kept(a: Seq<[Instruction; 5]>, c: Seq<[Instruction; 5]>, map: Seq<(usize, usize)>, w: int)
    requires
        all_kept(a, c),
    ensures
        slot_dest(c, map, w) == slot_dest(a, map, w),
{
    if 0 <= w < map.len() && map[w].0 < a.len() && map[w].1 < 5 {
        assert(slot_kept(a, c, map[w].0 as int, map[w].1 as int));
    }
}

/// The contents of a schedule, bundle by bundle, as sequences.
pub open spec fn sched_view(s: Seq<[Instruction; 5]>) -> Seq<Seq<Instruction>> {
    Seq::new(s.len(), |b: int| s[b]@)
}

proof fn lemma_view_slot_changed(before: Seq<[Instruction; 5]>, after: Seq<[Instruction; 5]>, b: int, k: int, x: Instruction)
    requires
        slot_changed(before, after, b, k, x),
    ensures
        sched_view(after) == sched_view(before).update(b, sched_view(before)[b].update(k, x)),
{
    let m = sched_view(before).update(b, sched_view(before)[b].update(k, x));
    assert forall|c: int| 0 <= c < after.len() implies #[trigger] sched_view(after)[c] == m[c] by {
        assert(after[c]@.len() == 5);
        assert(before[c]@.len() == 5);
        assert(sched_view(after)[c] =~= m[c]);
    }
    assert(sched_view(after) =~= m);
}

/// One read after the loop: in the slot where the map places reader `r`,
/// reads of producer `w`'s register are renamed to the register `w`'s slot
/// writes in `entry`, raised by the stages left after `w`'s stage; `None`
/// where a slot or register is missing, `w` lies before the loop, or the
/// register leaves the byte.
pub open spec fn post_step(p: Seq<Instruction>, map: Seq<(usize, usize)>, entry: Seq<[Instruction; 5]>,
    first: int, ii: int, nb: int, v: Seq<Seq<Instruction>>, r: int, w: int) -> Option<Seq<Seq<Instruction>>> {
    let sd = slot_dest(entry, map, w);
    if sd is None || nb == 0 || (sd->0).1 + (nb - 1) > 255 || ((sd->0).0 as int) < first {
        None
    } else {
        let raised = (sd->0).1 + (nb - 1);
        let q = ((((sd->0).0 - first) / ii) as u8) as int;
        if raised < q || r >= map.len() || spec_dest(p[w]) is None
            || map[r].0 >= v.len() || map[r].1 >= 5 {
            None
        } else {
            let pos = map[r];
            Some(v.update(pos.0 as int, v[pos.0 as int].update(pos.1 as int,
                renamed_operands(v[pos.0 as int][pos.1 as int], spec_dest(p[w])->0, (raised - q) as u8))))
        }
    }
}

/// `post_step` for reader `r` and its producers `ws[0..n]` in turn.
pub open spec fn post_inner(p: Seq<Instruction>, map: Seq<(usize, usize)>, entry: Seq<[Instruction; 5]>,
    first: int, ii: int, nb: int, v: Seq<Seq<Instruction>>, r: int, ws: Seq<usize>, n: int) -> Option<Seq<Seq<Instruction>>>
    decreases n,
{
    if n <= 0 {
        Some(v)
    } else {
        match post_inner(p, map, entry, first, ii, nb, v, r, ws, n - 1) {
            None => None,
            Some(u) => post_step(p, map, entry, first, ii, nb, u, r, ws[n - 1] as int),
        }
    }
}

/// The readers `le..le + n` in turn, each with its producers inside the loop.
pub open spec fn post_outer(p: Seq<Instruction>, t: Seq<DependencyList>, map: Seq<(usize, usize)>, entry: Seq<[Instruction; 5]>,
    le: int, first: int, ii: int, nb: int, n: int) -> Option<Seq<Seq<Instruction>>>
    decreases n,
{
    if n <= 0 {
        Some(sched_view(entry))
    } else {
        match post_outer(p, t, map, entry, le, first, ii, nb, n - 1) {
            None => None,
            Some(u) => post_inner(p, map, entry, first, ii, nb, u, le + n - 1, t[le + n - 1]@[3], t[le + n - 1]@[3].len() as int),
        }
    }
}

/// The register that a read after the loop of producer `w` is renamed to
/// (see `post_step`).
pub open spec fn post_reg(map: Seq<(usize, usize)>, entry: Seq<[Instruction; 5]>, first: int, ii: int, nb: int, w: int) -> u8 {
    let sd = slot_dest(entry, map, w);
    let raised = (sd->0).1 + (nb - 1);
    let q = ((((sd->0).0 - first) / ii) as u8) as int;
    (raised - q) as u8
}

/// The registers handed out for the reads after the loop by the readers
/// `le..le + n`, in turn, of their producers.
pub open spec fn post_regs(t: Seq<DependencyList>, map: Seq<(usize, usize)>, entry: Seq<[Instruction; 5]>,
    le: int, first: int, ii: int, nb: int, n: int) -> Seq<u8>
    decreases n,
{
    if n <= 0 {
        Seq::empty()
    } else {
        let ws = t[le + n - 1]@[3];
        post_regs(t, map, entry, le, first, ii, nb, n - 1)
            + Seq::new(ws.len(), |i: int| post_reg(map, entry, first, ii, nb, ws[i] as int))
    }
}

/// Renaming the reads after the loop from `sched` succeeds exactly when
/// `ok`, and then gives `cur`.
#[verifier::opaque]
pub open spec fn post_loop_renamed(p: Seq<Instruction>, t: Seq<DependencyList>, map: Seq<(usize, usize)>,
    sched: Seq<[Instruction; 5]>, cur: Seq<[Instruction; 5]>, le: int, first: int, ii: int, nb: int, ok: bool) -> bool {
    &&& ok == post_outer(p, t, map, sched, le, first, ii, nb, p.len() - le) is Some
    &&& ok ==> sched_view(cur) == post_outer(p, t, map, sched, le, first, ii, nb, p.len() - le)->0
}

proof fn lemma_post_inner_none(p: Seq<Instruction>, map: Seq<(usize, usize)>, entry: Seq<[Instruction; 5]>,
    first: int, ii: int, nb: int, v: Seq<Seq<Instruction>>, r: int, ws: Seq<usize>, n: int, m: int)
    requires
        n <= m,
        post_inner(p, map, entry, first, ii, nb, v, r, ws, n) is None,
    ensures
        post_inner(p, map, entry, first, ii, nb, v, r, ws, m) is None,
    decreases m - n,
{
    if m > n {
        lemma_post_inner_none(p, map, entry, first, ii, nb, v, r, ws, n, m - 1);
    }
}

proof fn lemma_post_outer_none(p: Seq<Instruction>, t: Seq<DependencyList>, map: Seq<(usize, usize)>, entry: Seq<[Instruction; 5]>,
    le: int, first: int, ii: int, nb: int, n: int, m: int)
    requires
        n <= m,
        post_outer(p, t, map, entry, le, first, ii, nb, n) is None,
    ensures
        post_outer(p, t, map, entry, le, first, ii, nb, m) is None,
    decreases m - n,
{
    if m > n {
        lemma_post_outer_none(p, t, map, entry, le, first, ii, nb, n, m - 1);
    }
}

/// Reads after the loop: an operand produced inside the loop gets the rotating
/// register that holds the last iteration's value.
fn rename_post_loop(
    program: &Vec<Instruction>,
    table: &Vec<DependencyList>,
    placement_map: &Vec<(usize, usize)>,
    schedule: &mut Vec<[Instruction; 5]>,
    le: usize,
    first: usize,
    ii: usize,
    nb_stages: u8,
    st: &mut AllocState,
    Ghost(orig): Ghost<Seq<[Instruction; 5]>>,
) -> (ok: bool)
    requires
        forms_from(orig, old(schedule)@),
        is_dependency_table(program@, table@),
        le < program.len(),
        ii > 0,
    ensures
        final(st).used@ == old(st).used@,
        final(st).next_inv == old(st).next_inv,
        forms_from(orig, final(schedule)@),
        all_kept(old(schedule)@, final(schedule)@),
        post_loop_renamed(program@, table@, placement_map@, old(schedule)@, final(schedule)@, le as int, first as int,
            ii as int, nb_stages as int, ok),
        ok ==> final(st).allocated@ == old(st).allocated@ + post_regs(table@, placement_map@, old(schedule)@, le as int,
            first as int, ii as int, nb_stages as int, program@.len() - le),
{
    proof {
        reveal(post_loop_renamed);
    }
    let ghost entry = schedule@;
    let ghost p = program@;
    let ghost tb = table@;
    let ghost mp = placement_map@;
    let ghost nb = nb_stages as int;
    proof {
        lemma_all_kept_refl(entry);
        assert(st.allocated@ =~= old(st).allocated@ + post_regs(tb, mp, entry, le as int, first as int, ii as int, nb, 0));
    }
    let count = program.len() - le;
    let mut bb2_pc: usize = 0;
    while bb2_pc < count
        invariant
            st.used@ == old(st).used@,
            st.next_inv == old(st).next_inv,
            entry == old(schedule)@,
            forms_from(orig, schedule@),
            all_kept(entry, schedule@),
            is_dependency_table(program@, table@),
            le < program.len(),
            count == program.len() - le,
            bb2_pc <= count,
            ii > 0,
            p == program@,
            tb == table@,
            mp == placement_map@,
            nb == nb_stages as int,
            post_outer(p, tb, mp, entry, le as int, first as int, ii as int, nb, bb2_pc as int) is Some,
            sched_view(schedule@) == post_outer(p, tb, mp, entry, le as int, first as int, ii as int, nb, bb2_pc as int)->0,
            st.allocated@ == old(st).allocated@ + post_regs(tb, mp, entry, le as int, first as int, ii as int, nb, bb2_pc as int),
        decreases count - bb2_pc,
    {
        let r = bb2_pc + le;
        let post = table[r].iter(Dependency::PostLoop);
        let ghost u0 = sched_view(schedule@);
        proof {
            assert(st.allocated@ =~= old(st).allocated@ + post_regs(tb, mp, entry, le as int, first as int, ii as int, nb, bb2_pc as int)
                + post@.take(0).map_values(|x: usize| post_reg(mp, entry, first as int, ii as int, nb, x as int)));
        }
        let mut j: usize = 0;
        while j < post.len()
            invariant
                st.used@ == old(st).used@,
                st.next_inv == old(st).next_inv,
                entry == old(schedule)@,
                forms_from(orig, schedule@),
                all_kept(entry, schedule@),
                is_dependency_table(program@, table@),
                r < program.len(),
                post@ == table@[r as int]@[3],
                j <= post@.len(),
                ii > 0,
                p == program@,
                tb == table@,
                mp == placement_map@,
                nb == nb_stages as int,
                r == bb2_pc + le,
                bb2_pc < count,
                count == program.len() - le,
                u0 == post_outer(p, tb, mp, entry, le as int, first as int, ii as int, nb, bb2_pc as int)->0,
                post_outer(p, tb, mp, entry, le as int, first as int, ii as int, nb, bb2_pc as int) is Some,
                post_inner(p, mp, entry, first as int, ii as int, nb, u0, r as int, post@, j as int) is Some,
                sched_view(schedule@) == post_inner(p, mp, entry, first as int, ii as int, nb, u0, r as int, post@, j as int)->0,
                st.allocated@ == old(st).allocated@ + post_regs(tb, mp, entry, le as int, first as int, ii as int, nb, bb2_pc as int)
                    + post@.take(j as int).map_values(|x: usize| post_reg(mp, entry, first as int, ii as int, nb, x as int)),
            decreases post.len() - j,
        {
            let w = post[j];
            proof {
                assert(table@[r as int]@[3].contains(w));
                lemma_listed(program@, table@, r as int, 3, w);
                lemma_slot_dest_kept(entry, schedule@, mp, w as int);
                let nxt = post_inner(p, mp, entry, first as int, ii as int, nb, u0, r as int, post@, j + 1);
                if nxt is None {
                    lemma_post_inner_none(p, mp, entry, first as int, ii as int, nb, u0, r as int, post@, j + 1, post@.len() as int);
                    assert(post_outer(p, tb, mp, entry, le as int, first as int, ii as int, nb, bb2_pc + 1) is None);
                    lemma_post_outer_none(p, tb, mp, entry, le as int, first as int, ii as int, nb, bb2_pc + 1, count as int);
                }
            }
            let (wb, d) = match dest_at(schedule, placement_map, w, Ghost(orig)) {
                Some(x) => x,
                None => {
                    proof {
                        reveal(post_loop_renamed);
                    }
                    return false;
                },
            };
            if nb_stages == 0 {
                proof {
                    reveal(post_loop_renamed);
                }
                return false;
            }
            let raised = match d.checked_add(nb_stages - 1) {
                Some(v) => v,
                None => {
                    proof {
                        reveal(post_loop_renamed);
                    }
                    return false;
                },
            };
            if wb < first {
                proof {
                    reveal(post_loop_renamed);
                }
                return false;
            }
            let q = ((wb - first) / ii) as u8;
            if raised < q {
                proof {
                    reveal(post_loop_renamed);
                }
                return false;
            }
            let remap_value = raised - q;
            let pos = match get_pair(placement_map, r) {
                Some(x) => x,
                None => {
                    proof {
                        reveal(post_loop_renamed);
                    }
                    return false;
                },
            };
            let old_reg = match program[w].dest() {
                Some(v) => v,
                None => {
                    proof {
                        reveal(post_loop_renamed);
                    }
                    return false;
                },
            };
            st.allocated.push(remap_value);
            proof {
                assert(remap_value == post_reg(mp, entry, first as int, ii as int, nb, w as int));
                assert(post@.take(j + 1) =~= post@.take(j as int).push(w));
                assert(post@.take(j + 1).map_values(|x: usize| post_reg(mp, entry, first as int, ii as int, nb, x as int))
                    =~= post@.take(j as int).map_values(|x: usize| post_reg(mp, entry, first as int, ii as int, nb, x as int))
                        .push(post_reg(mp, entry, first as int, ii as int, nb, w as int)));
            }
            let ghost before = schedule@;
            let done = rename_operand_at(schedule, pos, old_reg, remap_value, Ghost(orig));
            proof {
                lemma_all_kept_trans(entry, before, schedule@);
                if done {
                    lemma_view_slot_changed(before, schedule@, pos.0 as int, pos.1 as int,
                        renamed_operands(before[pos.0 as int]@[pos.1 as int], old_reg, remap_value));
                }
            }
            if !done {
                proof {
                    reveal(post_loop_renamed);
                }
                return false;
            }
            j = j + 1;
        }
        proof {
            assert(le as int + (bb2_pc + 1) - 1 == r as int);
            assert(post@.take(post@.len() as int) =~= post@);
            assert(post@.map_values(|x: usize| post_reg(mp, entry, first as int, ii as int, nb, x as int))
                =~= Seq::new(post@.len(), |i: int| post_reg(mp, entry, first as int, ii as int, nb, post@[i] as int)));
            assert(post_regs(tb, mp, entry, le as int, first as int, ii as int, nb, bb2_pc + 1)
                == post_regs(tb, mp, entry, le as int, first as int, ii as int, nb, bb2_pc as int)
                    + Seq::new(post@.len(), |i: int| post_reg(mp, entry, first as int, ii as int, nb, post@[i] as int)));
        }
        bb2_pc = bb2_pc + 1;
    }
    true
}

/// The smallest register from `x` to 95 not in `alloc`, or 0.
pub open spec fn first_free_from(alloc: Seq<u8>, x: int) -> u8
    decreases 96 - x,
{
    if x > 95 || x < 1 {
        0
    } else if !alloc.contains(x as u8) {
        x as u8
    } else {
        first_free_from(alloc, x + 1)
    }
}

/// The smallest register from 1 to 95 not in `alloc`, or 0.
pub open spec fn first_free(alloc: Seq<u8>) -> u8 {
    first_free_from(alloc, 1)
}

proof fn lemma_first_free(alloc: Seq<u8>, x: int, r: u8)
    requires
        1 <= x <= 96,
        forall|y: u8| 1 <= y < x ==> alloc.contains(y),
        r <= 95,
        r != 0 ==> !alloc.contains(r) && forall|y: u8| 1 <= y < r ==> alloc.contains(y),
        r == 0 ==> forall|y: u8| 1 <= y <= 95 ==> alloc.contains(y),
    ensures
        first_free_from(alloc, x) == r,
    decreases 96 - x,
{
    if x <= 95 {
        if !alloc.contains(x as u8) {
            if r == 0 {
                assert(alloc.contains(x as u8));
            } else if r < x {
                assert(alloc.contains(r));
            } else if r > x {
                assert(alloc.contains(x as u8));
            }
        } else {
            lemma_first_free(alloc, x + 1, r);
        }
    } else {
        if r != 0 {
            assert(alloc.contains(r));
        }
    }
}

/// The allocation list after the reads `ops[0..j]` are handled: each read of
/// a register that no instruction was renamed from takes the first free
/// register.
pub open spec fn fill_alloc(ops: Seq<u8>, used: Seq<u8>, alloc: Seq<u8>, j: int) -> Seq<u8>
    decreases j,
{
    if j <= 0 {
        alloc
    } else {
        let prev = fill_alloc(ops, used, alloc, j - 1);
        if used.contains(ops[j - 1]) { prev } else { prev.push(first_free(prev)) }
    }
}

/// `ins` after the reads `ops[0..j]` are handled: each read of a register that
/// no instruction was renamed from is renamed, everywhere in `ins`, to the
/// first free register.
pub open spec fn fill_ins(ins: Instruction, ops: Seq<u8>, used: Seq<u8>, alloc: Seq<u8>, j: int) -> Instruction
    decreases j,
{
    if j <= 0 {
        ins
    } else {
        let prev = fill_ins(ins, ops, used, alloc, j - 1);
        if used.contains(ops[j - 1]) {
            prev
        } else {
            renamed_operands(prev, ops[j - 1], first_free(fill_alloc(ops, used, alloc, j - 1)))
        }
    }
}

/// The allocation list before slot `n` (bundle `n / 5`, slot `n % 5`) is
/// handled, going through the reads of `clean` in order.
pub open spec fn alloc_before(clean: Seq<[Instruction; 5]>, used: Seq<u8>, alloc0: Seq<u8>, n: int) -> Seq<u8>
    decreases n,
{
    if n <= 0 {
        alloc0
    } else {
        let ops = spec_operands(clean[(n - 1) / 5]@[(n - 1) % 5]);
        fill_alloc(ops, used, alloc_before(clean, used, alloc0, n - 1), ops.len() as int)
    }
}

/// The smallest register from 1 to 95 not yet handed out, or 0.
fn first_unallocated(allocated: &Vec<u8>) -> (r: u8)
    ensures
        r <= 95,
        r != 0 ==> !allocated@.contains(r) && forall|x: u8| 1 <= x < r ==> allocated@.contains(x),
        r == 0 ==> forall|x: u8| 1 <= x <= 95 ==> allocated@.contains(x),
{
    let mut it: u8 = 1;
    while it <= 95
        invariant
            1 <= it <= 96,
            forall|x: u8| 1 <= x < it ==> allocated@.contains(x),
        decreases 96 - it,
    {
        if !contains_u8(allocated, it) {
            return it;
        }
        it = it + 1;
    }
    0
}

/// `cur` is `sched` with, in each slot of the bundles that `clean` covers,
/// every read that `clean` holds of a register no instruction was renamed
/// from renamed in turn to the first free register, the allocation list
/// starting at `alloc0` and ending at `alloc1`; other slots unchanged.
#[verifier::opaque]
pub open spec fn unwritten_filled(clean: Seq<[Instruction; 5]>, used: Seq<u8>, alloc0: Seq<u8>,
    sched: Seq<[Instruction; 5]>, cur: Seq<[Instruction; 5]>, alloc1: Seq<u8>) -> bool {
    &&& cur.len() == sched.len()
    &&& forall|b: int, k: int| clean.len() <= b < sched.len() && 0 <= k < 5 ==> #[trigger] cur[b]@[k] == sched[b]@[k]
    &&& forall|b: int, k: int| 0 <= b < clean.len() && 0 <= k < 5 ==>
        #[trigger] cur[b]@[k] == fill_ins(sched[b]@[k], spec_operands(clean[b]@[k]), used,
            alloc_before(clean, used, alloc0, b * 5 + k), spec_operands(clean[b]@[k]).len() as int)
    &&& alloc1 == alloc_before(clean, used, alloc0, (clean.len() * 5) as int)
}

/// Remaining reads: an operand that reads a register no instruction was renamed
/// from gets the first register not handed out yet.
fn rename_unwritten_operands(
    clean: &Vec<[Instruction; 5]>,
    schedule: &mut Vec<[Instruction; 5]>,
    st: &mut AllocState,
    Ghost(orig): Ghost<Seq<[Instruction; 5]>>,
) -> (ok: bool)
    requires
        forms_from(orig, old(schedule)@),
        clean@.len() == orig.len(),
    ensures
        forms_from(orig, final(schedule)@),
        all_kept(old(schedule)@, final(schedule)@),
        ok == (clean@.len() <= old(schedule)@.len()),
        ok ==> unwritten_filled(clean@, old(st).used@, old(st).allocated@, old(schedule)@, final(schedule)@, final(st).allocated@),
        final(st).used@ == old(st).used@,
        final(st).next_inv == old(st).next_inv,
{
    let ghost entry = schedule@;
    let ghost used = st.used@;
    let ghost a0 = st.allocated@;
    let ghost cl = clean@;
    proof {
        lemma_all_kept_refl(entry);
    }
    let mut b: usize = 0;
    while b < clean.len()
        invariant
            entry == old(schedule)@,
            forms_from(orig, schedule@),
            all_kept(entry, schedule@),
            clean@.len() == orig.len(),
            b <= clean@.len(),
            cl == clean@,
            used == old(st).used@,
            a0 == old(st).allocated@,
            st.used@ == used,
            st.next_inv == old(st).next_inv,
            schedule@.len() == entry.len(),
            st.allocated@ == alloc_before(cl, used, a0, b * 5),
            forall|x: int, y: int| b <= x < entry.len() && 0 <= y < 5 ==> #[trigger] schedule@[x]@[y] == entry[x]@[y],
            forall|x: int, y: int| 0 <= x < b && 0 <= y < 5 ==>
                #[trigger] schedule@[x]@[y] == fill_ins(entry[x]@[y], spec_operands(cl[x]@[y]), used,
                    alloc_before(cl, used, a0, x * 5 + y), spec_operands(cl[x]@[y]).len() as int),
        decreases clean.len() - b,
    {
        let row = clean[b];
        let mut k: usize = 0;
        while k < 5
            invariant
                entry == old(schedule)@,
                forms_from(orig, schedule@),
                all_kept(entry, schedule@),
                clean@.len() == orig.len(),
                b < clean@.len(),
                k <= 5,
                cl == clean@,
                row == cl[b as int],
                used == old(st).used@,
                a0 == old(st).allocated@,
                st.used@ == used,
                st.next_inv == old(st).next_inv,
                schedule@.len() == entry.len(),
                st.allocated@ == alloc_before(cl, used, a0, b * 5 + k),
                forall|x: int, y: int| b < x < entry.len() && 0 <= y < 5 ==> #[trigger] schedule@[x]@[y] == entry[x]@[y],
                forall|y: int| k <= y < 5 && b < entry.len() ==> #[trigger] schedule@[b as int]@[y] == entry[b as int]@[y],
                forall|x: int, y: int| 0 <= x < b && 0 <= y < 5 ==>
                    #[trigger] schedule@[x]@[y] == fill_ins(entry[x]@[y], spec_operands(cl[x]@[y]), used,
                        alloc_before(cl, used, a0, x * 5 + y), spec_operands(cl[x]@[y]).len() as int),
                forall|y: int| 0 <= y < k ==>
                    #[trigger] schedule@[b as int]@[y] == fill_ins(entry[b as int]@[y], spec_operands(cl[b as int]@[y]), used,
                        alloc_before(cl, used, a0, b * 5 + y), spec_operands(cl[b as int]@[y]).len() as int),
            decreases 5 - k,
        {
            let ops = row[k].operands();
            let mut remapped = match get_slot(schedule, b, k, Ghost(orig)) {
                Some(i) => i,
                None => {
                    return false;
                },
            };
            let ghost start_ins = remapped;
            let ghost al = st.allocated@;
            proof {
                lemma_same_form(start_ins, start_ins, start_ins);
                assert(start_ins == entry[b as int]@[k as int]);
            }
            let mut j: usize = 0;
            while j < ops.len()
                invariant
                    entry == old(schedule)@,
                    form_at(orig, b as int, k as int, remapped),
                    same_form(start_ins, remapped),
                    spec_dest(start_ins) == spec_dest(remapped),
                    j <= ops@.len(),
                    ops@ == spec_operands(cl[b as int]@[k as int]),
                    st.used@ == used,
                    st.next_inv == old(st).next_inv,
                    remapped == fill_ins(start_ins, ops@, used, al, j as int),
                    st.allocated@ == fill_alloc(ops@, used, al, j as int),
                decreases ops.len() - j,
            {
                let operand = ops[j];
                if !contains_u8(&st.used, operand) {
                    let unused = first_unallocated(&st.allocated);
                    proof {
                        lemma_first_free(st.allocated@, 1, unused);
                    }
                    st.allocated.push(unused);
                    let next = realloc_operands(remapped, operand, unused);
                    proof {
                        lemma_renaming_keeps_form(remapped, operand, unused, 0);
                        lemma_form_at_step(orig, b as int, k as int, remapped, next);
                        lemma_same_form(start_ins, remapped, next);
                    }
                    remapped = next;
                }
                j = j + 1;
            }
            let ghost before = schedule@;
            put_slot(schedule, b, k, remapped, Ghost(orig));
            proof {
                lemma_all_kept_step(entry, before, schedule@, b as int, k as int);
                assert(b * 5 + k + 1 == (b * 5 + k) + 1);
                assert((b * 5 + k) / 5 == b && (b * 5 + k) % 5 == k) by (nonlinear_arith)
                    requires 0 <= k < 5, 0 <= b;
                assert(alloc_before(cl, used, a0, b * 5 + k + 1) == fill_alloc(ops@, used, al, ops@.len() as int));
                assert forall|x: int, y: int| b < x < entry.len() && 0 <= y < 5 implies #[trigger] schedule@[x]@[y] == entry[x]@[y] by {
                    assert(schedule@[x]@[y] == before[x]@[y]);
                }
                assert forall|y: int| k < y < 5 && b < entry.len() implies #[trigger] schedule@[b as int]@[y] == entry[b as int]@[y] by {
                    assert(schedule@[b as int]@[y] == before[b as int]@[y]);
                }
                assert forall|x: int, y: int| 0 <= x < b && 0 <= y < 5 implies
                    #[trigger] schedule@[x]@[y] == fill_ins(entry[x]@[y], spec_operands(cl[x]@[y]), used,
                        alloc_before(cl, used, a0, x * 5 + y), spec_operands(cl[x]@[y]).len() as int) by {
                    assert(schedule@[x]@[y] == before[x]@[y]);
                }
                assert forall|y: int| 0 <= y < k + 1 implies
                    #[trigger] schedule@[b as int]@[y] == fill_ins(entry[b as int]@[y], spec_operands(cl[b as int]@[y]), used,
                        alloc_before(cl, used, a0, b * 5 + y), spec_operands(cl[b as int]@[y]).len() as int) by {
                    if y < k {
                        assert(schedule@[b as int]@[y] == before[b as int]@[y]);
                    }
                }
            }
            k = k + 1;
        }
        proof {
            assert((b + 1) * 5 == b * 5 + 5);
        }
        b = b + 1;
    }
    proof {
        reveal(unwritten_filled);
    }
    true
}

fn copy_bundles(v: &Vec<[Instruction; 5]>) -> (r: Vec<[Instruction; 5]>)
    ensures
        r@ == v@,
{
    let mut r: Vec<[Instruction; 5]> = Vec::new();
    let mut i: usize = 0;
    while i < v.len()
        invariant
            i <= v.len(),
            r@ == v@.take(i as int),
        decreases v.len() - i,
    {
        r.push(v[i]);
        i = i + 1;
        assert(r@ =~= v@.take(i as int));
    }
    assert(v@.take(v.len() as int) =~= v@);
    r
}

/// The loop body `first..=last` of `c` has the rotating destinations
/// (`rotated_slot`) of `a`, and every other bundle is as in `a`.
pub open spec fn loop_dests_done(a: Seq<[Instruction; 5]>, c: Seq<[Instruction; 5]>, first: int, last: int, nb: int) -> bool {
    &&& c.len() == a.len()
    &&& forall|x: int, y: int| 0 <= x < a.len() && (x < first || x > last) && 0 <= y < 5 ==>
        #[trigger] c[x]@[y] == a[x]@[y]
    &&& forall|x: int, y: int| first <= x <= last && 0 <= y < 5 ==> #[trigger] rotated_slot(a, c, first, x, y, nb)
}

/// A run of register allocation on the schedule `o` of `p` (dependency
/// table `t`, map `map`, last bundles `b0`, `b1`, `b2`, interval `ii`) that
/// ends with `fin` and outcome `ok`. Its phases run in turn while each
/// succeeds; `g[i]` says whether phase `i` succeeded, `s[i]` is the schedule
/// after it, `n` holds the next non-rotating register along the way, `u[0]`,
/// `u[1]` and `u[2]` the registers of the input recorded as renamed before
/// and after phase 4 and before phase 11, each phase adding those whose
/// destinations it renamed, and `u[3]`, `u[4]` the registers handed out
/// before and after phase 11, each phase adding those it handed out. The
/// phases:
/// the loop destinations rotate (1), the unread destinations before (2) and
/// after (3) the loop get fresh registers, the loop-invariant producers (4),
/// the loop operands (5), the loop bounds are checked (6), the values carried
/// into the loop (7), the code before (8) and after (9) the loop, the reads
/// after the loop (10) and the operands that nothing writes (11). The
/// outcome is success exactly when every phase succeeded.
#[verifier::opaque]
pub open spec fn realloc_trace(p: Seq<Instruction>, t: Seq<DependencyList>, map: Seq<(usize, usize)>,
    o: Seq<[Instruction; 5]>, b0: int, b1: int, b2: int, ii: int, s: Seq<Seq<[Instruction; 5]>>, n: Seq<u8>,
    u: Seq<Seq<u8>>, g: Seq<bool>, fin: Seq<[Instruction; 5]>, ok: bool) -> bool {
    let first = b0 + 1;
    let ls = crate::dependency::loop_bounds(p).0;
    let le = crate::dependency::loop_bounds(p).1;
    if !(0 <= b0 <= b1 && ii > 0 && b1 < o.len()) {
        !ok
    } else {
        let nb = (((b1 - b0) / ii) as u8) as int;
        &&& g[1] == rotating_regs_fit(o, first, b1, nb)
        &&& g[1] ==> loop_dests_done(o, s[1], first, b1, nb)
        &&& g[1] ==> g[2] == (1 + unread_upto(p, t, map, s[1], 0, first) <= 255)
        &&& g[1] && g[2] ==> unread_renamed(p, t, map, s[1], s[2], 0, first, 1, n[2] as int)
        &&& g[1] && g[2] ==> g[3] == (b1 == b2 || n[2] + unread_upto(p, t, map, s[2], b1 + 1, o.len() as int) <= 255)
        &&& g[1] && g[2] && g[3] ==> (b1 != b2 ==> unread_renamed(p, t, map, s[2], s[3], b1 + 1, o.len() as int, n[2] as int, n[3] as int))
        &&& g[1] && g[2] && g[3] ==> (b1 == b2 ==> s[3] == s[2] && n[3] == n[2])
        &&& g[1] && g[2] && g[3] ==> u[0] == dest_regs_before(o, first, b1 + 1) + unread_regs(p, t, map, s[1], 0, first)
            + (if b1 != b2 { unread_regs(p, t, map, s[2], b1 + 1, o.len() as int) } else { Seq::empty() })
        &&& g[1] && g[2] && g[3] ==> invariant_producers_renamed(p, t, map, (sched_view(s[3]), u[0], n[3]), (sched_view(s[4]), u[1], n[4]), g[4])
        &&& g[1] && g[2] && g[3] && g[4] ==> loop_operands_renamed(p, t, map, s[4], s[5], first, ii, b1 + 1 - first, g[5])
        &&& g[1] && g[2] && g[3] && g[4] && g[5] ==> g[6] == (le < p.len() && ls <= le + 1)
        &&& g[1] && g[2] && g[3] && g[4] && g[5] && g[6] ==> carried_renamed(t, map, s[5], s[6], first, ii, ls, le, g[7])
        &&& g[1] && g[2] && g[3] && g[4] && g[5] && g[6] && g[7] ==> local_before_renamed(p, t, map, s[6], n[4], s[7], n[7], ls, g[8])
        &&& g[1] && g[2] && g[3] && g[4] && g[5] && g[6] && g[7] && g[8] ==> local_after_renamed(p, t, map, s[7], n[7], s[8], n[8], le, g[9])
        &&& g[1] && g[2] && g[3] && g[4] && g[5] && g[6] && g[7] && g[8] && g[9] ==> post_loop_renamed(p, t, map, s[8], s[9], le, first, ii, nb, g[10])
        &&& g[1] && g[2] && g[3] && g[4] && g[5] && g[6] && g[7] && g[8] && g[9] && g[10] ==> g[11] == (o.len() <= s[9].len())
        &&& g[1] && g[2] && g[3] && g[4] && g[5] && g[6] && g[7] && g[8] && g[9] && g[10] ==> u[2] == u[1]
            + local_before_regs(p, t, map, (sched_view(s[6]), n[4]), ls)
            + local_after_regs(p, t, map, (sched_view(s[7]), n[7]), le, p.len() - le - 1)
        &&& g[1] && g[2] && g[3] && g[4] && g[5] && g[6] && g[7] && g[8] && g[9] && g[10] ==> u[3] ==
            rot_regs(dests_before(o, first, b1 + 1) as int, nb)
            + fresh_regs(1, n[2] as int)
            + (if b1 != b2 { fresh_regs(n[2] as int, n[3] as int) } else { Seq::empty() })
            + fresh_regs(n[3] as int, n[4] as int)
            + loop_ops_regs(p, t, map, sched_view(s[4]), first, ii, b1 + 1 - first)
            + carried_all_regs(t, map, sched_view(s[5]), first, ii, ls, le + 1 - ls, ls)
            + fresh_regs(n[4] as int, n[7] as int)
            + fresh_regs(n[7] as int, n[8] as int)
            + post_regs(t, map, s[8], le, first, ii, nb, p.len() - le)
        &&& g[1] && g[2] && g[3] && g[4] && g[5] && g[6] && g[7] && g[8] && g[9] && g[10] && g[11] ==> unwritten_filled(o, u[2], u[3], s[9], fin, u[4])
        &&& ok == (g[1] && g[2] && g[3] && g[4] && g[5] && g[6] && g[7] && g[8] && g[9] && g[10] && g[11])
    }
}

/// Allocates registers in the pipelined schedule `schedule`, laid out with
/// `placement_map`, with the last bundles `max_bundle_number_bb0` (before the
/// loop), `max_bundle_number_bb1` (loop) and `max_bundle_number_bb2` (whole
/// program) and initiation interval `ii`: the loop body's results rotate
/// through the registers from 32 on, one per stage, the values that stay put
/// get registers from 1 on, and operands follow their producers. Only
/// register numbers change: every slot keeps the form of its own input
/// instruction (`forms_from`), and the number of bundles stays.
/// `false` where the bounds do not fit the schedule, a producer has no slot
/// or no destination, or a register number leaves the byte; the schedule is
/// then left part-way.
#[verifier::rlimit(50)]
#[verifier::spinoff_prover]
pub fn register_realloc(
    program: &Vec<Instruction>,
    placement_map: Vec<(usize, usize)>,
    schedule: &mut Vec<[Instruction; 5]>,
    max_bundle_number_bb0: usize,
    max_bundle_number_bb1: usize,
    max_bundle_number_bb2: usize,
    ii: usize,
) -> (ok: bool)
    ensures
        forms_from(old(schedule)@, final(schedule)@),
        ok ==> max_bundle_number_bb0 <= max_bundle_number_bb1 < old(schedule)@.len() && ii > 0,
        ok && map_respects_regions(program@, placement_map@, max_bundle_number_bb0 as int, max_bundle_number_bb1 as int) ==> {
            &&& loop_dests_rotate(old(schedule)@, final(schedule)@, max_bundle_number_bb0 + 1, max_bundle_number_bb1 as int,
                (((max_bundle_number_bb1 - max_bundle_number_bb0) as usize / ii) as u8) as int)
            &&& forall|b: int, k: int| max_bundle_number_bb0 < b <= max_bundle_number_bb1 && 0 <= k < 5 ==>
                same_form(#[trigger] old(schedule)@[b]@[k], final(schedule)@[b]@[k])
        },
        exists|t: Seq<DependencyList>, s: Seq<Seq<[Instruction; 5]>>, n: Seq<u8>, u: Seq<Seq<u8>>, g: Seq<bool>|
            is_dependency_table(program@, t) && #[trigger] realloc_trace(program@, t, placement_map@, old(schedule)@,
                max_bundle_number_bb0 as int, max_bundle_number_bb1 as int, max_bundle_number_bb2 as int, ii as int,
                s, n, u, g, final(schedule)@, ok),
{
    let ghost orig = schedule@;
    let ghost p = program@;
    let ghost mp = placement_map@;
    let ghost mut ss: Seq<Seq<[Instruction; 5]>> = Seq::new(10, |i: int| orig);
    let ghost mut nn: Seq<u8> = Seq::new(10, |i: int| 1u8);
    let ghost mut uu: Seq<Seq<u8>> = Seq::new(5, |i: int| Seq::<u8>::empty());
    let ghost mut gg: Seq<bool> = Seq::new(12, |i: int| false);
    proof {
        lemma_forms_from_refl(orig);
    }
    let clean = copy_bundles(schedule);
    let mut st = AllocState { used: Vec::new(), allocated: Vec::new(), next_inv: 1 };
    let table = get_dependency_table(program);
    let ghost tb = table@;
    let b0 = max_bundle_number_bb0;
    let b1 = max_bundle_number_bb1;
    let b2 = max_bundle_number_bb2;
    if b1 < b0 || ii == 0 || b1 >= schedule.len() {
        proof {
            reveal(realloc_trace);
            assert(realloc_trace(p, tb, mp, orig, b0 as int, b1 as int, b2 as int, ii as int, ss, nn, uu, gg, schedule@, false));
        }
        return false;
    }
    let nb_stages = ((b1 - b0) / ii) as u8;
    let first = b0 + 1;
    let ghost lo = first as int;
    let ghost hi = b1 as int;
    let ghost regions = map_respects_regions(program@, placement_map@, b0 as int, b1 as int);
    let done = rename_loop_dests(schedule, first, b1, nb_stages, &mut st, Ghost(orig));
    proof {
        ss = ss.update(1, schedule@);
        gg = gg.update(1, done);
    }
    if !done {
        proof {
            reveal(realloc_trace);
            assert(realloc_trace(p, tb, mp, orig, b0 as int, b1 as int, b2 as int, ii as int, ss, nn, uu, gg, schedule@, false));
        }
        return false;
    }
    let ghost e1 = schedule@;
    proof {
        lemma_loop_kept_refl(e1, lo, hi);
        assert(lo - 1 == b0);
        assert(loop_dests_done(orig, e1, lo, hi, nb_stages as int));
    }
    let ghost before = schedule@;
    let done = rename_unread_dests(program, &table, &placement_map, schedule, 0, b0 + 1, &mut st, Ghost(orig), Ghost(lo), Ghost(hi));
    proof {
        lemma_loop_kept_trans(e1, before, schedule@, lo, hi);
        ss = ss.update(2, schedule@);
        nn = nn.update(2, st.next_inv);
        gg = gg.update(2, done);
    }
    if !done {
        proof {
            reveal(realloc_trace);
            assert(realloc_trace(p, tb, mp, orig, b0 as int, b1 as int, b2 as int, ii as int, ss, nn, uu, gg, schedule@, false));
        }
        return false;
    }
    if b1 != b2 {
        let len = schedule.len();
        let ghost before = schedule@;
        let done = rename_unread_dests(program, &table, &placement_map, schedule, b1 + 1, len, &mut st, Ghost(orig), Ghost(lo), Ghost(hi));
        proof {
            lemma_loop_kept_trans(e1, before, schedule@, lo, hi);
            ss = ss.update(3, schedule@);
            nn = nn.update(3, st.next_inv);
            gg = gg.update(3, done);
        }
        if !done {
            proof {
                reveal(realloc_trace);
                assert(realloc_trace(p, tb, mp, orig, b0 as int, b1 as int, b2 as int, ii as int, ss, nn, uu, gg, schedule@, false));
            }
            return false;
        }
    } else {
        proof {
            ss = ss.update(3, schedule@);
            nn = nn.update(3, st.next_inv);
            gg = gg.update(3, true);
        }
    }
    let ghost before = schedule@;
    proof {
        uu = uu.update(0, st.used@);
    }
    let done = rename_invariant_producers(program, &table, &placement_map, schedule, &mut st, Ghost(orig), Ghost(lo), Ghost(hi));
    proof {
        if regions {
            lemma_loop_kept_trans(e1, before, schedule@, lo, hi);
        }
        ss = ss.update(4, schedule@);
        nn = nn.update(4, st.next_inv);
        uu = uu.update(1, st.used@);
        gg = gg.update(4, done);
    }
    if !done {
        proof {
            reveal(realloc_trace);
            assert(realloc_trace(p, tb, mp, orig, b0 as int, b1 as int, b2 as int, ii as int, ss, nn, uu, gg, schedule@, false));
        }
        return false;
    }
    let ghost before = schedule@;
    let done = rename_loop_operands(program, &table, &placement_map, schedule, first, b1, b0, ii, &mut st, Ghost(orig));
    proof {
        if regions {
            lemma_all_kept_loop(e1, before, schedule@, lo, hi);
        }
        ss = ss.update(5, schedule@);
        gg = gg.update(5, done);
    }
    if !done {
        proof {
            reveal(realloc_trace);
            assert(realloc_trace(p, tb, mp, orig, b0 as int, b1 as int, b2 as int, ii as int, ss, nn, uu, gg, schedule@, false));
        }
        return false;
    }
    let (loop_start, loop_end) = find_loop_bounds(program);
    if loop_end >= program.len() || loop_start > loop_end + 1 {
        proof {
            reveal(realloc_trace);
            assert(realloc_trace(p, tb, mp, orig, b0 as int, b1 as int, b2 as int, ii as int, ss, nn, uu, gg, schedule@, false));
        }
        return false;
    }
    proof {
        gg = gg.update(6, true);
    }
    let ghost before = schedule@;
    let done = rename_carried_producers(&table, &placement_map, schedule, loop_start, loop_end, first, ii, &mut st, Ghost(orig),
        Ghost(program@), Ghost(lo), Ghost(hi));
    proof {
        if regions {
            lemma_loop_kept_trans(e1, before, schedule@, lo, hi);
        }
        ss = ss.update(6, schedule@);
        gg = gg.update(7, done);
    }
    if !done {
        proof {
            reveal(realloc_trace);
            assert(realloc_trace(p, tb, mp, orig, b0 as int, b1 as int, b2 as int, ii as int, ss, nn, uu, gg, schedule@, false));
        }
        return false;
    }
    let ghost before = schedule@;
    let done = rename_local_before(program, &table, &placement_map, schedule, loop_start, &mut st, Ghost(orig), Ghost(lo), Ghost(hi));
    proof {
        if regions {
            lemma_loop_kept_trans(e1, before, schedule@, lo, hi);
        }
        ss = ss.update(7, schedule@);
        nn = nn.update(7, st.next_inv);
        gg = gg.update(8, done);
    }
    if !done {
        proof {
            reveal(realloc_trace);
            assert(realloc_trace(p, tb, mp, orig, b0 as int, b1 as int, b2 as int, ii as int, ss, nn, uu, gg, schedule@, false));
        }
        return false;
    }
    let ghost before = schedule@;
    let done = rename_local_after(program, &table, &placement_map, schedule, loop_end, &mut st, Ghost(orig), Ghost(lo), Ghost(hi));
    proof {
        if regions {
            lemma_loop_kept_trans(e1, before, schedule@, lo, hi);
        }
        ss = ss.update(8, schedule@);
        nn = nn.update(8, st.next_inv);
        gg = gg.update(9, done);
    }
    if !done {
        proof {
            reveal(realloc_trace);
            assert(realloc_trace(p, tb, mp, orig, b0 as int, b1 as int, b2 as int, ii as int, ss, nn, uu, gg, schedule@, false));
        }
        return false;
    }
    let ghost before = schedule@;
    let done = rename_post_loop(program, &table, &placement_map, schedule, loop_end, first, ii, nb_stages, &mut st, Ghost(orig));
    proof {
        if regions {
            lemma_all_kept_loop(e1, before, schedule@, lo, hi);
        }
        ss = ss.update(9, schedule@);
        gg = gg.update(10, done);
    }
    if !done {
        proof {
            reveal(realloc_trace);
            assert(realloc_trace(p, tb, mp, orig, b0 as int, b1 as int, b2 as int, ii as int, ss, nn, uu, gg, schedule@, false));
        }
        return false;
    }
    let ghost before = schedule@;
    proof {
        uu = uu.update(2, st.used@);
        uu = uu.update(3, st.allocated@);
    }
    let done = rename_unwritten_operands(&clean, schedule, &mut st, Ghost(orig));
    proof {
        uu = uu.update(4, st.allocated@);
        gg = gg.update(11, done);
        reveal(realloc_trace);
        assert(realloc_trace(p, tb, mp, orig, b0 as int, b1 as int, b2 as int, ii as int, ss, nn, uu, gg, schedule@, done));
        if regions {
            lemma_all_kept_loop(e1, before, schedule@, lo, hi);
        }
        if regions && done {
            let fin = schedule@;
            assert forall|b: int, k: int| lo <= b <= hi && 0 <= k < 5 implies
                (#[trigger] spec_dest(fin[b]@[k]) is Some <==> spec_dest(orig[b]@[k]) is Some)
                && (spec_dest(orig[b]@[k]) is Some ==> spec_dest(fin[b]@[k])->0 == rotating_reg(orig, lo, b, k, nb_stages as int)) by {
                assert(rotated_slot(orig, e1, lo, b, k, nb_stages as int));
                assert(slot_kept(e1, fin, b, k));
            }
            assert forall|b: int, k: int| b0 < b <= b1 && 0 <= k < 5 implies
                same_form(#[trigger] orig[b]@[k], fin[b]@[k]) by {
                assert(rotated_slot(orig, e1, lo, b, k, nb_stages as int));
                assert(slot_kept(e1, fin, b, k));
                lemma_same_form(orig[b]@[k], e1[b]@[k], fin[b]@[k]);
            }
        }
    }
    done
}

proof fn lemma_layout_map(p: Seq<Instruction>, s: Seq<usize>, n: int, nb: nat, j: int)
    requires
        0 <= n <= s.len(),
        n <= p.len(),
        0 <= j < n,
    ensures
        layout(p, s, n, nb).1.len() == p.len(),
        layout(p, s, n, nb).1[j].0 == s[j],
    decreases n,
{
    let prev = layout(p, s, n - 1, nb);
    if n > 1 {
        lemma_layout_map(p, s, n - 1, nb, if j < n - 1 { j } else { 0 });
    } else {
        assert(prev.1.len() == p.len());
    }
    assert(layout(p, s, n, nb).1 == prev.1.update(n - 1, (s[n - 1], layout(p, s, n, nb).1[n - 1].1)));
}

/// The layout of a pipelined schedule keeps each region in its bundles: the
/// instructions before the loop stand in bundles up to the last bundle of
/// that code, those after the loop in bundles after the loop.
pub proof fn lemma_pipelined_layout_respects_regions(
    p: Seq<Instruction>,
    bundles: Seq<[Instruction; 5]>,
    map: Seq<(usize, usize)>,
    b0: int,
    b1: int,
    b2: int,
    ii: int,
)
    requires
        pip_result_ok(p, bundles, map, b0, b1, b2, ii),
        crate::dependency::loop_bounds(p).0 < p.len(),
    ensures
        map_respects_regions(p, map, b0, b1),
{
    let (table, s) = choose|table: Seq<DependencyList>, s: Seq<usize>| #[trigger] pip_layout_of(p, table, s, bundles, map, b0, b1, b2, ii);
    assert(pip_layout_of(p, table, s, bundles, map, b0, b1, b2, ii));
    assert(pip_schedule_ok(p, table, s, b0, b1, b2, ii));
    let ls = crate::dependency::loop_bounds(p).0;
    let le = crate::dependency::loop_bounds(p).1;
    assert forall|j: int| 0 <= j < map.len() && j < p.len() implies
        (j < ls ==> (#[trigger] map[j]).0 <= b0) && (j > le ==> map[j].0 > b1) by {
        assert(s.len() == p.len());
        lemma_layout_map(p, s, s.len() as int, (b2 + 1) as nat, j);
        assert(map[j].0 == s[j]);
        if j < ls {
            crate::pip_scheduler::lemma_last_busy_ge(p, s, ls, j);
            assert(b0 == last_busy(p, s, ls));
        }
        if j > le {
            assert(le + 1 < p.len());
            assert(tail_ok(p, table, s, b1, j));
            assert(s[j] > b1);
        }
    }
}

/// A bundle of five empty predicated slots.
pub open spec fn nop_pred_bundle() -> Seq<PredicatedInstruction> {
    seq![PredicatedInstruction::Nop, PredicatedInstruction::Nop, PredicatedInstruction::Nop,
        PredicatedInstruction::Nop, PredicatedInstruction::Nop]
}

/// A bundle with every slot guarded by `g`.
pub open spec fn pred_bundle(b: Seq<Instruction>, g: u8) -> Seq<PredicatedInstruction> {
    Seq::new(5, |k: int| spec_predicate(b[k], g))
}

/// The compressed loop after folding in the first `n` bundles of the loop
/// body (which starts at bundle `b0 + 1`): bundle `j` of the body goes to row
/// `j % ii`, each slot keeping the first instruction that reaches it, guarded
/// by the stage predicate `32 + j / ii`; the loop branch jumps to `first`.
pub open spec fn compressed_loop(s: Seq<[Instruction; 5]>, b0: int, ii: int, n: int, first: usize) -> Seq<Seq<PredicatedInstruction>>
    decreases n,
{
    if n <= 0 {
        Seq::new(ii as nat, |i: int| nop_pred_bundle())
    } else {
        let prev = compressed_loop(s, b0, ii, n - 1, first);
        let j = n - 1;
        let idx = j % ii;
        let bundle = s[b0 + 1 + j]@;
        let stage = (32 + j / ii) as u8;
        prev.update(idx, Seq::new(5, |k: int|
            if prev[idx][k] is Nop {
                match bundle[k] {
                    Instruction::Nop => PredicatedInstruction::Nop,
                    Instruction::LoopPip(_) => PredicatedInstruction::LoopPip(first),
                    x => spec_predicate(x, stage),
                }
            } else {
                prev[idx][k]
            }))
    }
}

/// Whether the bundles before the loop need one more bundle to set the
/// predicate 32 and the epilogue count: the last of them has a busy ALU.
pub open spec fn needs_extra(s: Seq<[Instruction; 5]>, b0: int) -> bool {
    !(pred_bundle(s[b0]@, 0)[0] is Nop && pred_bundle(s[b0]@, 0)[1] is Nop)
}

/// The first bundle of the compressed loop.
pub open spec fn loop_entry(s: Seq<[Instruction; 5]>, b0: int) -> usize {
    if needs_extra(s, b0) { (b0 + 2) as usize } else { (b0 + 1) as usize }
}

/// The bundles before the loop, with the predicate 32 set and the epilogue
/// count loaded in the free ALU slots of the last of them, or in one more
/// bundle.
pub open spec fn prepared_head(s: Seq<[Instruction; 5]>, ii: int, b0: int, b1: int) -> Seq<Seq<PredicatedInstruction>> {
    let head = Seq::new((b0 + 1) as nat, |b: int| pred_bundle(s[b]@, 0));
    let a0 = head[b0][0] is Nop;
    let a1 = head[b0][1] is Nop;
    let ec = PredicatedInstruction::MovL(SpecialRegister::EpCount, ((b1 - b0) / ii - 1) as i16);
    let p32 = PredicatedInstruction::MovP(32, true);
    let h2 = if needs_extra(s, b0) { head.push(nop_pred_bundle()) } else { head };
    let h3 = if a0 { h2.update(b0, h2[b0].update(0, p32)) } else { h2.update(b0 + 1, h2[b0 + 1].update(0, p32)) };
    if a1 { h3.update(b0, h3[b0].update(1, ec)) } else { h3.update(b0 + 1, h3[b0 + 1].update(1, ec)) }
}

/// The final program: the bundles before the loop (see `prepared_head`), the
/// compressed loop, and the bundles after the loop, every slot outside the
/// loop guarded by no predicate.
pub open spec fn prepared(s: Seq<[Instruction; 5]>, ii: int, b0: int, b1: int) -> Seq<Seq<PredicatedInstruction>> {
    let tail = Seq::new((s.len() - b1 - 1) as nat, |i: int| pred_bundle(s[b1 + 1 + i]@, 0));
    prepared_head(s, ii, b0, b1) + compressed_loop(s, b0, ii, b1 - b0, loop_entry(s, b0)) + tail
}

proof fn lemma_compressed_loop_len(s: Seq<[Instruction; 5]>, b0: int, ii: int, n: int, first: usize)
    requires
        ii > 0,
    ensures
        compressed_loop(s, b0, ii, n, first).len() == ii,
        forall|x: int| 0 <= x < ii ==> (#[trigger] compressed_loop(s, b0, ii, n, first)[x]).len() == 5,
    decreases n,
{
    if n > 0 {
        lemma_compressed_loop_len(s, b0, ii, n - 1, first);
        vstd::arithmetic::div_mod::lemma_mod_pos_bound(n - 1, ii);
    }
}

fn predicate_bundle(b: &[Instruction; 5], g: u8) -> (r: [PredicatedInstruction; 5])
    ensures
        r@ == pred_bundle(b@, g),
{
    let r = [
        PredicatedInstruction::from(&b[0], g),
        PredicatedInstruction::from(&b[1], g),
        PredicatedInstruction::from(&b[2], g),
        PredicatedInstruction::from(&b[3], g),
        PredicatedInstruction::from(&b[4], g),
    ];
    assert(r@ =~= pred_bundle(b@, g));
    r
}

/// Lays out the register-allocated pipelined schedule with predicated loop
/// stages: the bundles before the loop, the loop body folded into `ii`
/// bundles whose slots are guarded by their stage's predicate, and the bundles
/// after the loop; the stage predicate 32 and the epilogue count are set just
/// before the loop.
pub fn prepare_loop(
    schedule: &Vec<[Instruction; 5]>,
    ii: usize,
    max_bundle_number_bb0: usize,
    max_bundle_number_bb1: usize,
) -> (r: Vec<[PredicatedInstruction; 5]>)
    requires
        max_bundle_number_bb0 < max_bundle_number_bb1 < schedule.len(),
        schedule.len() < usize::MAX / 2,
        ii > 0,
        (max_bundle_number_bb1 - max_bundle_number_bb0) / (ii as int) >= 1,
    ensures
        r@.len() == prepared(schedule@, ii as int, max_bundle_number_bb0 as int, max_bundle_number_bb1 as int).len(),
        forall|b: int| 0 <= b < r@.len() ==>
            (#[trigger] r@[b])@ == prepared(schedule@, ii as int, max_bundle_number_bb0 as int, max_bundle_number_bb1 as int)[b],
{
    let ghost s = schedule@;
    let b0 = max_bundle_number_bb0;
    let b1 = max_bundle_number_bb1;
    let ghost head = Seq::new((b0 + 1) as nat, |b: int| pred_bundle(s[b]@, 0));
    let mut final_schedule: Vec<[PredicatedInstruction; 5]> = Vec::new();
    let mut b: usize = 0;
    while b <= b0
        invariant
            s == schedule@,
            b <= b0 + 1,
            b0 < b1 < schedule.len(),
            head == Seq::new((b0 + 1) as nat, |x: int| pred_bundle(s[x]@, 0)),
            final_schedule@.len() == b,
            forall|x: int| 0 <= x < b ==> (#[trigger] final_schedule@[x])@ == head[x],
        decreases b0 + 1 - b,
    {
        final_schedule.push(predicate_bundle(&schedule[b], 0));
        b = b + 1;
    }
    let p32_ins = PredicatedInstruction::MovP(32, true);
    let ec_val = (b1 - b0) / ii - 1;
    let ec_ins = PredicatedInstruction::MovL(SpecialRegister::EpCount, ec_val as i16);
    let last = final_schedule[b0];
    let alu0_available = match last[0] {
        PredicatedInstruction::Nop => true,
        _ => false,
    };
    let alu1_available = match last[1] {
        PredicatedInstruction::Nop => true,
        _ => false,
    };
    let mut first_bb1 = b0 + 1;
    let ghost h1 = final_schedule@;
    if !(alu0_available && alu1_available) {
        final_schedule.push([PredicatedInstruction::Nop, PredicatedInstruction::Nop, PredicatedInstruction::Nop,
            PredicatedInstruction::Nop, PredicatedInstruction::Nop]);
        first_bb1 = first_bb1 + 1;
    }
    if alu0_available {
        let mut row = final_schedule[b0];
        row[0] = p32_ins;
        final_schedule.set(b0, row);
    } else {
        let mut row = final_schedule[b0 + 1];
        row[0] = p32_ins;
        final_schedule.set(b0 + 1, row);
    }
    if alu1_available {
        let mut row = final_schedule[b0];
        row[1] = ec_ins;
        final_schedule.set(b0, row);
    } else {
        let mut row = final_schedule[b0 + 1];
        row[1] = ec_ins;
        final_schedule.set(b0 + 1, row);
    }
    let ghost h4 = final_schedule@;
    proof {
        let ph = prepared_head(s, ii as int, b0 as int, b1 as int);
        assert(last@ == head[b0 as int]);
        assert(head[b0 as int] == pred_bundle(s[b0 as int]@, 0));
        assert(first_bb1 == loop_entry(s, b0 as int));
        assert(h4.len() == ph.len());
        assert forall|x: int| 0 <= x < h4.len() implies (#[trigger] h4[x])@ == ph[x] by {
            if x < b0 {
                assert(h4[x] == h1[x]);
            } else if x == b0 {
                assert(h4[x]@ =~= ph[x]);
            } else {
                assert(h4[x]@ =~= ph[x]);
            }
        }
    }
    let mut compressed: Vec<[PredicatedInstruction; 5]> = Vec::new();
    let mut i: usize = 0;
    while i < ii
        invariant
            i <= ii,
            compressed@.len() == i,
            forall|x: int| 0 <= x < i ==> (#[trigger] compressed@[x])@ == nop_pred_bundle(),
        decreases ii - i,
    {
        compressed.push([PredicatedInstruction::Nop, PredicatedInstruction::Nop, PredicatedInstruction::Nop,
            PredicatedInstruction::Nop, PredicatedInstruction::Nop]);
        proof {
            assert(compressed@[i as int]@ =~= nop_pred_bundle());
        }
        i = i + 1;
    }
    let count = b1 - b0;
    let mut j: usize = 0;
    while j < count
        invariant
            s == schedule@,
            b0 < b1 < schedule.len(),
            schedule.len() < usize::MAX / 2,
            count == b1 - b0,
            ii > 0,
            j <= count,
            compressed@.len() == ii,
            forall|x: int| 0 <= x < ii ==>
                (#[trigger] compressed@[x])@ == compressed_loop(s, b0 as int, ii as int, j as int, first_bb1)[x],
        decreases count - j,
    {
        let index = j % ii;
        let bundle = schedule[b0 + 1 + j];
        let stage = 32 + j / ii;
        let ghost prev = compressed_loop(s, b0 as int, ii as int, j as int, first_bb1);
        let ghost old_compressed = compressed@;
        let mut row = compressed[index];
        let mut k: usize = 0;
        while k < 5
            invariant
                k <= 5,
                row@.len() == 5,
                forall|y: int| 0 <= y < k ==> row@[y] == (
                    if prev[index as int][y] is Nop {
                        match bundle@[y] {
                            Instruction::Nop => PredicatedInstruction::Nop,
                            Instruction::LoopPip(_) => PredicatedInstruction::LoopPip(first_bb1),
                            x => spec_predicate(x, stage as u8),
                        }
                    } else {
                        prev[index as int][y]
                    }),
                forall|y: int| k <= y < 5 ==> row@[y] == prev[index as int][y],
            decreases 5 - k,
        {
            match row[k] {
                PredicatedInstruction::Nop => {
                    match bundle[k] {
                        Instruction::Nop => {},
                        Instruction::LoopPip(_) => {
                            row[k] = PredicatedInstruction::LoopPip(first_bb1);
                        },
                        _ => {
                            row[k] = PredicatedInstruction::from(&bundle[k], stage as u8);
                        },
                    }
                },
                _ => {},
            }
            k = k + 1;
        }
        compressed.set(index, row);
        proof {
            assert(bundle@ == s[b0 + 1 + j]@);
            assert(index as int == (j as int) % (ii as int));
            assert(stage as u8 == (32 + (j as int) / (ii as int)) as u8);
            lemma_compressed_loop_len(s, b0 as int, ii as int, j as int, first_bb1);
            vstd::arithmetic::div_mod::lemma_mod_pos_bound(j as int, ii as int);
            let next = compressed_loop(s, b0 as int, ii as int, j + 1, first_bb1);
            assert(next == prev.update(index as int, Seq::new(5, |k: int|
                if prev[index as int][k] is Nop {
                    match bundle@[k] {
                        Instruction::Nop => PredicatedInstruction::Nop,
                        Instruction::LoopPip(_) => PredicatedInstruction::LoopPip(first_bb1),
                        x => spec_predicate(x, stage as u8),
                    }
                } else {
                    prev[index as int][k]
                })));
            assert forall|x: int| 0 <= x < ii implies (#[trigger] compressed@[x])@ == next[x] by {
                if x == index as int {
                    assert(compressed@[x]@ =~= next[x]);
                } else {
                    assert(compressed@[x] == old_compressed[x]);
                }
            }
        }
        j = j + 1;
    }
    let ghost h5 = final_schedule@;
    let mut i: usize = 0;
    while i < ii
        invariant
            i <= ii,
            compressed@.len() == ii,
            final_schedule@.len() == h5.len() + i,
            forall|x: int| 0 <= x < h5.len() ==> #[trigger] final_schedule@[x] == h5[x],
            forall|x: int| 0 <= x < i ==> #[trigger] final_schedule@[h5.len() + x] == compressed@[x],
        decreases ii - i,
    {
        final_schedule.push(compressed[i]);
        i = i + 1;
    }
    let ghost h6 = final_schedule@;
    let mut b = b1 + 1;
    while b < schedule.len()
        invariant
            s == schedule@,
            b1 + 1 <= b <= schedule.len(),
            final_schedule@.len() == h6.len() + (b - b1 - 1),
            forall|x: int| 0 <= x < h6.len() ==> #[trigger] final_schedule@[x] == h6[x],
            forall|x: int| 0 <= x < b - b1 - 1 ==> (#[trigger] final_schedule@[h6.len() + x])@ == pred_bundle(s[b1 + 1 + x]@, 0),
        decreases schedule.len() - b,
    {
        final_schedule.push(predicate_bundle(&schedule[b], 0));
        b = b + 1;
    }
    proof {
        let spec_all = prepared(s, ii as int, b0 as int, b1 as int);
        let ph = prepared_head(s, ii as int, b0 as int, b1 as int);
        let cl = compressed_loop(s, b0 as int, ii as int, (b1 - b0) as int, first_bb1);
        let tail = Seq::new((s.len() - b1 - 1) as nat, |i: int| pred_bundle(s[b1 + 1 + i]@, 0));
        assert(h5 == h4);
        lemma_compressed_loop_len(s, b0 as int, ii as int, (b1 - b0) as int, first_bb1);
        assert(spec_all == ph + cl + tail);
        assert(final_schedule@.len() == spec_all.len());
        assert forall|x: int| 0 <= x < final_schedule@.len() implies (#[trigger] final_schedule@[x])@ == spec_all[x] by {
            if x < h4.len() {
                assert(final_schedule@[x] == h4[x]);
            } else if x < h4.len() + ii {
                assert(final_schedule@[h5.len() + (x - h4.len())] == compressed@[x - h4.len()]);
            } else {
                assert(final_schedule@[h6.len() + (x - h6.len())]@ == pred_bundle(s[b1 + 1 + (x - h6.len())]@, 0));
            }
        }
    }
    final_schedule
}

} // verus!
