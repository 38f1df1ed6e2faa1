//! Dependency analysis: for every operand, the instructions that produce it,
//! classified by where producer and reader stand relative to the loop.
use vstd::prelude::*;
use crate::instruction::{Instruction, spec_dest, spec_sources};

verus! {

broadcast use vstd::seq_lib::group_to_multiset_ensures;

/// How a producer relates to a reader of its result.
#[derive(Clone, Copy, PartialEq, Eq, Debug, Structural)]
pub enum Dependency {
    /// Producer and reader in the same straight-line region.
    Local,
    /// Produced in one iteration and read in the next.
    InterLoop,
    /// Produced before the loop and read inside it or after it.
    LoopInvariant,
    /// Produced inside the loop and read after it.
    PostLoop,
}

/// The position of a kind among `Local`, `InterLoop`, `LoopInvariant`, `PostLoop`.
pub open spec fn dep_index(d: Dependency) -> int {
    match d {
        Dependency::Local => 0,
        Dependency::InterLoop => 1,
        Dependency::LoopInvariant => 2,
        Dependency::PostLoop => 3,
    }
}

/// The kind at a position among `Local`, `InterLoop`, `LoopInvariant`, `PostLoop`.
pub open spec fn dep_at(i: int) -> Dependency {
    if i == 0 { Dependency::Local }
    else if i == 1 { Dependency::InterLoop }
    else if i == 2 { Dependency::LoopInvariant }
    else { Dependency::PostLoop }
}

/// All kinds, in order.
pub open spec fn all_dependencies() -> Seq<Dependency> {
    seq![Dependency::Local, Dependency::InterLoop, Dependency::LoopInvariant, Dependency::PostLoop]
}

impl Dependency {
    pub fn iter() -> (r: Vec<Dependency>)
        ensures
            r@ == all_dependencies(),
    {
        let mut v = Vec::new();
        v.push(Dependency::Local);
        v.push(Dependency::InterLoop);
        v.push(Dependency::LoopInvariant);
        v.push(Dependency::PostLoop);
        assert(v@ =~= all_dependencies());
        v
    }

    /// The position of the kind among `Local`, `InterLoop`, `LoopInvariant`, `PostLoop`.
    pub fn index(&self) -> (r: usize)
        ensures
            r == dep_index(*self),
    {
        match self {
            Dependency::Local => 0,
            Dependency::InterLoop => 1,
            Dependency::LoopInvariant => 2,
            Dependency::PostLoop => 3,
        }
    }
}

/// The producers of one reader's operands, one list per kind of dependency.
#[derive(Debug)]
pub struct DependencyList {
    local: Vec<usize>,
    inter_loop: Vec<usize>,
    loop_invariant: Vec<usize>,
    post_loop: Vec<usize>,
}

impl View for DependencyList {
    /// The producer lists, indexed by `dep_index`.
    type V = Seq<Seq<usize>>;

    closed spec fn view(&self) -> Seq<Seq<usize>> {
        seq![self.local@, self.inter_loop@, self.loop_invariant@, self.post_loop@]
    }
}

/// A dependency list holds exactly the four kinds.
pub broadcast proof fn lemma_dependency_list_view_len(l: DependencyList)
    ensures
        #[trigger] l@.len() == 4,
{
}

/// Every element is smaller than every later one.
pub open spec fn strictly_increasing(s: Seq<usize>) -> bool {
    forall|i: int, j: int| 0 <= i < j < s.len() ==> s[i] < s[j]
}

/// Every element is at most every later one.
pub open spec fn nondecreasing(s: Seq<usize>) -> bool {
    forall|i: int, j: int| 0 <= i < j < s.len() ==> s[i] <= s[j]
}

/// `slice::sort` of std on a vector of `usize`: afterwards the elements stand
/// in nondecreasing order and are the same elements, each as often as before.
#[verifier::external_body]
fn sort_usizes(v: &mut Vec<usize>)
    ensures
        nondecreasing(final(v)@),
        final(v)@.to_multiset() == old(v)@.to_multiset(),
{
    v.sort();
}

/// Sorting keeps a list free of duplicates and keeps its elements.
proof fn lemma_sorted_distinct(a: Seq<usize>, b: Seq<usize>)
    requires
        a.no_duplicates(),
        nondecreasing(b),
        b.to_multiset() == a.to_multiset(),
    ensures
        strictly_increasing(b),
        forall|x: usize| b.contains(x) <==> a.contains(x),
{
    a.lemma_multiset_has_no_duplicates();
    b.lemma_multiset_has_no_duplicates_conv();
    a.to_multiset_ensures();
    b.to_multiset_ensures();
    assert forall|x: usize| b.contains(x) <==> a.contains(x) by {
        assert(b.to_multiset().count(x) == a.to_multiset().count(x));
        assert(b.contains(x) <==> b.to_multiset().count(x) > 0);
        assert(a.contains(x) <==> a.to_multiset().count(x) > 0);
    }
}

impl DependencyList {
    pub fn new() -> (r: Self)
        ensures
            r@ == seq![Seq::<usize>::empty(), Seq::<usize>::empty(), Seq::<usize>::empty(), Seq::<usize>::empty()],
    {
        DependencyList {
            local: Vec::new(),
            inter_loop: Vec::new(),
            loop_invariant: Vec::new(),
            post_loop: Vec::new(),
        }
    }

    fn list_mut(&mut self, dep_type: Dependency) -> (r: &mut Vec<usize>)
        ensures
            r@ == old(self)@[dep_index(dep_type)],
            final(self)@ == old(self)@.update(dep_index(dep_type), final(r)@),
    {
        match dep_type {
            Dependency::Local => &mut self.local,
            Dependency::InterLoop => &mut self.inter_loop,
            Dependency::LoopInvariant => &mut self.loop_invariant,
            Dependency::PostLoop => &mut self.post_loop,
        }
    }

    pub fn push(&mut self, dep_type: Dependency, producer_pc: usize)
        ensures
            final(self)@ == old(self)@.update(
                dep_index(dep_type),
                old(self)@[dep_index(dep_type)].push(producer_pc),
            ),
    {
        self.list_mut(dep_type).push(producer_pc);
    }

    /// Removes the last producer of a kind, if there is one.
    pub fn pop(&mut self, dep_type: Dependency)
        ensures
            old(self)@[dep_index(dep_type)].len() == 0 ==> final(self)@ == old(self)@,
            old(self)@[dep_index(dep_type)].len() > 0 ==> final(self)@ == old(self)@.update(
                dep_index(dep_type),
                old(self)@[dep_index(dep_type)].drop_last(),
            ),
    {
        let l = self.list_mut(dep_type);
        if l.len() > 0 {
            l.pop();
        }
        proof {
            if old(self)@[dep_index(dep_type)].len() == 0 {
                assert(final(self)@ =~= old(self)@);
            }
        }
    }

    pub fn iter(&self, dep_type: Dependency) -> (r: &Vec<usize>)
        ensures
            r@ == self@[dep_index(dep_type)],
    {
        match dep_type {
            Dependency::Local => &self.local,
            Dependency::InterLoop => &self.inter_loop,
            Dependency::LoopInvariant => &self.loop_invariant,
            Dependency::PostLoop => &self.post_loop,
        }
    }

    pub fn is_empty(&self) -> (r: bool)
        ensures
            r == (self@[0].len() == 0 && self@[1].len() == 0 && self@[2].len() == 0 && self@[3].len() == 0),
    {
        self.local.len() == 0 && self.inter_loop.len() == 0 && self.loop_invariant.len() == 0
            && self.post_loop.len() == 0
    }

    /// Sorts every list in increasing order.
    pub fn sort(&mut self)
        ensures
            forall|i: int| 0 <= i < 4 ==> nondecreasing(#[trigger] final(self)@[i]),
            forall|i: int| 0 <= i < 4 ==> (#[trigger] final(self)@[i]).to_multiset() == old(self)@[i].to_multiset(),
    {
        sort_usizes(&mut self.local);
        sort_usizes(&mut self.inter_loop);
        sort_usizes(&mut self.loop_invariant);
        sort_usizes(&mut self.post_loop);
    }
}

/// Whether an instruction closes the loop.
pub open spec fn is_loop_instruction(i: Instruction) -> bool {
    i is Loop || i is LoopPip
}

/// The branch target of a loop instruction.
pub open spec fn loop_target(i: Instruction) -> usize {
    match i {
        Instruction::Loop(t) => t,
        Instruction::LoopPip(t) => t,
        _ => 0,
    }
}

/// The position of the last loop instruction before `n`, or -1.
pub open spec fn last_loop_before(p: Seq<Instruction>, n: int) -> int
    decreases n,
{
    if n <= 0 {
        -1
    } else if is_loop_instruction(p[n - 1]) {
        n - 1
    } else {
        last_loop_before(p, n - 1)
    }
}

/// The loop body as `(first pc, pc of the loop instruction)`, taken from the
/// last loop instruction; `(len, len)` where there is none.
pub open spec fn loop_bounds(p: Seq<Instruction>) -> (int, int) {
    let k = last_loop_before(p, p.len() as int);
    if k < 0 {
        (p.len() as int, p.len() as int)
    } else {
        (loop_target(p[k]) as int, k)
    }
}

pub(crate) proof fn lemma_last_loop_range(p: Seq<Instruction>, n: int)
    requires
        0 <= n <= p.len(),
    ensures
        -1 <= last_loop_before(p, n) < n,
        last_loop_before(p, n) >= 0 ==> is_loop_instruction(p[last_loop_before(p, n)]),
        forall|j: int| last_loop_before(p, n) < j < n ==> !is_loop_instruction(#[trigger] p[j]),
    decreases n,
{
    if n > 0 {
        lemma_last_loop_range(p, n - 1);
    }
}

/// How a value written at `writer_pc` reaches a read at `reader_pc`, given the
/// loop body `[loop_start, loop_end)` and whether the register is also written
/// inside the loop.
pub open spec fn spec_dependency_type(
    writer_pc: int,
    reader_pc: int,
    loop_start: int,
    loop_end: int,
    flag: bool,
) -> Option<Dependency> {
    if writer_pc < loop_start {
        if reader_pc <= writer_pc {
            None
        } else if reader_pc < loop_start {
            Some(Dependency::Local)
        } else if flag && reader_pc < loop_end {
            Some(Dependency::InterLoop)
        } else {
            Some(Dependency::LoopInvariant)
        }
    } else if writer_pc < loop_end {
        if reader_pc < loop_start {
            None
        } else if reader_pc >= loop_end {
            Some(Dependency::PostLoop)
        } else if reader_pc > writer_pc {
            Some(Dependency::Local)
        } else {
            Some(Dependency::InterLoop)
        }
    } else {
        if reader_pc <= writer_pc {
            None
        } else {
            Some(Dependency::Local)
        }
    }
}

pub fn get_dependency_type(
    writer_pc: usize,
    reader_pc: usize,
    loop_start: usize,
    loop_end: usize,
    flag: bool,
) -> (r: Option<Dependency>)
    ensures
        r == spec_dependency_type(writer_pc as int, reader_pc as int, loop_start as int, loop_end as int, flag),
{
    if writer_pc < loop_start {
        if reader_pc <= writer_pc {
            None
        } else if reader_pc < loop_start {
            Some(Dependency::Local)
        } else if flag && reader_pc < loop_end {
            Some(Dependency::InterLoop)
        } else {
            Some(Dependency::LoopInvariant)
        }
    } else if writer_pc < loop_end {
        if reader_pc < loop_start {
            None
        } else if reader_pc >= loop_end {
            Some(Dependency::PostLoop)
        } else if reader_pc > writer_pc {
            Some(Dependency::Local)
        } else {
            Some(Dependency::InterLoop)
        }
    } else {
        if reader_pc <= writer_pc {
            None
        } else {
            Some(Dependency::Local)
        }
    }
}

/// Whether the instruction at `w` writes register `s`.
pub open spec fn writes_reg(p: Seq<Instruction>, w: int, s: u8) -> bool {
    0 <= w < p.len() && spec_dest(p[w]) == Some(s)
}

/// Whether register `s` is written inside the loop body.
pub open spec fn modified_in_loop(p: Seq<Instruction>, s: u8) -> bool {
    exists|w: int| loop_bounds(p).0 <= w < loop_bounds(p).1 && #[trigger] writes_reg(p, w, s)
}

/// Whether `w` writes a register that `r` reads, with a dependency of kind `t`.
pub open spec fn dep_candidate(p: Seq<Instruction>, r: int, t: Dependency, w: int) -> bool {
    &&& 0 <= w < p.len()
    &&& spec_dest(p[w]) is Some
    &&& spec_sources(p[r]).contains(spec_dest(p[w])->0)
    &&& spec_dependency_type(w, r, loop_bounds(p).0, loop_bounds(p).1,
        modified_in_loop(p, spec_dest(p[w])->0)) == Some(t)
}

/// Whether `a` and `b` stand on the same side of `r`.
pub open spec fn same_side(a: int, b: int, r: int) -> bool {
    (a < r) == (b < r)
}

/// Whether `w` is a recorded producer of kind `t` for reader `r`: among the
/// candidates that write the same register, on the same side of `r`, it is
/// the last.
pub open spec fn dep_kept(p: Seq<Instruction>, r: int, t: Dependency, w: int) -> bool {
    &&& dep_candidate(p, r, t, w)
    &&& !exists|y: int| #![trigger dep_candidate(p, r, t, y)]
        w < y && dep_candidate(p, r, t, y) && spec_dest(p[y]) == spec_dest(p[w]) && same_side(w, y, r)
}

/// The dependency list of reader `r`: for each kind, the recorded producers in
/// increasing order.
pub open spec fn is_dependency_list_of(p: Seq<Instruction>, r: int, l: Seq<Seq<usize>>) -> bool {
    &&& l.len() == 4
    &&& forall|ti: int| 0 <= ti < 4 ==> strictly_increasing(#[trigger] l[ti])
    &&& forall|ti: int, x: usize| 0 <= ti < 4 ==>
        (#[trigger] l[ti].contains(x) <==> dep_kept(p, r, dep_at(ti), x as int))
}

/// The dependency table of a program: one dependency list per instruction.
pub open spec fn is_dependency_table(p: Seq<Instruction>, t: Seq<DependencyList>) -> bool {
    &&& t.len() == p.len()
    &&& forall|r: int| 0 <= r < p.len() ==> is_dependency_list_of(p, r, #[trigger] t[r]@)
}


proof fn lemma_increasing_unique(a: Seq<usize>, b: Seq<usize>)
    requires
        strictly_increasing(a),
        strictly_increasing(b),
        forall|x: usize| a.contains(x) <==> b.contains(x),
    ensures
        a == b,
    decreases a.len(),
{
    if a.len() == 0 {
        if b.len() > 0 {
            assert(b.contains(b[0]));
        }
        assert(a =~= b);
    } else {
        assert(a.contains(a[0]));
        assert(b.len() > 0);
        assert(b.contains(b[0]));
        let ia = choose|i: int| 0 <= i < a.len() && a[i] == b[0];
        let ib = choose|i: int| 0 <= i < b.len() && b[i] == a[0];
        assert(a[0] == b[0]) by {
            if a[0] < b[0] {
                assert(b[ib] == a[0]);
                assert(b[0] <= b[ib]);
            } else if b[0] < a[0] {
                assert(a[ia] == b[0]);
                assert(a[0] <= a[ia]);
            }
        }
        let a1 = a.drop_first();
        let b1 = b.drop_first();
        assert forall|x: usize| a1.contains(x) <==> b1.contains(x) by {
            if a1.contains(x) {
                let i = choose|i: int| 0 <= i < a1.len() && a1[i] == x;
                assert(a[i + 1] == x);
                assert(a.contains(x));
                let k = choose|k: int| 0 <= k < b.len() && b[k] == x;
                assert(x > a[0]);
                assert(k != 0);
                assert(b1[k - 1] == x);
            }
            if b1.contains(x) {
                let i = choose|i: int| 0 <= i < b1.len() && b1[i] == x;
                assert(b[i + 1] == x);
                assert(b.contains(x));
                let k = choose|k: int| 0 <= k < a.len() && a[k] == x;
                assert(x > b[0]);
                assert(k != 0);
                assert(a1[k - 1] == x);
            }
        }
        lemma_increasing_unique(a1, b1);
        assert(a =~= seq![a[0]] + a1);
        assert(b =~= seq![b[0]] + b1);
    }
}

/// The dependency table is determined by the program: two tables of the
/// same program hold the same lists.
pub proof fn lemma_dependency_table_unique(p: Seq<Instruction>, t1: Seq<DependencyList>, t2: Seq<DependencyList>)
    requires
        is_dependency_table(p, t1),
        is_dependency_table(p, t2),
    ensures
        forall|r: int| 0 <= r < p.len() ==> (#[trigger] t1[r])@ == t2[r]@,
{
    assert forall|r: int| 0 <= r < p.len() implies (#[trigger] t1[r])@ == t2[r]@ by {
        assert(is_dependency_list_of(p, r, t1[r]@));
        assert(is_dependency_list_of(p, r, t2[r]@));
        assert forall|k: int| 0 <= k < 4 implies t1[r]@[k] == t2[r]@[k] by {
            assert(strictly_increasing(t1[r]@[k]));
            assert(strictly_increasing(t2[r]@[k]));
            assert forall|x: usize| t1[r]@[k].contains(x) <==> t2[r]@[k].contains(x) by {
                assert(t1[r]@[k].contains(x) <==> dep_kept(p, r, dep_at(k), x as int));
                assert(t2[r]@[k].contains(x) <==> dep_kept(p, r, dep_at(k), x as int));
            }
            lemma_increasing_unique(t1[r]@[k], t2[r]@[k]);
        }
        assert(t1[r]@ =~= t2[r]@);
    }
}

/// Whether `x` writes one of the first `k` registers of `srcs`.
spec fn dest_among(p: Seq<Instruction>, x: int, srcs: Seq<u8>, k: int) -> bool {
    exists|kk: int| 0 <= kk < k && spec_dest(p[x]) == Some(#[trigger] srcs[kk])
}

/// Whether `x` is, among the writers `cur` seen so far, the last candidate of
/// kind `t` on its side of `r`.
spec fn kept_in(p: Seq<Instruction>, r: int, t: Dependency, x: int, cur: Seq<usize>) -> bool {
    &&& cur.contains(x as usize)
    &&& dep_candidate(p, r, t, x)
    &&& !exists|y: usize| #![trigger cur.contains(y)]
        cur.contains(y) && x < y && dep_candidate(p, r, t, y as int) && same_side(x, y as int, r)
}

/// The state of the list of kind `t` while the dependency list of `r` is built:
/// the registers `srcs[..k]` are done and the writers `cur` of `srcs[k]` are seen.
spec fn list_inv(
    p: Seq<Instruction>,
    r: int,
    t: Dependency,
    l: Seq<usize>,
    srcs: Seq<u8>,
    k: int,
    cur: Seq<usize>,
) -> bool {
    &&& l.no_duplicates()
    &&& forall|i: int| 0 <= i < l.len() ==> #[trigger] l[i] < p.len()
    &&& forall|x: usize| #[trigger] l.contains(x) <==> (
        (dest_among(p, x as int, srcs, k) && dep_kept(p, r, t, x as int))
        || (k < srcs.len() && spec_dest(p[x as int]) == Some(srcs[k]) && kept_in(p, r, t, x as int, cur)))
    &&& k < srcs.len() ==> (forall|y: usize| #[trigger] cur.contains(y) && dep_candidate(p, r, t, y as int)
        ==> l.len() > 0 && y <= l.last() && cur.contains(l.last()) && dep_candidate(p, r, t, l.last() as int))
    &&& k < srcs.len() ==> ((forall|y: usize| #[trigger] cur.contains(y) ==> !dep_candidate(p, r, t, y as int))
        ==> (l.len() == 0 || spec_dest(p[l.last() as int]) != Some(srcs[k])))
}

/// The writers `cur` of register `s` seen so far, in increasing order.
spec fn cur_inv(p: Seq<Instruction>, s: u8, cur: Seq<usize>) -> bool {
    &&& strictly_increasing(cur)
    &&& forall|i: int| 0 <= i < cur.len() ==> writes_reg(p, #[trigger] cur[i] as int, s)
}

/// All writers of each register, in increasing order, among the first `n`
/// instructions.
spec fn writers_inv(p: Seq<Instruction>, ws: Seq<Vec<usize>>, n: int) -> bool {
    &&& ws.len() == 256
    &&& forall|s: int| 0 <= s < 256 ==> strictly_increasing(#[trigger] ws[s]@)
    &&& forall|s: int, i: int| 0 <= s < 256 && 0 <= i < ws[s]@.len() ==>
        #[trigger] ws[s]@[i] < n && writes_reg(p, ws[s]@[i] as int, s as u8)
    &&& forall|s: int, w: int| 0 <= s < 256 && 0 <= w < n && #[trigger] writes_reg(p, w, s as u8)
        ==> ws[s]@.contains(w as usize)
}

proof fn lemma_sources_distinct(i: Instruction)
    ensures
        spec_sources(i).no_duplicates(),
        spec_sources(i).len() <= 2,
{
}

/// A writer that is no candidate of kind `t` leaves the list of kind `t` as it is.
proof fn lemma_step_other(
    p: Seq<Instruction>,
    r: int,
    t: Dependency,
    l: Seq<usize>,
    srcs: Seq<u8>,
    k: int,
    cur: Seq<usize>,
    w: usize,
)
    requires
        0 <= k < srcs.len(),
        list_inv(p, r, t, l, srcs, k, cur),
        !dep_candidate(p, r, t, w as int),
        forall|i: int| 0 <= i < cur.len() ==> #[trigger] cur[i] < w,
    ensures
        list_inv(p, r, t, l, srcs, k, cur.push(w)),
{
    let c2 = cur.push(w);
    assert forall|y: usize| #[trigger] cur.contains(y) implies c2.contains(y) by {
        let i = choose|i: int| 0 <= i < cur.len() && cur[i] == y;
        assert(c2[i] == y);
    }
    assert forall|x: usize| kept_in(p, r, t, x as int, c2) <==> kept_in(p, r, t, x as int, cur) by {
        if kept_in(p, r, t, x as int, c2) {
            assert(x != w);
            assert(cur.contains(x));
            if exists|y: usize| cur.contains(y) && x < y && dep_candidate(p, r, t, y as int) && same_side(x as int, y as int, r) {
                let y = choose|y: usize| cur.contains(y) && x < y && dep_candidate(p, r, t, y as int) && same_side(x as int, y as int, r);
                assert(c2.contains(y));
            }
        }
        if kept_in(p, r, t, x as int, cur) {
            assert(c2.contains(x));
            if exists|y: usize| c2.contains(y) && x < y && dep_candidate(p, r, t, y as int) && same_side(x as int, y as int, r) {
                let y = choose|y: usize| c2.contains(y) && x < y && dep_candidate(p, r, t, y as int) && same_side(x as int, y as int, r);
                let i = choose|i: int| 0 <= i < c2.len() && c2[i] == y;
                if i < cur.len() {
                    assert(cur.contains(y));
                }
            }
        }
    }
    assert forall|y: usize| #[trigger] c2.contains(y) && dep_candidate(p, r, t, y as int)
        implies l.len() > 0 && y <= l.last() && c2.contains(l.last()) && dep_candidate(p, r, t, l.last() as int) by {
        let i = choose|i: int| 0 <= i < c2.len() && c2[i] == y;
        if i < cur.len() {
            assert(cur.contains(y));
            let j = choose|j: int| 0 <= j < cur.len() && cur[j] == l.last();
            assert(c2[j] == l.last());
        }
    }
    if forall|y: usize| #[trigger] c2.contains(y) ==> !dep_candidate(p, r, t, y as int) {
        assert forall|y: usize| #[trigger] cur.contains(y) implies !dep_candidate(p, r, t, y as int) by {
            assert(c2.contains(y));
        }
    }
}

/// A writer that is a candidate of kind `t` replaces the candidate it overrides
/// on its side, or is added.
proof fn lemma_step_same(
    p: Seq<Instruction>,
    r: int,
    t: Dependency,
    l: Seq<usize>,
    srcs: Seq<u8>,
    k: int,
    cur: Seq<usize>,
    w: usize,
    popped: bool,
)
    requires
        0 <= k < srcs.len(),
        srcs.no_duplicates(),
        list_inv(p, r, t, l, srcs, k, cur),
        cur_inv(p, srcs[k], cur),
        dep_candidate(p, r, t, w as int),
        spec_dest(p[w as int]) == Some(srcs[k]),
        forall|i: int| 0 <= i < cur.len() ==> #[trigger] cur[i] < w,
        popped == (l.len() > 0 && spec_dest(p[l.last() as int]) == spec_dest(p[w as int])
            && same_side(l.last() as int, w as int, r)),
    ensures
        list_inv(p, r, t, if popped { l.drop_last().push(w) } else { l.push(w) }, srcs, k, cur.push(w)),
{
    let c2 = cur.push(w);
    let l2 = if popped { l.drop_last().push(w) } else { l.push(w) };
    let s = srcs[k];
    assert forall|y: usize| #[trigger] cur.contains(y) implies c2.contains(y) && y < w
        && spec_dest(p[y as int]) == Some(s) by {
        let i = choose|i: int| 0 <= i < cur.len() && cur[i] == y;
        assert(c2[i] == y);
    }
    assert(c2[cur.len() as int] == w);
    assert forall|y: usize| #[trigger] c2.contains(y) && y != w implies cur.contains(y) by {
        let i = choose|i: int| 0 <= i < c2.len() && c2[i] == y;
        assert(cur[i] == y);
    }
    // w is not yet in the list
    if l.contains(w) {
        if dest_among(p, w as int, srcs, k) {
            let kk = choose|kk: int| 0 <= kk < k && spec_dest(p[w as int]) == Some(#[trigger] srcs[kk]);
            assert(srcs[kk] == srcs[k]);
        }
        assert(cur.contains(w));
    }
    let has_cand = exists|y: usize| #[trigger] cur.contains(y) && dep_candidate(p, r, t, y as int);
    if popped {
        let m = l.last();
        if !has_cand {
            assert(false);
        }
        assert(l.contains(m));
        assert(cur.contains(m));
    }
    assert forall|x: usize| #[trigger] l2.contains(x) <==> (
        (dest_among(p, x as int, srcs, k) && dep_kept(p, r, t, x as int))
        || (spec_dest(p[x as int]) == Some(s) && kept_in(p, r, t, x as int, c2))) by {
        if x == w {
            assert(l2.last() == w);
            assert(l2.contains(w));
            assert(kept_in(p, r, t, w as int, c2));
        } else {
            // membership in l2 versus l
            if popped {
                let m = l.last();
                let lp = l.drop_last();
                assert(l =~= lp.push(m));
                if x == m {
                    if lp.contains(m) {
                        let i = choose|i: int| 0 <= i < lp.len() && lp[i] == m;
                        assert(l[i] == l[l.len() - 1]);
                    }
                    assert(!l2.contains(x));
                    assert(c2.contains(w));
                    assert(!kept_in(p, r, t, x as int, c2));
                    if dest_among(p, x as int, srcs, k) {
                        let kk = choose|kk: int| 0 <= kk < k && spec_dest(p[x as int]) == Some(#[trigger] srcs[kk]);
                        assert(srcs[kk] == srcs[k]);
                    }
                } else {
                    assert(l2.contains(x) <==> l.contains(x)) by {
                        if l.contains(x) {
                            let i = choose|i: int| 0 <= i < l.len() && l[i] == x;
                            assert(lp[i] == x);
                            assert(l2[i] == x);
                        }
                        if l2.contains(x) {
                            let i = choose|i: int| 0 <= i < l2.len() && l2[i] == x;
                            assert(l[i] == x);
                        }
                    }
                    if kept_in(p, r, t, x as int, cur) {
                        assert(x <= m);
                        assert(c2.contains(m));
                        assert(!same_side(x as int, m as int, r));
                        assert(kept_in(p, r, t, x as int, c2)) by {
                            assert(c2.contains(x));
                            if exists|y: usize| c2.contains(y) && x < y && dep_candidate(p, r, t, y as int) && same_side(x as int, y as int, r) {
                                let y = choose|y: usize| c2.contains(y) && x < y && dep_candidate(p, r, t, y as int) && same_side(x as int, y as int, r);
                                if y != w {
                                    assert(cur.contains(y));
                                }
                            }
                        }
                    }
                    if kept_in(p, r, t, x as int, c2) {
                        assert(cur.contains(x));
                        if exists|y: usize| cur.contains(y) && x < y && dep_candidate(p, r, t, y as int) && same_side(x as int, y as int, r) {
                            let y = choose|y: usize| cur.contains(y) && x < y && dep_candidate(p, r, t, y as int) && same_side(x as int, y as int, r);
                            assert(c2.contains(y));
                        }
                    }
                }
            } else {
                assert(l2.contains(x) <==> l.contains(x)) by {
                    if l.contains(x) {
                        let i = choose|i: int| 0 <= i < l.len() && l[i] == x;
                        assert(l2[i] == x);
                    }
                    if l2.contains(x) {
                        let i = choose|i: int| 0 <= i < l2.len() && l2[i] == x;
                        assert(l[i] == x);
                    }
                }
                if kept_in(p, r, t, x as int, cur) {
                    let m = l.last();
                    assert(x <= m);
                    assert(cur.contains(m));
                    assert(spec_dest(p[m as int]) == Some(s));
                    assert(!same_side(m as int, w as int, r));
                    if x != m {
                        assert(!same_side(x as int, m as int, r));
                    }
                    assert(kept_in(p, r, t, x as int, c2)) by {
                        assert(c2.contains(x));
                        if exists|y: usize| c2.contains(y) && x < y && dep_candidate(p, r, t, y as int) && same_side(x as int, y as int, r) {
                            let y = choose|y: usize| c2.contains(y) && x < y && dep_candidate(p, r, t, y as int) && same_side(x as int, y as int, r);
                            if y != w {
                                assert(cur.contains(y));
                            }
                        }
                    }
                }
                if kept_in(p, r, t, x as int, c2) {
                    assert(cur.contains(x));
                    if exists|y: usize| cur.contains(y) && x < y && dep_candidate(p, r, t, y as int) && same_side(x as int, y as int, r) {
                        let y = choose|y: usize| cur.contains(y) && x < y && dep_candidate(p, r, t, y as int) && same_side(x as int, y as int, r);
                        assert(c2.contains(y));
                    }
                }
            }
        }
    }
    // no duplicates
    if popped {
        let lp = l.drop_last();
        assert forall|i: int, j: int| 0 <= i < j < l2.len() implies l2[i] != l2[j] by {
            if j == l2.len() - 1 {
                assert(lp.contains(lp[i]));
                assert(l.contains(l[i]));
            } else {
                assert(l[i] == l2[i] && l[j] == l2[j]);
            }
        }
    } else {
        assert forall|i: int, j: int| 0 <= i < j < l2.len() implies l2[i] != l2[j] by {
            if j == l2.len() - 1 {
                assert(l.contains(l[i]));
            } else {
                assert(l[i] == l2[i] && l[j] == l2[j]);
            }
        }
    }
    assert forall|i: int| 0 <= i < l2.len() implies #[trigger] l2[i] < p.len() by {
        if i < l2.len() - 1 {
            assert(l2[i] == l[i]);
        }
    }
    assert forall|y: usize| #[trigger] c2.contains(y) && dep_candidate(p, r, t, y as int)
        implies l2.len() > 0 && y <= l2.last() && c2.contains(l2.last()) && dep_candidate(p, r, t, l2.last() as int) by {
        if y != w {
            assert(cur.contains(y));
        }
    }
    assert(c2.contains(w));
    assert(l2.no_duplicates());
    assert(forall|i: int| 0 <= i < l2.len() ==> #[trigger] l2[i] < p.len());
    assert(k < srcs.len() ==> ((forall|y: usize| #[trigger] c2.contains(y) ==> !dep_candidate(p, r, t, y as int))
        ==> (l2.len() == 0 || spec_dest(p[l2.last() as int]) != Some(srcs[k]))));
}

/// The dependency list of reader `r`.
fn dependency_list_for(
    program: &Vec<Instruction>,
    writers: &Vec<Vec<usize>>,
    modified: &Vec<bool>,
    loop_start: usize,
    loop_end: usize,
    r: usize,
) -> (res: DependencyList)
    requires
        r < program.len(),
        writers_inv(program@, writers@, program.len() as int),
        modified@.len() == 256,
        forall|s: int| 0 <= s < 256 ==> #[trigger] modified@[s] == modified_in_loop(program@, s as u8),
        loop_start as int == loop_bounds(program@).0,
        loop_end as int == loop_bounds(program@).1,
    ensures
        is_dependency_list_of(program@, r as int, res@),
{
    let ghost p = program@;
    let srcs = program[r].sources();
    proof { lemma_sources_distinct(program@[r as int]); }
    let mut dl = DependencyList::new();
    let mut k: usize = 0;
    proof {
        assert forall|ti: int| 0 <= ti < 4 implies list_inv(p, r as int, dep_at(ti), #[trigger] dl@[ti], srcs@, 0, seq![]) by {
            assert forall|x: usize| !(#[trigger] dl@[ti].contains(x)) by {}
        }
    }
    while k < srcs.len()
        invariant
            p == program@,
            k <= srcs.len(),
            srcs@ == spec_sources(p[r as int]),
            srcs@.no_duplicates(),
            r < p.len(),
            writers_inv(p, writers@, p.len() as int),
            modified@.len() == 256,
            forall|s: int| 0 <= s < 256 ==> #[trigger] modified@[s] == modified_in_loop(p, s as u8),
            loop_start as int == loop_bounds(p).0,
            loop_end as int == loop_bounds(p).1,
            forall|ti: int| 0 <= ti < 4 ==> list_inv(p, r as int, dep_at(ti), #[trigger] dl@[ti], srcs@, k as int, seq![]),
        decreases srcs.len() - k,
    {
        let src = srcs[k];
        let flag = modified[src as usize];
        let ws = &writers[src as usize];
        let ghost s = src;
        let mut j: usize = 0;
        proof {
            assert(srcs@.contains(src));
            assert(ws@.take(0) =~= seq![]);
        }
        while j < ws.len()
            invariant
                p == program@,
                k < srcs.len(),
                src == srcs@[k as int],
                srcs@ == spec_sources(p[r as int]),
                srcs@.no_duplicates(),
                r < p.len(),
                j <= ws@.len(),
                ws@ == writers@[src as int]@,
                writers_inv(p, writers@, p.len() as int),
                flag == modified_in_loop(p, src),
                loop_start as int == loop_bounds(p).0,
                loop_end as int == loop_bounds(p).1,
                forall|ti: int| 0 <= ti < 4 ==> list_inv(p, r as int, dep_at(ti), #[trigger] dl@[ti], srcs@, k as int, ws@.take(j as int)),
            decreases ws.len() - j,
        {
            let w = ws[j];
            let ghost cur = ws@.take(j as int);
            proof {
                assert(writes_reg(p, w as int, src));
                assert forall|i: int| 0 <= i < cur.len() implies #[trigger] cur[i] < w by {
                    assert(cur[i] == ws@[i]);
                }
                assert(cur_inv(p, src, cur)) by {
                    assert forall|i: int| 0 <= i < cur.len() implies writes_reg(p, #[trigger] cur[i] as int, src) by {
                        assert(cur[i] == ws@[i]);
                    }
                }
                assert(ws@.take(j + 1) =~= cur.push(w));
                assert(spec_sources(p[r as int]).contains(src));
            }
            let dt = get_dependency_type(w, r, loop_start, loop_end, flag);
            let ghost old_dl = dl@;
            match dt {
                Some(t) => {
                    let mut popped = false;
                    let l = dl.iter(t);
                    if l.len() > 0 {
                        let last = l[l.len() - 1];
                        if program[last].dest() == program[w].dest()
                            && ((last < r && w < r) || (last >= r && w >= r)) {
                            popped = true;
                        }
                    }
                    if popped {
                        dl.pop(t);
                    }
                    dl.push(t, w);
                    proof {
                        assert forall|ti: int| 0 <= ti < 4 implies list_inv(p, r as int, dep_at(ti), #[trigger] dl@[ti], srcs@, k as int, ws@.take(j + 1)) by {
                            if ti == dep_index(t) {
                                assert(dep_at(ti) == t);
                                lemma_step_same(p, r as int, t, old_dl[ti], srcs@, k as int, cur, w, popped);
                                if popped {
                                    assert(dl@[ti] =~= old_dl[ti].drop_last().push(w));
                                } else {
                                    assert(dl@[ti] =~= old_dl[ti].push(w));
                                }
                            } else {
                                assert(dl@[ti] == old_dl[ti]);
                                lemma_step_other(p, r as int, dep_at(ti), old_dl[ti], srcs@, k as int, cur, w);
                            }
                        }
                    }
                },
                None => {
                    proof {
                        assert forall|ti: int| 0 <= ti < 4 implies list_inv(p, r as int, dep_at(ti), #[trigger] dl@[ti], srcs@, k as int, ws@.take(j + 1)) by {
                            lemma_step_other(p, r as int, dep_at(ti), old_dl[ti], srcs@, k as int, cur, w);
                        }
                    }
                },
            }
            j = j + 1;
        }
        proof {
            assert(ws@.take(j as int) =~= ws@);
            assert forall|ti: int| 0 <= ti < 4 implies list_inv(p, r as int, dep_at(ti), #[trigger] dl@[ti], srcs@, k + 1, seq![]) by {
                let t = dep_at(ti);
                let l = dl@[ti];
                assert forall|x: usize| #[trigger] l.contains(x) <==> (dest_among(p, x as int, srcs@, k + 1) && dep_kept(p, r as int, t, x as int)) by {
                    if spec_dest(p[x as int]) == Some(src) && x < p.len() {
                        assert(writes_reg(p, x as int, src));
                        assert(ws@.contains(x));
                        if dep_kept(p, r as int, t, x as int) {
                            if exists|y: usize| ws@.contains(y) && x < y && dep_candidate(p, r as int, t, y as int) && same_side(x as int, y as int, r as int) {
                                let y = choose|y: usize| ws@.contains(y) && x < y && dep_candidate(p, r as int, t, y as int) && same_side(x as int, y as int, r as int);
                                let i = choose|i: int| 0 <= i < ws@.len() && ws@[i] == y;
                                assert(writes_reg(p, ws@[i] as int, src as u8));
                                assert(dep_candidate(p, r as int, t, y as int) && spec_dest(p[y as int]) == spec_dest(p[x as int]));
                            }
                        }
                        if kept_in(p, r as int, t, x as int, ws@) {
                            if exists|y: int| x < y && dep_candidate(p, r as int, t, y) && spec_dest(p[y]) == spec_dest(p[x as int]) && same_side(x as int, y, r as int) {
                                let y = choose|y: int| x < y && dep_candidate(p, r as int, t, y) && spec_dest(p[y]) == spec_dest(p[x as int]) && same_side(x as int, y, r as int);
                                assert(writes_reg(p, y, src));
                                assert(ws@.contains(y as usize));
                            }
                        }
                        assert(dest_among(p, x as int, srcs@, k + 1) ==> (dest_among(p, x as int, srcs@, k as int) || spec_dest(p[x as int]) == Some(src)));
                        if dest_among(p, x as int, srcs@, k as int) {
                            let kk = choose|kk: int| 0 <= kk < k && spec_dest(p[x as int]) == Some(#[trigger] srcs@[kk]);
                            assert(srcs@[kk] == srcs@[k as int]);
                        }
                        assert(dest_among(p, x as int, srcs@, k + 1)) by {
                            assert(spec_dest(p[x as int]) == Some(srcs@[k as int]));
                        }
                    } else {
                        if dest_among(p, x as int, srcs@, k + 1) && x < p.len() {
                            let kk = choose|kk: int| 0 <= kk < k + 1 && spec_dest(p[x as int]) == Some(#[trigger] srcs@[kk]);
                            assert(kk < k);
                        }
                        if dest_among(p, x as int, srcs@, k as int) {
                            let kk = choose|kk: int| 0 <= kk < k && spec_dest(p[x as int]) == Some(#[trigger] srcs@[kk]);
                            assert(dest_among(p, x as int, srcs@, k + 1));
                        }
                        if l.contains(x) {
                            let i = choose|i: int| 0 <= i < l.len() && l[i] == x;
                            assert(l[i] < p.len());
                        }
                        if dep_kept(p, r as int, t, x as int) {
                            assert(x < p.len());
                        }
                    }
                }
                if k + 1 < srcs.len() && l.len() > 0 {
                    let m = l.last();
                    assert(l.contains(m));
                    let kk = choose|kk: int| 0 <= kk < k + 1 && spec_dest(p[m as int]) == Some(#[trigger] srcs@[kk]);
                    assert(srcs@[kk] != srcs@[k + 1]);
                }
            }
        }
        k = k + 1;
    }
    proof {
        assert forall|ti: int, x: usize| 0 <= ti < 4 implies
            (#[trigger] dl@[ti].contains(x) <==> dep_kept(p, r as int, dep_at(ti), x as int)) by {
            if dep_kept(p, r as int, dep_at(ti), x as int) {
                let s = spec_dest(p[x as int])->0;
                let kk = choose|kk: int| 0 <= kk < srcs@.len() && srcs@[kk] == s;
                assert(dest_among(p, x as int, srcs@, k as int));
            }
        }
    }
    let ghost before = dl@;
    dl.sort();
    proof {
        assert forall|ti: int| 0 <= ti < 4 implies strictly_increasing(#[trigger] dl@[ti])
            && (forall|x: usize| dl@[ti].contains(x) <==> before[ti].contains(x)) by {
            assert(list_inv(p, r as int, dep_at(ti), before[ti], srcs@, k as int, seq![]));
            lemma_sorted_distinct(before[ti], dl@[ti]);
        }
        assert forall|ti: int, x: usize| 0 <= ti < 4 implies
            (#[trigger] dl@[ti].contains(x) <==> dep_kept(p, r as int, dep_at(ti), x as int)) by {
            assert(dl@[ti].contains(x) <==> before[ti].contains(x));
        }
    }
    dl
}


/// The dependency table of a program: for each instruction, the producers of
/// its operands, per kind, in increasing order.
pub fn get_dependency_table(program: &Vec<Instruction>) -> (table: Vec<DependencyList>)
    ensures
        is_dependency_table(program@, table@),
{
    let ghost p = program@;
    let mut writers: Vec<Vec<usize>> = Vec::new();
    let mut s: usize = 0;
    while s < 256
        invariant
            s <= 256,
            writers@.len() == s,
            forall|i: int| 0 <= i < s ==> (#[trigger] writers@[i])@.len() == 0,
        decreases 256 - s,
    {
        writers.push(Vec::new());
        s = s + 1;
    }
    let mut loop_start = program.len();
    let mut loop_end = program.len();
    let mut index: usize = 0;
    while index < program.len()
        invariant
            p == program@,
            index <= p.len(),
            writers_inv(p, writers@, index as int),
            last_loop_before(p, index as int) < 0 ==> loop_start == p.len() && loop_end == p.len(),
            last_loop_before(p, index as int) >= 0 ==> loop_start == loop_target(p[last_loop_before(p, index as int)])
                && loop_end == last_loop_before(p, index as int),
        decreases p.len() - index,
    {
        match program[index] {
            Instruction::Loop(imm) | Instruction::LoopPip(imm) => {
                loop_start = imm;
                loop_end = index;
            },
            _ => {},
        }
        match program[index].dest() {
            Some(d) => {
                let ghost old_ws = writers@;
                writers[d as usize].push(index);
                proof {
                    assert forall|s: int| 0 <= s < 256 implies strictly_increasing(#[trigger] writers@[s]@) by {
                        if s != d as int {
                            assert(writers@[s] == old_ws[s]);
                        }
                    }
                    assert forall|s: int, i: int| 0 <= s < 256 && 0 <= i < writers@[s]@.len() implies
                        #[trigger] writers@[s]@[i] < index + 1 && writes_reg(p, writers@[s]@[i] as int, s as u8) by {
                        if s != d as int {
                            assert(writers@[s] == old_ws[s]);
                        } else if i < old_ws[s]@.len() {
                            assert(writers@[s]@[i] == old_ws[s]@[i]);
                        }
                    }
                    assert forall|s: int, w: int| 0 <= s < 256 && 0 <= w < index + 1 && #[trigger] writes_reg(p, w, s as u8)
                        implies writers@[s]@.contains(w as usize) by {
                        if s != d as int {
                            assert(writers@[s] == old_ws[s]);
                        } else if w < index {
                            let i = choose|i: int| 0 <= i < old_ws[s]@.len() && old_ws[s]@[i] == w as usize;
                            assert(writers@[s]@[i] == w as usize);
                        } else {
                            assert(writers@[s]@[old_ws[s]@.len() as int] == index);
                        }
                    }
                }
            },
            None => {
                proof {
                    assert forall|s: int, w: int| 0 <= s < 256 && 0 <= w < index + 1 && #[trigger] writes_reg(p, w, s as u8)
                        implies writers@[s]@.contains(w as usize) by {
                        assert(w < index);
                    }
                }
            },
        }
        index = index + 1;
    }
    proof {
        lemma_last_loop_range(p, p.len() as int);
    }
    // registers written inside the loop body
    let mut modified: Vec<bool> = Vec::new();
    let mut s: usize = 0;
    while s < 256
        invariant
            p == program@,
            s <= 256,
            modified@.len() == s,
            writers_inv(p, writers@, p.len() as int),
            loop_start as int == loop_bounds(p).0,
            loop_end as int == loop_bounds(p).1,
            forall|i: int| 0 <= i < s ==> #[trigger] modified@[i] == modified_in_loop(p, i as u8),
        decreases 256 - s,
    {
        let ws = &writers[s];
        let mut found = false;
        let mut j: usize = 0;
        while j < ws.len()
            invariant
                j <= ws@.len(),
                s < 256,
                ws@ == writers@[s as int]@,
                found == exists|i: int| 0 <= i < j && loop_start <= #[trigger] ws@[i] < loop_end,
            decreases ws.len() - j,
        {
            if loop_start <= ws[j] && ws[j] < loop_end {
                found = true;
            }
            j = j + 1;
        }
        proof {
            if found {
                let i = choose|i: int| 0 <= i < j && loop_start <= #[trigger] ws@[i] < loop_end;
                assert(writes_reg(p, ws@[i] as int, s as u8));
            }
            if modified_in_loop(p, s as u8) {
                let w = choose|w: int| loop_bounds(p).0 <= w < loop_bounds(p).1 && #[trigger] writes_reg(p, w, s as u8);
                assert(ws@.contains(w as usize));
            }
        }
        modified.push(found);
        s = s + 1;
    }
    let mut table: Vec<DependencyList> = Vec::new();
    let mut r: usize = 0;
    while r < program.len()
        invariant
            p == program@,
            r <= p.len(),
            table@.len() == r,
            writers_inv(p, writers@, p.len() as int),
            modified@.len() == 256,
            forall|s: int| 0 <= s < 256 ==> #[trigger] modified@[s] == modified_in_loop(p, s as u8),
            loop_start as int == loop_bounds(p).0,
            loop_end as int == loop_bounds(p).1,
            forall|i: int| 0 <= i < r ==> is_dependency_list_of(p, i, #[trigger] table@[i]@),
        decreases p.len() - r,
    {
        let dl = dependency_list_for(program, &writers, &modified, loop_start, loop_end, r);
        table.push(dl);
        r = r + 1;
    }
    table
}

/// The readers that list `w` as a producer: each reader `pc`, in increasing
/// order, once for every kind whose list holds `w`.
pub open spec fn uses_of(t: Seq<DependencyList>, w: usize, pc: int) -> Seq<usize> {
    (if t[pc]@[0].contains(w) { seq![pc as usize] } else { seq![] })
        + (if t[pc]@[1].contains(w) { seq![pc as usize] } else { seq![] })
        + (if t[pc]@[2].contains(w) { seq![pc as usize] } else { seq![] })
        + (if t[pc]@[3].contains(w) { seq![pc as usize] } else { seq![] })
}

/// The uses of `w` by the first `n` readers.
pub open spec fn depended_upon(t: Seq<DependencyList>, w: usize, n: int) -> Seq<usize>
    decreases n,
{
    if n <= 0 {
        seq![]
    } else {
        depended_upon(t, w, n - 1) + uses_of(t, w, n - 1)
    }
}

/// Nobody among the first `n` readers uses `w` exactly when no list of theirs holds it.
pub proof fn lemma_depended_upon_empty(t: Seq<DependencyList>, w: usize, n: int)
    requires
        0 <= n,
    ensures
        depended_upon(t, w, n).len() == 0 <==>
            forall|pc: int, ti: int| 0 <= pc < n && 0 <= ti < 4 ==> !(#[trigger] t[pc]@[ti]).contains(w),
    decreases n,
{
    if n > 0 {
        lemma_depended_upon_empty(t, w, n - 1);
        if depended_upon(t, w, n).len() == 0 {
            assert forall|pc: int, ti: int| 0 <= pc < n && 0 <= ti < 4 implies !(#[trigger] t[pc]@[ti]).contains(w) by {
                if pc == n - 1 {
                    if ti == 0 {} else if ti == 1 {} else if ti == 2 {} else {}
                }
            }
        } else if depended_upon(t, w, n - 1).len() == 0 {
            let pc = n - 1;
            if t[pc]@[0].contains(w) {
                assert(t[pc]@[0].contains(w));
            } else if t[pc]@[1].contains(w) {
                assert(t[pc]@[1].contains(w));
            } else if t[pc]@[2].contains(w) {
                assert(t[pc]@[2].contains(w));
            } else {
                assert(t[pc]@[3].contains(w));
            }
        }
    }
}

fn list_contains(l: &Vec<usize>, x: usize) -> (r: bool)
    ensures
        r == l@.contains(x),
{
    let mut i: usize = 0;
    while i < l.len()
        invariant
            i <= l@.len(),
            forall|j: int| 0 <= j < i ==> l@[j] != x,
        decreases l.len() - i,
    {
        if l[i] == x {
            return true;
        }
        i = i + 1;
    }
    false
}

/// The readers of the value written at `write_pc`, once per kind of use.
pub fn get_depended_upon(
    program: &Vec<Instruction>,
    dep_table: &Vec<DependencyList>,
    write_pc: usize,
) -> (res: Vec<usize>)
    requires
        dep_table.len() >= program.len(),
    ensures
        res@ == depended_upon(dep_table@, write_pc, program.len() as int),
{
    let mut res: Vec<usize> = Vec::new();
    let mut pc: usize = 0;
    while pc < program.len()
        invariant
            pc <= program.len(),
            dep_table.len() >= program.len(),
            res@ == depended_upon(dep_table@, write_pc, pc as int),
        decreases program.len() - pc,
    {
        let ghost before = res@;
        let deps = Dependency::iter();
        let mut i: usize = 0;
        while i < 4
            invariant
                i <= 4,
                pc < dep_table.len(),
                deps@ == all_dependencies(),
                res@ == before + (if i >= 1 && dep_table@[pc as int]@[0].contains(write_pc) { seq![pc] } else { seq![] })
                    + (if i >= 2 && dep_table@[pc as int]@[1].contains(write_pc) { seq![pc] } else { seq![] })
                    + (if i >= 3 && dep_table@[pc as int]@[2].contains(write_pc) { seq![pc] } else { seq![] })
                    + (if i >= 4 && dep_table@[pc as int]@[3].contains(write_pc) { seq![pc] } else { seq![] }),
            decreases 4 - i,
        {
            let dep_type = deps[i];
            if list_contains(dep_table[pc].iter(dep_type), write_pc) {
                res.push(pc);
            }
            proof {
                assert(dep_index(dep_type) == i);
            }
            i = i + 1;
            assert(res@ =~= before + (if i >= 1 && dep_table@[pc as int]@[0].contains(write_pc) { seq![pc] } else { seq![] })
                    + (if i >= 2 && dep_table@[pc as int]@[1].contains(write_pc) { seq![pc] } else { seq![] })
                    + (if i >= 3 && dep_table@[pc as int]@[2].contains(write_pc) { seq![pc] } else { seq![] })
                    + (if i >= 4 && dep_table@[pc as int]@[3].contains(write_pc) { seq![pc] } else { seq![] }));
        }
        assert(res@ =~= depended_upon(dep_table@, write_pc, pc + 1));
        pc = pc + 1;
    }
    res
}


/// Every writer before a reader reaches it by some kind of dependency,
/// whatever the loop: a value written earlier is never lost.
pub proof fn lemma_earlier_writer_has_kind(writer_pc: int, reader_pc: int, loop_start: int, loop_end: int, flag: bool)
    requires
        writer_pc < reader_pc,
    ensures
        spec_dependency_type(writer_pc, reader_pc, loop_start, loop_end, flag) is Some,
{
}

/// The last writer of the register at or after `w` and before `hi + 1` that
/// is a candidate of kind `k` for reader `r`.
proof fn lemma_last_candidate(p: Seq<Instruction>, r: int, k: Dependency, w: int, hi: int) -> (y: int)
    requires
        0 <= w <= hi < r,
        dep_candidate(p, r, k, w),
        forall|z: int| hi < z < r ==> !(#[trigger] dep_candidate(p, r, k, z) && spec_dest(p[z]) == spec_dest(p[w])),
    ensures
        w <= y <= hi,
        dep_candidate(p, r, k, y),
        spec_dest(p[y]) == spec_dest(p[w]),
        forall|z: int| y < z < r ==> !(#[trigger] dep_candidate(p, r, k, z) && spec_dest(p[z]) == spec_dest(p[w])),
    decreases hi - w,
{
    if hi == w || (dep_candidate(p, r, k, hi) && spec_dest(p[hi]) == spec_dest(p[w])) {
        hi
    } else {
        lemma_last_candidate(p, r, k, w, hi - 1)
    }
}

/// The dependency table is complete: where an instruction reads a register
/// that an earlier instruction writes, the table lists, among the reader's
/// producers of some kind, an earlier instruction that writes that register.
pub proof fn lemma_table_complete(p: Seq<Instruction>, t: Seq<DependencyList>, r: int, w: int)
    requires
        is_dependency_table(p, t),
        0 <= w < r < p.len(),
        p.len() <= usize::MAX,
        spec_dest(p[w]) is Some,
        spec_sources(p[r]).contains(spec_dest(p[w])->0),
    ensures
        exists|k: int, i: int| 0 <= k < 4 && 0 <= i < t[r]@[k].len() && #[trigger] t[r]@[k][i] < r
            && spec_dest(p[t[r]@[k][i] as int]) == spec_dest(p[w]),
{
    let reg = spec_dest(p[w])->0;
    let ls = loop_bounds(p).0;
    let le = loop_bounds(p).1;
    let flag = modified_in_loop(p, reg);
    lemma_earlier_writer_has_kind(w, r, ls, le, flag);
    let kind = spec_dependency_type(w, r, ls, le, flag)->0;
    assert(dep_candidate(p, r, kind, w));
    let y = lemma_last_candidate(p, r, kind, w, r - 1);
    assert(dep_kept(p, r, kind, y)) by {
        if exists|z: int| #![trigger dep_candidate(p, r, kind, z)]
            y < z && dep_candidate(p, r, kind, z) && spec_dest(p[z]) == spec_dest(p[y]) && same_side(y, z, r) {
            let z = choose|z: int| #![trigger dep_candidate(p, r, kind, z)]
                y < z && dep_candidate(p, r, kind, z) && spec_dest(p[z]) == spec_dest(p[y]) && same_side(y, z, r);
            assert(z < r);
        }
    }
    let ki = dep_index(kind);
    assert(dep_at(ki) == kind);
    assert(is_dependency_list_of(p, r, t[r]@));
    let yu = y as usize;
    assert(yu as int == y);
    assert(dep_kept(p, r, dep_at(ki), yu as int));
    assert(t[r]@[ki].contains(yu));
    let i = choose|i: int| 0 <= i < t[r]@[ki].len() && t[r]@[ki][i] == yu;
    assert(0 <= ki < 4 && 0 <= i < t[r]@[ki].len() && t[r]@[ki][i] < r
        && spec_dest(p[t[r]@[ki][i] as int]) == spec_dest(p[w]));
}

} // verus!
