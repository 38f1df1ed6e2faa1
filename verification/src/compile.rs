//! The whole tool on a parsed program: the non-pipelined schedule, or, when
//! asked for and the program has a loop, the software-pipelined one, written
//! as a listing.
use vstd::prelude::*;
use crate::instruction::{Instruction, VLIW, PredicatedInstruction, same_form, spec_dest};
use crate::dependency::{DependencyList, get_dependency_table, is_dependency_table, loop_bounds, loop_target, last_loop_before, lemma_last_loop_range};
use crate::scheduler::{
    get_vliw_schedule, vliw_loop_ok, vliw_bounds, is_asap_schedule, bundle_count, all_placed,
    loop_bundle, bundles_fit, reads_follow_producers, dests_numbered, branches_placed,
    only_moves_added, reads_after_moves, vliw_moves_ok, regions_ok, plain_loop_regions, regions_fit, lemma_regions_same, carried_twice, has_carried_pair, lemma_last_plain,
};
use crate::pip_scheduler::{find_loop_bounds, loop_pip_schedule, pip_input_ok, pip_result_ok, pip_size_ok, pip_outcome};
use crate::pip_reg_alloc::{
    register_realloc, prepare_loop, prepared, forms_from, loop_dests_rotate, realloc_trace,
    lemma_pipelined_layout_respects_regions,
};
use crate::listing::{schedule_text, pipelined_text, schedule_listing, pipelined_listing};

verus! {

/// The program has a (non-pipelined) loop instruction.
pub open spec fn has_plain_loop(p: Seq<Instruction>) -> bool {
    exists|j: int| 0 <= j < p.len() && #[trigger] p[j] is Loop
}

/// Whether the tool pipelines the program: it was asked to, and the program
/// has a loop.
pub open spec fn takes_pipeline(p: Seq<Instruction>, pipelined: bool) -> bool {
    pipelined && has_plain_loop(p)
}

/// `bundles` is the non-pipelined schedule of `p` with the dependency table
/// `table`, as the scheduler produces it: the ASAP schedule laid out in
/// bundles, each write given a register numbered in order, each read
/// renamed to its producer's register, and the loop branch, jumping to the
/// bundle of the loop body's first instruction, at the end of the loop;
/// nothing is added but the moves of registers carried around the loop,
/// and the code after the loop reads through those moves.
pub open spec fn vliw_schedule_with(p: Seq<Instruction>, table: Seq<DependencyList>, bundles: Seq<VLIW>) -> bool {
    &&& is_dependency_table(p, table)
    &&& bundles_fit(bundles)
    &&& exists|s: Seq<usize>| {
        &&& is_asap_schedule(p, table, vliw_bounds(p).0, vliw_bounds(p).1, s)
        &&& bundle_count(s) <= bundles.len()
        &&& all_placed(p, s, bundles, loop_bundle(p, s), bundles.len() - bundle_count(s))
        &&& reads_follow_producers(p, table, s, bundles, loop_bundle(p, s), bundles.len() - bundle_count(s))
        &&& dests_numbered(p, s, bundles, loop_bundle(p, s), bundles.len() - bundle_count(s))
        &&& branches_placed(p, s, bundles, loop_bundle(p, s), bundles.len() - bundle_count(s))
        &&& only_moves_added(p, table, s, bundles, loop_bundle(p, s), bundles.len() - bundle_count(s))
        &&& reads_after_moves(p, table, s, bundles, loop_bundle(p, s), bundles.len() - bundle_count(s))
    }
}

/// `bundles` is a non-pipelined schedule of `p`.
pub open spec fn vliw_schedule_of(p: Seq<Instruction>, bundles: Seq<VLIW>) -> bool {
    exists|table: Seq<DependencyList>| #[trigger] vliw_schedule_with(p, table, bundles)
}

/// `rows` is the final program made from the pipelined layout `bundles0` of
/// `p` (with its map, last bundles and interval), after register allocation
/// gave `bundles1`: allocation changed registers only, and each destination in
/// the loop body took the rotating register of its slot.
pub open spec fn pipelined_from(
    p: Seq<Instruction>,
    bundles0: Seq<[Instruction; 5]>,
    map: Seq<(usize, usize)>,
    b0: int,
    b1: int,
    b2: int,
    ii: int,
    bundles1: Seq<[Instruction; 5]>,
    rows: Seq<[PredicatedInstruction; 5]>,
) -> bool {
    &&& pip_result_ok(p, bundles0, map, b0, b1, b2, ii)
    &&& realloc_done(p, bundles0, map, b0, b1, b2, ii, bundles1, true)
    &&& forms_from(bundles0, bundles1)
    &&& loop_bounds(p).0 < p.len() ==> {
        &&& loop_dests_rotate(bundles0, bundles1, b0 + 1, b1, (((b1 - b0) / ii) as u8) as int)
        &&& forall|b: int, k: int| b0 < b <= b1 && 0 <= k < 5 ==> same_form(#[trigger] bundles0[b]@[k], bundles1[b]@[k])
    }
    &&& rows.len() == prepared(bundles1, ii, b0, b1).len()
    &&& forall|b: int| 0 <= b < rows.len() ==> (#[trigger] rows[b])@ == prepared(bundles1, ii, b0, b1)[b]
}

/// Register allocation on the pipelined layout `bundles0` of `p` gives
/// `bundles1` with outcome `ok`.
pub open spec fn realloc_done(p: Seq<Instruction>, bundles0: Seq<[Instruction; 5]>, map: Seq<(usize, usize)>,
    b0: int, b1: int, b2: int, ii: int, bundles1: Seq<[Instruction; 5]>, ok: bool) -> bool {
    exists|t: Seq<DependencyList>, s: Seq<Seq<[Instruction; 5]>>, n: Seq<u8>, u: Seq<Seq<u8>>, g: Seq<bool>|
        is_dependency_table(p, t) && #[trigger] realloc_trace(p, t, map, bundles0, b0, b1, b2, ii, s, n, u, g, bundles1, ok)
}

/// The final program can be made from the allocated schedule `bundles1`:
/// the loop has a body of at least one stage before it and room left in
/// `usize` for its predicated rows.
pub open spec fn foldable(bundles1: Seq<[Instruction; 5]>, b0: int, b1: int, ii: int) -> bool {
    b0 < b1 && b1 < bundles1.len() && bundles1.len() < usize::MAX / 2 && ii > 0 && (b1 - b0) / ii >= 1
}

/// The pipelined path refuses `p`: pipelining finds no layout, or on the
/// layout it finds register allocation fails or leaves a schedule that
/// cannot be folded.
pub open spec fn pipeline_refused(p: Seq<Instruction>) -> bool {
    ||| exists|t: Seq<DependencyList>| #[trigger] is_dependency_table(p, t) && pip_outcome(p, t, false)
    ||| exists|bundles0: Seq<[Instruction; 5]>, map: Seq<(usize, usize)>, b0: int, b1: int, b2: int, ii: int, bundles1: Seq<[Instruction; 5]>|
        #[trigger] layout_refused(p, bundles0, map, b0, b1, b2, ii, bundles1)
}

/// On the pipelined layout `bundles0` of `p`, register allocation fails, or
/// gives `bundles1` that cannot be folded.
pub open spec fn layout_refused(p: Seq<Instruction>, bundles0: Seq<[Instruction; 5]>, map: Seq<(usize, usize)>,
    b0: int, b1: int, b2: int, ii: int, bundles1: Seq<[Instruction; 5]>) -> bool {
    &&& pip_result_ok(p, bundles0, map, b0, b1, b2, ii)
    &&& (realloc_done(p, bundles0, map, b0, b1, b2, ii, bundles1, false)
        || (realloc_done(p, bundles0, map, b0, b1, b2, ii, bundles1, true) && !foldable(bundles1, b0, b1, ii)))
}

/// `rows` is a software-pipelined program made from `p`.
pub open spec fn pipelined_program_of(p: Seq<Instruction>, rows: Seq<[PredicatedInstruction; 5]>) -> bool {
    exists|bundles0: Seq<[Instruction; 5]>, map: Seq<(usize, usize)>, b0: int, b1: int, b2: int, ii: int, bundles1: Seq<[Instruction; 5]>|
        #[trigger] pipelined_from(p, bundles0, map, b0, b1, b2, ii, bundles1, rows)
}

/// The program suits the non-pipelined scheduler: its last `loop` jumps no
/// further than the instruction after it (`vliw_loop_ok`), its dependency
/// table keeps each region's producers inside the region (`regions_ok`), and
/// without a `loop`, no register is carried around a `loop.pip` by two
/// producers.
pub open spec fn vliw_input_ok(p: Seq<Instruction>) -> bool {
    &&& vliw_loop_ok(p)
    &&& forall|t: Seq<DependencyList>| #[trigger] is_dependency_table(p, t) ==>
        regions_ok(p, t, vliw_bounds(p).0, vliw_bounds(p).1) && vliw_moves_ok(p, t)
}

/// Two dependency tables of one program agree on whether a register is
/// carried by two producers.
proof fn lemma_carried_twice_unique(p: Seq<Instruction>, t1: Seq<DependencyList>, t2: Seq<DependencyList>)
    requires
        is_dependency_table(p, t1),
        is_dependency_table(p, t2),
    ensures
        carried_twice(p, t1) == carried_twice(p, t2),
{
    crate::dependency::lemma_dependency_table_unique(p, t1, t2);
    reveal(carried_twice);
    if carried_twice(p, t1) {
        let (a, b, c) = choose|a: int, b: int, c: int| 0 <= a < p.len() && 0 <= b < c < t1[a]@[1].len()
            && #[trigger] spec_dest(p[t1[a]@[1][b] as int]) == #[trigger] spec_dest(p[t1[a]@[1][c] as int]);
        assert(t1[a]@ == t2[a]@);
        assert(spec_dest(p[t2[a]@[1][b] as int]) == spec_dest(p[t2[a]@[1][c] as int]));
    }
    if carried_twice(p, t2) {
        let (a, b, c) = choose|a: int, b: int, c: int| 0 <= a < p.len() && 0 <= b < c < t2[a]@[1].len()
            && #[trigger] spec_dest(p[t2[a]@[1][b] as int]) == #[trigger] spec_dest(p[t2[a]@[1][c] as int]);
        assert(t1[a]@ == t2[a]@);
        assert(spec_dest(p[t1[a]@[1][b] as int]) == spec_dest(p[t1[a]@[1][c] as int]));
    }
}

/// Whether the program has a (non-pipelined) loop instruction.
pub fn has_loop(program: &Vec<Instruction>) -> (r: bool)
    ensures
        r == has_plain_loop(program@),
{
    let mut i: usize = 0;
    while i < program.len()
        invariant
            i <= program@.len(),
            forall|j: int| 0 <= j < i ==> !(#[trigger] program@[j] is Loop),
        decreases program.len() - i,
    {
        match program[i] {
            Instruction::Loop(_) => {
                return true;
            },
            _ => {},
        }
        i = i + 1;
    }
    false
}

fn pip_ok(program: &Vec<Instruction>) -> (r: bool)
    ensures
        r == pip_input_ok(program@),
{
    let (loop_start, loop_end) = find_loop_bounds(program);
    1 <= loop_start && loop_start <= program.len() && (loop_start == program.len() || loop_start <= loop_end)
}

fn pip_size_fits(n: usize) -> (r: bool)
    ensures
        r == pip_size_ok(n as int),
{
    if n > usize::MAX / 8 {
        proof {
            let x = n as int;
            assert(3 * x * x + 16 * x + 16 > usize::MAX) by (nonlinear_arith)
                requires
                    x > usize::MAX / 8,
                    usize::MAX >= 0xffff_ffff,
            ;
        }
        return false;
    }
    let k = 3 * n + 16;
    let bound = (usize::MAX - 16) / k;
    proof {
        let x = n as int;
        let kk = k as int;
        let big = (usize::MAX - 16) as int;
        vstd::arithmetic::div_mod::lemma_fundamental_div_mod(big, kk);
        vstd::arithmetic::div_mod::lemma_mod_pos_bound(big, kk);
        assert((x <= big / kk) <==> (x * kk <= big)) by (nonlinear_arith)
            requires
                kk > 0,
                x >= 0,
                big == kk * (big / kk) + big % kk,
                0 <= big % kk < kk,
        ;
        assert(x * kk == 3 * x * x + 16 * x) by (nonlinear_arith)
            requires kk == 3 * x + 16;
    }
    n <= bound
}

/// Schedules the program and writes its listing: the non-pipelined schedule,
/// unless `pipelined` is set and the program has a loop, in which case the
/// loop is software-pipelined, its registers allocated and its stages
/// predicated. `None` where the program does not suit the scheduler chosen
/// (for the non-pipelined one: exactly where `vliw_input_ok` fails: the last
/// `loop` jumps past the instruction after it or to the end of the program,
/// a local producer lies outside its reader's region, or, with a `loop.pip`
/// and no `loop`, a register is carried around the loop by two producers),
/// where pipelining or register allocation fails, or where the program is so
/// long that its bundle numbers might not fit a `usize`.
pub fn compile(program: &Vec<Instruction>, pipelined: bool) -> (r: Option<String>)
    ensures
        !takes_pipeline(program@, pipelined) ==>
            (r is Some <==> vliw_input_ok(program@) && program@.len() <= usize::MAX / 64),
        !takes_pipeline(program@, pipelined) ==> (r matches Some(t) ==>
            exists|bundles: Seq<VLIW>| #[trigger] vliw_schedule_of(program@, bundles) && t@ == schedule_listing(bundles)),
        takes_pipeline(program@, pipelined) && !(pip_input_ok(program@) && pip_size_ok(program@.len() as int)) ==> r is None,
        takes_pipeline(program@, pipelined) && pip_input_ok(program@) && pip_size_ok(program@.len() as int) ==>
            (r is None ==> pipeline_refused(program@)),
        takes_pipeline(program@, pipelined) ==> (r matches Some(t) ==>
            exists|rows: Seq<[PredicatedInstruction; 5]>| #[trigger] pipelined_program_of(program@, rows) && t@ == pipelined_listing(rows)),
{
    let ghost p = program@;
    let looped = has_loop(program);
    if !pipelined || !looped {
        let bounds = match plain_loop_regions(program) {
            Some(b) => b,
            None => {
                return None;
            },
        };
        if program.len() > usize::MAX / 64 {
            return None;
        }
        let dependency_table = get_dependency_table(program);
        proof {
            assert forall|t: Seq<DependencyList>| #[trigger] is_dependency_table(p, t) implies
                regions_ok(p, t, bounds.0 as int, bounds.1 as int) == regions_ok(p, dependency_table@, bounds.0 as int, bounds.1 as int) by {
                if regions_ok(p, t, bounds.0 as int, bounds.1 as int) {
                    lemma_regions_same(p, t, dependency_table@, bounds.0 as int, bounds.1 as int);
                }
                if regions_ok(p, dependency_table@, bounds.0 as int, bounds.1 as int) {
                    lemma_regions_same(p, dependency_table@, t, bounds.0 as int, bounds.1 as int);
                }
            }
        }
        if !regions_fit(program, &dependency_table, bounds.0, bounds.1) {
            return None;
        }
        proof {
            lemma_last_plain(p, p.len() as int);
            assert forall|t: Seq<DependencyList>| #[trigger] is_dependency_table(p, t) implies
                carried_twice(p, t) == carried_twice(p, dependency_table@) by {
                lemma_carried_twice_unique(p, t, dependency_table@);
            }
        }
        if !looped && has_carried_pair(program, &dependency_table) {
            proof {
                assert(!vliw_moves_ok(p, dependency_table@));
            }
            return None;
        }
        let bundles = get_vliw_schedule(program, &dependency_table);
        let text = schedule_text(&bundles);
        proof {
            assert(vliw_schedule_with(p, dependency_table@, bundles@));
            assert(vliw_schedule_of(p, bundles@));
        }
        return Some(text);
    }
    if !pip_ok(program) || !pip_size_fits(program.len()) {
        return None;
    }
    let copy = program.clone();
    proof {
        assert(copy@ =~= p);
    }
    let (mut final_schedule, placement_map, b0, b1, b2, ii) = match loop_pip_schedule(copy) {
        Some(res) => res,
        None => {
            return None;
        },
    };
    let ghost bundles0 = final_schedule@;
    let ghost map = placement_map@;
    proof {
        if loop_bounds(p).0 < p.len() {
            lemma_pipelined_layout_respects_regions(p, bundles0, map, b0 as int, b1 as int, b2 as int, ii as int);
        }
    }
    if !register_realloc(program, placement_map, &mut final_schedule, b0, b1, b2, ii) {
        proof {
            assert(realloc_done(p, bundles0, map, b0 as int, b1 as int, b2 as int, ii as int, final_schedule@, false));
            assert(pip_result_ok(p, bundles0, map, b0 as int, b1 as int, b2 as int, ii as int));
            assert(layout_refused(p, bundles0, map, b0 as int, b1 as int, b2 as int, ii as int, final_schedule@));
        }
        return None;
    }
    proof {
        assert(realloc_done(p, bundles0, map, b0 as int, b1 as int, b2 as int, ii as int, final_schedule@, true));
    }
    if !(b0 < b1 && b1 < final_schedule.len() && final_schedule.len() < usize::MAX / 2 && ii > 0 && (b1 - b0) / ii >= 1) {
        proof {
            assert(!foldable(final_schedule@, b0 as int, b1 as int, ii as int));
            assert(pip_result_ok(p, bundles0, map, b0 as int, b1 as int, b2 as int, ii as int));
            assert(layout_refused(p, bundles0, map, b0 as int, b1 as int, b2 as int, ii as int, final_schedule@));
        }
        return None;
    }
    let rows = prepare_loop(&final_schedule, ii, b0, b1);
    let text = pipelined_text(&rows);
    proof {
        assert(pipelined_from(p, bundles0, map, b0 as int, b1 as int, b2 as int, ii as int, final_schedule@, rows@));
        assert(pipelined_program_of(p, rows@));
    }
    Some(text)
}

} // verus!
