use vstd::prelude::*;

use crate::problem::Problem;
use crate::solution::{run_end, run_start, SolView, Solution};

verus! {

/// A gap of at least `LEGIONELLA_DAYS` days leaves water standing long
/// enough to count as a health risk.
pub const LEGIONELLA_DAYS: usize = 21;

/// Day `d` opens a maximal vacant run.
pub open spec fn is_run_start(t: Seq<Option<usize>>, d: int) -> bool {
    &&& 0 <= d < t.len()
    &&& t[d] is None
    &&& (d == 0 || t[d - 1] is Some)
}

/// How many whole 7-day cycles a run of `len` days starting on day `day`
/// contains beyond its first partial segment, against a cycle whose start
/// day falls `phase` days before schedule day 0.
pub open spec fn full_weeks(day: int, len: int, phase: int) -> int {
    let pos = (day + phase) % 7;
    let lead = (7 - pos) % 7;
    if len >= lead {
        (len - lead) / 7
    } else {
        0
    }
}

/// Number of maximal vacant runs beginning at or after day `d`.
pub open spec fn gaps_from(t: Seq<Option<usize>>, d: int) -> int
    decreases t.len() - d,
{
    if d < 0 || d >= t.len() {
        0
    } else {
        (if is_run_start(t, d) {
            1int
        } else {
            0int
        }) + gaps_from(t, d + 1)
    }
}

/// Number of maximal vacant runs of length at least `LEGIONELLA_DAYS`
/// beginning at or after day `d`.
pub open spec fn legionella_from(t: Seq<Option<usize>>, d: int) -> int
    decreases t.len() - d,
{
    if d < 0 || d >= t.len() {
        0
    } else {
        (if is_run_start(t, d) && run_end(t, d) - d >= LEGIONELLA_DAYS {
            1int
        } else {
            0int
        }) + legionella_from(t, d + 1)
    }
}

/// Total count of whole weekly cycles inside maximal vacant runs beginning
/// at or after day `d`.
pub open spec fn weekly_from(t: Seq<Option<usize>>, phase: int, d: int) -> int
    decreases t.len() - d,
{
    if d < 0 || d >= t.len() {
        0
    } else {
        (if is_run_start(t, d) {
            full_weeks(d, run_end(t, d) - d, phase)
        } else {
            0int
        }) + weekly_from(t, phase, d + 1)
    }
}

pub open spec fn row_gaps(t: Seq<Option<usize>>) -> int {
    gaps_from(t, 0)
}

pub open spec fn row_legionella(t: Seq<Option<usize>>) -> int {
    legionella_from(t, 0)
}

pub open spec fn row_weekly(t: Seq<Option<usize>>, phase: int) -> int {
    weekly_from(t, phase, 0)
}

/// Gap counts summed over the first `upto` cottages.
pub open spec fn sol_gaps(v: SolView, upto: int) -> int
    decreases upto,
{
    if upto <= 0 {
        0
    } else {
        sol_gaps(v, upto - 1) + row_gaps(v.row(upto - 1))
    }
}

pub open spec fn sol_legionella(v: SolView, upto: int) -> int
    decreases upto,
{
    if upto <= 0 {
        0
    } else {
        sol_legionella(v, upto - 1) + row_legionella(v.row(upto - 1))
    }
}

pub open spec fn sol_weekly(v: SolView, phase: int, upto: int) -> int
    decreases upto,
{
    if upto <= 0 {
        0
    } else {
        sol_weekly(v, phase, upto - 1) + row_weekly(v.row(upto - 1), phase)
    }
}

/// On an occupied day all three counters pass through unchanged.
pub proof fn lemma_counts_skip(t: Seq<Option<usize>>, phase: int, d: int)
    requires
        0 <= d < t.len(),
        t[d] is Some,
    ensures
        gaps_from(t, d) == gaps_from(t, d + 1),
        legionella_from(t, d) == legionella_from(t, d + 1),
        weekly_from(t, phase, d) == weekly_from(t, phase, d + 1),
{
}

/// Interior days of a vacant run contribute nothing: the counters at any
/// position strictly inside a run equal the counters at its end.
pub proof fn lemma_counts_interior(t: Seq<Option<usize>>, phase: int, i: int, e: int)
    requires
        0 < i <= e <= t.len(),
        forall|k: int| i - 1 <= k < e ==> t[k] is None,
    ensures
        gaps_from(t, i) == gaps_from(t, e),
        legionella_from(t, i) == legionella_from(t, e),
        weekly_from(t, phase, i) == weekly_from(t, phase, e),
    decreases e - i,
{
    if i < e {
        assert(!is_run_start(t, i));
        lemma_counts_interior(t, phase, i + 1, e);
    }
}

/// Jumping from a run start to the end of its run accounts for exactly one
/// gap, one legionella gap if the run is long enough, and the run's whole
/// weekly count.
pub proof fn lemma_counts_jump(t: Seq<Option<usize>>, phase: int, d: int)
    requires
        is_run_start(t, d),
    ensures
        d < run_end(t, d) <= t.len(),
        gaps_from(t, d) == 1 + gaps_from(t, run_end(t, d)),
        legionella_from(t, d) == (if run_end(t, d) - d >= LEGIONELLA_DAYS {
            1int
        } else {
            0int
        }) + legionella_from(t, run_end(t, d)),
        weekly_from(t, phase, d) == full_weeks(d, run_end(t, d) - d, phase) + weekly_from(
            t,
            phase,
            run_end(t, d),
        ),
{
    crate::solution::lemma_run_end_props(t, d);
    let e = run_end(t, d);
    lemma_counts_interior(t, phase, d + 1, e);
}

/// All three counters lie between 0 and the number of days not yet scanned.
pub proof fn lemma_counts_bounds(t: Seq<Option<usize>>, phase: int, d: int)
    requires
        0 <= d <= t.len(),
    ensures
        0 <= gaps_from(t, d) <= t.len() - d,
        0 <= legionella_from(t, d) <= t.len() - d,
        0 <= weekly_from(t, phase, d) <= t.len() - d,
    decreases t.len() - d,
{
    if d < t.len() {
        if is_run_start(t, d) {
            let e = run_end(t, d);
            lemma_counts_jump(t, phase, d);
            lemma_counts_bounds(t, phase, e);
            assert(full_weeks(d, e - d, phase) >= 0);
            assert(full_weeks(d, e - d, phase) <= e - d);
        } else {
            lemma_counts_bounds(t, phase, d + 1);
        }
    }
}

/// The per-cottage sums lie between 0 and the total cell count.
pub proof fn lemma_sol_counts_bounds(v: SolView, phase: int, upto: int)
    requires
        v.dims_ok(),
        0 <= upto <= v.cottages,
    ensures
        0 <= sol_gaps(v, upto) <= upto * v.timeslots,
        0 <= sol_legionella(v, upto) <= upto * v.timeslots,
        0 <= sol_weekly(v, phase, upto) <= upto * v.timeslots,
    decreases upto,
{
    if upto > 0 {
        lemma_sol_counts_bounds(v, phase, upto - 1);
        crate::solution::lemma_row_bounds(upto - 1, v.cottages as int, v.timeslots as int);
        lemma_counts_bounds(v.row(upto - 1), phase, 0);
        assert((upto - 1) * v.timeslots + v.timeslots == upto * v.timeslots) by (nonlinear_arith);
    }
}

/// Scan one cottage's gap row and report its three gap counters: the number
/// of maximal vacant runs, the number of whole weekly cycles they contain
/// beyond their first partial segment, and the number of runs long enough
/// to pose a legionella risk. Each run is visited once: occupied days are
/// skipped one at a time and each run is jumped over using its stored
/// length.
#[verifier::loop_isolation(false)]
pub fn calculate_cottage_gaps2(problem: &Problem, solution: &Solution, cottage: usize) -> (r: (
    usize,
    usize,
    usize,
))
    requires
        solution.wf(),
        cottage < solution.cottages,
        problem.phase < 7,
    ensures
        r.0 == row_gaps(solution@.row(cottage as int)),
        r.1 == row_weekly(solution@.row(cottage as int), problem.phase as int),
        r.2 == row_legionella(solution@.row(cottage as int)),
{
    proof {
        crate::solution::lemma_row_bounds(
            cottage as int,
            solution.cottages as int,
            solution.timeslots as int,
        );
    }
    let ghost t = solution@.row(cottage as int);
    let ghost g = solution.gap_row(cottage as int);
    let phase: usize = problem.phase;
    proof {
        lemma_counts_bounds(t, problem.phase as int, 0);
    }
    let base: usize = cottage * solution.timeslots;
    let tt: usize = solution.timeslots;

    let mut gaps: usize = 0;
    let mut fr_th_gaps: usize = 0;
    let mut legionella_gaps: usize = 0;

    let mut i: usize = 0;
    while i < tt
        invariant
            0 <= i <= tt,
            i == 0 || i == tt || t[i - 1] is Some || t[i as int] is Some,
            gaps == row_gaps(t) - gaps_from(t, i as int),
            fr_th_gaps == row_weekly(t, phase as int) - weekly_from(t, phase as int, i as int),
            legionella_gaps == row_legionella(t) - legionella_from(t, i as int),
            gaps <= tt,
            fr_th_gaps <= tt,
            legionella_gaps <= tt,
        decreases tt - i,
    {
        let gap: usize = solution.gap_timetable[base + i];
        proof {
            assert(g[i as int] == gap);
            assert(g[i as int] == crate::solution::gap_at(t, i as int));
        }
        if gap == 0 {
            proof {
                if t[i as int] is None {
                    crate::solution::lemma_run_block(t, g, i as int);
                }
                lemma_counts_skip(t, phase as int, i as int);
            }
            i += 1;
            continue;
        }

        proof {
            assert(t[i as int] is None);
            assert(is_run_start(t, i as int));
            crate::solution::lemma_run_block(t, g, i as int);
            assert(run_end(t, i as int) == i + gap);
            lemma_counts_jump(t, phase as int, i as int);
            lemma_counts_bounds(t, phase as int, i as int);
            lemma_counts_bounds(t, phase as int, i + gap);
        }

        gaps += 1;

        let phase_day: usize = (i + phase) % 7;
        let inverse_phase_day: usize = (7 - phase_day) % 7;
        if gap >= inverse_phase_day {
            fr_th_gaps += (gap - inverse_phase_day) / 7;
        }

        if gap >= LEGIONELLA_DAYS {
            legionella_gaps += 1;
        }

        i += gap;
    }
    proof {
        lemma_counts_bounds(t, phase as int, tt as int);
    }
    (gaps, fr_th_gaps, legionella_gaps)
}

/// The three gap counters summed over every cottage of the solution.
#[verifier::loop_isolation(false)]
pub fn calculate_gaps(problem: &Problem, solution: &Solution) -> (r: (usize, usize, usize))
    requires
        solution.wf(),
        solution.cottages == problem.cottages.spec_cottages(),
        problem.phase < 7,
    ensures
        r.0 == sol_gaps(solution@, solution.cottages as int),
        r.1 == sol_weekly(solution@, problem.phase as int, solution.cottages as int),
        r.2 == sol_legionella(solution@, solution.cottages as int),
{
    let cottages: usize = problem.cottages.cottages();
    let mut gaps: usize = 0;
    let mut fr_th_gaps: usize = 0;
    let mut legionella_gaps: usize = 0;
    let mut c: usize = 0;
    proof {
        lemma_sol_counts_bounds(solution@, problem.phase as int, solution.cottages as int);
    }
    while c < cottages
        invariant
            c <= cottages,
            gaps == sol_gaps(solution@, c as int),
            fr_th_gaps == sol_weekly(solution@, problem.phase as int, c as int),
            legionella_gaps == sol_legionella(solution@, c as int),
        decreases cottages - c,
    {
        let (g, f, l) = calculate_cottage_gaps2(problem, solution, c);
        proof {
            lemma_sol_counts_bounds(solution@, problem.phase as int, c as int);
            lemma_sol_counts_bounds(solution@, problem.phase as int, c + 1);
            crate::solution::lemma_row_bounds(
                c as int,
                solution.cottages as int,
                solution.timeslots as int,
            );
            lemma_counts_bounds(solution@.row(c as int), problem.phase as int, 0);
            crate::solution::lemma_mul_mono(
                c as int + 1,
                solution.cottages as int,
                solution.timeslots as int,
            );
            assert((c + 1) * (solution.timeslots as int) == c * (solution.timeslots as int)
                + solution.timeslots) by (nonlinear_arith);
        }
        gaps += g;
        fr_th_gaps += f;
        legionella_gaps += l;
        c += 1;
    }
    (gaps, fr_th_gaps, legionella_gaps)
}


/// Division by 7 steps up exactly at multiples of 7.
pub proof fn lemma_div7_step(x: int)
    requires
        x >= 1,
    ensures
        x / 7 == (x - 1) / 7 + (if x % 7 == 0 {
            1int
        } else {
            0int
        }),
{
    vstd::arithmetic::div_mod::lemma_fundamental_div_mod(x - 1, 7);
    vstd::arithmetic::div_mod::lemma_mod_bound(x - 1, 7);
    let q = (x - 1) / 7;
    let r = (x - 1) % 7;
    if r + 1 < 7 {
        vstd::arithmetic::div_mod::lemma_fundamental_div_mod_converse(x, 7, q, r + 1);
    } else {
        assert(x == 7 * (q + 1) + 0);
        vstd::arithmetic::div_mod::lemma_fundamental_div_mod_converse(x, 7, q + 1, 0);
    }
}

/// Extending a run by one day adds a whole weekly cycle exactly when the new
/// day closes a cycle and the run is already longer than one partial
/// segment.
pub proof fn lemma_full_weeks_step(s: int, len: int, phase: int)
    requires
        s >= 0,
        len >= 1,
        0 <= phase < 7,
    ensures
        full_weeks(s, len, phase) == full_weeks(s, len - 1, phase) + (if (s + len - 1 + phase) % 7
            == 6 && len > 6 {
            1int
        } else {
            0int
        }),
{
    let a = s + phase;
    vstd::arithmetic::div_mod::lemma_mod_bound(a, 7);
    let pos = a % 7;
    let lead = (7 - pos) % 7;
    if pos == 0 {
        assert(7 == 1 * 7);
        vstd::arithmetic::div_mod::lemma_mod_multiples_basic(1, 7);
        assert(lead == 0);
    } else {
        vstd::arithmetic::div_mod::lemma_mod_bound(7 - pos, 7);
        assert(0 < 7 - pos < 7);
        vstd::arithmetic::div_mod::lemma_small_mod((7 - pos) as nat, 7);
    }
    assert(0 <= lead < 7);
    assert((a + lead) % 7 == 0) by {
        vstd::arithmetic::div_mod::lemma_fundamental_div_mod(a, 7);
        let qa = a / 7;
        if pos == 0 {
            assert(a + lead == 7 * qa);
            vstd::arithmetic::div_mod::lemma_mod_multiples_basic(qa, 7);
        } else {
            assert(a + lead == 7 * (qa + 1));
            vstd::arithmetic::div_mod::lemma_mod_multiples_basic(qa + 1, 7);
        }
    }
    let x = len - lead;
    // The day that ends the run is a cycle-closing day exactly when the run
    // length is `lead` plus a multiple of 7.
    assert((a + len - 1) % 7 == 6 <==> (x % 7 == 0)) by {
        vstd::arithmetic::div_mod::lemma_fundamental_div_mod(a + lead, 7);
        let k = (a + lead) / 7;
        assert(a + len - 1 == 7 * k + (x - 1));
        vstd::arithmetic::div_mod::lemma_mod_multiples_vanish(k, x - 1, 7);
        assert((a + len - 1) % 7 == (x - 1) % 7);
        vstd::arithmetic::div_mod::lemma_fundamental_div_mod(x - 1, 7);
        vstd::arithmetic::div_mod::lemma_mod_bound(x - 1, 7);
        let qx = (x - 1) / 7;
        let rx = (x - 1) % 7;
        if rx == 6 {
            assert(x == 7 * (qx + 1) + 0);
            vstd::arithmetic::div_mod::lemma_fundamental_div_mod_converse(x, 7, qx + 1, 0);
        } else {
            assert(x == 7 * qx + (rx + 1));
            vstd::arithmetic::div_mod::lemma_fundamental_div_mod_converse(x, 7, qx, rx + 1);
        }
    }
    if len < lead {
        // Still inside the first partial segment on both sides.
        assert(full_weeks(s, len, phase) == 0);
        assert(full_weeks(s, len - 1, phase) == 0);
        assert(0 < lead - len + 1 <= 7 - 1);
        if x % 7 == 0 {
            vstd::arithmetic::div_mod::lemma_fundamental_div_mod(x, 7);
            let qx = x / 7;
            assert(7 * qx == x);
            assert(x < 0);
            assert(x >= -6);
            assert(false) by (nonlinear_arith)
                requires
                    7 * qx == x,
                    -6 <= x <= -1,
            {
            }
        }
    } else if len == lead {
        assert(full_weeks(s, len, phase) == (len - lead) / 7);
        assert((len - lead) / 7 == 0) by {
            vstd::arithmetic::div_mod::lemma_basic_div(0, 7);
        }
        assert(full_weeks(s, len - 1, phase) == 0);
        assert(len <= 6);
    } else {
        assert(x >= 1);
        lemma_div7_step(x);
        assert(full_weeks(s, len, phase) == x / 7);
        assert(full_weeks(s, len - 1, phase) == (x - 1) / 7);
        if x % 7 == 0 {
            // A whole number of cycles past the first segment: the run must
            // already be longer than one partial week.
            assert(x >= 7) by {
                vstd::arithmetic::div_mod::lemma_fundamental_div_mod(x, 7);
                let qx = x / 7;
                assert(7 * qx == x);
                if qx <= 0 {
                    assert(x <= 0) by (nonlinear_arith)
                        requires
                            7 * qx == x,
                            qx <= 0,
                    {
                    }
                }
                assert(qx >= 1);
                assert(x >= 7) by (nonlinear_arith)
                    requires
                        7 * qx == x,
                        qx >= 1,
                {
                }
            }
            assert(len > 6);
        }
    }
}

/// A one-day run contains no whole cycle.
pub proof fn lemma_full_weeks_zero(s: int, phase: int)
    requires
        s >= 0,
        0 <= phase < 7,
    ensures
        full_weeks(s, 0, phase) == 0,
        full_weeks(s, 1, phase) == 0,
{
    vstd::arithmetic::div_mod::lemma_mod_bound(s + phase, 7);
    let pos = (s + phase) % 7;
    vstd::arithmetic::div_mod::lemma_mod_bound(7 - pos, 7);
    if pos == 0 {
        assert(7 == 1 * 7);
        vstd::arithmetic::div_mod::lemma_mod_multiples_basic(1, 7);
    }
    let lead = (7 - pos) % 7;
    if lead == 0 {
        vstd::arithmetic::div_mod::lemma_basic_div(0, 7);
        vstd::arithmetic::div_mod::lemma_basic_div(1, 7);
    } else if lead == 1 {
        vstd::arithmetic::div_mod::lemma_basic_div(0, 7);
    }
}


/// Day `d` lies right after a vacant day, i.e. inside or just past an open
/// vacant run.
pub open spec fn open_run(t: Seq<Option<usize>>, d: int) -> bool {
    d > 0 && t[d - 1] is None
}

/// Running state of the day-by-day gap fold: the length of the vacant run
/// ending at the current day, and the three gap counters accumulated so
/// far.
#[derive(Debug, Clone, Copy, PartialEq, Eq, Structural)]
pub struct GapFoldState {
    pub count: usize,
    pub gaps: usize,
    pub legionella_gaps: usize,
    pub fr_th_gaps: usize,
}

impl GapFoldState {
    pub fn new(count: usize, gaps: usize, legionella_gaps: usize, fr_th_gaps: usize) -> (r:
        GapFoldState)
        ensures
            r == (GapFoldState { count, gaps, legionella_gaps, fr_th_gaps }),
    {
        GapFoldState { count, gaps, legionella_gaps, fr_th_gaps }
    }
}

/// One step of the day-by-day fold. `cell` is the day's weekday position in
/// the cycle (6 closes a cycle) and 1 when the day is vacant, 0 when
/// occupied: a vacant day extends the current run and bumps the counters
/// whose thresholds it crosses, an occupied day resets the run.
pub fn fold_gaps(state: GapFoldState, cell: (usize, usize)) -> (r: GapFoldState)
    requires
        cell.1 <= 1,
        state.count < usize::MAX,
        state.gaps < usize::MAX,
        state.legionella_gaps < usize::MAX,
        state.fr_th_gaps < usize::MAX,
    ensures
        r.count == (if cell.1 == 1 {
            state.count + 1
        } else {
            0int
        }),
        r.gaps == state.gaps + (if r.count == 1 {
            1int
        } else {
            0int
        }),
        r.legionella_gaps == state.legionella_gaps + (if r.count == LEGIONELLA_DAYS {
            1int
        } else {
            0int
        }),
        r.fr_th_gaps == state.fr_th_gaps + (if cell.0 == 6 && r.count > 6 {
            1int
        } else {
            0int
        }),
{
    let thursday: bool = cell.0 == 6;
    let cell_state: usize = cell.1;

    proof {
        if cell_state == 0 {
            assert(cell_state * state.count == 0) by (nonlinear_arith)
                requires
                    cell_state == 0,
            {
            }
        } else {
            assert(cell_state == 1);
            assert(cell_state * state.count == state.count) by (nonlinear_arith)
                requires
                    cell_state == 1,
            {
            }
        }
    }
    let count: usize = cell_state * state.count + cell_state;

    let gaps: usize = if count == 1 {
        state.gaps + 1
    } else {
        state.gaps
    };

    let legionella_gaps: usize = if count == LEGIONELLA_DAYS {
        state.legionella_gaps + 1
    } else {
        state.legionella_gaps
    };

    let fr_th_gaps: usize = if thursday && count > 6 {
        state.fr_th_gaps + 1
    } else {
        state.fr_th_gaps
    };

    GapFoldState::new(count, gaps, legionella_gaps, fr_th_gaps)
}

/// Fold one occupancy row day by day and report the same three counters the
/// run-jumping scan computes: runs, long runs, and whole weekly cycles past
/// each run's first partial segment.
#[verifier::loop_isolation(false)]
#[verifier::rlimit(100)]
pub fn calculate_gaps_single(timetable: &[Option<usize>], phase: usize) -> (r: GapFoldState)
    requires
        phase < 7,
        timetable@.len() <= crate::solution::MAX_CELLS,
    ensures
        r.gaps == row_gaps(timetable@),
        r.fr_th_gaps == row_weekly(timetable@, phase as int),
        r.legionella_gaps == row_legionella(timetable@),
{
    let ghost t = timetable@;
    let n: usize = timetable.len();
    proof {
        lemma_counts_bounds(t, phase as int, 0);
    }
    let mut state = GapFoldState::new(0, 0, 0, 0);
    let mut d: usize = 0;
    while d < n
        invariant
            d <= n,
            n == t.len(),
            state.count == (if open_run(t, d as int) {
                d - run_start(t, d as int - 1)
            } else {
                0int
            }),
            state.gaps == row_gaps(t) - gaps_from(t, d as int),
            state.legionella_gaps == row_legionella(t) - legionella_from(t, d as int) - (if
            open_run(t, d as int) && run_end(t, d as int - 1) - run_start(t, d as int - 1)
                >= LEGIONELLA_DAYS && d - run_start(t, d as int - 1) < LEGIONELLA_DAYS {
                1int
            } else {
                0int
            }),
            state.fr_th_gaps == row_weekly(t, phase as int) - weekly_from(t, phase as int, d as int)
                - (if open_run(t, d as int) {
                full_weeks(
                    run_start(t, d as int - 1),
                    run_end(t, d as int - 1) - run_start(t, d as int - 1),
                    phase as int,
                ) - full_weeks(run_start(t, d as int - 1), d - run_start(t, d as int - 1), phase as int)
            } else {
                0int
            }),
            state.gaps <= n,
            state.legionella_gaps <= n,
            state.fr_th_gaps <= n,
            state.count <= d,
        decreases n - d,
    {
        let cell_state: usize = if timetable[d].is_none() {
            1
        } else {
            0
        };
        let weekday: usize = (d + phase) % 7;
        proof {
            let di = d as int;
            lemma_counts_bounds(t, phase as int, di);
            lemma_counts_bounds(t, phase as int, di + 1);
            if t[di] is Some {
                lemma_counts_skip(t, phase as int, di);
                if open_run(t, di) {
                    let s = run_start(t, di - 1);
                    crate::solution::lemma_run_start_props(t, di - 1);
                    crate::solution::lemma_run_end_char(t, di - 1, di);
                    assert(run_end(t, di - 1) == di);
                    lemma_full_weeks_nonneg_mono(s, di - s, phase as int);
                }
            } else {
                crate::solution::lemma_run_end_props(t, di);
                let ee = run_end(t, di);
                if open_run(t, di) {
                    // The day extends the open run.
                    let s = run_start(t, di - 1);
                    crate::solution::lemma_run_start_props(t, di - 1);
                    assert(run_start(t, di) == s);
                    assert(run_end(t, di - 1) == run_end(t, di));
                    assert(!is_run_start(t, di));
                    assert(gaps_from(t, di) == gaps_from(t, di + 1));
                    assert(legionella_from(t, di) == legionella_from(t, di + 1));
                    assert(weekly_from(t, phase as int, di) == weekly_from(
                        t,
                        phase as int,
                        di + 1,
                    ));
                    assert(run_start(t, di + 1 - 1) == s);
                    lemma_full_weeks_step(s, di + 1 - s, phase as int);
                    assert((s + (di + 1 - s) - 1 + phase) % 7 == (di + phase) % 7);
                    assert(ee >= di + 1);
                    lemma_full_weeks_nonneg_mono(s, ee - s, phase as int);
                    lemma_full_weeks_nonneg_mono(s, di + 1 - s, phase as int);
                } else {
                    // The day opens a new run.
                    assert(is_run_start(t, di));
                    assert(gaps_from(t, di) == 1 + gaps_from(t, di + 1));
                    assert(legionella_from(t, di) == (if ee - di >= LEGIONELLA_DAYS {
                        1int
                    } else {
                        0int
                    }) + legionella_from(t, di + 1));
                    assert(weekly_from(t, phase as int, di) == full_weeks(
                        di,
                        ee - di,
                        phase as int,
                    ) + weekly_from(t, phase as int, di + 1));
                    assert(run_start(t, di + 1 - 1) == di);
                    lemma_full_weeks_zero(di, phase as int);
                    lemma_full_weeks_nonneg_mono(di, ee - di, phase as int);
                }
            }
        }
        state = fold_gaps(state, (weekday, cell_state));
        d += 1;
    }
    proof {
        if open_run(t, n as int) {
            crate::solution::lemma_run_start_props(t, n as int - 1);
            crate::solution::lemma_run_end_char(t, n as int - 1, n as int);
            let s = run_start(t, n as int - 1);
            lemma_full_weeks_nonneg_mono(s, n - s, phase as int);
        }
    }
    state
}

/// Whole weekly cycle counts are nonnegative and never shrink as the run
/// grows.
pub proof fn lemma_full_weeks_nonneg_mono(s: int, len: int, phase: int)
    requires
        s >= 0,
        len >= 0,
        0 <= phase < 7,
    ensures
        0 <= full_weeks(s, len, phase),
        forall|l2: int| 0 <= l2 <= len ==> #[trigger] full_weeks(s, l2, phase) <= full_weeks(s, len, phase),
    decreases len,
{
    if len == 0 {
        lemma_full_weeks_zero(s, phase);
    } else {
        lemma_full_weeks_nonneg_mono(s, len - 1, phase);
        lemma_full_weeks_step(s, len, phase);
        assert forall|l2: int| 0 <= l2 <= len implies #[trigger] full_weeks(s, l2, phase)
            <= full_weeks(s, len, phase) by {
            if l2 <= len - 1 {
                assert(full_weeks(s, l2, phase) <= full_weeks(s, len - 1, phase));
            }
        }
    }
}

/// The fold-based gap counters of one cottage, read directly off the
/// occupancy row.
pub fn calculate_cottage_gaps(problem: &Problem, solution: &Solution, cottage: usize) -> (r: (
    usize,
    usize,
    usize,
))
    requires
        solution.wf(),
        cottage < solution.cottages,
        problem.phase < 7,
    ensures
        r.0 == row_gaps(solution@.row(cottage as int)),
        r.1 == row_weekly(solution@.row(cottage as int), problem.phase as int),
        r.2 == row_legionella(solution@.row(cottage as int)),
{
    let timetable = solution.get_timetable(cottage);
    proof {
        crate::solution::lemma_row_bounds(
            cottage as int,
            solution.cottages as int,
            solution.timeslots as int,
        );
        crate::solution::lemma_mul_mono(1, solution.cottages as int, solution.timeslots as int);
        assert(1 * (solution.timeslots as int) == solution.timeslots as int) by (nonlinear_arith);
        assert(timetable@.len() == solution.timeslots);
        assert((solution.cottages as int) * (solution.timeslots as int) <= crate::solution::MAX_CELLS
            as int);
    }
    let gaps = calculate_gaps_single(timetable, problem.phase);

    (gaps.gaps, gaps.fr_th_gaps, gaps.legionella_gaps)
}

/// The three gap counters summed over every cottage, via the day-by-day
/// fold; agrees with `calculate_gaps` exactly.
#[verifier::loop_isolation(false)]
pub fn calculate_gaps2(problem: &Problem, solution: &Solution) -> (r: (usize, usize, usize))
    requires
        solution.wf(),
        solution.cottages == problem.cottages.spec_cottages(),
        problem.phase < 7,
    ensures
        r.0 == sol_gaps(solution@, solution.cottages as int),
        r.1 == sol_weekly(solution@, problem.phase as int, solution.cottages as int),
        r.2 == sol_legionella(solution@, solution.cottages as int),
{
    let cottages: usize = problem.cottages.cottages();
    let mut gaps: usize = 0;
    let mut fr_th_gaps: usize = 0;
    let mut legionella_gaps: usize = 0;
    let mut c: usize = 0;
    proof {
        lemma_sol_counts_bounds(solution@, problem.phase as int, solution.cottages as int);
    }
    while c < cottages
        invariant
            c <= cottages,
            gaps == sol_gaps(solution@, c as int),
            fr_th_gaps == sol_weekly(solution@, problem.phase as int, c as int),
            legionella_gaps == sol_legionella(solution@, c as int),
        decreases cottages - c,
    {
        let (g, f, l) = calculate_cottage_gaps(problem, solution, c);
        proof {
            lemma_sol_counts_bounds(solution@, problem.phase as int, c as int);
            lemma_sol_counts_bounds(solution@, problem.phase as int, c + 1);
            crate::solution::lemma_row_bounds(
                c as int,
                solution.cottages as int,
                solution.timeslots as int,
            );
            lemma_counts_bounds(solution@.row(c as int), problem.phase as int, 0);
            crate::solution::lemma_mul_mono(
                c as int + 1,
                solution.cottages as int,
                solution.timeslots as int,
            );
            assert((c + 1) * (solution.timeslots as int) == c * (solution.timeslots as int)
                + solution.timeslots) by (nonlinear_arith);
        }
        gaps += g;
        fr_th_gaps += f;
        legionella_gaps += l;
        c += 1;
    }
    (gaps, fr_th_gaps, legionella_gaps)
}

} // verus!
