use vstd::prelude::*;

use crate::allocation_penalty::{ap_valid, PRIORITY_SCALE};
use crate::cost::{fits, spec_cost, COST_BOUND};
use crate::modification::{
    lemma_mods_round_trip, lemma_mods_unapply_dims, lemma_mods_unapply_fits,
    lemma_unapply_concat, linked, mods_apply, mods_can_apply, mods_can_unapply, mods_unapply,
    occupies_exactly, Chain, Modification,
};
use crate::problem::Problem;
use crate::solution::{occupant_contiguous, SolView, Solution, MAX_CELLS};

verus! {

/// Chance gate of the repair heuristic: an attempt that would evict
/// higher-priority occupants still goes ahead in one out of this many draws.
pub const ACCEPT_DESPITE_PRIORITY_ONE_IN: usize = 200;

/// Hard ceiling on repair attempts, so that every search step provably ends;
/// far beyond anything a run can reach.
pub const REPAIR_ATTEMPT_LIMIT: u64 = 0xffffffffffffffff;

#[verifier::external_type_specification]
#[verifier::external_body]
pub struct ExRng(fastrand::Rng);

/// Relies on fastrand::Rng::new: a fresh generator seeded from the
/// thread-local source; nothing is promised about its values.
#[verifier::external_body]
fn rng_new() -> fastrand::Rng {
    fastrand::Rng::new()
}

/// Relies on fastrand::Rng::usize over `0..n`: the draw always lies below
/// `n`, and the call panics only on an empty range, which the precondition
/// rules out. Nothing is promised about which value comes back.
#[verifier::external_body]
fn rng_usize_below(rng: &mut fastrand::Rng, n: usize) -> (r: usize)
    requires
        n > 0,
    ensures
        r < n,
{
    rng.usize(..n)
}

/// One worker's search state: the problem, the live solution, the
/// speculative move log, and a private random source.
#[derive(Debug)]
pub struct Instance {
    pub problem: Problem,
    pub solution: Solution,
    pub chain: Chain,
    pub rng: fastrand::Rng,
}

impl Instance {
    /// The standing invariant of a search: the solution is well-formed,
    /// shaped for and linked to the problem, the penalty tables are the ones
    /// `calculate` builds, every reservation has a candidate and fits the
    /// schedule, and the chain is fully applied with its accumulated cost
    /// equal to the exact cost difference against the state it would restore.
    pub open spec fn wf(self) -> bool {
        let p = self.problem;
        let v = self.solution@;
        &&& self.solution.wf()
        &&& fits(p, v)
        &&& linked(p, v)
        &&& p.cottages.wf()
        &&& p.reservations.wf()
        &&& ap_valid(p.allocation_penalty, p.cottages, p.reservations)
        &&& forall|r: int|
            0 <= r < p.reservations.spec_reservations() ==> (
            #[trigger] p.reservations.departure@[r]) <= self.solution.timeslots
        &&& forall|r: int|
            0 <= r < p.reservations.spec_reservations() ==> (
            #[trigger] p.allocation_penalty.possible_targets@[r]@).len() > 0
        &&& self.chain.step == self.chain.chain@.len()
        &&& mods_can_unapply(p, v, self.chain.chain@)
        &&& self.chain.cost@ == spec_cost(p, v).minus(
            spec_cost(p, mods_unapply(v, self.chain.chain@)),
        )
    }

    pub fn new(problem: Problem, solution: Solution) -> (r: Instance)
        requires
            solution.wf(),
            fits(problem, solution@),
            linked(problem, solution@),
            problem.cottages.wf(),
            problem.reservations.wf(),
            ap_valid(problem.allocation_penalty, problem.cottages, problem.reservations),
            forall|r: int|
                0 <= r < problem.reservations.spec_reservations() ==> (
                #[trigger] problem.reservations.departure@[r]) <= solution.timeslots,
            forall|r: int|
                0 <= r < problem.reservations.spec_reservations() ==> (
                #[trigger] problem.allocation_penalty.possible_targets@[r]@).len() > 0,
        ensures
            r.wf(),
            r.problem == problem,
            r.solution == solution,
            r.chain.chain@.len() == 0,
    {
        let out = Instance { problem, solution, chain: Chain::new(), rng: rng_new() };
        proof {
            assert(mods_unapply(out.solution@, out.chain.chain@) == out.solution@);
            assert(out.chain.cost@ =~= spec_cost(out.problem, out.solution@).minus(
                spec_cost(out.problem, out.solution@),
            ));
        }
        out
    }

    /// Keep the live solution and forget the log: the chain's moves become
    /// permanent.
    pub fn accept_chain(&mut self)
        requires
            old(self).wf(),
        ensures
            final(self).wf(),
            final(self).problem == old(self).problem,
            final(self).solution == old(self).solution,
            final(self).chain.chain@.len() == 0,
    {
        self.chain.clear();
        proof {
            assert(mods_unapply(self.solution@, self.chain.chain@) == self.solution@);
            assert(self.chain.cost@ =~= spec_cost(self.problem, self.solution@).minus(
                spec_cost(self.problem, self.solution@),
            ));
        }
    }

    /// Undo the whole log against the live solution, restoring the state the
    /// chain started from, then forget the log.
    pub fn reject_chain(&mut self)
        requires
            old(self).wf(),
        ensures
            final(self).wf(),
            final(self).problem == old(self).problem,
            final(self).solution@ == mods_unapply(old(self).solution@, old(self).chain.chain@),
            final(self).chain.chain@.len() == 0,
    {
        proof {
            lemma_inst_cost_bounded(*self);
            lemma_mods_unapply_dims(self.problem, self.solution@, self.chain.chain@);
        }
        self.chain.regress(&self.problem, &mut self.solution);
        self.chain.clear();
        proof {
            assert(mods_unapply(self.solution@, self.chain.chain@) == self.solution@);
            assert(self.chain.cost@ =~= spec_cost(self.problem, self.solution@).minus(
                spec_cost(self.problem, self.solution@),
            ));
        }
    }

    /// A uniformly random candidate cottage of `reservation`.
    pub fn get_random_cottage(&mut self, reservation: usize) -> (r: usize)
        requires
            old(self).wf(),
            reservation < old(self).problem.reservations.spec_reservations(),
        ensures
            final(self).problem == old(self).problem,
            final(self).solution == old(self).solution,
            final(self).chain == old(self).chain,
            final(self).problem.allocation_penalty.possible_targets@[reservation as int]@.contains(
                r,
            ),
    {
        let cottages = self.problem.allocation_penalty.possible_targets(reservation);
        let n: usize = cottages.len();
        let i = rng_usize_below(&mut self.rng, n);
        let out = cottages[i];
        proof {
            assert(self.problem.allocation_penalty.possible_targets@[reservation as int]@[i as int]
                == out);
        }
        out
    }

    /// A uniformly random currently-unassigned reservation.
    fn random_unallocated(&mut self) -> (r: usize)
        requires
            old(self).wf(),
            old(self).solution.unallocated@.len() > 0,
        ensures
            final(self).problem == old(self).problem,
            final(self).solution == old(self).solution,
            final(self).chain == old(self).chain,
            r < final(self).solution.mapping@.len(),
            final(self).solution.mapping@[r as int] is None,
    {
        let n: usize = self.solution.unallocated.len();
        let i = rng_usize_below(&mut self.rng, n);
        let out = self.solution.unallocated[i];
        proof {
            assert(self.solution.unallocated@.contains(out));
        }
        out
    }
}

/// The accumulated chain cost of a well-formed instance is a difference of
/// two whole-solution costs, so it stays far below the `Cost` bound.
pub proof fn lemma_inst_cost_bounded(inst: Instance)
    requires
        inst.wf(),
    ensures
        inst.chain.cost@.bounded(2 * MAX_CELLS as int),
        inst.chain.cost@.bounded(COST_BOUND as int / 4),
{
    lemma_mods_unapply_fits(inst.problem, inst.solution@, inst.chain.chain@);
    crate::cost::lemma_spec_cost_bounded(inst.problem, inst.solution@);
    crate::cost::lemma_spec_cost_bounded(
        inst.problem,
        mods_unapply(inst.solution@, inst.chain.chain@),
    );
}

/// Appending applicable moves to a fully applied chain keeps the whole chain
/// undoable and does not move the state it would restore.
pub proof fn lemma_chain_extend(
    p: Problem,
    v0: SolView,
    chain0: Seq<Modification>,
    addl: Seq<Modification>,
)
    requires
        mods_can_unapply(p, v0, chain0),
        mods_can_apply(p, v0, addl),
    ensures
        mods_can_unapply(p, mods_apply(v0, addl), chain0 + addl),
        mods_unapply(mods_apply(v0, addl), chain0 + addl) == mods_unapply(v0, chain0),
{
    lemma_mods_round_trip(p, v0, addl);
    lemma_unapply_concat(p, mods_apply(v0, addl), chain0, addl);
}

/// Extending the move log is transitive: two search steps in a row leave
/// the first state's log an untouched, applied prefix with the same restore
/// point.
pub proof fn lemma_chain_extended_trans(a: Instance, b: Instance, c: Instance)
    requires
        chain_extended(a, b),
        chain_extended(b, c),
    ensures
        chain_extended(a, c),
{
    let la = a.chain.chain@.len() as int;
    let lb = b.chain.chain@.len() as int;
    assert(c.chain.chain@.take(la) =~= a.chain.chain@) by {
        assert forall|k: int| 0 <= k < la implies c.chain.chain@.take(la)[k]
            == a.chain.chain@[k] by {
            assert(c.chain.chain@.take(lb)[k] == c.chain.chain@[k]);
            assert(b.chain.chain@.take(la)[k] == b.chain.chain@[k]);
        }
    }
}

/// In a linked solution every occupant's days form one contiguous block, so
/// `is_taken_by` reports each occupant once.
pub proof fn lemma_linked_contiguous(p: Problem, v: SolView, c: int)
    requires
        fits(p, v),
        linked(p, v),
        0 <= c < v.cottages,
    ensures
        occupant_contiguous(v.row(c)),
{
    let row = v.row(c);
    crate::solution::lemma_row_bounds(c, v.cottages as int, v.timeslots as int);
    assert forall|d1: int, d2: int, d3: int|
        0 <= d1 <= d2 <= d3 < row.len() && row[d1] is Some && row[d1] == row[d3]
        implies row[d2] == row[d1] by {
        let x = row[d1]->0;
        assert(v.timetable[c * v.timeslots + d1] == row[d1]);
        assert(v.mapping[x as int] is Some);
        assert(occupies_exactly(p, v, x as int));
    }
}


/// What every search step promises about the move log, whatever the random
/// draws did: the problem is untouched, the log before the step survives as
/// an untouched prefix, everything appended has been applied, and the state
/// the whole log would restore — the state `reject_chain` returns to — is
/// exactly the one it would have restored before the step.
pub open spec fn chain_extended(pre: Instance, post: Instance) -> bool {
    &&& post.problem == pre.problem
    &&& pre.chain.chain@.len() <= post.chain.chain@.len()
    &&& post.chain.chain@.take(pre.chain.chain@.len() as int) == pre.chain.chain@
    &&& mods_unapply(post.solution@, post.chain.chain@) == mods_unapply(
        pre.solution@,
        pre.chain.chain@,
    )
}

/// Intermediate state while evicting: the reservations processed so far are
/// exactly the ones unmapped and returned to the unassigned set; nothing
/// else moved.
pub open spec fn evicted(p: Problem, v0: SolView, xs: Seq<usize>, j: int, w: SolView) -> bool {
    &&& w.cottages == v0.cottages
    &&& w.timeslots == v0.timeslots
    &&& w.mapping.len() == v0.mapping.len()
    &&& w.timetable.len() == v0.timetable.len()
    &&& forall|r2: int|
        0 <= r2 < w.mapping.len() ==> (#[trigger] w.mapping[r2]) == (if xs.take(j).contains(
            r2 as usize,
        ) {
            None
        } else {
            v0.mapping[r2]
        })
    &&& forall|x: usize| #[trigger]
        w.unallocated.contains(x) <==> (v0.unallocated.contains(x) || xs.take(j).contains(x))
    &&& fits(p, w)
    &&& linked(p, w)
}

impl Instance {
    /// Append eviction moves for every occupant of `reservation`'s day
    /// interval in `cottage`, then the assignment itself, and apply them
    /// all.
    #[verifier::loop_isolation(false)]
    #[verifier::rlimit(100)]
    fn evict_and_assign(&mut self, reservation: usize, cottage: usize)
        requires
            old(self).wf(),
            reservation < old(self).solution.mapping@.len(),
            old(self).solution.mapping@[reservation as int] is None,
            cottage < old(self).solution.cottages,
        ensures
            final(self).wf(),
            chain_extended(*old(self), *final(self)),
            old(self).chain.chain@.len() < final(self).chain.chain@.len(),
    {
        broadcast use vstd::set::group_set_axioms;

        let ghost p = self.problem;
        let ghost v0 = self.solution@;
        let ghost chain0 = self.chain.chain@;
        let ghost cc = self.solution.cottages as int;
        let ghost tt = self.solution.timeslots as int;

        let range = self.problem.reservations.range(reservation);
        proof {
            lemma_linked_contiguous(p, v0, cottage as int);
            crate::solution::lemma_row_bounds(cottage as int, cc, tt);
            assert(reservation < p.reservations.spec_reservations());
            assert(p.reservations.stay@[reservation as int] >= 1);
            assert(p.reservations.departure@[reservation as int] <= self.solution.timeslots);
        }
        let occupants = self.solution.is_taken_by(cottage, range);
        let ghost xs = occupants@;
        let n_occ: usize = occupants.len();
        let step0: usize = self.chain.len();

        // The target reservation is not among the occupants.
        proof {
            if xs.contains(reservation) {
                let d0 = choose|d0: int|
                    range.start <= d0 < range.end && v0.row(cottage as int)[d0] == Some(
                        reservation,
                    );
                assert(v0.timetable[cottage as int * tt + d0] == Some(reservation));
                assert(v0.mapping[reservation as int] is Some);
            }
            assert(xs.take(0) =~= Seq::<usize>::empty());
            assert(mods_apply(v0, Seq::<Modification>::empty()) == v0);
            assert(mods_can_apply(p, v0, Seq::<Modification>::empty()));
            assert(chain0 + Seq::<Modification>::empty() =~= chain0);
        }

        let mut j: usize = 0;
        while j < n_occ
            invariant
                j <= n_occ,
                self.problem == old(self).problem,
                self.solution == old(self).solution,
                self.chain.step == step0,
                step0 == chain0.len(),
                self.chain.cost == old(self).chain.cost,
                self.chain.chain@.len() == chain0.len() + j,
                self.chain.chain@.subrange(0, chain0.len() as int) == chain0,
                mods_can_apply(p, v0, self.chain.chain@.skip(chain0.len() as int)),
                evicted(
                    p,
                    v0,
                    xs,
                    j as int,
                    mods_apply(v0, self.chain.chain@.skip(chain0.len() as int)),
                ),
            decreases n_occ - j,
        {
            let ghost pend = self.chain.chain@.skip(chain0.len() as int);
            let ghost w = mods_apply(v0, pend);
            let x: usize = occupants[j];
            proof {
                // The occupant is mapped to this cottage in the starting
                // state and still mapped, untouched, in `w`.
                assert(xs.contains(x));
                let d0 = choose|d0: int|
                    range.start <= d0 < range.end && v0.row(cottage as int)[d0] == Some(x);
                assert(v0.timetable[cottage as int * tt + d0] == Some(x));
                assert(v0.mapping[x as int] is Some);
                assert(occupies_exactly(p, v0, x as int));
                assert(v0.mapping[x as int] == Some(cottage));
                let tk0 = xs.take(j as int);
                assert(!tk0.contains(x)) by {
                    if tk0.contains(x) {
                        let i0 = choose|i0: int| 0 <= i0 < tk0.len() && tk0[i0] == x;
                        assert(xs[i0] == x);
                        assert(xs[j as int] == x);
                    }
                }
                assert(w.mapping[x as int] == Some(cottage));
                assert(occupies_exactly(p, w, x as int));
                if v0.unallocated.contains(x) {
                    assert(old(self).solution.unallocated@.contains(x));
                    assert(v0.mapping[x as int] is None);
                }
            }
            let m = Modification::unassign(x, &self.problem, &self.solution);
            proof {
                let ghost ax = p.reservations.arrival@[x as int];
                let ghost bx = p.reservations.departure@[x as int];
                assert(m.can_apply(p, w)) by {
                    assert(bx <= tt);
                    assert(ax < bx);
                    assert forall|d: int| ax <= d < bx implies w.row(cottage as int)[d] == Some(
                        x,
                    ) by {
                        assert(occupies_exactly(p, w, x as int));
                    }
                }
            }
            self.chain.add(m);
            proof {
                let pend2 = self.chain.chain@.skip(chain0.len() as int);
                assert(pend2 =~= pend.push(m));
                crate::modification::lemma_mods_push(p, v0, pend, m);
                let w2 = mods_apply(v0, pend2);
                assert(w2 == m.apply(w));
                crate::modification::lemma_mod_fits(m, p, w);
                crate::modification::lemma_mod_linked(m, p, w);
                assert(self.chain.chain@.subrange(0, chain0.len() as int) =~= chain0);
                // The characterization advances by one processed occupant.
                assert(xs.take(j + 1) =~= xs.take(j as int).push(x));
                let a = p.reservations.arrival@[x as int];
                let b = p.reservations.departure@[x as int];
                assert(evicted(p, v0, xs, j + 1, w2)) by {
                    assert forall|r2: int| 0 <= r2 < w2.mapping.len() implies (
                    #[trigger] w2.mapping[r2]) == (if xs.take(j + 1).contains(r2 as usize) {
                        None
                    } else {
                        v0.mapping[r2]
                    }) by {
                        if r2 == x as int {
                            let tk1 = xs.take(j + 1);
                            assert(tk1[j as int] == x);
                            assert(tk1.contains(x));
                        } else {
                            let tk1 = xs.take(j + 1);
                            let tk0 = xs.take(j as int);
                            assert(tk1.contains(r2 as usize) <==> tk0.contains(r2 as usize)) by {
                                if tk1.contains(r2 as usize) {
                                    let i0 = choose|i0: int|
                                        0 <= i0 < tk1.len() && tk1[i0] == r2 as usize;
                                    assert(xs[i0] == r2 as usize);
                                    assert(i0 < j);
                                    assert(tk0[i0] == r2 as usize);
                                }
                                if tk0.contains(r2 as usize) {
                                    let i0 = choose|i0: int|
                                        0 <= i0 < tk0.len() && tk0[i0] == r2 as usize;
                                    assert(tk1[i0] == r2 as usize);
                                }
                            }
                        }
                    }
                    assert forall|y: usize| #[trigger]
                        w2.unallocated.contains(y) <==> (v0.unallocated.contains(y) || xs.take(
                            j + 1,
                        ).contains(y)) by {
                        assert(w2.unallocated == w.unallocated.insert(x));
                        let tk1 = xs.take(j + 1);
                        let tk0 = xs.take(j as int);
                        assert(tk1.contains(y) <==> (tk0.contains(y) || y == x)) by {
                            if tk1.contains(y) {
                                let i0 = choose|i0: int| 0 <= i0 < tk1.len() && tk1[i0] == y;
                                assert(xs[i0] == y);
                                if i0 < j {
                                    assert(tk0[i0] == y);
                                }
                            }
                            if tk0.contains(y) {
                                let i0 = choose|i0: int| 0 <= i0 < tk0.len() && tk0[i0] == y;
                                assert(tk1[i0] == y);
                            }
                            if y == x {
                                assert(tk1[j as int] == y);
                            }
                        }
                    }
                }
            }
            j += 1;
        }

        // Every occupant of the interval is now evicted: the interval is
        // free, and the reservation itself was never touched.
        let ghost pend = self.chain.chain@.skip(chain0.len() as int);
        let ghost w = mods_apply(v0, pend);
        proof {
            assert(xs.take(n_occ as int) =~= xs);
            assert(!xs.contains(reservation));
            assert(w.mapping[reservation as int] is None);
            assert(old(self).solution.unallocated@.contains(reservation));
            assert(v0.unallocated.contains(reservation));
            assert(w.unallocated.contains(reservation));
            assert forall|d: int|
                range.start <= d < range.end implies w.row(cottage as int)[d] is None by {
                if w.row(cottage as int)[d] is Some {
                    let y = w.row(cottage as int)[d]->0;
                    assert(w.timetable[cottage as int * tt + d] == w.row(cottage as int)[d]);
                    assert(w.mapping[y as int] is Some);
                    assert(!xs.contains(y));
                    assert(w.mapping[y as int] == v0.mapping[y as int]);
                    assert(occupies_exactly(p, w, y as int));
                    assert(occupies_exactly(p, v0, y as int));
                    assert(v0.row(cottage as int)[d] == Some(y));
                    assert(xs.contains(y));
                }
            }
        }
        let am = Modification::assign(reservation, cottage, &self.problem);
        proof {
            assert(reservation < p.reservations.spec_reservations());
            assert(p.reservations.stay@[reservation as int] >= 1);
            assert(am.can_apply(p, w)) by {
                assert(p.reservations.departure@[reservation as int] <= tt);
                assert(p.reservations.arrival@[reservation as int]
                    < p.reservations.departure@[reservation as int]);
            }
        }
        self.chain.add(am);
        proof {
            let pend2 = self.chain.chain@.skip(chain0.len() as int);
            assert(pend2 =~= pend.push(am));
            crate::modification::lemma_mods_push(p, v0, pend, am);
            assert(self.chain.chain@.subrange(0, chain0.len() as int) =~= chain0);
            assert(self.chain.pending() =~= pend2);
            lemma_inst_cost_bounded(*old(self));
        }
        let ghost chain_all = self.chain.chain@;
        self.chain.progress(&self.problem, &mut self.solution);
        proof {
            let pend2 = chain_all.skip(chain0.len() as int);
            lemma_chain_extend(p, v0, chain0, pend2);
            assert(chain_all =~= chain0 + pend2);
            assert(mods_can_unapply(p, self.solution@, self.chain.chain@));
            assert(self.chain.cost@ =~= spec_cost(p, self.solution@).minus(
                spec_cost(p, mods_unapply(self.solution@, self.chain.chain@)),
            ));
            assert(self.solution@ == mods_apply(v0, pend2));
            assert(self.chain.chain@.take(chain0.len() as int) =~= chain0);
        }
    }

    /// One repair attempt that evicts whatever occupies the chosen target,
    /// regardless of priority.
    fn repair_single_force(&mut self)
        requires
            old(self).wf(),
            old(self).solution.unallocated@.len() > 0,
        ensures
            final(self).wf(),
            chain_extended(*old(self), *final(self)),
            old(self).chain.chain@.len() < final(self).chain.chain@.len(),
    {
        let reservation = self.random_unallocated();
        let cottage = self.get_random_cottage(reservation);
        proof {
            assert(self.problem.allocation_penalty.possible_targets@[reservation as int]@.contains(
                cottage,
            ));
        }
        self.evict_and_assign(reservation, cottage);
    }

    /// One repair attempt: pick an unassigned reservation and a candidate
    /// cottage at random; if the occupants it would evict carry more
    /// priority than the newcomer, proceed only with a small probability;
    /// otherwise evict them and assign.
    #[verifier::loop_isolation(false)]
    fn repair_single(&mut self)
        requires
            old(self).wf(),
            old(self).solution.unallocated@.len() > 0,
        ensures
            final(self).wf(),
            chain_extended(*old(self), *final(self)),
    {
        let reservation = self.random_unallocated();
        let cottage = self.get_random_cottage(reservation);
        proof {
            assert(self.problem.allocation_penalty.possible_targets@[reservation as int]@.contains(
                cottage,
            ));
        }
        let range = self.problem.reservations.range(reservation);
        proof {
            lemma_linked_contiguous(self.problem, self.solution@, cottage as int);
            assert(reservation < self.problem.reservations.spec_reservations());
            assert(self.problem.reservations.stay@[reservation as int] >= 1);
            assert(self.problem.reservations.departure@[reservation as int]
                <= self.solution.timeslots);
            assert(self.problem.allocation_penalty.priority@.len()
                == self.solution.mapping@.len());
        }
        let occupants = self.solution.is_taken_by(cottage, range);

        let prio_new: u64 = self.problem.allocation_penalty.priority[reservation];
        let mut prio_old: u64 = 0;
        let n_occ: usize = occupants.len();
        proof {
            assert(self.solution.timeslots as int <= (self.solution.cottages as int)
                * (self.solution.timeslots as int)) by (nonlinear_arith)
                requires
                    self.solution.cottages >= 1,
                    self.solution.timeslots >= 0,
            {
            }
            assert(n_occ <= 0x10000000);
        }
        let mut j: usize = 0;
        while j < n_occ
            invariant
                j <= n_occ,
                n_occ <= 0x10000000,
                prio_old <= j * (PRIORITY_SCALE as int),
                forall|i: int| 0 <= i < n_occ ==> occupants@[i] < self.solution.mapping@.len(),
                self.wf(),
                n_occ == occupants@.len(),
            decreases n_occ - j,
        {
            let x: usize = occupants[j];
            proof {
                assert((j + 1) * (PRIORITY_SCALE as int) == j * (PRIORITY_SCALE as int)
                    + PRIORITY_SCALE) by (nonlinear_arith);
                assert(j < n_occ && n_occ <= 0x10000000);
                assert(j * (PRIORITY_SCALE as int) <= 0x10000000 * (PRIORITY_SCALE as int))
                    by (nonlinear_arith)
                    requires
                        0 <= j <= 0x10000000,
                {
                }
                assert(self.problem.allocation_penalty.priority@.len()
                    == self.solution.mapping@.len());
                assert(self.problem.allocation_penalty.priority@[x as int] <= PRIORITY_SCALE);
            }
            prio_old = prio_old + self.problem.allocation_penalty.priority[x];
            j += 1;
        }

        if prio_old > prio_new {
            let draw = rng_usize_below(&mut self.rng, ACCEPT_DESPITE_PRIORITY_ONE_IN);
            if draw != 0 {
                proof {
                    assert(self.chain.chain@.take(old(self).chain.chain@.len() as int)
                        =~= old(self).chain.chain@);
                }
                return;
            }
        }

        self.evict_and_assign(reservation, cottage);
    }

    /// Repair the solution: force one placement, then keep attempting
    /// placements until no reservation is left unassigned (or the attempt
    /// ceiling is hit). Every edit goes through the chain, which only grows
    /// and stays fully applied; the reported flag says whether the solution
    /// came out complete.
    #[verifier::loop_isolation(false)]
    pub fn repair(&mut self) -> (complete: bool)
        requires
            old(self).wf(),
            old(self).solution.unallocated@.len() > 0,
        ensures
            final(self).wf(),
            chain_extended(*old(self), *final(self)),
            old(self).chain.chain@.len() < final(self).chain.chain@.len(),
            complete <==> final(self).solution.unallocated@.len() == 0,
    {
        self.repair_single_force();

        let mut fuel: u64 = REPAIR_ATTEMPT_LIMIT;
        while fuel > 0 && self.solution.unallocated.len() > 0
            invariant
                self.wf(),
                chain_extended(*old(self), *self),
                old(self).chain.chain@.len() < self.chain.chain@.len(),
            decreases fuel,
        {
            let ghost pre = *self;
            self.repair_single();
            proof {
                lemma_chain_extended_trans(*old(self), pre, *self);
            }
            fuel -= 1;
        }
        self.solution.unallocated.len() == 0
    }

    /// Propose one neighbor move: evict one random reallocatable
    /// reservation, then repair. The first appended move takes a
    /// reservation from the reallocatable list out of its cottage; a forced
    /// or propagation-forced reservation is never chosen.
    pub fn neighbor(&mut self)
        requires
            old(self).wf(),
            old(self).solution.unallocated@.len() == 0,
            old(self).problem.allocation_penalty.reallocatable_reservations@.len() > 0,
        ensures
            final(self).wf(),
            chain_extended(*old(self), *final(self)),
            old(self).chain.chain@.len() < final(self).chain.chain@.len(),
            final(self).chain.chain@[old(self).chain.chain@.len() as int] is Unassign,
            old(self).problem.allocation_penalty.reallocatable_reservations@.contains(
                final(self).chain.chain@[old(self).chain.chain@.len() as int].spec_target().reservation,
            ),
    {
        broadcast use vstd::set::group_set_axioms;

        let ghost p = self.problem;
        let ghost v0 = self.solution@;
        let ghost chain0 = self.chain.chain@;

        let list = &self.problem.allocation_penalty.reallocatable_reservations;
        let n: usize = list.len();
        let i = rng_usize_below(&mut self.rng, n);
        let reservation: usize = list[i];
        proof {
            assert(p.allocation_penalty.reallocatable_reservations@.contains(reservation));
            assert(reservation < p.allocation_penalty.reservations);
            if v0.mapping[reservation as int] is None {
                assert(old(self).solution.unallocated@.contains(reservation));
            }
            assert(v0.mapping[reservation as int] is Some);
            assert(occupies_exactly(p, v0, reservation as int));
        }
        let modification = Modification::unassign(reservation, &self.problem, &self.solution);
        proof {
            assert(modification.can_apply(p, v0)) by {
                let c = v0.mapping[reservation as int]->0;
                assert(p.reservations.departure@[reservation as int] <= self.solution.timeslots);
                if v0.unallocated.contains(reservation) {
                    assert(old(self).solution.unallocated@.contains(reservation));
                }
                let ar = p.reservations.arrival@[reservation as int];
                let dr = p.reservations.departure@[reservation as int];
                assert forall|d: int| ar <= d < dr implies v0.row(c as int)[d] == Some(
                    reservation,
                ) by {
                    assert(occupies_exactly(p, v0, reservation as int));
                }
            }
            lemma_inst_cost_bounded(*old(self));
        }
        self.chain.add(modification);
        proof {
            let pend = self.chain.chain@.skip(chain0.len() as int);
            assert(pend =~= seq![modification]);
            assert(mods_can_apply(p, v0, pend)) by {
                assert(pend[0] == modification);
                assert(pend.skip(1) =~= Seq::<Modification>::empty());
                assert(mods_can_apply(p, modification.apply(v0), pend.skip(1)));
            }
            assert(self.chain.pending() =~= pend);
        }
        let ghost chain_all = self.chain.chain@;
        self.chain.progress(&self.problem, &mut self.solution);
        proof {
            let pend = chain_all.skip(chain0.len() as int);
            lemma_chain_extend(p, v0, chain0, pend);
            assert(chain_all =~= chain0 + pend);
            assert(self.chain.cost@ =~= spec_cost(p, self.solution@).minus(
                spec_cost(p, mods_unapply(self.solution@, self.chain.chain@)),
            ));
            assert(self.solution@ == mods_apply(v0, pend));
            assert(pend.skip(1) =~= Seq::<Modification>::empty());
            assert(mods_apply(v0, pend) == mods_apply(modification.apply(v0), pend.skip(1)));
            assert(mods_apply(modification.apply(v0), pend.skip(1)) == modification.apply(v0));
            assert(self.solution@.mapping[reservation as int] is None);
            assert(self.solution.unallocated@.contains(reservation));
            if self.solution.unallocated@.len() == 0 {
                assert(false);
            }
            assert(self.chain.chain@.take(chain0.len() as int) =~= chain0);
            assert(self.chain.chain@[chain0.len() as int] == modification);
        }
        let ghost pre = *self;
        self.repair();
        proof {
            lemma_chain_extended_trans(*old(self), pre, *self);
            assert(self.chain.chain@.take(pre.chain.chain@.len() as int)
                == pre.chain.chain@);
            assert(self.chain.chain@.take(pre.chain.chain@.len() as int)[chain0.len() as int]
                == self.chain.chain@[chain0.len() as int]);
            assert(self.chain.chain@[chain0.len() as int] == modification);
        }
    }
}

} // verus!
