//! Per-lane bookkeeping of the sphere-tracing kernel.
//!
//! A batch of `LANES` rays is marched together for at most `MAX_ITERATIONS`
//! steps. At each step the evaluator reports, per lane, whether the distance
//! estimate is within the surface threshold (`near`) and whether it shrank
//! since the previous step (`converging`). A lane is resolved, and its color
//! fixed, at the first step where it is both; lanes still open at the last
//! step of the budget are resolved there. Every lane is resolved exactly once.
use vstd::prelude::*;

verus! {

/// The number of rays marched together.
pub const LANES: usize = 16;

/// The step budget of one march.
pub const MAX_ITERATIONS: usize = 30;

/// The lanes resolved at step `step`, given which lanes were resolved before
/// it and what the evaluator reported.
pub open spec fn resolve_mask(resolved: Seq<bool>, step: nat, near: Seq<bool>, converging: Seq<bool>) -> Seq<bool> {
    Seq::new(
        LANES as nat,
        |i: int| !resolved[i] && ((near[i] && converging[i]) || step + 1 == MAX_ITERATIONS),
    )
}

/// The lanes resolved once the lanes of `mask` are added to `resolved`.
pub open spec fn merge(resolved: Seq<bool>, mask: Seq<bool>) -> Seq<bool> {
    Seq::new(LANES as nat, |i: int| resolved[i] || mask[i])
}

/// Whether every lane is set.
pub open spec fn all_set(mask: Seq<bool>) -> bool {
    forall|i: int| 0 <= i < LANES ==> #[trigger] mask[i]
}

/// No lane set.
pub open spec fn no_lanes() -> Seq<bool> {
    Seq::new(LANES as nat, |i: int| false)
}

/// The lanes resolved after the first `k` steps of a march whose evaluator
/// reported `near[s]` and `converging[s]` at step `s`.
pub open spec fn resolved_after(near: Seq<Seq<bool>>, converging: Seq<Seq<bool>>, k: nat) -> Seq<bool>
    decreases k,
{
    if k == 0 {
        no_lanes()
    } else {
        let before = resolved_after(near, converging, (k - 1) as nat);
        merge(before, resolve_mask(before, (k - 1) as nat, near[k - 1], converging[k - 1]))
    }
}

/// The lanes resolved at step `k` of such a march.
pub open spec fn resolved_at(near: Seq<Seq<bool>>, converging: Seq<Seq<bool>>, k: nat) -> Seq<bool> {
    resolve_mask(resolved_after(near, converging, k), k, near[k as int], converging[k as int])
}

/// The state of one march.
pub struct March {
    resolved: Vec<bool>,
    steps: usize,
}

impl March {
    /// Which lanes are resolved.
    pub closed spec fn resolved(&self) -> Seq<bool> {
        self.resolved@
    }

    /// How many steps were taken.
    pub closed spec fn steps(&self) -> nat {
        self.steps as nat
    }

    /// One flag per lane, a step count within the budget, and every lane
    /// resolved once the budget is spent.
    pub closed spec fn wf(&self) -> bool {
        &&& self.resolved@.len() == LANES
        &&& self.steps <= MAX_ITERATIONS
        &&& self.steps == MAX_ITERATIONS ==> all_set(self.resolved@)
    }

    /// A march before its first step: no lane resolved.
    pub fn new() -> (r: March)
        ensures
            r.wf(),
            r.resolved() == no_lanes(),
            !all_set(r.resolved()),
            r.steps() == 0,
    {
        let mut resolved: Vec<bool> = Vec::new();
        while resolved.len() < LANES
            invariant
                resolved.len() <= LANES,
                forall|i: int| 0 <= i < resolved.len() ==> !resolved@[i],
            decreases LANES - resolved.len(),
        {
            resolved.push(false);
        }
        assert(resolved@ =~= no_lanes());
        assert(!resolved@[0]);
        March { resolved, steps: 0 }
    }

    /// The number of steps taken.
    pub fn steps_taken(&self) -> (r: usize)
        ensures
            r == self.steps(),
    {
        self.steps
    }

    /// Whether lane `lane` is resolved.
    pub fn is_resolved(&self, lane: usize) -> (r: bool)
        requires
            self.wf(),
            lane < LANES,
        ensures
            r == self.resolved()[lane as int],
    {
        self.resolved[lane]
    }

    /// Whether the march is over: every lane is resolved. This is the case
    /// at the latest once the budget is spent.
    pub fn finished(&self) -> (r: bool)
        requires
            self.wf(),
        ensures
            r == all_set(self.resolved()),
            self.steps() == MAX_ITERATIONS ==> r,
    {
        let mut i: usize = 0;
        while i < LANES
            invariant
                i <= LANES,
                self.wf(),
                forall|j: int| 0 <= j < i ==> self.resolved@[j],
            decreases LANES - i,
        {
            if !self.resolved[i] {
                return false;
            }
            i = i + 1;
        }
        true
    }

    /// Takes one step, given what the evaluator reported for each lane.
    /// Returns the lanes resolved at this step: the open lanes that are near
    /// and converging, and at the last step of the budget every open lane.
    pub fn step(&mut self, near: &Vec<bool>, converging: &Vec<bool>) -> (resolve: Vec<bool>)
        requires
            old(self).wf(),
            !all_set(old(self).resolved()),
            near@.len() == LANES,
            converging@.len() == LANES,
        ensures
            final(self).wf(),
            final(self).steps() == old(self).steps() + 1,
            resolve@ == resolve_mask(old(self).resolved(), old(self).steps(), near@, converging@),
            final(self).resolved() == merge(old(self).resolved(), resolve@),
    {
        let last = self.steps + 1 == MAX_ITERATIONS;
        let mut resolve: Vec<bool> = Vec::new();
        let ghost before = self.resolved@;
        let mut i: usize = 0;
        while i < LANES
            invariant
                i <= LANES,
                before.len() == LANES,
                self.resolved@.len() == LANES,
                near@.len() == LANES,
                converging@.len() == LANES,
                self.steps == old(self).steps,
                before == old(self).resolved@,
                last == (self.steps + 1 == MAX_ITERATIONS),
                resolve@.len() == i,
                forall|j: int|
                    0 <= j < i ==> #[trigger] resolve@[j] == resolve_mask(
                        before,
                        self.steps as nat,
                        near@,
                        converging@,
                    )[j],
                forall|j: int| 0 <= j < LANES ==> #[trigger] self.resolved@[j] == if j < i {
                    before[j] || resolve@[j]
                } else {
                    before[j]
                },
            decreases LANES - i,
        {
            let now = !self.resolved[i] && ((near[i] && converging[i]) || last);
            resolve.push(now);
            if now {
                self.resolved.set(i, true);
            }
            i = i + 1;
        }
        assert(resolve@ =~= resolve_mask(before, self.steps as nat, near@, converging@));
        assert(self.resolved@ =~= merge(before, resolve@));
        self.steps = self.steps + 1;
        resolve
    }
}

/// A march resolves every lane within its budget, and each lane at exactly
/// one step, whatever the evaluator reports.
pub proof fn lemma_each_lane_resolved_once(near: Seq<Seq<bool>>, converging: Seq<Seq<bool>>, lane: int)
    requires
        0 <= lane < LANES,
    ensures
        all_set(resolved_after(near, converging, MAX_ITERATIONS as nat)),
        exists|k: nat| k < MAX_ITERATIONS && #[trigger] resolved_at(near, converging, k)[lane],
        forall|k1: nat, k2: nat|
            k1 < MAX_ITERATIONS && k2 < MAX_ITERATIONS && #[trigger] resolved_at(near, converging, k1)[lane]
                && #[trigger] resolved_at(near, converging, k2)[lane] ==> k1 == k2,
{
    lemma_resolved_grows(near, converging, MAX_ITERATIONS as nat, lane);
    let last = (MAX_ITERATIONS - 1) as nat;
    let before = resolved_after(near, converging, last);
    if before[lane] {
        let k = choose|k: nat| k < last && #[trigger] resolved_at(near, converging, k)[lane];
        assert(resolved_at(near, converging, k)[lane]);
    } else {
        assert(resolved_at(near, converging, last)[lane]);
    }
    assert forall|i: int| 0 <= i < LANES implies #[trigger] resolved_after(
        near,
        converging,
        MAX_ITERATIONS as nat,
    )[i] by {
        lemma_resolved_grows(near, converging, MAX_ITERATIONS as nat, i);
        let b = resolved_after(near, converging, last);
        if !b[i] {
            assert(resolved_at(near, converging, last)[i]);
        }
    }
    assert forall|k1: nat, k2: nat|
        k1 < MAX_ITERATIONS && k2 < MAX_ITERATIONS && #[trigger] resolved_at(near, converging, k1)[lane]
            && #[trigger] resolved_at(near, converging, k2)[lane] implies k1 == k2 by {
        if k1 < k2 {
            lemma_resolved_stays(near, converging, k1, k2, lane);
        } else if k2 < k1 {
            lemma_resolved_stays(near, converging, k2, k1, lane);
        }
    }
}

/// A lane is resolved after `k` steps exactly when it was resolved at one
/// of them.
proof fn lemma_resolved_grows(near: Seq<Seq<bool>>, converging: Seq<Seq<bool>>, k: nat, lane: int)
    requires
        0 <= lane < LANES,
    ensures
        resolved_after(near, converging, k)[lane] <==> exists|j: nat|
            j < k && #[trigger] resolved_at(near, converging, j)[lane],
    decreases k,
{
    if k > 0 {
        lemma_resolved_grows(near, converging, (k - 1) as nat, lane);
        let j = (k - 1) as nat;
        if resolved_after(near, converging, k)[lane] && !resolved_after(near, converging, j)[lane] {
            assert(resolved_at(near, converging, j)[lane]);
        }
        if exists|i: nat| i < k && #[trigger] resolved_at(near, converging, i)[lane] {
            let i = choose|i: nat| i < k && #[trigger] resolved_at(near, converging, i)[lane];
            if i < j {
                assert(resolved_after(near, converging, j)[lane]);
            }
        }
    }
}

/// Once a lane is resolved at step `k1`, it is not resolved again at a later
/// step `k2`.
proof fn lemma_resolved_stays(near: Seq<Seq<bool>>, converging: Seq<Seq<bool>>, k1: nat, k2: nat, lane: int)
    requires
        0 <= lane < LANES,
        k1 < k2,
        resolved_at(near, converging, k1)[lane],
    ensures
        !resolved_at(near, converging, k2)[lane],
{
    lemma_resolved_grows(near, converging, k2, lane);
}

/// A march in which no lane ever comes near a surface resolves nothing
/// before the last step of its budget, and every lane at that step.
pub proof fn lemma_missed_rays_resolved_at_budget(near: Seq<Seq<bool>>, converging: Seq<Seq<bool>>)
    requires
        forall|k: int, i: int| 0 <= k < MAX_ITERATIONS && 0 <= i < LANES ==> !#[trigger] near[k][i],
    ensures
        forall|k: nat, i: int|
            k + 1 < MAX_ITERATIONS && 0 <= i < LANES ==> !#[trigger] resolved_at(near, converging, k)[i],
        all_set(resolved_at(near, converging, (MAX_ITERATIONS - 1) as nat)),
{
    assert forall|k: nat, i: int|
        k + 1 < MAX_ITERATIONS && 0 <= i < LANES implies !#[trigger] resolved_at(near, converging, k)[i] by {
        assert(!near[k as int][i]);
    }
    let last = (MAX_ITERATIONS - 1) as nat;
    assert forall|i: int| 0 <= i < LANES implies #[trigger] resolved_at(near, converging, last)[i] by {
        lemma_resolved_grows(near, converging, last, i);
        if resolved_after(near, converging, last)[i] {
            let j = choose|j: nat| j < last && #[trigger] resolved_at(near, converging, j)[i];
            assert(!near[j as int][i]);
        }
    }
}

} // verus!
