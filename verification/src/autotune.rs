//! Adjusting the number of active workers to how full their result queue is.
//!
//! A full queue means that what follows cannot keep up, so a worker is shed; an
//! empty one that it is starved, so a worker is restored. Growing back takes
//! longer than shedding.
use vstd::prelude::*;

verus! {

/// How full the result queue was when a sample was taken.
#[derive(Debug, Clone, Copy, PartialEq, Eq, Structural)]
pub enum Band {
    /// At or above the upper mark.
    High,
    /// At or below the lower mark, and not at or above the upper one.
    Low,
    /// Neither.
    Mid,
}

/// How fast to react.
#[derive(Debug, Clone, Copy, PartialEq, Eq, Structural)]
pub struct Policy {
    /// High samples in a row before a worker is shed.
    pub shed_streak: u32,
    /// Low samples in a row before a worker is restored.
    pub grow_streak: u32,
    /// Samples to ignore after a change.
    pub cooldown: u32,
}

impl Default for Policy {
    fn default() -> (p: Policy)
        ensures
            p == (Policy { shed_streak: 3, grow_streak: 8, cooldown: 4 }),
    {
        Policy { shed_streak: 3, grow_streak: 8, cooldown: 4 }
    }
}

impl Policy {
    /// The policy with the given settings in place of its own.
    pub fn with_overrides(self, shed_streak: Option<u32>, grow_streak: Option<u32>, cooldown: Option<u32>) -> (p: Policy)
        ensures
            p.shed_streak == if shed_streak is Some { shed_streak->Some_0 } else { self.shed_streak },
            p.grow_streak == if grow_streak is Some { grow_streak->Some_0 } else { self.grow_streak },
            p.cooldown == if cooldown is Some { cooldown->Some_0 } else { self.cooldown },
    {
        let mut p: Policy = self;
        if let Some(v) = shed_streak {
            p.shed_streak = v;
        }
        if let Some(v) = grow_streak {
            p.grow_streak = v;
        }
        if let Some(v) = cooldown {
            p.cooldown = v;
        }
        p
    }
}

/// The state of an [`AutoTune`].
pub ghost struct TuneState {
    pub policy: Policy,
    pub ceiling: int,
    pub active: int,
    pub high_streak: int,
    pub low_streak: int,
    pub cooldown: int,
}

/// Between one worker and the ceiling are active; no count is negative.
pub open spec fn in_bounds(s: TuneState) -> bool {
    &&& 1 <= s.active <= s.ceiling
    &&& 0 <= s.high_streak
    &&& 0 <= s.low_streak
    &&& 0 <= s.cooldown
}

/// The state after a change to `active` workers.
pub open spec fn changed(s: TuneState, active: int) -> TuneState {
    TuneState { active, high_streak: 0, low_streak: 0, cooldown: s.policy.cooldown as int, ..s }
}

/// The state after a sample.
pub open spec fn observed(s: TuneState, band: Band) -> TuneState {
    if s.cooldown > 0 {
        TuneState { cooldown: s.cooldown - 1, ..s }
    } else {
        match band {
            Band::High => if s.high_streak + 1 >= s.policy.shed_streak && s.active > 1 {
                changed(s, s.active - 1)
            } else {
                TuneState { high_streak: s.high_streak + 1, low_streak: 0, ..s }
            },
            Band::Low => if s.low_streak + 1 >= s.policy.grow_streak && s.active < s.ceiling {
                changed(s, s.active + 1)
            } else {
                TuneState { low_streak: s.low_streak + 1, high_streak: 0, ..s }
            },
            Band::Mid => TuneState { high_streak: 0, low_streak: 0, ..s },
        }
    }
}

/// Decides from samples of the result queue how many workers should be active.
#[derive(Debug)]
pub struct AutoTune {
    policy: Policy,
    ceiling: usize,
    active: usize,
    high_streak: u32,
    low_streak: u32,
    cooldown: u32,
}

impl View for AutoTune {
    type V = TuneState;

    closed spec fn view(&self) -> TuneState {
        TuneState {
            policy: self.policy,
            ceiling: self.ceiling as int,
            active: self.active as int,
            high_streak: self.high_streak as int,
            low_streak: self.low_streak as int,
            cooldown: self.cooldown as int,
        }
    }
}

impl AutoTune {
    pub open spec fn wf(&self) -> bool {
        in_bounds(self@)
    }

    /// Starts with all workers active.
    pub fn new(ceiling: usize, policy: Policy) -> (t: AutoTune)
        ensures
            t.wf(),
            t@ == (TuneState {
                policy,
                ceiling: if ceiling >= 1 {
                    ceiling as int
                } else {
                    1
                },
                active: if ceiling >= 1 {
                    ceiling as int
                } else {
                    1
                },
                high_streak: 0,
                low_streak: 0,
                cooldown: 0,
            }),
    {
        let n: usize = if ceiling >= 1 {
            ceiling
        } else {
            1
        };
        AutoTune { policy, ceiling: n, active: n, high_streak: 0, low_streak: 0, cooldown: 0 }
    }

    /// How many workers should be active.
    pub fn active(&self) -> (n: usize)
        ensures
            n == self@.active,
    {
        self.active
    }

    /// Takes in a sample. Returns how many workers should be active, if that changed.
    pub fn observe(&mut self, band: Band) -> (r: Option<usize>)
        requires
            old(self).wf(),
            old(self)@.high_streak < u32::MAX,
            old(self)@.low_streak < u32::MAX,
        ensures
            final(self).wf(),
            final(self)@ == observed(old(self)@, band),
            1 <= final(self)@.active <= final(self)@.ceiling,
            final(self)@.ceiling == old(self)@.ceiling,
            r == if final(self)@.active != old(self)@.active {
                Some(final(self)@.active as usize)
            } else {
                None
            },
            r matches Some(n) ==> match band {
                Band::High => n == old(self)@.active - 1,
                Band::Low => n == old(self)@.active + 1,
                Band::Mid => false,
            },
    {
        if self.cooldown > 0 {
            self.cooldown = self.cooldown - 1;
            return None;
        }
        match band {
            Band::High => {
                self.high_streak = self.high_streak + 1;
                self.low_streak = 0;
                if self.high_streak >= self.policy.shed_streak && self.active > 1 {
                    self.active = self.active - 1;
                    self.high_streak = 0;
                    self.cooldown = self.policy.cooldown;
                    return Some(self.active);
                }
            },
            Band::Low => {
                self.low_streak = self.low_streak + 1;
                self.high_streak = 0;
                if self.low_streak >= self.policy.grow_streak && self.active < self.ceiling {
                    self.active = self.active + 1;
                    self.low_streak = 0;
                    self.cooldown = self.policy.cooldown;
                    return Some(self.active);
                }
            },
            Band::Mid => {
                self.high_streak = 0;
                self.low_streak = 0;
            },
        }
        None
    }
}

/// The state after a run of samples.
pub open spec fn observed_all(s: TuneState, bands: Seq<Band>) -> TuneState
    decreases bands.len(),
{
    if bands.len() == 0 {
        s
    } else {
        observed(observed_all(s, bands.drop_last()), bands.last())
    }
}

/// Whatever the samples, between one worker and the ceiling stay active.
pub proof fn law_active_in_bounds(s: TuneState, bands: Seq<Band>)
    requires
        in_bounds(s),
    ensures
        in_bounds(observed_all(s, bands)),
        observed_all(s, bands).ceiling == s.ceiling,
        observed_all(s, bands).policy == s.policy,
    decreases bands.len(),
{
    if bands.len() > 0 {
        law_active_in_bounds(s, bands.drop_last());
    }
}

/// After a change nothing changes until the cooldown is over.
pub proof fn law_cooldown_holds(s: TuneState, bands: Seq<Band>)
    requires
        bands.len() <= s.cooldown,
    ensures
        observed_all(s, bands).active == s.active,
        observed_all(s, bands).cooldown == s.cooldown - bands.len(),
    decreases bands.len(),
{
    if bands.len() > 0 {
        law_cooldown_holds(s, bands.drop_last());
    }
}

/// Samples in between never change the number of workers.
pub proof fn law_mid_holds(s: TuneState, bands: Seq<Band>)
    requires
        forall|i: int| 0 <= i < bands.len() ==> bands[i] == Band::Mid,
    ensures
        observed_all(s, bands).active == s.active,
    decreases bands.len(),
{
    if bands.len() > 0 {
        law_mid_holds(s, bands.drop_last());
    }
}

/// The same sample `n` times.
pub open spec fn sustained(band: Band, n: nat) -> Seq<Band> {
    Seq::new(n, |i: int| band)
}

/// A setting below 1 acts as 1.
pub open spec fn at_least_one(n: int) -> int {
    if n > 1 {
        n
    } else {
        1
    }
}

/// High samples in a row after which one worker is left: those that are
/// ignored, a streak for the first worker to go, and a streak and a cooldown
/// for each other.
pub open spec fn samples_to_floor(s: TuneState) -> int {
    if s.active <= 1 {
        0
    } else {
        s.cooldown + at_least_one(s.policy.shed_streak - s.high_streak) + (s.active - 2) * (at_least_one(
            s.policy.shed_streak as int,
        ) + s.policy.cooldown)
    }
}

/// Low samples in a row after which all workers are back.
pub open spec fn samples_to_ceiling(s: TuneState) -> int {
    if s.active >= s.ceiling {
        0
    } else {
        s.cooldown + at_least_one(s.policy.grow_streak - s.low_streak) + (s.ceiling - s.active - 1) * (at_least_one(
            s.policy.grow_streak as int,
        ) + s.policy.cooldown)
    }
}

proof fn lemma_high_sample(s: TuneState)
    requires
        in_bounds(s),
    ensures
        in_bounds(observed(s, Band::High)),
        s.active > 1 ==> samples_to_floor(observed(s, Band::High)) <= samples_to_floor(s) - 1,
        s.active == 1 ==> observed(s, Band::High).active == 1,
{
    let step = at_least_one(s.policy.shed_streak as int) + s.policy.cooldown;
    assert((s.active - 2) * step == (s.active - 3) * step + step) by (nonlinear_arith);
    assert(0 * step == 0) by (nonlinear_arith);
}

proof fn lemma_low_sample(s: TuneState)
    requires
        in_bounds(s),
    ensures
        in_bounds(observed(s, Band::Low)),
        observed(s, Band::Low).ceiling == s.ceiling,
        s.active < s.ceiling ==> samples_to_ceiling(observed(s, Band::Low)) <= samples_to_ceiling(s) - 1,
        s.active == s.ceiling ==> observed(s, Band::Low).active == s.ceiling,
{
    let step = at_least_one(s.policy.grow_streak as int) + s.policy.cooldown;
    let n = s.ceiling - s.active - 1;
    assert(n * step == (n - 1) * step + step) by (nonlinear_arith);
    assert(0 * step == 0) by (nonlinear_arith);
}

proof fn lemma_floor_nears(s: TuneState, n: nat)
    requires
        in_bounds(s),
    ensures
        in_bounds(observed_all(s, sustained(Band::High, n))),
        ({
            let t = observed_all(s, sustained(Band::High, n));
            t.active == 1 || samples_to_floor(t) <= samples_to_floor(s) - n
        }),
    decreases n,
{
    if n > 0 {
        let before = sustained(Band::High, (n - 1) as nat);
        assert(sustained(Band::High, n).drop_last() =~= before);
        lemma_floor_nears(s, (n - 1) as nat);
        lemma_high_sample(observed_all(s, before));
    }
}

proof fn lemma_ceiling_nears(s: TuneState, n: nat)
    requires
        in_bounds(s),
    ensures
        in_bounds(observed_all(s, sustained(Band::Low, n))),
        ({
            let t = observed_all(s, sustained(Band::Low, n));
            t.ceiling == s.ceiling && (t.active == t.ceiling || samples_to_ceiling(t) <= samples_to_ceiling(s) - n)
        }),
    decreases n,
{
    if n > 0 {
        let before = sustained(Band::Low, (n - 1) as nat);
        assert(sustained(Band::Low, n).drop_last() =~= before);
        lemma_ceiling_nears(s, (n - 1) as nat);
        lemma_low_sample(observed_all(s, before));
    }
}

/// A queue that stays full sheds all workers but one.
pub proof fn law_sustained_high_sheds(s: TuneState, n: nat)
    requires
        in_bounds(s),
        n >= samples_to_floor(s),
    ensures
        observed_all(s, sustained(Band::High, n)).active == 1,
{
    lemma_floor_nears(s, n);
    let t = observed_all(s, sustained(Band::High, n));
    if t.active > 1 {
        let step = at_least_one(t.policy.shed_streak as int) + t.policy.cooldown;
        assert((t.active - 2) * step >= 0) by (nonlinear_arith)
            requires
                t.active >= 2,
                step >= 1,
        ;
    }
}

/// A queue that stays empty brings all workers back.
pub proof fn law_sustained_low_restores(s: TuneState, n: nat)
    requires
        in_bounds(s),
        n >= samples_to_ceiling(s),
    ensures
        observed_all(s, sustained(Band::Low, n)).active == s.ceiling,
{
    lemma_ceiling_nears(s, n);
    let t = observed_all(s, sustained(Band::Low, n));
    if t.active < t.ceiling {
        let step = at_least_one(t.policy.grow_streak as int) + t.policy.cooldown;
        assert((t.ceiling - t.active - 1) * step >= 0) by (nonlinear_arith)
            requires
                t.ceiling - t.active - 1 >= 0,
                step >= 1,
        ;
    }
}

/// How many samples at the end are `band`, with no other one between.
pub open spec fn run_of(bands: Seq<Band>, band: Band) -> nat
    decreases bands.len(),
{
    if bands.len() == 0 || bands.last() != band {
        0
    } else {
        1 + run_of(bands.drop_last(), band)
    }
}

/// As at the start, and after a change.
pub open spec fn rested(s: TuneState) -> bool {
    s.high_streak == 0 && s.low_streak == 0
}

proof fn lemma_streaks(s: TuneState, bands: Seq<Band>)
    requires
        in_bounds(s),
        rested(s),
    ensures
        ({
            let t = observed_all(s, bands);
            &&& in_bounds(t)
            &&& t.policy == s.policy
            &&& t.high_streak <= run_of(bands, Band::High)
            &&& t.low_streak <= run_of(bands, Band::Low)
            &&& t.cooldown > 0 ==> rested(t)
        }),
    decreases bands.len(),
{
    law_active_in_bounds(s, bands);
    if bands.len() > 0 {
        lemma_streaks(s, bands.drop_last());
    }
}

/// A worker is shed only after as many high samples in a row as the policy asks
/// for, and one at a time; it is restored only after as many low ones.
pub proof fn law_change_needs_streak(s: TuneState, bands: Seq<Band>)
    requires
        in_bounds(s),
        rested(s),
        bands.len() > 0,
    ensures
        ({
            let before = observed_all(s, bands.drop_last()).active;
            let after = observed_all(s, bands).active;
            &&& after < before ==> after == before - 1 && run_of(bands, Band::High) >= at_least_one(
                s.policy.shed_streak as int,
            )
            &&& after > before ==> after == before + 1 && run_of(bands, Band::Low) >= at_least_one(
                s.policy.grow_streak as int,
            )
        }),
{
    lemma_streaks(s, bands.drop_last());
}

/// As many high samples in a row as the policy asks for, and no fewer, shed one
/// worker; after that as many samples are ignored as it says.
pub proof fn law_streak_sheds(s: TuneState, n: nat)
    requires
        in_bounds(s),
        rested(s),
        s.cooldown == 0,
        s.active > 1,
        n <= at_least_one(s.policy.shed_streak as int),
    ensures
        ({
            let t = observed_all(s, sustained(Band::High, n));
            if n < at_least_one(s.policy.shed_streak as int) {
                t.active == s.active && t.cooldown == 0 && t.high_streak == n
            } else {
                t.active == s.active - 1 && t.cooldown == s.policy.cooldown && rested(t)
            }
        }),
    decreases n,
{
    law_active_in_bounds(s, sustained(Band::High, n));
    if n > 0 {
        assert(sustained(Band::High, n).drop_last() =~= sustained(Band::High, (n - 1) as nat));
        law_active_in_bounds(s, sustained(Band::High, (n - 1) as nat));
        law_streak_sheds(s, (n - 1) as nat);
    }
}

/// As many low samples in a row as the policy asks for, and no fewer, restore one
/// worker; after that as many samples are ignored as it says.
pub proof fn law_streak_restores(s: TuneState, n: nat)
    requires
        in_bounds(s),
        rested(s),
        s.cooldown == 0,
        s.active < s.ceiling,
        n <= at_least_one(s.policy.grow_streak as int),
    ensures
        ({
            let t = observed_all(s, sustained(Band::Low, n));
            if n < at_least_one(s.policy.grow_streak as int) {
                t.active == s.active && t.cooldown == 0 && t.low_streak == n
            } else {
                t.active == s.active + 1 && t.cooldown == s.policy.cooldown && rested(t)
            }
        }),
    decreases n,
{
    law_active_in_bounds(s, sustained(Band::Low, n));
    if n > 0 {
        assert(sustained(Band::Low, n).drop_last() =~= sustained(Band::Low, (n - 1) as nat));
        law_active_in_bounds(s, sustained(Band::Low, (n - 1) as nat));
        law_streak_restores(s, (n - 1) as nat);
    }
}

} // verus!
