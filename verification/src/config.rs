use vstd::prelude::*;

verus! {

/// Values learned by the agent are fixed-point numbers: an `i64` counts
/// millionths of a unit, so `SCALE` stands for 1.0.
pub const SCALE: i64 = 1_000_000;

/// Every learned value stays within 100.0 units of zero: rewards are one
/// unit, search scores at most ten, and the seeding sentinel is -100.0.
pub const VAL_BOUND: i64 = 100_000_000;

/// Fresh move tables are seeded with independent jitter below 0.15 units, to
/// break ties before any learning occurs.
pub const JITTER_BOUND: i64 = 150_000;

/// The sentinel value (-100.0) a search-seeded table starts from, low enough
/// that any exact score overwrites it as the maximum.
pub const SENTINEL_VALUE: i64 = -100_000_000;

/// Default number of training episodes in one session.
pub const NUM_EPISODES: usize = 500_000;

/// The exploration rate never decays below 0.1.
pub const EXPLORATION_FLOOR: i64 = 100_000;

/// The weighting exponent never grows beyond 10.0.
pub const K_CEILING: i64 = 10_000_000;

/// The run's hyperparameters, threaded explicitly through the policies and
/// the orchestrator: exploration rate, learning rate, discount factor and the
/// weighting exponent, all fixed-point, plus the episode budget.
pub struct Config {
    pub exploration_rate: i64,
    pub learning_rate: i64,
    pub discount_rate: i64,
    pub k: i64,
    pub num_episodes: usize,
}

impl Config {
    /// All rates lie in [0, 1]; the exponent stays within its ceiling.
    pub open spec fn wf(&self) -> bool {
        &&& 0 <= self.exploration_rate <= SCALE
        &&& 0 <= self.learning_rate <= SCALE
        &&& 0 <= self.discount_rate <= SCALE
        &&& 0 <= self.k <= K_CEILING
    }

    /// The starting schedule: exploration 0.9, learning rate 0.1, discount
    /// 0.9, exponent 0.05.
    pub fn new() -> (r: Self)
        ensures
            r.wf(),
            r.exploration_rate == 900_000,
            r.learning_rate == 100_000,
            r.discount_rate == 900_000,
            r.k == 50_000,
            r.num_episodes == NUM_EPISODES,
    {
        Config {
            exploration_rate: 900_000,
            learning_rate: 100_000,
            discount_rate: 900_000,
            k: 50_000,
            num_episodes: NUM_EPISODES,
        }
    }

    /// One decay step of the exploration rate: 0.1 lower, stopping at the
    /// floor.
    pub fn decay_exploration(&mut self)
        requires
            old(self).wf(),
        ensures
            final(self).wf(),
            final(self).exploration_rate == if old(self).exploration_rate > EXPLORATION_FLOOR {
                old(self).exploration_rate - 100_000
            } else {
                old(self).exploration_rate as int
            },
            final(self).learning_rate == old(self).learning_rate,
            final(self).discount_rate == old(self).discount_rate,
            final(self).k == old(self).k,
            final(self).num_episodes == old(self).num_episodes,
    {
        if self.exploration_rate > EXPLORATION_FLOOR {
            self.exploration_rate = self.exploration_rate - 100_000;
        }
    }

    /// One sharpening step of the weighting exponent: 0.05 higher, stopping
    /// at the ceiling.
    pub fn raise_k(&mut self)
        requires
            old(self).wf(),
        ensures
            final(self).wf(),
            final(self).k == if old(self).k + 50_000 <= K_CEILING {
                old(self).k + 50_000
            } else {
                old(self).k as int
            },
            final(self).exploration_rate == old(self).exploration_rate,
            final(self).learning_rate == old(self).learning_rate,
            final(self).discount_rate == old(self).discount_rate,
            final(self).num_episodes == old(self).num_episodes,
    {
        if self.k + 50_000 <= K_CEILING {
            self.k = self.k + 50_000;
        }
    }
}

/// In the plain training schedule the sharpened policy takes over after this
/// many episodes.
pub const PLAIN_POLICY_SWITCH: usize = 200_000;

/// In the search-opponent schedule the sharpened policy takes over earlier.
pub const SEARCH_POLICY_SWITCH: usize = 10_000;

/// The exploration rate after `n` decay steps: each step takes 0.1 off until
/// the floor is reached.
pub open spec fn spec_decayed_exploration(e: int, n: nat) -> int
    decreases n,
{
    if n == 0 {
        e
    } else {
        let p = spec_decayed_exploration(e, (n - 1) as nat);
        if p > EXPLORATION_FLOOR {
            p - 100_000
        } else {
            p
        }
    }
}

/// The weighting exponent after `n` sharpening steps: each step adds 0.05
/// until the ceiling blocks it.
pub open spec fn spec_raised_k(k: int, n: nat) -> int
    decreases n,
{
    if n == 0 {
        k
    } else {
        let p = spec_raised_k(k, (n - 1) as nat);
        if p + 50_000 <= K_CEILING {
            p + 50_000
        } else {
            p
        }
    }
}

/// How many episode counters in `lo..=hi` trigger a schedule step: those past
/// the warmup and on the period.
pub open spec fn schedule_points(lo: int, hi: int, warmup: int, period: int) -> nat
    decreases hi - lo + 1,
{
    if lo > hi {
        0
    } else {
        (if lo > warmup && lo % period == 0 {
            1nat
        } else {
            0nat
        }) + schedule_points(lo + 1, hi, warmup, period)
    }
}


/// Unfolding a schedule count from its high end.
pub proof fn lemma_schedule_points_step(lo: int, hi: int, warmup: int, period: int)
    requires
        lo <= hi,
    ensures
        schedule_points(lo, hi, warmup, period) == schedule_points(lo, hi - 1, warmup, period) + (
        if hi > warmup && hi % period == 0 {
            1nat
        } else {
            0nat
        }),
    decreases hi - lo,
{
    if lo < hi {
        lemma_schedule_points_step(lo + 1, hi, warmup, period);
        assert(schedule_points(lo, hi, warmup, period) == (
        if lo > warmup && lo % period == 0 {
            1nat
        } else {
            0nat
        }) + schedule_points(lo + 1, hi, warmup, period));
        assert(schedule_points(lo, hi - 1, warmup, period) == (
        if lo > warmup && lo % period == 0 {
            1nat
        } else {
            0nat
        }) + schedule_points(lo + 1, hi - 1, warmup, period));
    } else {
        assert(schedule_points(lo + 1, hi, warmup, period) == 0);
        assert(schedule_points(lo, hi - 1, warmup, period) == 0);
    }
}

/// The schedules are monotone and bounded: the exploration rate never rises
/// and never decays past its floor; the exponent never falls and never grows
/// past its ceiling.
pub proof fn lemma_schedules_monotone(e: int, k: int, n: nat)
    ensures
        spec_decayed_exploration(e, n) <= e,
        e > EXPLORATION_FLOOR - 100_000 ==> spec_decayed_exploration(e, n) > EXPLORATION_FLOOR
            - 100_000,
        e >= EXPLORATION_FLOOR && (e - EXPLORATION_FLOOR) % 100_000 == 0
            ==> spec_decayed_exploration(e, n) >= EXPLORATION_FLOOR && (spec_decayed_exploration(
            e,
            n,
        ) - EXPLORATION_FLOOR) % 100_000 == 0,
        spec_raised_k(k, n) >= k,
        k <= K_CEILING ==> spec_raised_k(k, n) <= K_CEILING,
    decreases n,
{
    if n > 0 {
        lemma_schedules_monotone(e, k, (n - 1) as nat);
    }
}

} // verus!
