//! The barrier that holds a start back until the clock is synchronized.
//!
//! Nothing may be stored with a time that nobody can stand behind. The barrier polls the kernel's own
//! estimate of the clock's error, and opens after a run of good readings. Its budget is counted in
//! polls and never measured on the clock it waits for, which a synchronization may step.

use vstd::prelude::*;

use crate::collector::service_laws::law_trailing_readings_are_good;
use crate::collector::sync::{
    law_streak_counts_contiguous_readings, streak_after, streak_over, trailing_good,
};
use crate::text::{decimal, decimal_i64, decimal_u64, signed_decimal};
use crate::time::{Duration, NANOS_PER_SEC};

verus! {

/// Five seconds. The kernel's estimate grows between updates of a healthy clock, so a tighter bound
/// would flap.
pub const DEFAULT_THRESHOLD_MICROS: i64 = 5_000_000;

pub const DEFAULT_POLL_INTERVAL_SECS: u64 = 5;

pub const DEFAULT_MAX_POLLS: u32 = 60;

pub const DEFAULT_CONSECUTIVE: u32 = 3;

/// The parameters of the barrier.
#[derive(Debug, Clone, Copy, PartialEq, Eq, Structural)]
pub struct GateSettings {
    pub threshold_micros: i64,
    pub poll_interval: Duration,
    pub max_polls: u32,
    pub consecutive: u32,
}

/// What to do after a poll.
#[derive(Debug, Clone, Copy, PartialEq, Eq, Structural)]
pub enum Outcome {
    Ready,
    KeepWaiting,
    GiveUp,
}

/// Whether the error is below the threshold.
pub fn is_good(error_micros: i64, threshold_micros: i64) -> (r: bool)
    ensures
        r == (error_micros < threshold_micros),
{
    error_micros < threshold_micros
}

/// A single bad poll resets the run.
pub fn next_streak(streak: u32, good: bool) -> (r: u32)
    ensures
        r == streak_after(streak, good),
{
    if good {
        streak.saturating_add(1)
    } else {
        0
    }
}

/// What follows from a run of good readings on poll number `poll`, counted from zero. A good last
/// poll wins over giving up.
pub open spec fn outcome_of(streak: int, consecutive: u32, poll: int, max_polls: u32) -> Outcome {
    if streak >= consecutive {
        Outcome::Ready
    } else if poll + 1 >= max_polls {
        Outcome::GiveUp
    } else {
        Outcome::KeepWaiting
    }
}

/// What follows from a run of good readings on poll number `poll`, counted from zero.
pub fn outcome(streak: u32, consecutive: u32, poll: u32, max_polls: u32) -> (r: Outcome)
    requires
        poll < u32::MAX,
    ensures
        r == outcome_of(streak as int, consecutive, poll as int, max_polls),
{
    if streak >= consecutive {
        Outcome::Ready
    } else if poll + 1 >= max_polls {
        Outcome::GiveUp
    } else {
        Outcome::KeepWaiting
    }
}

/// Which of the readings are good.
pub open spec fn goods(readings: Seq<i64>, threshold_micros: i64) -> Seq<bool> {
    Seq::new(readings.len(), |i: int| readings[i] < threshold_micros)
}

/// The barrier while it waits. Its view is the readings it was given so far.
pub struct Gate {
    settings: GateSettings,
    streak: u32,
    polls: u32,
    last_error: Option<i64>,
    readings: Ghost<Seq<i64>>,
}

impl Gate {
    pub closed spec fn view(&self) -> Seq<i64> {
        self.readings@
    }

    pub closed spec fn settings(&self) -> GateSettings {
        self.settings
    }

    #[verifier::type_invariant]
    spec fn inv(self) -> bool {
        &&& self.polls == self.readings@.len()
        &&& self.streak == streak_over(goods(self.readings@, self.settings.threshold_micros))
        &&& self.last_error == if self.readings@.len() == 0 {
            None
        } else {
            Some(self.readings@.last())
        }
    }

    /// A barrier that was given no reading yet.
    pub fn new(settings: GateSettings) -> (r: Gate)
        ensures
            r@ == Seq::<i64>::empty(),
            r.settings() == settings,
    {
        proof {
            assert(goods(Seq::empty(), settings.threshold_micros) =~= Seq::empty());
        }
        Gate { settings, streak: 0, polls: 0, last_error: None, readings: Ghost(Seq::empty()) }
    }

    /// Whether another reading is to be taken.
    pub fn wants_poll(&self) -> (r: bool)
        ensures
            r == (self@.len() < self.settings().max_polls),
    {
        proof {
            use_type_invariant(self);
        }
        self.polls < self.settings.max_polls
    }

    /// Takes one reading, and says what to do next: the barrier opens exactly when the last
    /// `consecutive` readings in a row are good, and gives up on the last poll of its budget.
    pub fn observe(self, error_micros: i64) -> (r: (Gate, Outcome))
        requires
            self@.len() < self.settings().max_polls,
        ensures
            r.0@ == self@.push(error_micros),
            r.0.settings() == self.settings(),
            r.1 == outcome_of(
                trailing_good(goods(self@.push(error_micros), self.settings().threshold_micros)) as int,
                self.settings().consecutive,
                self@.len() as int,
                self.settings().max_polls,
            ),
    {
        proof {
            use_type_invariant(&self);
        }
        let settings = self.settings;
        let streak: u32 = next_streak(self.streak, is_good(error_micros, settings.threshold_micros));
        let ghost before = self.readings@;
        let ghost now = before.push(error_micros);
        proof {
            let g = goods(now, settings.threshold_micros);
            assert(g.drop_last() =~= goods(before, settings.threshold_micros));
            law_streak_counts_contiguous_readings(g);
        }
        let verdict = outcome(streak, settings.consecutive, self.polls, settings.max_polls);
        (
            Gate {
                settings,
                streak,
                polls: self.polls + 1,
                last_error: Some(error_micros),
                readings: Ghost(now),
            },
            verdict,
        )
    }

    /// The words with which a start is refused. They name the last reading, which tells a clock that
    /// nothing has set from a threshold that is too tight.
    pub fn refusal(&self) -> (r: String)
        requires
            self.settings().max_polls * (self.settings().poll_interval@ / NANOS_PER_SEC as nat) <= u64::MAX,
        ensures
            r@ == refusal_text(self.settings(), if self@.len() == 0 { None } else { Some(self@.last()) }),
    {
        proof {
            use_type_invariant(self);
        }
        let secs: u64 = self.settings.max_polls as u64 * self.settings.poll_interval.as_secs();
        let mut out = "clock not synchronized after ".to_owned();
        out.append(decimal_u64(self.settings.max_polls as u64).as_str());
        out.append(" polls (");
        out.append(decimal_u64(secs).as_str());
        out.append("s): clock_error_us=");
        match self.last_error {
            None => out.append("unknown"),
            Some(error) => out.append(decimal_i64(error).as_str()),
        }
        out.append(" exceeds threshold_us=");
        out.append(decimal_i64(self.settings.threshold_micros).as_str());
        out.append("; refusing to start");
        out
    }
}

/// The words with which a start is refused.
pub open spec fn refusal_text(settings: GateSettings, last_error: Option<i64>) -> Seq<char> {
    "clock not synchronized after "@ + decimal(settings.max_polls as nat) + " polls ("@ + decimal(
        (settings.max_polls * (settings.poll_interval@ / NANOS_PER_SEC as nat)) as nat,
    ) + "s): clock_error_us="@ + (match last_error {
        None => "unknown"@,
        Some(error) => signed_decimal(error as int),
    }) + " exceeds threshold_us="@ + signed_decimal(settings.threshold_micros as int) + "; refusing to start"@
}

/// Whatever the readings, the barrier ends within its budget; and where at least one good reading is
/// asked for, it never opens on a bad one.
pub proof fn law_gate_fails_closed(readings: Seq<i64>, settings: GateSettings)
    requires
        0 < readings.len() <= settings.max_polls,
    ensures
        ({
            let verdict = outcome_of(
                trailing_good(goods(readings, settings.threshold_micros)) as int,
                settings.consecutive,
                readings.len() - 1,
                settings.max_polls,
            );
            &&& readings.len() == settings.max_polls ==> verdict != Outcome::KeepWaiting
            &&& settings.consecutive > 0 && readings.last() >= settings.threshold_micros ==> verdict != Outcome::Ready
        }),
{
}

/// The barrier opens exactly where the last readings, as many as are asked for, all lie below the
/// threshold; else it gives up with the last poll of its budget, and not before.
pub proof fn law_the_barrier_opens_on_good_readings(readings: Seq<i64>, settings: GateSettings)
    requires
        0 < readings.len() <= settings.max_polls,
    ensures
        ({
            let verdict = outcome_of(
                trailing_good(goods(readings, settings.threshold_micros)) as int,
                settings.consecutive,
                readings.len() - 1,
                settings.max_polls,
            );
            &&& verdict == Outcome::Ready <==> settings.consecutive <= readings.len() && forall|i: int|
                readings.len() - settings.consecutive <= i < readings.len() ==> #[trigger] readings[i]
                    < settings.threshold_micros
            &&& verdict == Outcome::GiveUp ==> readings.len() == settings.max_polls
            &&& verdict == Outcome::KeepWaiting ==> readings.len() < settings.max_polls
        }),
{
    let g = goods(readings, settings.threshold_micros);
    let n = settings.consecutive as nat;
    law_trailing_readings_are_good(g, n);
    if trailing_good(g) >= n {
        assert forall|i: int| readings.len() - n <= i < readings.len() implies #[trigger] readings[i]
            < settings.threshold_micros by {
            assert(g[i]);
        }
    }
    if n <= readings.len() && forall|i: int|
        readings.len() - n <= i < readings.len() ==> #[trigger] readings[i] < settings.threshold_micros {
        assert forall|i: int| g.len() - n <= i < g.len() implies #[trigger] g[i] by {
            assert(readings[i] < settings.threshold_micros);
        }
    }
}

} // verus!
