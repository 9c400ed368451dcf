//! The wait for a claimed device to finish booting: a fixed list of
//! properties, each polled until it shows the value that is expected, with a
//! bounded number of attempts.
//!
//! The wait is a state machine. Its caller queries the device and sleeps;
//! the machine decides what is asked next and when the wait is over.

use crate::bytes::text_equal;
use vstd::prelude::*;

verus! {

/// The number of properties that are checked.
pub const PROPERTIES: usize = 2;

/// The number of attempts that each property gets.
pub const ATTEMPTS: u32 = 60;

/// The seconds to let pass before an attempt that is not the first.
pub const INTERVAL_SECS: u64 = 1;

/// The name of property `index`; an index past the list names the last
/// property.
pub open spec fn prop_name(index: int) -> Seq<char> {
    if index == 0 {
        "init.svc.bootanim"@
    } else {
        "sys.boot_completed"@
    }
}

/// The value that property `index` shows on a device that has booted; an
/// index past the list stands for the last property.
pub open spec fn prop_expected(index: int) -> Seq<char> {
    if index == 0 {
        "stopped"@
    } else {
        "1"@
    }
}

/// Where the wait stands.
#[derive(Debug, Clone, Copy, PartialEq, Eq, Structural)]
pub enum BootWait {
    /// Property `index` is being polled, and `attempts` answers for it did
    /// not show the value that is expected.
    Polling { index: usize, attempts: u32 },
    /// Every property has shown its value.
    Ready,
    /// Property `index` has used up its attempts.
    TimedOut { index: usize },
}

/// A property that did not show its value in time.
#[derive(Debug)]
pub struct BootTimeout {
    /// The name of the property.
    pub prop: &'static str,
    /// The value that was expected.
    pub expected: &'static str,
    /// The value that the last attempt found.
    pub observed: String,
}

/// What the caller of the wait does next.
#[derive(Debug)]
pub enum BootStep {
    /// Let `delay_secs` seconds pass, query the property `prop`, and hand
    /// the answer to `observe`.
    Poll { prop: &'static str, delay_secs: u64 },
    /// The device is ready.
    Ready,
    /// The device is not usable.
    TimedOut(BootTimeout),
}

impl BootWait {
    /// The attempts that are left to the wait at most, over all properties.
    pub open spec fn budget(self) -> nat {
        match self {
            BootWait::Polling { index, attempts } => if index < PROPERTIES && attempts < ATTEMPTS {
                ((PROPERTIES - index) * ATTEMPTS - attempts) as nat
            } else {
                0
            },
            _ => 0,
        }
    }

    /// The state that follows `self` when the property that was polled
    /// showed `value`. A match moves on to the next property, or ends the
    /// wait after the last one. Anything else uses up one attempt, and the
    /// last attempt of a property ends the wait. A state that polls a
    /// property that there is not has checked nothing, and ends the wait
    /// without success.
    pub open spec fn after(self, value: Seq<char>) -> BootWait {
        match self {
            BootWait::Polling { index, attempts } => if index >= PROPERTIES {
                BootWait::TimedOut { index }
            } else if value == prop_expected(index as int) {
                if index + 1 >= PROPERTIES {
                    BootWait::Ready
                } else {
                    BootWait::Polling { index: (index + 1) as usize, attempts: 0 }
                }
            } else if attempts + 1 >= ATTEMPTS {
                BootWait::TimedOut { index }
            } else {
                BootWait::Polling { index, attempts: (attempts + 1) as u32 }
            },
            other => other,
        }
    }

    /// Whether `step` is what the caller has to do in state `self`, where
    /// the last answer was `value`.
    pub open spec fn asks(self, step: BootStep, value: Seq<char>) -> bool {
        match self {
            BootWait::Polling { index, attempts } => {
                &&& step matches BootStep::Poll { prop, delay_secs }
                &&& prop@ == prop_name(index as int)
                &&& delay_secs == if attempts == 0 {
                    0
                } else {
                    INTERVAL_SECS
                }
            },
            BootWait::Ready => step is Ready,
            BootWait::TimedOut { index } => {
                &&& step matches BootStep::TimedOut(timeout)
                &&& timeout.prop@ == prop_name(index as int)
                &&& timeout.expected@ == prop_expected(index as int)
                &&& timeout.observed@ == value
            },
        }
    }

    /// The state after the answers `values`, taken one after another.
    pub open spec fn after_all(self, values: Seq<Seq<char>>) -> BootWait
        decreases values.len(),
    {
        if values.len() == 0 {
            self
        } else {
            self.after_all(values.drop_last()).after(values.last())
        }
    }

    /// The name of property `index` and the value that is expected of it.
    fn property(index: usize) -> (r: (&'static str, &'static str))
        ensures
            r.0@ == prop_name(index as int),
            r.1@ == prop_expected(index as int),
    {
        if index == 0 {
            ("init.svc.bootanim", "stopped")
        } else {
            ("sys.boot_completed", "1")
        }
    }

    /// What is to be done in state `state`, where the last answer was
    /// `value`.
    fn step_for(state: BootWait, value: &str) -> (step: BootStep)
        ensures
            state.asks(step, value@),
    {
        match state {
            BootWait::Polling { index, attempts } => {
                let (prop, _) = Self::property(index);
                let delay_secs: u64 = if attempts == 0 {
                    0
                } else {
                    INTERVAL_SECS
                };
                BootStep::Poll { prop, delay_secs }
            },
            BootWait::Ready => BootStep::Ready,
            BootWait::TimedOut { index } => {
                let (prop, expected) = Self::property(index);
                BootStep::TimedOut(BootTimeout { prop, expected, observed: value.to_owned() })
            },
        }
    }

    /// Starts the wait: the first property is polled at once.
    pub fn start() -> (r: (BootWait, BootStep))
        ensures
            r.0 == (BootWait::Polling { index: 0, attempts: 0 }),
            r.1 matches BootStep::Poll { prop, delay_secs } && prop@ == prop_name(0) && delay_secs
                == 0,
            r.0.budget() == PROPERTIES * ATTEMPTS,
    {
        let state = BootWait::Polling { index: 0, attempts: 0 };
        (state, Self::step_for(state, ""))
    }

    /// Takes the answer `value` to the poll that was asked for last, and
    /// says where the wait stands now and what to do next.
    ///
    /// Each answer that leaves the wait polling uses up some of its budget,
    /// so a wait takes `PROPERTIES * ATTEMPTS` polls at most.
    pub fn observe(self, value: &str) -> (r: (BootWait, BootStep))
        ensures
            r.0 == self.after(value@),
            r.0.asks(r.1, value@),
            self.budget() > 0 && r.0 is Polling ==> r.0.budget() < self.budget(),
    {
        let next = match self {
            BootWait::Polling { index, attempts } => {
                if index >= PROPERTIES {
                    BootWait::TimedOut { index }
                } else {
                    let (_, expected) = Self::property(index);
                    if text_equal(value, expected) {
                        if index + 1 >= PROPERTIES {
                            BootWait::Ready
                        } else {
                            BootWait::Polling { index: index + 1, attempts: 0 }
                        }
                    } else if attempts >= ATTEMPTS - 1 {
                        BootWait::TimedOut { index }
                    } else {
                        BootWait::Polling { index, attempts: attempts + 1 }
                    }
                }
            },
            BootWait::Ready => BootWait::Ready,
            BootWait::TimedOut { index } => BootWait::TimedOut { index },
        };
        (next, Self::step_for(next, value))
    }
}

/// Answers that do not show the expected value use up the attempts of a
/// property one by one: after fewer than `ATTEMPTS` of them the property is
/// still polled, and the answer that makes `ATTEMPTS` ends the wait with a
/// timeout for that property.
pub proof fn lemma_wrong_answers(index: usize, values: Seq<Seq<char>>)
    requires
        index < PROPERTIES,
        values.len() <= ATTEMPTS,
        forall|i: int|
            0 <= i < values.len() ==> #[trigger] values[i] != prop_expected(index as int),
    ensures
        (BootWait::Polling { index, attempts: 0 }).after_all(values) == if values.len()
            < ATTEMPTS {
            BootWait::Polling { index, attempts: values.len() as u32 }
        } else {
            BootWait::TimedOut { index }
        },
    decreases values.len(),
{
    if values.len() > 0 {
        let front = values.drop_last();
        assert forall|i: int| 0 <= i < front.len() implies #[trigger] front[i] != prop_expected(
            index as int,
        ) by {
            assert(front[i] == values[i]);
        }
        lemma_wrong_answers(index, front);
        assert(values.last() == values[values.len() - 1]);
    }
}

/// The expected value is taken as long as an attempt is left. After fewer
/// than `ATTEMPTS` answers that do not show it, the answer that shows it
/// moves the wait on to the next property, or ends it with success after
/// the last one; so the attempt number `ATTEMPTS` still succeeds.
pub proof fn lemma_late_answer_succeeds(index: usize, values: Seq<Seq<char>>)
    requires
        index < PROPERTIES,
        values.len() < ATTEMPTS,
        forall|i: int|
            0 <= i < values.len() ==> #[trigger] values[i] != prop_expected(index as int),
    ensures
        (BootWait::Polling { index, attempts: 0 }).after_all(
            values.push(prop_expected(index as int)),
        ) == if index + 1 < PROPERTIES {
            BootWait::Polling { index: (index + 1) as usize, attempts: 0 }
        } else {
            BootWait::Ready
        },
{
    lemma_wrong_answers(index, values);
    let all = values.push(prop_expected(index as int));
    assert(all.drop_last() =~= values);
}

/// A wait that has ended asks for no further poll, and no answer moves it.
pub proof fn lemma_ended_wait_stays(state: BootWait, step: BootStep, value: Seq<char>)
    requires
        !(state is Polling),
        state.asks(step, value),
    ensures
        !(step is Poll),
        state.after(value) == state,
{
}

} // verus!
