//! The mathematical model of the dispatcher.
//!
//! A dispatcher state is a finite map from session identifier to tracked
//! session record, together with a flag saying whether the dispatch loop is
//! still running. Everything the dispatcher can do is described by a
//! transition function over that state: delivering one command, or sweeping
//! the store for elapsed deadlines at a given instant. Each transition also
//! yields the set of interrupts it fires, as a map from session identifier
//! to the interrupted engine handle.
//!
//! Time is a `u64` count of clock ticks since an arbitrary origin; a
//! deadline is an absolute tick computed once when a session starts.

use vstd::prelude::*;

verus! {

/// A command sent by a caller to the dispatcher.
pub enum Command<E> {
    /// Track a session under `id`. If a `duration` is given, the session's
    /// deadline is the instant of delivery plus that duration; otherwise the
    /// session is tracked until explicitly removed. An `id` already tracked
    /// is overwritten without firing an interrupt.
    Start { id: u128, engine: E, duration: Option<u64> },
    /// Stop tracking `id` silently: no interrupt fires, now or later.
    Stop { id: u128 },
    /// Stop tracking `id` and interrupt its engine, if `id` is tracked.
    Cancel { id: u128 },
    /// Interrupt every tracked engine and end the dispatch loop for good.
    Shutdown,
}

/// One tracked session: its engine handle and its optional absolute deadline.
#[verifier::ext_equal]
pub struct SessionRec<E> {
    pub engine: E,
    pub deadline: Option<u64>,
}

/// The whole dispatcher state: the session store and the loop flag.
#[verifier::ext_equal]
pub struct ModelState<E> {
    pub sessions: Map<u128, SessionRec<E>>,
    pub running: bool,
}

/// One observable step of the dispatcher: a command delivered at instant
/// `at`, or a sweep of the store at instant `at`.
pub enum Event<E> {
    Deliver { cmd: Command<E>, at: u64 },
    Sweep { at: u64 },
}

/// The state a fresh dispatcher is in: nothing tracked, loop running.
pub open spec fn init_state<E>() -> ModelState<E> {
    ModelState { sessions: Map::empty(), running: true }
}

/// Addition on clock ticks, clipped to the largest representable instant.
pub open spec fn clip_add(a: u64, b: u64) -> u64 {
    if a + b <= u64::MAX {
        (a + b) as u64
    } else {
        u64::MAX
    }
}

/// The absolute deadline of a session started at `at` with the given
/// optional duration.
pub open spec fn deadline_of(at: u64, duration: Option<u64>) -> Option<u64> {
    match duration {
        Some(d) => Some(clip_add(at, d)),
        None => None,
    }
}

/// Whether delivering `cmd` at instant `now` stays within the clock's
/// range: a deadline computed at delivery must be representable.
pub open spec fn cmd_fits<E>(cmd: Command<E>, now: u64) -> bool {
    match cmd {
        Command::Start { duration, .. } => match duration {
            Some(d) => now + d <= u64::MAX,
            None => true,
        },
        _ => true,
    }
}

/// Whether a tracked session's deadline has elapsed at instant `at`
/// (strict "current time >= deadline" comparison; a session without a
/// deadline never expires).
pub open spec fn expired<E>(r: SessionRec<E>, at: u64) -> bool {
    match r.deadline {
        Some(d) => d <= at,
        None => false,
    }
}

/// The state after one step.
pub open spec fn step_state<E>(s: ModelState<E>, ev: Event<E>) -> ModelState<E> {
    if !s.running {
        s
    } else {
        match ev {
            Event::Deliver { cmd, at } => match cmd {
                Command::Start { id, engine, duration } => ModelState {
                    sessions: s.sessions.insert(
                        id,
                        SessionRec { engine, deadline: deadline_of(at, duration) },
                    ),
                    running: true,
                },
                Command::Stop { id } => ModelState { sessions: s.sessions.remove(id), running: true },
                Command::Cancel { id } => ModelState { sessions: s.sessions.remove(id), running: true },
                Command::Shutdown => ModelState { sessions: Map::empty(), running: false },
            },
            Event::Sweep { at } => ModelState {
                sessions: Map::new(
                    |k: u128| s.sessions.dom().contains(k) && !expired(s.sessions[k], at),
                    |k: u128| s.sessions[k],
                ),
                running: true,
            },
        }
    }
}

/// The interrupts one step fires: for each interrupted session, its
/// identifier and the engine handle the interrupt goes to.
pub open spec fn step_fires<E>(s: ModelState<E>, ev: Event<E>) -> Map<u128, E> {
    if !s.running {
        Map::empty()
    } else {
        match ev {
            Event::Deliver { cmd, .. } => match cmd {
                Command::Start { .. } => Map::empty(),
                Command::Stop { .. } => Map::empty(),
                Command::Cancel { id } => if s.sessions.dom().contains(id) {
                    Map::empty().insert(id, s.sessions[id].engine)
                } else {
                    Map::empty()
                },
                Command::Shutdown => s.sessions.map_values(|r: SessionRec<E>| r.engine),
            },
            Event::Sweep { at } => Map::new(
                |k: u128| s.sessions.dom().contains(k) && expired(s.sessions[k], at),
                |k: u128| s.sessions[k].engine,
            ),
        }
    }
}

/// The state after a whole sequence of steps.
pub open spec fn run_state<E>(s: ModelState<E>, evs: Seq<Event<E>>) -> ModelState<E>
    decreases evs.len(),
{
    if evs.len() == 0 {
        s
    } else {
        run_state(step_state(s, evs.first()), evs.drop_first())
    }
}

/// How many steps of the sequence fire an interrupt for `id`.
pub open spec fn fired_count<E>(s: ModelState<E>, evs: Seq<Event<E>>, id: u128) -> nat
    decreases evs.len(),
{
    if evs.len() == 0 {
        0
    } else {
        (if step_fires(s, evs.first()).dom().contains(id) {
            1nat
        } else {
            0nat
        }) + fired_count(step_state(s, evs.first()), evs.drop_first(), id)
    }
}

/// Whether an event is the delivery of a `Start` for `id`.
pub open spec fn is_start_for<E>(ev: Event<E>, id: u128) -> bool {
    match ev {
        Event::Deliver { cmd, .. } => match cmd {
            Command::Start { id: started, .. } => started == id,
            _ => false,
        },
        _ => false,
    }
}

/// How many events of the sequence deliver a `Start` for `id`.
pub open spec fn start_count<E>(evs: Seq<Event<E>>, id: u128) -> nat
    decreases evs.len(),
{
    if evs.len() == 0 {
        0
    } else {
        (if is_start_for(evs.first(), id) {
            1nat
        } else {
            0nat
        }) + start_count(evs.drop_first(), id)
    }
}

/// Whether an event is the delivery of a command that removes `id` from the
/// store: `Stop(id)`, `Cancel(id)` or `Shutdown`.
pub open spec fn is_removal_for<E>(ev: Event<E>, id: u128) -> bool {
    match ev {
        Event::Deliver { cmd, .. } => match cmd {
            Command::Stop { id: stopped } => stopped == id,
            Command::Cancel { id: cancelled } => cancelled == id,
            Command::Shutdown => true,
            _ => false,
        },
        _ => false,
    }
}

} // verus!
