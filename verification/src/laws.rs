//! Laws of the dispatcher model.
//!
//! Each public proof function here states one guarantee of the dispatcher
//! over whole traces of steps ([`Event`] sequences folded with
//! [`step_state`] / [`step_fires`]), and proves it once and for all.
//! Because [`crate::dispatcher::Dispatcher`] is specified step for step by
//! the same transition functions, every guarantee carries over to any run
//! of the executable dispatcher.

use crate::model::{
    fired_count, is_removal_for, is_start_for, run_state, start_count, step_fires, step_state,
    Command, Event, ModelState,
};
use vstd::prelude::*;

verus! {

/// How many interrupts for `id` the state itself can still owe: one while
/// `id` is tracked and the loop runs, none otherwise.
spec fn live_for<E>(s: ModelState<E>, id: u128) -> nat {
    if s.running && s.sessions.dom().contains(id) {
        1nat
    } else {
        0nat
    }
}

proof fn lemma_step_bound<E>(s: ModelState<E>, ev: Event<E>, id: u128)
    ensures
        (if step_fires(s, ev).dom().contains(id) {
            1nat
        } else {
            0nat
        }) + live_for(step_state(s, ev), id) <= (if is_start_for(ev, id) {
            1nat
        } else {
            0nat
        }) + live_for(s, id),
{
}

proof fn lemma_fired_bound<E>(s: ModelState<E>, evs: Seq<Event<E>>, id: u128)
    ensures
        fired_count(s, evs, id) <= start_count(evs, id) + live_for(s, id),
    decreases evs.len(),
{
    if evs.len() > 0 {
        lemma_step_bound(s, evs.first(), id);
        lemma_fired_bound(step_state(s, evs.first()), evs.drop_first(), id);
    }
}

proof fn lemma_run_push<E>(s: ModelState<E>, evs: Seq<Event<E>>, ev: Event<E>, id: u128)
    ensures
        run_state(s, evs.push(ev)) == step_state(run_state(s, evs), ev),
        fired_count(s, evs.push(ev), id) == fired_count(s, evs, id) + (if step_fires(
            run_state(s, evs),
            ev,
        ).dom().contains(id) {
            1nat
        } else {
            0nat
        }),
        start_count(evs.push(ev), id) == start_count(evs, id) + (if is_start_for(ev, id) {
            1nat
        } else {
            0nat
        }),
    decreases evs.len(),
{
    if evs.len() == 0 {
        assert(evs.push(ev).first() == ev);
        assert(evs.push(ev).drop_first() =~= Seq::<Event<E>>::empty());
        assert(run_state(s, evs) == s);
        assert(fired_count(s, evs, id) == 0);
        assert(start_count(evs, id) == 0);
        assert(run_state(s, evs.push(ev)) == run_state(step_state(s, ev), Seq::<Event<E>>::empty()));
        assert(fired_count(step_state(s, ev), Seq::<Event<E>>::empty(), id) == 0);
        assert(start_count(Seq::<Event<E>>::empty(), id) == 0);
        assert(fired_count(s, evs.push(ev), id) == (if step_fires(s, ev).dom().contains(id) {
            1nat
        } else {
            0nat
        }) + fired_count(step_state(s, ev), evs.push(ev).drop_first(), id));
        assert(start_count(evs.push(ev), id) == (if is_start_for(ev, id) {
            1nat
        } else {
            0nat
        }) + start_count(evs.push(ev).drop_first(), id));
    } else {
        let rest = evs.drop_first();
        let s1 = step_state(s, evs.first());
        assert(evs.push(ev).first() == evs.first());
        assert(evs.push(ev).drop_first() =~= rest.push(ev));
        lemma_run_push(s1, rest, ev, id);
        assert(run_state(s, evs.push(ev)) == run_state(s1, rest.push(ev)));
        assert(run_state(s, evs) == run_state(s1, rest));
        assert(fired_count(s, evs.push(ev), id) == (if step_fires(s, evs.first()).dom().contains(
            id,
        ) {
            1nat
        } else {
            0nat
        }) + fired_count(s1, rest.push(ev), id));
        assert(fired_count(s, evs, id) == (if step_fires(s, evs.first()).dom().contains(id) {
            1nat
        } else {
            0nat
        }) + fired_count(s1, rest, id));
        assert(start_count(evs.push(ev), id) == (if is_start_for(evs.first(), id) {
            1nat
        } else {
            0nat
        }) + start_count(rest.push(ev), id));
        assert(start_count(evs, id) == (if is_start_for(evs.first(), id) {
            1nat
        } else {
            0nat
        }) + start_count(rest, id));
    }
}

/// **A stopped loop is inert.** Once the dispatch loop has ended, no
/// sequence of further events changes the state or fires an interrupt.
pub proof fn lemma_halted_is_inert<E>(s: ModelState<E>, evs: Seq<Event<E>>, id: u128)
    requires
        !s.running,
    ensures
        run_state(s, evs) == s,
        fired_count(s, evs, id) == 0,
    decreases evs.len(),
{
    if evs.len() > 0 {
        lemma_halted_is_inert(s, evs.drop_first(), id);
    }
}

/// **At most one interrupt per registration.** A session that is started
/// at most once over a whole trace, and was not tracked at its outset, is
/// interrupted at most once, whether by expiry, by `Cancel` or by
/// `Shutdown`.
pub proof fn lemma_interrupt_at_most_once<E>(s: ModelState<E>, evs: Seq<Event<E>>, id: u128)
    requires
        !s.sessions.dom().contains(id),
        start_count(evs, id) <= 1,
    ensures
        fired_count(s, evs, id) <= 1,
{
    lemma_fired_bound(s, evs, id);
}

/// **Shutdown interrupts every tracked session.** Delivering `Shutdown`
/// while `id` is tracked fires an interrupt for `id`, aimed at the engine
/// handle the store holds for it.
pub proof fn lemma_shutdown_interrupts_tracked<E>(s: ModelState<E>, at: u64, id: u128)
    requires
        s.running,
        s.sessions.dom().contains(id),
    ensures
        step_fires(s, Event::Deliver { cmd: Command::Shutdown, at }).dom().contains(id),
        step_fires(s, Event::Deliver { cmd: Command::Shutdown, at })[id] == s.sessions[id].engine,
{
}

/// **Exactly one interrupt when shutdown finds the session.** A session
/// started at most once, still tracked when `Shutdown` arrives, is
/// interrupted exactly once across the whole trace.
pub proof fn lemma_interrupt_exactly_once_on_shutdown<E>(
    s: ModelState<E>,
    evs: Seq<Event<E>>,
    id: u128,
    at: u64,
)
    requires
        !s.sessions.dom().contains(id),
        start_count(evs, id) <= 1,
        run_state(s, evs).running,
        run_state(s, evs).sessions.dom().contains(id),
    ensures
        fired_count(s, evs.push(Event::Deliver { cmd: Command::Shutdown, at }), id) == 1,
{
    let ev = Event::Deliver { cmd: Command::Shutdown, at };
    lemma_run_push(s, evs, ev, id);
    lemma_shutdown_interrupts_tracked(run_state(s, evs), at, id);
    lemma_interrupt_at_most_once(s, evs.push(ev), id);
}

/// **Stop is silent.** After `Stop(id)`, no interrupt ever fires for `id`
/// again — even if its deadline has already elapsed — as long as `id` is
/// not started anew.
pub proof fn lemma_stop_is_silent<E>(s: ModelState<E>, id: u128, at: u64, later: Seq<Event<E>>)
    requires
        start_count(later, id) == 0,
    ensures
        fired_count(s, seq![Event::Deliver { cmd: Command::Stop { id }, at }] + later, id) == 0,
{
    let ev = Event::Deliver { cmd: Command::Stop { id }, at };
    let evs = seq![ev] + later;
    assert(evs.first() == ev);
    assert(evs.drop_first() =~= later);
    let s1 = step_state(s, ev);
    assert(!step_fires(s, ev).dom().contains(id));
    if s.running {
        assert(live_for(s1, id) == 0);
        lemma_fired_bound(s1, later, id);
    } else {
        lemma_halted_is_inert(s1, later, id);
    }
}

proof fn lemma_session_stable<E>(s: ModelState<E>, evs: Seq<Event<E>>, id: u128)
    requires
        forall|j: int| 0 <= j < evs.len() ==> !is_start_for(evs[j], id),
    ensures
        run_state(s, evs).sessions.dom().contains(id) ==> s.sessions.dom().contains(id)
            && run_state(s, evs).sessions[id] == s.sessions[id],
    decreases evs.len(),
{
    if evs.len() > 0 {
        let rest = evs.drop_first();
        assert(!is_start_for(evs[0], id));
        assert forall|j: int| 0 <= j < rest.len() implies !is_start_for(rest[j], id) by {
            assert(rest[j] == evs[j + 1]);
        }
        let s1 = step_state(s, evs.first());
        lemma_session_stable(s1, rest, id);
        assert(s1.sessions.dom().contains(id) ==> s.sessions.dom().contains(id)
            && s1.sessions[id] == s.sessions[id]);
    }
}

/// **Expiry never beats the deadline.** While a session's stored deadline
/// is `dl` and it is never started anew, a sweep fires its interrupt only
/// at an instant at or past `dl`.
pub proof fn lemma_expiry_waits_for_deadline<E>(
    s: ModelState<E>,
    evs: Seq<Event<E>>,
    id: u128,
    dl: u64,
    i: int,
    at: u64,
)
    requires
        s.sessions.dom().contains(id),
        s.sessions[id].deadline == Some(dl),
        forall|j: int| 0 <= j < evs.len() ==> !is_start_for(evs[j], id),
        0 <= i < evs.len(),
        evs[i] == (Event::Sweep::<E> { at }),
        step_fires(run_state(s, evs.subrange(0, i)), evs[i]).dom().contains(id),
    ensures
        at >= dl,
{
    let pre = evs.subrange(0, i);
    assert forall|j: int| 0 <= j < pre.len() implies !is_start_for(pre[j], id) by {
        assert(pre[j] == evs[j]);
    }
    lemma_session_stable(s, pre, id);
    let si = run_state(s, pre);
    assert(si.sessions.dom().contains(id) && crate::model::expired(si.sessions[id], at));
}

/// **A sweep past the deadline fires.** Sweeping at or after a tracked
/// session's deadline interrupts exactly that session's engine and drops
/// it from the store: expiry happens at the first sweep whose instant has
/// reached the deadline.
pub proof fn lemma_sweep_fires_elapsed<E>(s: ModelState<E>, at: u64, id: u128, dl: u64)
    requires
        s.running,
        s.sessions.dom().contains(id),
        s.sessions[id].deadline == Some(dl),
        dl <= at,
    ensures
        step_fires(s, Event::Sweep { at }).dom().contains(id),
        step_fires(s, Event::Sweep { at })[id] == s.sessions[id].engine,
        !step_state(s, Event::Sweep { at }).sessions.dom().contains(id),
{
}

/// **Deadline monotonicity.** Starting `id` at instant `t` with duration
/// `dur` arms a deadline of `t + dur`; as long as `id` is not started
/// anew, no sweep fires its interrupt before that instant.
pub proof fn lemma_deadline_monotonicity<E>(
    s: ModelState<E>,
    id: u128,
    engine: E,
    dur: u64,
    t: u64,
    later: Seq<Event<E>>,
    i: int,
    at: u64,
)
    requires
        s.running,
        t + dur <= u64::MAX,
        forall|j: int| 0 <= j < later.len() ==> !is_start_for(later[j], id),
        0 <= i < later.len(),
        later[i] == (Event::Sweep::<E> { at }),
        step_fires(
            run_state(
                step_state(
                    s,
                    Event::Deliver { cmd: Command::Start { id, engine, duration: Some(dur) }, at: t },
                ),
                later.subrange(0, i),
            ),
            later[i],
        ).dom().contains(id),
    ensures
        at >= t + dur,
{
    let s1 = step_state(
        s,
        Event::Deliver { cmd: Command::Start { id, engine, duration: Some(dur) }, at: t },
    );
    assert(s1.sessions.dom().contains(id));
    assert(s1.sessions[id].deadline == Some((t + dur) as u64));
    lemma_expiry_waits_for_deadline(s1, later, id, (t + dur) as u64, i, at);
}

/// **No-deadline persistence.** A session tracked without a deadline is
/// never interrupted by a sweep and never leaves the store, as long as no
/// `Stop`, `Cancel`, `Shutdown` or new `Start` touches it.
pub proof fn lemma_no_deadline_persists<E>(s: ModelState<E>, evs: Seq<Event<E>>, id: u128)
    requires
        s.sessions.dom().contains(id),
        s.sessions[id].deadline is None,
        forall|j: int|
            0 <= j < evs.len() ==> !is_start_for(evs[j], id) && !is_removal_for(evs[j], id),
    ensures
        run_state(s, evs).sessions.dom().contains(id),
        run_state(s, evs).sessions[id] == s.sessions[id],
        fired_count(s, evs, id) == 0,
    decreases evs.len(),
{
    if evs.len() > 0 {
        let rest = evs.drop_first();
        assert(!is_start_for(evs[0], id) && !is_removal_for(evs[0], id));
        assert forall|j: int|
            0 <= j < rest.len() implies !is_start_for(rest[j], id) && !is_removal_for(
            rest[j],
            id,
        ) by {
            assert(rest[j] == evs[j + 1]);
        }
        let s1 = step_state(s, evs.first());
        assert(s1.sessions.dom().contains(id) && s1.sessions[id] == s.sessions[id]);
        assert(!step_fires(s, evs.first()).dom().contains(id));
        lemma_no_deadline_persists(s1, rest, id);
    }
}

/// **Idempotent shutdown.** Delivering `Shutdown` while nothing is tracked
/// fires no interrupt at all, ends the loop, and leaves nothing any later
/// event could change.
pub proof fn lemma_shutdown_on_idle_is_quiet<E>(
    s: ModelState<E>,
    at: u64,
    later: Seq<Event<E>>,
    id: u128,
)
    requires
        s.running,
        forall|k: u128| !s.sessions.dom().contains(k),
    ensures
        forall|k: u128|
            !step_fires(s, Event::Deliver { cmd: Command::Shutdown, at }).dom().contains(k),
        !step_state(s, Event::Deliver { cmd: Command::Shutdown, at }).running,
        run_state(step_state(s, Event::Deliver { cmd: Command::Shutdown, at }), later)
            == step_state(s, Event::Deliver { cmd: Command::Shutdown, at }),
        fired_count(step_state(s, Event::Deliver { cmd: Command::Shutdown, at }), later, id) == 0,
{
    let ev = Event::Deliver { cmd: Command::Shutdown, at };
    lemma_halted_is_inert(step_state(s, ev), later, id);
}

/// **Re-arm overwrites.** Two consecutive `Start`s for the same identifier
/// leave exactly the state the second alone would have left — only the
/// second engine and deadline are honoured — and neither fires an
/// interrupt.
pub proof fn lemma_rearm_overwrites<E>(
    s: ModelState<E>,
    id: u128,
    e1: E,
    d1: Option<u64>,
    t1: u64,
    e2: E,
    d2: Option<u64>,
    t2: u64,
)
    ensures
        step_state(
            step_state(s, Event::Deliver { cmd: Command::Start { id, engine: e1, duration: d1 }, at: t1 }),
            Event::Deliver { cmd: Command::Start { id, engine: e2, duration: d2 }, at: t2 },
        ) == step_state(
            s,
            Event::Deliver { cmd: Command::Start { id, engine: e2, duration: d2 }, at: t2 },
        ),
        forall|k: u128|
            !step_fires(
                s,
                Event::Deliver { cmd: Command::Start { id, engine: e1, duration: d1 }, at: t1 },
            ).dom().contains(k),
        forall|k: u128|
            !step_fires(
                step_state(
                    s,
                    Event::Deliver { cmd: Command::Start { id, engine: e1, duration: d1 }, at: t1 },
                ),
                Event::Deliver { cmd: Command::Start { id, engine: e2, duration: d2 }, at: t2 },
            ).dom().contains(k),
{
    let ev1 = Event::Deliver { cmd: Command::Start { id, engine: e1, duration: d1 }, at: t1 };
    let ev2 = Event::Deliver { cmd: Command::Start { id, engine: e2, duration: d2 }, at: t2 };
    if s.running {
        assert(step_state(step_state(s, ev1), ev2).sessions =~= step_state(s, ev2).sessions);
    }
}

/// **Re-arm keeps a single interrupt.** Starting the same identifier twice
/// in a row behaves, over any continuation that never starts it again, as
/// if only the second `Start` had happened — and the whole trace still
/// interrupts it at most once.
pub proof fn lemma_rearm_single_interrupt<E>(
    s: ModelState<E>,
    id: u128,
    e1: E,
    d1: Option<u64>,
    t1: u64,
    e2: E,
    d2: Option<u64>,
    t2: u64,
    later: Seq<Event<E>>,
)
    requires
        !s.sessions.dom().contains(id),
        start_count(later, id) == 0,
    ensures
        fired_count(
            s,
            seq![
                Event::Deliver { cmd: Command::Start { id, engine: e1, duration: d1 }, at: t1 },
                Event::Deliver { cmd: Command::Start { id, engine: e2, duration: d2 }, at: t2 },
            ] + later,
            id,
        ) == fired_count(
            s,
            seq![Event::Deliver { cmd: Command::Start { id, engine: e2, duration: d2 }, at: t2 }]
                + later,
            id,
        ),
        fired_count(
            s,
            seq![
                Event::Deliver { cmd: Command::Start { id, engine: e1, duration: d1 }, at: t1 },
                Event::Deliver { cmd: Command::Start { id, engine: e2, duration: d2 }, at: t2 },
            ] + later,
            id,
        ) <= 1,
        run_state(
            s,
            seq![
                Event::Deliver { cmd: Command::Start { id, engine: e1, duration: d1 }, at: t1 },
                Event::Deliver { cmd: Command::Start { id, engine: e2, duration: d2 }, at: t2 },
            ] + later,
        ) == run_state(
            s,
            seq![Event::Deliver { cmd: Command::Start { id, engine: e2, duration: d2 }, at: t2 }]
                + later,
        ),
{
    let ev1 = Event::Deliver { cmd: Command::Start { id, engine: e1, duration: d1 }, at: t1 };
    let ev2 = Event::Deliver { cmd: Command::Start { id, engine: e2, duration: d2 }, at: t2 };
    let both = seq![ev1, ev2] + later;
    let single = seq![ev2] + later;
    assert(both.first() == ev1);
    assert(both.drop_first() =~= single);
    assert(single.first() == ev2);
    assert(single.drop_first() =~= later);
    lemma_rearm_overwrites(s, id, e1, d1, t1, e2, d2, t2);
    let s1 = step_state(s, ev1);
    assert(step_state(s1, ev2) == step_state(s, ev2));
    assert(!step_fires(s, ev1).dom().contains(id));
    assert(!step_fires(s1, ev2).dom().contains(id));
    assert(!step_fires(s, ev2).dom().contains(id));
    assert(fired_count(s, both, id) == fired_count(s1, single, id));
    assert(fired_count(s1, single, id) == fired_count(step_state(s1, ev2), later, id));
    assert(fired_count(s, single, id) == fired_count(step_state(s, ev2), later, id));
    assert(start_count(single, id) == 1 + start_count(later, id));
    lemma_interrupt_at_most_once(s, single, id);
    assert(run_state(s, both) == run_state(s1, single));
    assert(run_state(s1, single) == run_state(step_state(s1, ev2), later));
    assert(run_state(s, single) == run_state(step_state(s, ev2), later));
}

} // verus!
