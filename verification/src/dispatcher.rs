//! The executable dispatcher core.
//!
//! [`Dispatcher`] owns the session store and decides which sessions to drop
//! and which engines to interrupt. Its behaviour is specified, step for
//! step, by the transition functions of [`crate::model`]: applying a
//! command is one [`Event::Deliver`] step, sweeping the store at an instant
//! is one [`Event::Sweep`] step. The caller performs the interrupts the
//! dispatcher hands back and supplies the clock readings.

use crate::model::{
    cmd_fits, expired, init_state, step_fires, step_state, Command, Event, ModelState, SessionRec,
};
use vstd::prelude::*;

verus! {

/// One stored session entry.
pub struct Entry<E> {
    pub id: u128,
    pub engine: E,
    pub deadline: Option<u64>,
}

/// One interrupt the dispatcher decided to fire: the session's identifier
/// and the engine handle the interrupt is owed to.
pub struct Interrupt<E> {
    pub id: u128,
    pub engine: E,
}

/// The session record a stored entry stands for.
pub open spec fn rec_of<E>(e: Entry<E>) -> SessionRec<E> {
    SessionRec { engine: e.engine, deadline: e.deadline }
}

/// The session map a sequence of entries stands for. A later entry for the
/// same identifier would win, but well-formed stores never hold two.
pub open spec fn entries_map<E>(s: Seq<Entry<E>>) -> Map<u128, SessionRec<E>>
    decreases s.len(),
{
    if s.len() == 0 {
        Map::empty()
    } else {
        entries_map(s.drop_last()).insert(s.last().id, rec_of(s.last()))
    }
}

/// No two entries share an identifier.
pub open spec fn distinct_ids<E>(s: Seq<Entry<E>>) -> bool {
    forall|i: int, j: int| 0 <= i < j < s.len() ==> s[i].id != s[j].id
}

/// Whether the sequence of fired interrupts holds an interrupt for `k`.
pub open spec fn has_fired_id<E>(r: Seq<Interrupt<E>>, k: u128) -> bool {
    exists|j: int| 0 <= j < r.len() && r[j].id == k
}

/// Whether a sequence of fired interrupts carries exactly the interrupts of
/// the given map: every listed interrupt belongs to the map with the right
/// engine, every mapped identifier is listed, and no identifier is listed
/// twice. The first clause is repeated for the front element so that an
/// empty map yields an empty sequence without further ado.
pub open spec fn fires_match<E>(r: Seq<Interrupt<E>>, m: Map<u128, E>) -> bool {
    &&& r.len() > 0 ==> m.dom().contains(r[0].id)
    &&& forall|j: int|
        0 <= j < r.len() ==> m.dom().contains(#[trigger] r[j].id) && m[r[j].id] == r[j].engine
    &&& forall|k: u128| m.dom().contains(k) ==> has_fired_id(r, k)
    &&& forall|j1: int, j2: int| 0 <= j1 < j2 < r.len() ==> r[j1].id != r[j2].id
}

proof fn lemma_entries_map_membership<E>(s: Seq<Entry<E>>, k: u128)
    ensures
        entries_map(s).dom().contains(k) <==> exists|i: int| 0 <= i < s.len() && s[i].id == k,
    decreases s.len(),
{
    if s.len() > 0 {
        let s0 = s.drop_last();
        lemma_entries_map_membership(s0, k);
        if entries_map(s).dom().contains(k) {
            if s.last().id == k {
                assert(s[s.len() - 1].id == k);
            } else {
                let i = choose|i: int| 0 <= i < s0.len() && s0[i].id == k;
                assert(s[i].id == k);
            }
        }
        if exists|i: int| 0 <= i < s.len() && s[i].id == k {
            let i = choose|i: int| 0 <= i < s.len() && s[i].id == k;
            if i < s.len() - 1 {
                assert(s0[i].id == k);
            }
        }
    }
}

proof fn lemma_entries_map_index<E>(s: Seq<Entry<E>>, i: int)
    requires
        distinct_ids(s),
        0 <= i < s.len(),
    ensures
        entries_map(s).dom().contains(s[i].id),
        entries_map(s)[s[i].id] == rec_of(s[i]),
    decreases s.len(),
{
    if i < s.len() - 1 {
        let s0 = s.drop_last();
        lemma_entries_map_index(s0, i);
        assert(s0[i] == s[i]);
        assert(s[i].id != s.last().id);
    }
}

proof fn lemma_entries_map_remove<E>(s: Seq<Entry<E>>, i: int)
    requires
        distinct_ids(s),
        0 <= i < s.len(),
    ensures
        distinct_ids(s.remove(i)),
        entries_map(s.remove(i)) == entries_map(s).remove(s[i].id),
    decreases s.len(),
{
    let sr = s.remove(i);
    if i == s.len() - 1 {
        assert(sr =~= s.drop_last());
        lemma_entries_map_membership(s.drop_last(), s[i].id);
        assert(!entries_map(s.drop_last()).dom().contains(s[i].id));
        assert(entries_map(sr) =~= entries_map(s).remove(s[i].id));
    } else {
        let s0 = s.drop_last();
        lemma_entries_map_remove(s0, i);
        assert(sr.drop_last() =~= s0.remove(i));
        assert(sr.last() == s.last());
        assert(entries_map(sr) == entries_map(s0.remove(i)).insert(s.last().id, rec_of(s.last())));
        assert(s[i].id != s.last().id);
        assert(entries_map(s0).remove(s[i].id).insert(s.last().id, rec_of(s.last())) =~= entries_map(
            s,
        ).remove(s[i].id));
    }
}

proof fn lemma_entries_map_push<E>(s: Seq<Entry<E>>, e: Entry<E>)
    ensures
        entries_map(s.push(e)) == entries_map(s).insert(e.id, rec_of(e)),
{
    assert(s.push(e).drop_last() =~= s);
    assert(s.push(e).last() == e);
}

proof fn lemma_has_fired_id_push<E>(r: Seq<Interrupt<E>>, x: Interrupt<E>, k: u128)
    ensures
        has_fired_id(r.push(x), k) <==> (has_fired_id(r, k) || x.id == k),
{
    if has_fired_id(r, k) {
        let j = choose|j: int| 0 <= j < r.len() && r[j].id == k;
        assert(r.push(x)[j].id == k);
    }
    if x.id == k {
        assert(r.push(x)[r.len() as int].id == k);
    }
    if has_fired_id(r.push(x), k) {
        let j = choose|j: int| 0 <= j < r.push(x).len() && r.push(x)[j].id == k;
        if j < r.len() {
            assert(r[j].id == k);
        }
    }
}

/// The dispatcher: the session store and the loop flag, behaving as
/// [`step_state`] and [`step_fires`] describe.
pub struct Dispatcher<E> {
    entries: Vec<Entry<E>>,
    running: bool,
}

impl<E> View for Dispatcher<E> {
    type V = ModelState<E>;

    closed spec fn view(&self) -> ModelState<E> {
        ModelState { sessions: entries_map(self.entries@), running: self.running }
    }
}

impl<E> Dispatcher<E> {
    /// The store holds at most one entry per identifier.
    pub closed spec fn wf(&self) -> bool {
        distinct_ids(self.entries@)
    }

    /// A fresh dispatcher: nothing tracked, loop running.
    pub fn new() -> (d: Self)
        ensures
            d.wf(),
            d@ == init_state::<E>(),
    {
        let d = Dispatcher { entries: Vec::new(), running: true };
        proof {
            assert(d@.sessions =~= Map::<u128, SessionRec<E>>::empty());
        }
        d
    }

    /// Whether the dispatch loop is still running, i.e. no `Shutdown` has
    /// been applied yet.
    pub fn is_running(&self) -> (r: bool)
        ensures
            r == self@.running,
    {
        self.running
    }

    /// Whether nothing is tracked. While idle, the surrounding loop may
    /// block for the next command instead of polling the clock.
    pub fn is_idle(&self) -> (r: bool)
        requires
            self.wf(),
        ensures
            r <==> self@.sessions =~= Map::<u128, SessionRec<E>>::empty(),
    {
        let r = self.entries.len() == 0;
        proof {
            if r {
                assert(self@.sessions =~= Map::<u128, SessionRec<E>>::empty());
            } else {
                lemma_entries_map_membership(self.entries@, self.entries@[0].id);
                assert(self@.sessions.dom().contains(self.entries@[0].id));
            }
        }
        r
    }

    fn find(&self, id: u128) -> (r: Option<usize>)
        ensures
            match r {
                Some(i) => i < self.entries@.len() && self.entries@[i as int].id == id,
                None => forall|j: int| 0 <= j < self.entries@.len() ==> self.entries@[j].id != id,
            },
    {
        let mut i: usize = 0;
        while i < self.entries.len()
            invariant
                i <= self.entries@.len(),
                forall|j: int| 0 <= j < i ==> self.entries@[j].id != id,
            decreases self.entries@.len() - i,
        {
            if self.entries[i].id == id {
                return Some(i);
            }
            i += 1;
        }
        None
    }

    fn find_expired(&self, now: u64) -> (r: Option<usize>)
        ensures
            match r {
                Some(i) => i < self.entries@.len() && expired(rec_of(self.entries@[i as int]), now),
                None => forall|j: int|
                    0 <= j < self.entries@.len() ==> !expired(rec_of(self.entries@[j]), now),
            },
    {
        let mut i: usize = 0;
        while i < self.entries.len()
            invariant
                i <= self.entries@.len(),
                forall|j: int| 0 <= j < i ==> !expired(rec_of(self.entries@[j]), now),
            decreases self.entries@.len() - i,
        {
            let hit = match self.entries[i].deadline {
                Some(d) => d <= now,
                None => false,
            };
            if hit {
                return Some(i);
            }
            i += 1;
        }
        None
    }

    /// Apply one command delivered at instant `now`, and return the
    /// interrupts it fires: one for the cancelled session on `Cancel`, one
    /// per remaining session on `Shutdown`, none otherwise. After a
    /// `Shutdown` has been applied the dispatcher ignores every further
    /// command.
    pub fn apply_command(&mut self, cmd: Command<E>, now: u64) -> (fired: Vec<Interrupt<E>>)
        requires
            old(self).wf(),
            cmd_fits(cmd, now),
        ensures
            final(self).wf(),
            final(self)@ == step_state(old(self)@, Event::Deliver { cmd, at: now }),
            fires_match(fired@, step_fires(old(self)@, Event::Deliver { cmd, at: now })),
    {
        let ghost ev = Event::Deliver { cmd, at: now };
        if !self.running {
            return Vec::new();
        }
        match cmd {
            Command::Start { id, engine, duration } => {
                let deadline = match duration {
                    Some(d) => Some(now + d),
                    None => None,
                };
                match self.find(id) {
                    Some(i) => {
                        proof {
                            lemma_entries_map_remove(self.entries@, i as int);
                        }
                        let _ = self.entries.remove(i);
                    },
                    None => {},
                }
                proof {
                    lemma_entries_map_push(self.entries@, Entry { id, engine, deadline });
                    assert(entries_map(self.entries@).insert(id, SessionRec { engine, deadline })
                        =~= old(self)@.sessions.insert(id, SessionRec { engine, deadline }));
                }
                self.entries.push(Entry { id, engine, deadline });
                Vec::new()
            },
            Command::Stop { id } => {
                match self.find(id) {
                    Some(i) => {
                        proof {
                            lemma_entries_map_remove(self.entries@, i as int);
                        }
                        let _ = self.entries.remove(i);
                    },
                    None => {
                        proof {
                            lemma_entries_map_membership(self.entries@, id);
                            assert(entries_map(self.entries@).remove(id) =~= entries_map(
                                self.entries@,
                            ));
                        }
                    },
                }
                Vec::new()
            },
            Command::Cancel { id } => {
                match self.find(id) {
                    Some(i) => {
                        proof {
                            lemma_entries_map_index(self.entries@, i as int);
                            lemma_entries_map_remove(self.entries@, i as int);
                        }
                        let e = self.entries.remove(i);
                        let mut fired: Vec<Interrupt<E>> = Vec::new();
                        let ghost fid = e.id;
                        fired.push(Interrupt { id: e.id, engine: e.engine });
                        proof {
                            let m = step_fires(old(self)@, ev);
                            assert(fired@[0].id == fid);
                            assert(forall|k: u128| m.dom().contains(k) ==> k == fid);
                            assert(m.dom().contains(fid) ==> has_fired_id(fired@, fid));
                        }
                        fired
                    },
                    None => {
                        proof {
                            lemma_entries_map_membership(self.entries@, id);
                        }
                        Vec::new()
                    },
                }
            },
            Command::Shutdown => {
                self.running = false;
                let mut fired: Vec<Interrupt<E>> = Vec::new();
                let ghost om = old(self)@.sessions;
                loop
                    invariant
                        !self.running,
                        old(self)@.running,
                        distinct_ids(self.entries@),
                        om == old(self)@.sessions,
                        forall|k: u128|
                            om.dom().contains(k) <==> entries_map(self.entries@).dom().contains(k)
                                || has_fired_id(fired@, k),
                        forall|k: u128|
                            entries_map(self.entries@).dom().contains(k) ==> om[k] == entries_map(
                                self.entries@,
                            )[k],
                        forall|j: int|
                            0 <= j < fired@.len() ==> om.dom().contains(#[trigger] fired@[j].id)
                                && fired@[j].engine == om[fired@[j].id].engine,
                        forall|j1: int, j2: int|
                            0 <= j1 < j2 < fired@.len() ==> fired@[j1].id != fired@[j2].id,
                        forall|j: int|
                            0 <= j < fired@.len() ==> !entries_map(self.entries@).dom().contains(
                                #[trigger] fired@[j].id,
                            ),
                    ensures
                        !self.running,
                        old(self)@.running,
                        self.entries@.len() == 0,
                        forall|k: u128| om.dom().contains(k) <==> has_fired_id(fired@, k),
                        forall|j: int|
                            0 <= j < fired@.len() ==> om.dom().contains(#[trigger] fired@[j].id)
                                && fired@[j].engine == om[fired@[j].id].engine,
                        forall|j1: int, j2: int|
                            0 <= j1 < j2 < fired@.len() ==> fired@[j1].id != fired@[j2].id,
                    decreases self.entries@.len(),
                {
                    if self.entries.len() == 0 {
                        break;
                    }
                    let i = self.entries.len() - 1;
                    proof {
                        lemma_entries_map_index(self.entries@, i as int);
                        lemma_entries_map_remove(self.entries@, i as int);
                    }
                    let e = self.entries.remove(i);
                    let ghost prev = fired@;
                    fired.push(Interrupt { id: e.id, engine: e.engine });
                    proof {
                        assert(fired@ == prev.push(Interrupt { id: e.id, engine: e.engine }));
                        assert forall|k: u128|
                            om.dom().contains(k) <==> entries_map(self.entries@).dom().contains(k)
                                || has_fired_id(fired@, k) by {
                            lemma_has_fired_id_push(
                                prev,
                                Interrupt { id: e.id, engine: e.engine },
                                k,
                            );
                        }
                        assert(forall|j: int|
                            0 <= j < prev.len() ==> fired@[j] == prev[j]);
                    }
                }
                proof {
                    let m = step_fires(old(self)@, ev);
                    assert(m == om.map_values(|r: SessionRec<E>| r.engine));
                    assert(forall|k: u128| m.dom().contains(k) <==> om.dom().contains(k));
                    assert(self@.sessions =~= Map::<u128, SessionRec<E>>::empty());
                }
                fired
            },
        }
    }

    /// Sweep the store at instant `now`: drop every session whose deadline
    /// has elapsed (deadline less than or equal to `now`) and return one
    /// interrupt for each. Sessions without a deadline, and sessions whose
    /// deadline lies ahead, stay tracked untouched.
    pub fn sweep(&mut self, now: u64) -> (fired: Vec<Interrupt<E>>)
        requires
            old(self).wf(),
        ensures
            final(self).wf(),
            final(self)@ == step_state(old(self)@, Event::Sweep { at: now }),
            fires_match(fired@, step_fires(old(self)@, Event::Sweep { at: now })),
    {
        let ghost ev = Event::Sweep { at: now };
        let mut fired: Vec<Interrupt<E>> = Vec::new();
        if !self.running {
            return fired;
        }
        let ghost om = old(self)@.sessions;
        loop
            invariant
                self.running,
                self.running == old(self).running,
                distinct_ids(self.entries@),
                om == old(self)@.sessions,
                forall|k: u128|
                    om.dom().contains(k) <==> entries_map(self.entries@).dom().contains(k)
                        || has_fired_id(fired@, k),
                forall|k: u128|
                    entries_map(self.entries@).dom().contains(k) ==> om[k] == entries_map(
                        self.entries@,
                    )[k],
                forall|j: int|
                    0 <= j < fired@.len() ==> om.dom().contains(#[trigger] fired@[j].id) && expired(
                        om[fired@[j].id],
                        now,
                    ) && fired@[j].engine == om[fired@[j].id].engine,
                forall|j1: int, j2: int|
                    0 <= j1 < j2 < fired@.len() ==> fired@[j1].id != fired@[j2].id,
                forall|j: int|
                    0 <= j < fired@.len() ==> !entries_map(self.entries@).dom().contains(
                        #[trigger] fired@[j].id,
                    ),
            ensures
                self.running,
                self.running == old(self).running,
                distinct_ids(self.entries@),
                forall|k: u128|
                    om.dom().contains(k) <==> entries_map(self.entries@).dom().contains(k)
                        || has_fired_id(fired@, k),
                forall|k: u128|
                    entries_map(self.entries@).dom().contains(k) ==> om[k] == entries_map(
                        self.entries@,
                    )[k],
                forall|j: int|
                    0 <= j < fired@.len() ==> om.dom().contains(#[trigger] fired@[j].id) && expired(
                        om[fired@[j].id],
                        now,
                    ) && fired@[j].engine == om[fired@[j].id].engine,
                forall|j1: int, j2: int|
                    0 <= j1 < j2 < fired@.len() ==> fired@[j1].id != fired@[j2].id,
                forall|j: int|
                    0 <= j < fired@.len() ==> !entries_map(self.entries@).dom().contains(
                        #[trigger] fired@[j].id,
                    ),
                forall|j: int|
                    0 <= j < self.entries@.len() ==> !expired(rec_of(self.entries@[j]), now),
            decreases self.entries@.len(),
        {
            match self.find_expired(now) {
                None => {
                    break;
                },
                Some(i) => {
                    proof {
                        lemma_entries_map_index(self.entries@, i as int);
                        lemma_entries_map_remove(self.entries@, i as int);
                    }
                    let e = self.entries.remove(i);
                    let ghost prev = fired@;
                    fired.push(Interrupt { id: e.id, engine: e.engine });
                    proof {
                        assert forall|k: u128|
                            om.dom().contains(k) <==> entries_map(self.entries@).dom().contains(k)
                                || has_fired_id(fired@, k) by {
                            lemma_has_fired_id_push(
                                prev,
                                Interrupt { id: e.id, engine: e.engine },
                                k,
                            );
                        }
                        assert(forall|j: int|
                            0 <= j < prev.len() ==> fired@[j] == prev[j]);
                    }
                },
            }
        }
        proof {
            let cur = entries_map(self.entries@);
            let target = step_state(old(self)@, ev).sessions;
            let m = step_fires(old(self)@, ev);
            assert forall|k: u128| cur.dom().contains(k) implies target.dom().contains(k)
                && target[k] == cur[k] by {
                lemma_entries_map_membership(self.entries@, k);
                let i = choose|i: int| 0 <= i < self.entries@.len() && self.entries@[i].id == k;
                lemma_entries_map_index(self.entries@, i);
                assert(om.dom().contains(k));
                assert(om[k] == cur[k]);
                assert(!expired(om[k], now));
            }
            assert forall|k: u128| target.dom().contains(k) implies cur.dom().contains(k) by {
                assert(om.dom().contains(k));
                assert(!expired(om[k], now));
                if has_fired_id(fired@, k) {
                    let j = choose|j: int| 0 <= j < fired@.len() && fired@[j].id == k;
                    assert(expired(om[k], now));
                }
            }
            assert(cur =~= target);
            assert(self@.sessions == cur);
            assert forall|k: u128| m.dom().contains(k) implies has_fired_id(fired@, k) by {
                assert(om.dom().contains(k));
                assert(expired(om[k], now));
                if cur.dom().contains(k) {
                    lemma_entries_map_membership(self.entries@, k);
                    let i = choose|i: int| 0 <= i < self.entries@.len() && self.entries@[i].id == k;
                    lemma_entries_map_index(self.entries@, i);
                    assert(!expired(om[k], now));
                }
            }
        }
        fired
    }
}

} // verus!
