//! The event system and the cooperative scheduler.
//!
//! External mutable state (the game world and the task registry) is handed to
//! a resumed task as explicit parameters of its step function, scoped to one
//! resume step; a task may not hold on to it across suspension points.

use vstd::prelude::*;
use crate::seq_facts::lemma_push_contains;

verus! {

/// Integer identity of an entity in the game world.
pub type EntityId = u32;

/// Integer identity of a task (coroutine) in the registry.
pub type CoroutineId = u32;

#[derive(Clone, Copy, PartialEq, Eq, Structural, Debug)]
pub enum InputAction {
    MoveUp,
    Attack,
}

/// A game event is a value from a closed set of kinds, compared by full
/// structural equality; events carry no identity beyond equality.
#[derive(Clone, Copy, PartialEq, Eq, Structural, Debug)]
pub enum GameEvent {
    EntityDied(EntityId),
    AttackHit { attacker: EntityId, target: EntityId, damage: i32 },
    PlayerInput(InputAction),
}

/// No id occurs twice.
pub open spec fn distinct_ids(s: Seq<CoroutineId>) -> bool {
    forall|i: int, j: int| 0 <= i < j < s.len() ==> s[i] != s[j]
}

/// A listener table: event values paired with the ids waiting on them.
pub type ListenerTable = Seq<(GameEvent, Seq<CoroutineId>)>;

pub open spec fn tbl_has_key(t: ListenerTable, e: GameEvent) -> bool {
    exists|i: int| 0 <= i < t.len() && (#[trigger] t[i]).0 == e
}

pub open spec fn tbl_key_at(t: ListenerTable, e: GameEvent) -> int {
    choose|i: int| 0 <= i < t.len() && (#[trigger] t[i]).0 == e
}

/// The ids registered on `e` (their order is not meaningful).
pub open spec fn tbl_listeners(t: ListenerTable, e: GameEvent) -> Seq<CoroutineId> {
    if tbl_has_key(t, e) {
        t[tbl_key_at(t, e)].1
    } else {
        Seq::<CoroutineId>::empty()
    }
}

pub open spec fn tbl_keys_unique(t: ListenerTable) -> bool {
    forall|i: int, j: int| 0 <= i < j < t.len() ==> (#[trigger] t[i]).0 != (#[trigger] t[j]).0
}

/// Replacing the ids of one entry, keeping its key, leaves every other
/// event's listeners unchanged and keeps the keys unique.
proof fn lemma_tbl_update(t0: ListenerTable, t1: ListenerTable, i: int)
    requires
        tbl_keys_unique(t0),
        t0.len() == t1.len(),
        0 <= i < t0.len(),
        forall|j: int| 0 <= j < t0.len() && j != i ==> t0[j] == t1[j],
        t1[i].0 == t0[i].0,
    ensures
        tbl_keys_unique(t1),
        tbl_has_key(t1, t0[i].0),
        tbl_key_at(t1, t0[i].0) == i,
        tbl_has_key(t0, t0[i].0),
        tbl_key_at(t0, t0[i].0) == i,
        tbl_listeners(t1, t0[i].0) == t1[i].1,
        forall|e2: GameEvent| e2 != t0[i].0 ==> tbl_listeners(t1, e2) == tbl_listeners(t0, e2),
{
    let e = t0[i].0;
    assert(forall|j: int| 0 <= j < t1.len() ==> (#[trigger] t1[j]).0 == t0[j].0);
    assert(tbl_has_key(t1, e));
    let k1 = tbl_key_at(t1, e);
    assert(0 <= k1 < t1.len() && t1[k1].0 == e);
    assert(k1 == i);
    assert(tbl_has_key(t0, e));
    let k0 = tbl_key_at(t0, e);
    assert(0 <= k0 < t0.len() && t0[k0].0 == e);
    assert(k0 == i);
    assert forall|e2: GameEvent| e2 != e implies tbl_listeners(t1, e2) == tbl_listeners(
        t0,
        e2,
    ) by {
        if tbl_has_key(t0, e2) {
            let j = tbl_key_at(t0, e2);
            assert(0 <= j < t0.len() && t0[j].0 == e2);
            assert(j != i);
            assert(t1[j].0 == e2);
            assert(tbl_has_key(t1, e2));
            let j1 = tbl_key_at(t1, e2);
            assert(0 <= j1 < t1.len() && t1[j1].0 == e2);
            assert(j1 == j);
        } else {
            assert(!tbl_has_key(t1, e2)) by {
                if tbl_has_key(t1, e2) {
                    let j1 = tbl_key_at(t1, e2);
                    assert(0 <= j1 < t1.len() && t1[j1].0 == e2);
                    assert(t0[j1].0 == e2);
                }
            }
        }
    }
}

/// Appending an entry for a fresh key leaves every other event's listeners
/// unchanged and keeps the keys unique.
proof fn lemma_tbl_push(t0: ListenerTable, e: GameEvent, ids: Seq<CoroutineId>)
    requires
        tbl_keys_unique(t0),
        !tbl_has_key(t0, e),
    ensures
        tbl_keys_unique(t0.push((e, ids))),
        tbl_has_key(t0.push((e, ids)), e),
        tbl_key_at(t0.push((e, ids)), e) == t0.len(),
        tbl_listeners(t0.push((e, ids)), e) == ids,
        forall|e2: GameEvent|
            e2 != e ==> tbl_listeners(t0.push((e, ids)), e2) == tbl_listeners(t0, e2),
{
    let t1 = t0.push((e, ids));
    assert(t1[t0.len() as int] == (e, ids));
    assert(forall|j: int| 0 <= j < t0.len() ==> t1[j] == t0[j]);
    assert forall|i: int, j: int|
        0 <= i < j < t1.len() implies (#[trigger] t1[i]).0 != (#[trigger] t1[j]).0 by {
        if j == t0.len() {
            assert(t0[i].0 != e) by {
                if t0[i].0 == e {
                    assert(tbl_has_key(t0, e));
                }
            }
        }
    }
    assert(tbl_has_key(t1, e));
    let k = tbl_key_at(t1, e);
    assert(0 <= k < t1.len() && t1[k].0 == e);
    assert(k == t0.len()) by {
        if k < t0.len() {
            assert(t0[k].0 == e);
            assert(tbl_has_key(t0, e));
        }
    }
    assert forall|e2: GameEvent| e2 != e implies tbl_listeners(t1, e2) == tbl_listeners(
        t0,
        e2,
    ) by {
        if tbl_has_key(t0, e2) {
            let j = tbl_key_at(t0, e2);
            assert(0 <= j < t0.len() && t0[j].0 == e2);
            assert(t1[j].0 == e2);
            assert(tbl_has_key(t1, e2));
            let j1 = tbl_key_at(t1, e2);
            assert(0 <= j1 < t1.len() && t1[j1].0 == e2);
            assert(j1 == j) by {
                if j1 == t0.len() {
                    assert(t1[j1].0 == e);
                }
            }
        } else {
            assert(!tbl_has_key(t1, e2)) by {
                if tbl_has_key(t1, e2) {
                    let j1 = tbl_key_at(t1, e2);
                    assert(0 <= j1 < t1.len() && t1[j1].0 == e2);
                    if j1 < t0.len() {
                        assert(t0[j1].0 == e2);
                    } else {
                        assert(t1[j1].0 == e);
                    }
                }
            }
        }
    }
}

/// A many-to-many table from event value to the set of task ids waiting on
/// it, plus the ordered queue of events fired during the current tick.
pub struct EventSystem {
    listeners: Vec<(GameEvent, Vec<CoroutineId>)>,
    fired_events: Vec<GameEvent>,
}

impl EventSystem {
    /// The listener table, as a sequence of (event, waiting ids) pairs.
    pub closed spec fn table(self) -> ListenerTable {
        self.listeners@.map_values(|p: (GameEvent, Vec<CoroutineId>)| (p.0, p.1@))
    }

    /// The queue of events fired this tick, in firing order.
    pub closed spec fn fired(self) -> Seq<GameEvent> {
        self.fired_events@
    }

    /// The ids currently registered on `e`.
    pub open spec fn listeners_of(self, e: GameEvent) -> Seq<CoroutineId> {
        tbl_listeners(self.table(), e)
    }

    /// Each event has at most one table entry, and no id is registered twice
    /// on the same event.
    pub open spec fn wf(self) -> bool {
        &&& tbl_keys_unique(self.table())
        &&& forall|k: int|
            0 <= k < self.table().len() ==> distinct_ids((#[trigger] self.table()[k]).1)
    }

    pub fn new() -> (r: EventSystem)
        ensures
            r.wf(),
            r.table() == Seq::<(GameEvent, Seq<CoroutineId>)>::empty(),
            r.fired() == Seq::<GameEvent>::empty(),
    {
        EventSystem { listeners: Vec::new(), fired_events: Vec::new() }
    }

    /// Index of the table entry for `e`, if there is one.
    fn find_key(&self, e: GameEvent) -> (r: Option<usize>)
        requires
            self.wf(),
        ensures
            match r {
                Some(i) => 0 <= i < self.table().len() && self.table()[i as int].0 == e
                    && tbl_has_key(self.table(), e) && tbl_key_at(self.table(), e) == i,
                None => !tbl_has_key(self.table(), e),
            },
    {
        let n = self.listeners.len();
        let mut i: usize = 0;
        while i < n
            invariant
                self.wf(),
                n == self.listeners.len(),
                0 <= i <= n,
                forall|j: int| 0 <= j < i ==> (#[trigger] self.table()[j]).0 != e,
            decreases n - i,
        {
            if self.listeners[i].0 == e {
                proof {
                    assert(self.table()[i as int].0 == e);
                    assert(tbl_has_key(self.table(), e));
                    let j = tbl_key_at(self.table(), e);
                    assert(0 <= j < self.table().len() && self.table()[j].0 == e);
                    assert(j == i as int);
                }
                return Some(i);
            }
            i += 1;
        }
        None
    }

    /// Adds `coroutine_id` to the set of ids waiting on `event`; a no-op if it
    /// is already registered there.
    pub fn register_listener(&mut self, event: GameEvent, coroutine_id: CoroutineId)
        requires
            old(self).wf(),
        ensures
            final(self).wf(),
            final(self).fired() == old(self).fired(),
            forall|x: CoroutineId|
                final(self).listeners_of(event).contains(x) <==> (old(self).listeners_of(
                    event,
                ).contains(x) || x == coroutine_id),
            forall|e2: GameEvent|
                e2 != event ==> final(self).listeners_of(e2) == old(self).listeners_of(e2),
    {
        let ghost t0 = self.table();
        match self.find_key(event) {
            Some(i) => {
                let slot = vstd::std_specs::vec::vec_index_mut(&mut self.listeners, i);
                let ghost ids0 = t0[i as int].1;
                if !contains_id(&slot.1, coroutine_id) {
                    slot.1.push(coroutine_id);
                }
                proof {
                    let t1 = self.table();
                    assert(t1.len() == t0.len());
                    assert(forall|j: int| 0 <= j < t0.len() && j != i ==> t0[j] == t1[j]);
                    assert(t1[i as int].0 == event);
                    assert(t1[i as int].1 == ids0 || t1[i as int].1 == ids0.push(coroutine_id));
                    lemma_tbl_update(t0, t1, i as int);
                    assert forall|x: CoroutineId| #![all_triggers]
                        self.listeners_of(event).contains(x) <==> (old(self).listeners_of(
                            event,
                        ).contains(x) || x == coroutine_id) by {
                        lemma_push_contains(ids0, coroutine_id, x);
                    }
                    assert forall|k: int|
                        0 <= k < t1.len() implies distinct_ids(#[trigger] t1[k].1) by {
                        assert(distinct_ids(t0[k].1));
                        if k == i && t1[i as int].1 == ids0.push(coroutine_id) {
                            assert(!ids0.contains(coroutine_id));
                            assert forall|p: int, q: int|
                                0 <= p < q < ids0.push(coroutine_id).len() implies ids0.push(
                                coroutine_id,
                            )[p] != ids0.push(coroutine_id)[q] by {
                                if q == ids0.len() {
                                    assert(ids0.push(coroutine_id)[p] == ids0[p]);
                                    assert(ids0.contains(ids0[p]));
                                }
                            }
                        }
                    }
                }
            },
            None => {
                let mut ids: Vec<CoroutineId> = Vec::new();
                ids.push(coroutine_id);
                self.listeners.push((event, ids));
                proof {
                    let t1 = self.table();
                    assert(t1 =~= t0.push((event, seq![coroutine_id])));
                    lemma_tbl_push(t0, event, seq![coroutine_id]);
                    assert(self.listeners_of(event) == seq![coroutine_id]);
                    assert forall|x: CoroutineId| #![all_triggers]
                        self.listeners_of(event).contains(x) <==> (old(self).listeners_of(
                            event,
                        ).contains(x) || x == coroutine_id) by {
                        assert(!old(self).listeners_of(event).contains(x));
                        if x == coroutine_id {
                            assert(self.listeners_of(event)[0] == x);
                        }
                    }
                    assert forall|k: int|
                        0 <= k < t1.len() implies distinct_ids(#[trigger] t1[k].1) by {
                        if k < t0.len() {
                            assert(t1[k] == t0[k]);
                            assert(distinct_ids(t0[k].1));
                        } else {
                            assert(t1[k].1 == seq![coroutine_id]);
                        }
                    }
                }
            },
        }
    }

    /// Removes `coroutine_id` from the ids waiting on `event`; a no-op if it
    /// is not registered there.
    pub fn unregister_listener(&mut self, event: &GameEvent, coroutine_id: CoroutineId)
        requires
            old(self).wf(),
        ensures
            final(self).wf(),
            final(self).fired() == old(self).fired(),
            forall|x: CoroutineId|
                final(self).listeners_of(*event).contains(x) <==> (old(self).listeners_of(
                    *event,
                ).contains(x) && x != coroutine_id),
            forall|e2: GameEvent|
                e2 != *event ==> final(self).listeners_of(e2) == old(self).listeners_of(e2),
    {
        let ghost t0 = self.table();
        match self.find_key(*event) {
            Some(i) => {
                let slot = vstd::std_specs::vec::vec_index_mut(&mut self.listeners, i);
                let ghost ids0 = t0[i as int].1;
                let mut k: usize = 0;
                let n = slot.1.len();
                let mut pos: Option<usize> = None;
                while k < n
                    invariant
                        n == slot.1@.len(),
                        0 <= k <= n,
                        slot.1@ == ids0,
                        match pos {
                            None => forall|j: int| 0 <= j < k ==> ids0[j] != coroutine_id,
                            Some(kk) => 0 <= kk < n && ids0[kk as int] == coroutine_id,
                        },
                    decreases n - k,
                {
                    if pos.is_none() && slot.1[k] == coroutine_id {
                        pos = Some(k);
                    }
                    k += 1;
                }
                proof {
                    match pos {
                        Some(kk) => {
                            assert(ids0[kk as int] == coroutine_id);
                        },
                        None => {
                            assert(!ids0.contains(coroutine_id)) by {
                                if ids0.contains(coroutine_id) {
                                    let w = choose|w: int|
                                        0 <= w < ids0.len() && ids0[w] == coroutine_id;
                                    assert(ids0[w] != coroutine_id);
                                }
                            }
                        },
                    }
                }
                match pos {
                    Some(kk) => {
                        slot.1.remove(kk);
                    },
                    None => {},
                }
                proof {
                    let ids1 = slot.1@;
                    assert(distinct_ids(ids0));
                    match pos {
                        Some(kk) => {
                            assert(ids1 == ids0.remove(kk as int));
                            lemma_remove_all_contains(ids0, kk as int);
                        },
                        None => {
                            assert(ids1 == ids0);
                        },
                    }
                    assert(forall|x: CoroutineId| #![all_triggers]
                        ids1.contains(x) <==> (ids0.contains(x) && x != coroutine_id));
                    assert(distinct_ids(ids1));
                    let t1 = self.table();
                    assert(t1.len() == t0.len());
                    assert(forall|j: int| 0 <= j < t0.len() && j != i ==> t0[j] == t1[j]);
                    assert(t1[i as int].0 == *event);
                    assert(t1[i as int].1 == ids1);
                    lemma_tbl_update(t0, t1, i as int);
                    assert forall|k2: int|
                        0 <= k2 < t1.len() implies distinct_ids(#[trigger] t1[k2].1) by {
                        assert(distinct_ids(t0[k2].1));
                    }
                }
            },
            None => {
                proof {
                    assert(old(self).listeners_of(*event) == Seq::<CoroutineId>::empty());
                }
            },
        }
    }

    /// Appends `event` to the fired queue; nobody is woken until the next
    /// dispatch.
    pub fn fire_event(&mut self, event: GameEvent)
        requires
            old(self).wf(),
        ensures
            final(self).wf(),
            final(self).fired() == old(self).fired().push(event),
            final(self).table() == old(self).table(),
    {
        let ghost l0 = self.listeners@;
        self.fired_events.push(event);
        proof {
            assert(self.listeners@ == l0);
            assert(self.table() == old(self).table());
        }
    }

    /// The ids currently waiting on `event`, or `None` if no entry exists.
    pub fn get_waiting_coroutines(&self, event: &GameEvent) -> (r: Option<&Vec<CoroutineId>>)
        requires
            self.wf(),
        ensures
            match r {
                Some(ids) => tbl_has_key(self.table(), *event) && ids@ == self.listeners_of(
                    *event,
                ),
                None => !tbl_has_key(self.table(), *event),
            },
    {
        match self.find_key(*event) {
            Some(i) => Some(&self.listeners[i].1),
            None => None,
        }
    }

    /// Whether `event` is in the fired queue.
    pub fn fired_contains(&self, event: &GameEvent) -> (r: bool)
        ensures
            r == self.fired().contains(*event),
    {
        let n = self.fired_events.len();
        let mut i: usize = 0;
        while i < n
            invariant
                n == self.fired().len(),
                0 <= i <= n,
                forall|j: int| 0 <= j < i ==> self.fired()[j] != *event,
            decreases n - i,
        {
            if self.fired_events[i] == *event {
                proof {
                    assert(self.fired()[i as int] == *event);
                }
                return true;
            }
            i += 1;
        }
        false
    }

    /// Empties the fired queue; done once per tick, after dispatch.
    pub fn clear_fired(&mut self)
        requires
            old(self).wf(),
        ensures
            final(self).wf(),
            final(self).fired() == Seq::<GameEvent>::empty(),
            final(self).table() == old(self).table(),
    {
        let ghost l0 = self.listeners@;
        self.fired_events.clear();
        proof {
            assert(self.listeners@ == l0);
            assert(self.table() == old(self).table());
            assert(self.fired() =~= Seq::<GameEvent>::empty());
        }
    }
}

/// Removing the only occurrence of an id removes exactly that id.
proof fn lemma_remove_all_contains(s: Seq<CoroutineId>, k: int)
    requires
        distinct_ids(s),
        0 <= k < s.len(),
    ensures
        forall|x: CoroutineId| #![all_triggers]
            s.remove(k).contains(x) <==> (s.contains(x) && x != s[k]),
        distinct_ids(s.remove(k)),
{
    let r = s.remove(k);
    assert forall|x: CoroutineId| #![all_triggers]
        r.contains(x) <==> (s.contains(x) && x != s[k]) by {
        if r.contains(x) {
            let w = choose|w: int| 0 <= w < r.len() && r[w] == x;
            if w < k {
                assert(s[w] == x);
            } else {
                assert(s[w + 1] == x);
            }
        }
        if s.contains(x) && x != s[k] {
            let w = choose|w: int| 0 <= w < s.len() && s[w] == x;
            if w < k {
                assert(r[w] == x);
            } else {
                assert(w > k);
                assert(r[w - 1] == x);
            }
        }
    }
    assert forall|p: int, q: int| 0 <= p < q < r.len() implies r[p] != r[q] by {
        assert(r[p] == if p < k { s[p] } else { s[p + 1] });
        assert(r[q] == if q < k { s[q] } else { s[q + 1] });
    }
}

/// Whether `ids` holds `x`.
pub fn contains_id(ids: &Vec<CoroutineId>, x: CoroutineId) -> (r: bool)
    ensures
        r == ids@.contains(x),
{
    let mut i: usize = 0;
    while i < ids.len()
        invariant
            0 <= i <= ids@.len(),
            forall|j: int| 0 <= j < i ==> ids@[j] != x,
        decreases ids@.len() - i,
    {
        if ids[i] == x {
            return true;
        }
        i += 1;
    }
    false
}

// ============================================================================
// Association lists with unique keys
// ============================================================================

pub open spec fn assoc_has_key<K, V>(t: Seq<(K, V)>, k: K) -> bool {
    exists|i: int| 0 <= i < t.len() && (#[trigger] t[i]).0 == k
}

pub open spec fn assoc_key_at<K, V>(t: Seq<(K, V)>, k: K) -> int {
    choose|i: int| 0 <= i < t.len() && (#[trigger] t[i]).0 == k
}

pub open spec fn assoc_keys_unique<K, V>(t: Seq<(K, V)>) -> bool {
    forall|i: int, j: int| 0 <= i < j < t.len() ==> (#[trigger] t[i]).0 != (#[trigger] t[j]).0
}

/// Replacing the value of one entry, keeping its key, leaves every other
/// key's lookup unchanged and keeps the keys unique.
proof fn lemma_assoc_update<K, V>(t0: Seq<(K, V)>, t1: Seq<(K, V)>, i: int)
    requires
        assoc_keys_unique(t0),
        t0.len() == t1.len(),
        0 <= i < t0.len(),
        forall|j: int| 0 <= j < t0.len() && j != i ==> t0[j] == t1[j],
        t1[i].0 == t0[i].0,
    ensures
        assoc_keys_unique(t1),
        assoc_has_key(t1, t0[i].0),
        assoc_key_at(t1, t0[i].0) == i,
        assoc_has_key(t0, t0[i].0),
        assoc_key_at(t0, t0[i].0) == i,
        forall|k2: K|
            k2 != t0[i].0 ==> assoc_has_key(t1, k2) == assoc_has_key(t0, k2),
        forall|k2: K|
            k2 != t0[i].0 && assoc_has_key(t0, k2) ==> t1[assoc_key_at(t1, k2)] == t0[
                assoc_key_at(t0, k2)],
{
    let k = t0[i].0;
    assert(forall|j: int| 0 <= j < t1.len() ==> (#[trigger] t1[j]).0 == t0[j].0);
    assert(tbl_witness_index(t1, k, i));
    let k1 = assoc_key_at(t1, k);
    assert(0 <= k1 < t1.len() && t1[k1].0 == k);
    assert(k1 == i);
    assert(tbl_witness_index(t0, k, i));
    let k0 = assoc_key_at(t0, k);
    assert(0 <= k0 < t0.len() && t0[k0].0 == k);
    assert(k0 == i);
    assert forall|k2: K| k2 != k && assoc_has_key(t0, k2) implies assoc_has_key(t1, k2) && t1[
        assoc_key_at(t1, k2)] == t0[assoc_key_at(t0, k2)] by {
        let j = assoc_key_at(t0, k2);
        assert(0 <= j < t0.len() && t0[j].0 == k2);
        assert(j != i);
        assert(t1[j].0 == k2);
        assert(tbl_witness_index(t1, k2, j));
        let j1 = assoc_key_at(t1, k2);
        assert(0 <= j1 < t1.len() && t1[j1].0 == k2);
        assert(j1 == j);
    }
    assert forall|k2: K| k2 != k && !assoc_has_key(t0, k2) implies !assoc_has_key(t1, k2) by {
        if assoc_has_key(t1, k2) {
            let j1 = assoc_key_at(t1, k2);
            assert(0 <= j1 < t1.len() && t1[j1].0 == k2);
            assert(t0[j1].0 == k2);
        }
    }
}

/// A helper for naming an existence witness.
spec fn tbl_witness_index<K, V>(t: Seq<(K, V)>, k: K, i: int) -> bool {
    0 <= i < t.len() && t[i].0 == k ==> assoc_has_key(t, k)
}

/// Appending an entry for a fresh key leaves every other key's lookup
/// unchanged and keeps the keys unique.
proof fn lemma_assoc_push<K, V>(t0: Seq<(K, V)>, k: K, v: V)
    requires
        assoc_keys_unique(t0),
        !assoc_has_key(t0, k),
    ensures
        assoc_keys_unique(t0.push((k, v))),
        assoc_has_key(t0.push((k, v)), k),
        assoc_key_at(t0.push((k, v)), k) == t0.len(),
        forall|k2: K|
            k2 != k ==> assoc_has_key(t0.push((k, v)), k2) == assoc_has_key(t0, k2),
        forall|k2: K|
            k2 != k && assoc_has_key(t0, k2) ==> t0.push((k, v))[assoc_key_at(
                t0.push((k, v)),
                k2,
            )] == t0[assoc_key_at(t0, k2)],
{
    let t1 = t0.push((k, v));
    assert(t1[t0.len() as int] == (k, v));
    assert(forall|j: int| 0 <= j < t0.len() ==> t1[j] == t0[j]);
    assert forall|i: int, j: int|
        0 <= i < j < t1.len() implies (#[trigger] t1[i]).0 != (#[trigger] t1[j]).0 by {
        if j == t0.len() {
            assert(t0[i].0 != k) by {
                if t0[i].0 == k {
                    assert(assoc_has_key(t0, k));
                }
            }
        }
    }
    assert(assoc_has_key(t1, k));
    let w = assoc_key_at(t1, k);
    assert(0 <= w < t1.len() && t1[w].0 == k);
    assert(w == t0.len()) by {
        if w < t0.len() {
            assert(t0[w].0 == k);
            assert(assoc_has_key(t0, k));
        }
    }
    assert forall|k2: K| k2 != k && assoc_has_key(t0, k2) implies assoc_has_key(t1, k2) && t1[
        assoc_key_at(t1, k2)] == t0[assoc_key_at(t0, k2)] by {
        let j = assoc_key_at(t0, k2);
        assert(0 <= j < t0.len() && t0[j].0 == k2);
        assert(t1[j].0 == k2);
        let j1 = assoc_key_at(t1, k2);
        assert(0 <= j1 < t1.len() && t1[j1].0 == k2);
        assert(j1 == j) by {
            if j1 == t0.len() {
                assert(t1[j1].0 == k);
            }
        }
    }
    assert forall|k2: K| k2 != k && !assoc_has_key(t0, k2) implies !assoc_has_key(t1, k2) by {
        if assoc_has_key(t1, k2) {
            let j1 = assoc_key_at(t1, k2);
            assert(0 <= j1 < t1.len() && t1[j1].0 == k2);
            if j1 < t0.len() {
                assert(t0[j1].0 == k2);
            } else {
                assert(t1[j1].0 == k);
            }
        }
    }
}

// ============================================================================
// Game world
// ============================================================================

/// One entity: position, velocity and health.  Coordinates are integer world
/// units.
#[derive(Clone, Copy, Debug)]
pub struct Entity {
    pub position: (i64, i64),
    pub velocity: (i64, i64),
    pub health: i32,
}

/// The world: entities keyed by id, plus the event system.  Owned by the
/// caller and lent to the executor for the duration of a tick.
pub struct GameWorld {
    pub entities: Vec<(EntityId, Entity)>,
    pub events: EventSystem,
}

/// Health after taking `amount` damage: an i32 subtraction that saturates
/// instead of wrapping.
pub open spec fn spec_damaged(h: i32, amount: i32) -> i32 {
    if h - amount < i32::MIN {
        i32::MIN
    } else if h - amount > i32::MAX {
        i32::MAX
    } else {
        (h - amount) as i32
    }
}

impl GameWorld {
    pub open spec fn wf(self) -> bool {
        assoc_keys_unique(self.entities@) && self.events.wf()
    }

    /// The entity stored under `id`, if any.
    pub open spec fn entity_of(self, id: EntityId) -> Option<Entity> {
        if assoc_has_key(self.entities@, id) {
            Some(self.entities@[assoc_key_at(self.entities@, id)].1)
        } else {
            None
        }
    }

    pub fn new() -> (r: GameWorld)
        ensures
            r.wf(),
            r.entities@ == Seq::<(EntityId, Entity)>::empty(),
            r.events.table() == Seq::<(GameEvent, Seq<CoroutineId>)>::empty(),
            r.events.fired() == Seq::<GameEvent>::empty(),
    {
        GameWorld { entities: Vec::new(), events: EventSystem::new() }
    }

    /// Index of the entity entry for `id`, if there is one.
    fn find_entity(&self, id: EntityId) -> (r: Option<usize>)
        requires
            self.wf(),
        ensures
            match r {
                Some(i) => 0 <= i < self.entities@.len() && self.entities@[i as int].0 == id
                    && assoc_has_key(self.entities@, id) && assoc_key_at(self.entities@, id) == i,
                None => !assoc_has_key(self.entities@, id),
            },
    {
        let n = self.entities.len();
        let mut i: usize = 0;
        while i < n
            invariant
                n == self.entities@.len(),
                0 <= i <= n,
                assoc_keys_unique(self.entities@),
                forall|j: int| 0 <= j < i ==> (#[trigger] self.entities@[j]).0 != id,
            decreases n - i,
        {
            if self.entities[i].0 == id {
                proof {
                    assert(assoc_has_key(self.entities@, id));
                    let j = assoc_key_at(self.entities@, id);
                    assert(0 <= j < self.entities@.len() && self.entities@[j].0 == id);
                    assert(j == i as int);
                }
                return Some(i);
            }
            i += 1;
        }
        None
    }

    /// Inserts (or overwrites) entity `id` at position (x, y), with zero
    /// velocity and full health.
    pub fn spawn_entity(&mut self, id: EntityId, x: i64, y: i64)
        requires
            old(self).wf(),
        ensures
            final(self).wf(),
            final(self).events == old(self).events,
            final(self).entity_of(id) == Some(
                Entity { position: (x, y), velocity: (0i64, 0i64), health: 100i32 },
            ),
            forall|id2: EntityId|
                id2 != id ==> final(self).entity_of(id2) == old(self).entity_of(id2),
    {
        let ent = Entity { position: (x, y), velocity: (0, 0), health: 100 };
        let ghost t0 = self.entities@;
        match self.find_entity(id) {
            Some(i) => {
                let slot = vstd::std_specs::vec::vec_index_mut(&mut self.entities, i);
                slot.1 = ent;
                proof {
                    let t1 = self.entities@;
                    assert(t1 == t0.update(i as int, (id, ent)));
                    assert(forall|j: int| 0 <= j < t0.len() && j != i ==> t0[j] == t1[j]);
                    assert(t1[i as int].0 == id);
                    lemma_assoc_update(t0, t1, i as int);
                }
            },
            None => {
                self.entities.push((id, ent));
                proof {
                    assert(self.entities@ == t0.push((id, ent)));
                    lemma_assoc_push(t0, id, ent);
                }
            },
        }
    }
}

/// `w1` is `w0` with entity `id`'s velocity set to (vx, vy); a no-op if the
/// entity does not exist.  Events are untouched.
pub open spec fn velocity_set_post(
    w0: GameWorld,
    w1: GameWorld,
    id: EntityId,
    vx: i64,
    vy: i64,
) -> bool {
    &&& w1.events == w0.events
    &&& match w0.entity_of(id) {
        None => w1.entities@ == w0.entities@,
        Some(e) => {
            &&& w1.entity_of(id) == Some(
                Entity { position: e.position, velocity: (vx, vy), health: e.health },
            )
            &&& forall|id2: EntityId| id2 != id ==> w1.entity_of(id2) == w0.entity_of(id2)
            &&& assoc_keys_unique(w1.entities@)
        },
    }
}

/// `w1` is `w0` after entity `id` took `amount` damage: health drops
/// (saturating), and if the new health is zero or below an `EntityDied`
/// event is fired.  A no-op if the entity does not exist.
pub open spec fn damage_post(w0: GameWorld, w1: GameWorld, id: EntityId, amount: i32) -> bool {
    &&& w1.events.table() == w0.events.table()
    &&& match w0.entity_of(id) {
        None => w1.entities@ == w0.entities@ && w1.events == w0.events,
        Some(e) => {
            &&& w1.entity_of(id) == Some(
                Entity {
                    position: e.position,
                    velocity: e.velocity,
                    health: spec_damaged(e.health, amount),
                },
            )
            &&& forall|id2: EntityId| id2 != id ==> w1.entity_of(id2) == w0.entity_of(id2)
            &&& assoc_keys_unique(w1.entities@)
            &&& w1.events.fired() == if spec_damaged(e.health, amount) <= 0 {
                w0.events.fired().push(GameEvent::EntityDied(id))
            } else {
                w0.events.fired()
            }
        },
    }
}

/// Sets the velocity of entity `entity_id`; a no-op if it does not exist.
pub fn set_velocity(world: &mut GameWorld, entity_id: EntityId, vx: i64, vy: i64)
    requires
        old(world).wf(),
    ensures
        final(world).wf(),
        velocity_set_post(*old(world), *final(world), entity_id, vx, vy),
{
    let ghost t0 = world.entities@;
    match world.find_entity(entity_id) {
        Some(i) => {
            let ghost e0 = world.entities@[i as int].1;
            let slot = vstd::std_specs::vec::vec_index_mut(&mut world.entities, i);
            slot.1.velocity = (vx, vy);
            proof {
                let t1 = world.entities@;
                assert(forall|j: int| 0 <= j < t0.len() && j != i ==> t0[j] == t1[j]);
                assert(t1[i as int].0 == entity_id);
                assert(t1[i as int].1 == Entity {
                    position: e0.position,
                    velocity: (vx, vy),
                    health: e0.health,
                });
                lemma_assoc_update(t0, t1, i as int);
            }
        },
        None => {},
    }
}

/// Applies `amount` damage to entity `entity_id` (saturating), firing
/// `EntityDied` when health falls to zero or below; a no-op if it does not
/// exist.
pub fn damage_entity(world: &mut GameWorld, entity_id: EntityId, amount: i32)
    requires
        old(world).wf(),
    ensures
        final(world).wf(),
        damage_post(*old(world), *final(world), entity_id, amount),
{
    let ghost t0 = world.entities@;
    match world.find_entity(entity_id) {
        Some(i) => {
            let ghost e0 = world.entities@[i as int].1;
            let slot = vstd::std_specs::vec::vec_index_mut(&mut world.entities, i);
            let wide: i64 = (slot.1.health as i64) - (amount as i64);
            let nh: i32 = if wide < i32::MIN as i64 {
                i32::MIN
            } else if wide > i32::MAX as i64 {
                i32::MAX
            } else {
                wide as i32
            };
            slot.1.health = nh;
            proof {
                assert(nh == spec_damaged(e0.health, amount));
                let t1 = world.entities@;
                assert(forall|j: int| 0 <= j < t0.len() && j != i ==> t0[j] == t1[j]);
                assert(t1[i as int].0 == entity_id);
                lemma_assoc_update(t0, t1, i as int);
            }
            if nh <= 0 {
                world.events.fire_event(GameEvent::EntityDied(entity_id));
            }
        },
        None => {},
    }
}

// ============================================================================
// Tasks (coroutines) and the registry
// ============================================================================

/// A suspendable computation, written as an explicit state machine: each
/// variant carries the local state it retains across suspension points.
/// Resuming it runs it until it suspends again or completes.
pub enum Coroutine {
    /// Completes immediately, doing nothing.
    Noop,
    /// Fires `event` and completes.
    FireEvent { event: GameEvent },
    /// Damages `target` and completes.
    DamageEntity { target: EntityId, amount: i32 },
    /// Spawns `child` as a new task and completes.
    Fork { child: Box<Coroutine> },
    /// Registers on `event`, then on every resume checks the fired queue:
    /// completes (unregistering) once `event` is found there, else suspends.
    WaitForEvent { event: GameEvent, registered: bool },
    /// Waits for the move-up input; on observing it, sets the player's
    /// velocity and then suspends forever.  It never re-registers, so it
    /// never observes a second firing: a known, documented defect, kept
    /// deliberately.  A caller that wants every occurrence must spawn a fresh
    /// waiting task after each wake.
    PlayerMovement { player: EntityId, registered: bool, stalled: bool },
}

/// Variants that always run to completion on their first resume, without
/// suspending.
pub open spec fn completes_immediately(c: Coroutine) -> bool {
    match c {
        Coroutine::Noop => true,
        Coroutine::FireEvent { .. } => true,
        Coroutine::DamageEntity { .. } => true,
        Coroutine::Fork { .. } => true,
        Coroutine::WaitForEvent { .. } => false,
        Coroutine::PlayerMovement { .. } => false,
    }
}

/// One registry slot.  `live` says the task still exists (its id is known to
/// the registry); `needs_poll` is the level-triggered readiness flag;
/// `coroutine` holds the suspended computation, taken out only while the
/// executor is resuming it.
pub struct TaskSlot {
    pub live: bool,
    pub needs_poll: bool,
    pub coroutine: Option<Coroutine>,
}

/// Owns all live tasks; ids are assigned monotonically and never reused.
pub struct CoroutineStorage {
    pub slots: Vec<TaskSlot>,
}

impl CoroutineStorage {
    /// Outside of a resume step, a slot is live exactly when it still holds
    /// its computation, and only live slots are flagged ready.
    pub open spec fn wf(self) -> bool {
        forall|i: int|
            0 <= i < self.slots@.len() ==> (((#[trigger] self.slots@[i]).live <==> self.slots@[i].coroutine is Some)
                && (!self.slots@[i].live ==> !self.slots@[i].needs_poll))
    }

    pub fn new() -> (r: CoroutineStorage)
        ensures
            r.wf(),
            r.slots@ == Seq::<TaskSlot>::empty(),
    {
        CoroutineStorage { slots: Vec::new() }
    }

    /// Registers a new task, flagged ready for the next tick; returns its id.
    pub fn spawn_coroutine(&mut self, future: Coroutine) -> (id: CoroutineId)
        requires
            old(self).slots@.len() < u32::MAX as nat,
        ensures
            id as int == old(self).slots@.len(),
            final(self).slots@ == old(self).slots@.push(
                TaskSlot { live: true, needs_poll: true, coroutine: Some(future) },
            ),
    {
        let id = self.slots.len() as u32;
        self.slots.push(TaskSlot { live: true, needs_poll: true, coroutine: Some(future) });
        id
    }

    /// As `spawn_coroutine`, for a task that arrives boxed.
    pub fn spawn_boxed_coroutine(&mut self, future: Box<Coroutine>) -> (id: CoroutineId)
        requires
            old(self).slots@.len() < u32::MAX as nat,
        ensures
            id as int == old(self).slots@.len(),
            final(self).slots@ == old(self).slots@.push(
                TaskSlot { live: true, needs_poll: true, coroutine: Some(*future) },
            ),
    {
        self.spawn_coroutine(*future)
    }

    /// Flags task `id` ready; a silent no-op for unknown or completed ids.
    pub fn wake_coroutine(&mut self, id: CoroutineId)
        ensures
            final(self).slots@.len() == old(self).slots@.len(),
            forall|i: int|
                0 <= i < old(self).slots@.len() && i != id as int
                    ==> final(self).slots@[i] == old(self).slots@[i],
            ((id as int) < old(self).slots@.len() && old(self).slots@[id as int].live)
                ==> final(self).slots@ == old(self).slots@.update(
                id as int,
                TaskSlot {
                    live: true,
                    needs_poll: true,
                    coroutine: old(self).slots@[id as int].coroutine,
                },
            ),
            !((id as int) < old(self).slots@.len() && old(self).slots@[id as int].live)
                ==> final(self).slots@ == old(self).slots@,
    {
        let idx = id as usize;
        if idx < self.slots.len() {
            if self.slots[idx].live {
                let slot = vstd::std_specs::vec::vec_index_mut(&mut self.slots, idx);
                slot.needs_poll = true;
                proof {
                    assert(final(self).slots@ =~= old(self).slots@.update(
                        id as int,
                        TaskSlot {
                            live: true,
                            needs_poll: true,
                            coroutine: old(self).slots@[id as int].coroutine,
                        },
                    ));
                }
            }
        }
    }
}

// ============================================================================
// Resuming one task
// ============================================================================

/// What one resume step of task `id` does: relates the task state, the world
/// and the registry before (`c`, `w0`, `s0`) and after (`r`, `w1`, `s1`).
/// `r` is `None` when the computation completed, or carries its next state.
pub open spec fn resume_post(
    c: Coroutine,
    id: CoroutineId,
    w0: GameWorld,
    w1: GameWorld,
    s0: CoroutineStorage,
    s1: CoroutineStorage,
    r: Option<Coroutine>,
) -> bool {
    match c {
        Coroutine::Noop => r is None && w1 == w0 && s1 == s0,
        Coroutine::FireEvent { event } => {
            &&& r is None
            &&& s1 == s0
            &&& w1.entities@ == w0.entities@
            &&& w1.events.table() == w0.events.table()
            &&& w1.events.fired() == w0.events.fired().push(event)
        },
        Coroutine::DamageEntity { target, amount } => {
            &&& r is None
            &&& s1 == s0
            &&& damage_post(w0, w1, target, amount)
        },
        Coroutine::Fork { child } => {
            &&& r is None
            &&& w1 == w0
            &&& s1.slots@ == s0.slots@.push(
                TaskSlot { live: true, needs_poll: true, coroutine: Some(*child) },
            )
        },
        Coroutine::WaitForEvent { event, registered } => {
            &&& s1 == s0
            &&& w1.entities@ == w0.entities@
            &&& w1.events.fired() == w0.events.fired()
            &&& if w0.events.fired().contains(event) {
                &&& r is None
                &&& forall|x: CoroutineId|
                    w1.events.listeners_of(event).contains(x) <==> (w0.events.listeners_of(
                        event,
                    ).contains(x) && x != id)
                &&& forall|e2: GameEvent|
                    e2 != event ==> w1.events.listeners_of(e2) == w0.events.listeners_of(e2)
            } else {
                &&& r == Some(Coroutine::WaitForEvent { event, registered: true })
                &&& forall|x: CoroutineId|
                    w1.events.listeners_of(event).contains(x) <==> (w0.events.listeners_of(
                        event,
                    ).contains(x) || x == id)
                &&& forall|e2: GameEvent|
                    e2 != event ==> w1.events.listeners_of(e2) == w0.events.listeners_of(e2)
            }
        },
        Coroutine::PlayerMovement { player, registered, stalled } => {
            &&& s1 == s0
            &&& if stalled {
                r == Some(c) && w1 == w0
            } else {
                let input_evt = GameEvent::PlayerInput(InputAction::MoveUp);
                &&& w1.events.fired() == w0.events.fired()
                &&& if w0.events.fired().contains(input_evt) {
                    &&& r == Some(
                        Coroutine::PlayerMovement { player, registered: true, stalled: true },
                    )
                    &&& forall|x: CoroutineId|
                        w1.events.listeners_of(input_evt).contains(x) <==> (
                        w0.events.listeners_of(input_evt).contains(x) && x != id)
                    &&& forall|e2: GameEvent|
                        e2 != input_evt ==> w1.events.listeners_of(e2) == w0.events.listeners_of(
                            e2,
                        )
                    &&& match w0.entity_of(player) {
                        None => w1.entities@ == w0.entities@,
                        Some(e) => {
                            &&& w1.entity_of(player) == Some(
                                Entity {
                                    position: e.position,
                                    velocity: (0i64, 5i64),
                                    health: e.health,
                                },
                            )
                            &&& forall|id2: EntityId|
                                id2 != player ==> w1.entity_of(id2) == w0.entity_of(id2)
                            &&& assoc_keys_unique(w1.entities@)
                        },
                    }
                } else {
                    &&& r == Some(
                        Coroutine::PlayerMovement { player, registered: true, stalled: false },
                    )
                    &&& w1.entities@ == w0.entities@
                    &&& forall|x: CoroutineId|
                        w1.events.listeners_of(input_evt).contains(x) <==> (
                        w0.events.listeners_of(input_evt).contains(x) || x == id)
                    &&& forall|e2: GameEvent|
                        e2 != input_evt ==> w1.events.listeners_of(e2) == w0.events.listeners_of(
                            e2,
                        )
                }
            }
        },
    }
}

/// Resumes one task once.  The world and the registry are lent to the task
/// for the duration of this one step only; this explicit threading replaces
/// any ambient channel to shared state.  Returns `None` when the computation
/// completed, or its next suspended state.
pub fn resume_coroutine(
    c: Coroutine,
    id: CoroutineId,
    world: &mut GameWorld,
    storage: &mut CoroutineStorage,
) -> (r: Option<Coroutine>)
    requires
        old(world).wf(),
        old(storage).slots@.len() < u32::MAX as nat,
    ensures
        final(world).wf(),
        resume_post(c, id, *old(world), *final(world), *old(storage), *final(storage), r),
        completes_immediately(c) ==> r is None,
        final(storage).slots@.len() <= old(storage).slots@.len() + 1,
        forall|i: int|
            0 <= i < old(storage).slots@.len() ==> final(storage).slots@[i] == old(storage).slots@[i],
    {
    match c {
        Coroutine::Noop => None,
        Coroutine::FireEvent { event } => {
            world.events.fire_event(event);
            None
        },
        Coroutine::DamageEntity { target, amount } => {
            damage_entity(world, target, amount);
            None
        },
        Coroutine::Fork { child } => {
            storage.spawn_boxed_coroutine(child);
            None
        },
        Coroutine::WaitForEvent { event, registered: _ } => {
            // registering is an idempotent set insert, so a resumed task that
            // already registered may safely do it again
            world.events.register_listener(event, id);
            if world.events.fired_contains(&event) {
                world.events.unregister_listener(&event, id);
                None
            } else {
                Some(Coroutine::WaitForEvent { event, registered: true })
            }
        },
        Coroutine::PlayerMovement { player, registered, stalled } => {
            if stalled {
                Some(Coroutine::PlayerMovement { player, registered, stalled })
            } else {
                let input_evt = GameEvent::PlayerInput(InputAction::MoveUp);
                world.events.register_listener(input_evt, id);
                if world.events.fired_contains(&input_evt) {
                    world.events.unregister_listener(&input_evt, id);
                    set_velocity(world, player, 0, 5);
                    Some(Coroutine::PlayerMovement { player, registered: true, stalled: true })
                } else {
                    Some(Coroutine::PlayerMovement { player, registered: true, stalled: false })
                }
            }
        },
    }
}

// ============================================================================
// The executor
// ============================================================================

/// Task `id` is woken when the fired queue of `ev` is dispatched: some fired
/// event has `id` among its listeners.
pub open spec fn spec_woken(ev: EventSystem, id: CoroutineId) -> bool {
    exists|k: int|
        0 <= k < ev.fired().len() && ev.listeners_of(#[trigger] ev.fired()[k]).contains(id)
}

/// As `spec_woken`, restricted to the first `k` fired events.
pub open spec fn woken_upto(ev: EventSystem, k: int, id: CoroutineId) -> bool {
    exists|j: int| 0 <= j < k && ev.listeners_of(#[trigger] ev.fired()[j]).contains(id)
}

/// Dispatch: flags ready every task registered on an event in the fired
/// queue, as the listener table stands at the start of dispatch, then clears
/// the queue.  Tasks themselves are not run here.
pub fn dispatch_events(storage: &mut CoroutineStorage, events: &mut EventSystem)
    requires
        old(events).wf(),
        old(storage).slots@.len() <= u32::MAX as nat,
    ensures
        final(events).wf(),
        final(events).fired() == Seq::<GameEvent>::empty(),
        final(events).table() == old(events).table(),
        final(storage).slots@.len() == old(storage).slots@.len(),
        forall|i: int|
            0 <= i < old(storage).slots@.len() ==> (#[trigger] final(storage).slots@[i]).live
                == old(storage).slots@[i].live && final(storage).slots@[i].coroutine == old(storage).slots@[i].coroutine,
        forall|i: int|
            0 <= i < old(storage).slots@.len() ==> (#[trigger] final(storage).slots@[i]).needs_poll
                == (old(storage).slots@[i].needs_poll || (old(storage).slots@[i].live
                && spec_woken(*old(events), i as CoroutineId))),
{
    let ghost s0 = storage.slots@;
    let ghost ev0 = *events;
    let nf = events.fired_events.len();
    let mut k: usize = 0;
    while k < nf
        invariant
            events.wf(),
            *events == ev0,
            nf == events.fired().len(),
            0 <= k <= nf,
            storage.slots@.len() == s0.len(),
            s0.len() <= u32::MAX as nat,
            forall|i: int|
                0 <= i < s0.len() ==> (#[trigger] storage.slots@[i]).live == s0[i].live
                    && storage.slots@[i].coroutine == s0[i].coroutine,
            forall|i: int|
                0 <= i < s0.len() ==> (#[trigger] storage.slots@[i]).needs_poll == (
                s0[i].needs_poll || (s0[i].live && woken_upto(ev0, k as int, i as CoroutineId))),
        decreases nf - k,
    {
        let event = events.fired_events[k];
        proof {
            assert(event == ev0.fired()[k as int]);
        }
        let ghost smid = storage.slots@;
        match events.get_waiting_coroutines(&event) {
            Some(ids_ref) => {
                let m = ids_ref.len();
                let mut w: usize = 0;
                while w < m
                    invariant
                        m == ids_ref@.len(),
                        0 <= w <= m,
                        ids_ref@ == ev0.listeners_of(ev0.fired()[k as int]),
                        storage.slots@.len() == s0.len(),
                        s0.len() <= u32::MAX as nat,
                        forall|i: int|
                            0 <= i < s0.len() ==> (#[trigger] storage.slots@[i]).live == s0[i].live
                                && storage.slots@[i].coroutine == s0[i].coroutine,
                        forall|i: int|
                            0 <= i < s0.len() ==> (#[trigger] storage.slots@[i]).needs_poll == (
                            smid[i].needs_poll || (s0[i].live && exists|p: int|
                                0 <= p < w && ids_ref@[p] == i as CoroutineId)),
                        forall|i: int|
                            0 <= i < s0.len() ==> (#[trigger] smid[i]).needs_poll == (
                            s0[i].needs_poll || (s0[i].live && woken_upto(
                                ev0,
                                k as int,
                                i as CoroutineId,
                            ))),
                    decreases m - w,
                {
                    storage.wake_coroutine(ids_ref[w]);
                    w += 1;
                }
            },
            None => {
                proof {
                    assert(ev0.listeners_of(ev0.fired()[k as int])
                        == Seq::<CoroutineId>::empty());
                }
            },
        }
        proof {
            assert forall|i: int|
                0 <= i < s0.len() implies (#[trigger] storage.slots@[i]).needs_poll == (
                s0[i].needs_poll || (s0[i].live && woken_upto(
                    ev0,
                    k as int + 1,
                    i as CoroutineId,
                ))) by {
                let id = i as CoroutineId;
                assert(id as int == i);
                if storage.slots@[i].needs_poll {
                    if !s0[i].needs_poll {
                        if smid[i].needs_poll {
                            let j = choose|j: int|
                                0 <= j < k && ev0.listeners_of(
                                    #[trigger] ev0.fired()[j],
                                ).contains(id);
                            assert(woken_upto(ev0, k as int + 1, id));
                        } else {
                            assert(ev0.listeners_of(ev0.fired()[k as int]).contains(id));
                            assert(woken_upto(ev0, k as int + 1, id));
                        }
                    }
                } else {
                    if woken_upto(ev0, k as int + 1, id) && s0[i].live {
                        let j = choose|j: int|
                            0 <= j < k + 1 && ev0.listeners_of(
                                #[trigger] ev0.fired()[j],
                            ).contains(id);
                        if j < k {
                            assert(woken_upto(ev0, k as int, id));
                        } else {
                            assert(ev0.listeners_of(ev0.fired()[k as int]).contains(id));
                        }
                        assert(false);
                    }
                }
            }
        }
        k += 1;
    }
    events.clear_fired();
    proof {
        assert forall|i: int|
            0 <= i < s0.len() implies (#[trigger] storage.slots@[i]).needs_poll == (
            s0[i].needs_poll || (s0[i].live && spec_woken(ev0, i as CoroutineId))) by {
            assert(woken_upto(ev0, nf as int, i as CoroutineId) == spec_woken(
                ev0,
                i as CoroutineId,
            )) by {
                if woken_upto(ev0, nf as int, i as CoroutineId) {
                    let j = choose|j: int|
                        0 <= j < nf && ev0.listeners_of(#[trigger] ev0.fired()[j]).contains(
                            i as CoroutineId,
                        );
                    assert(spec_woken(ev0, i as CoroutineId));
                }
                if spec_woken(ev0, i as CoroutineId) {
                    let j = choose|j: int|
                        0 <= j < ev0.fired().len() && ev0.listeners_of(
                            #[trigger] ev0.fired()[j],
                        ).contains(i as CoroutineId);
                    assert(woken_upto(ev0, nf as int, i as CoroutineId));
                }
            }
        }
    }
}

/// Whether a slot holds a computation that completes on its first resume.
pub open spec fn slot_immediate(s: TaskSlot) -> bool {
    match s.coroutine {
        Some(c) => completes_immediately(c),
        None => false,
    }
}

/// Task `i` of `storage` will be resumed by a tick that starts with event
/// system `ev`: it is already flagged ready, or dispatch will wake it.
pub open spec fn spec_ready(storage: CoroutineStorage, ev: EventSystem, i: int) -> bool {
    storage.slots@[i].needs_poll || (storage.slots@[i].live && spec_woken(ev, i as CoroutineId))
}

/// `ids` is exactly the set of tasks a tick starting from `storage` and the
/// fired queue of `ev` resumes, in increasing id order.
pub open spec fn ready_ids(ids: Seq<CoroutineId>, storage: CoroutineStorage, ev: EventSystem) -> bool {
    &&& forall|p: int, q: int| 0 <= p < q < ids.len() ==> ids[p] < ids[q]
    &&& forall|p: int| 0 <= p < ids.len() ==> (#[trigger] ids[p]) < storage.slots@.len()
    &&& forall|i: int|
        0 <= i < storage.slots@.len() ==> (ids.contains(i as CoroutineId) <==> spec_ready(
            storage,
            ev,
            i,
        ))
}

/// One executor step on task `id`: its computation is taken out of the slot,
/// resumed once against the world and the registry (per `resume_post`), and
/// written back — removed for good when it completed, stored again when it
/// suspended.
pub open spec fn step_post(
    id: CoroutineId,
    w: GameWorld,
    s: CoroutineStorage,
    w2: GameWorld,
    s2: CoroutineStorage,
) -> bool {
    &&& (id as int) < s.slots@.len()
    &&& exists|c: Coroutine, st: CoroutineStorage, smid: CoroutineStorage, r: Option<Coroutine>|
        {
            &&& s.slots@[id as int].coroutine == Some(c)
            &&& st.slots@ == s.slots@.update(
                id as int,
                TaskSlot {
                    live: s.slots@[id as int].live,
                    needs_poll: s.slots@[id as int].needs_poll,
                    coroutine: None,
                },
            )
            &&& #[trigger] resume_post(c, id, w, w2, st, smid, r)
            &&& s2.slots@ == match r {
                None => smid.slots@.update(
                    id as int,
                    TaskSlot { live: false, needs_poll: false, coroutine: None },
                ),
                Some(c2) => smid.slots@.update(
                    id as int,
                    TaskSlot {
                        live: smid.slots@[id as int].live,
                        needs_poll: smid.slots@[id as int].needs_poll,
                        coroutine: Some(c2),
                    },
                ),
            }
        }
}

/// The resume phase as a chain: intermediate world/registry states linked
/// pairwise by one executor step per ready id, in order.
pub open spec fn tick_rel(
    ids: Seq<CoroutineId>,
    w0: GameWorld,
    s0: CoroutineStorage,
    w2: GameWorld,
    s2: CoroutineStorage,
) -> bool {
    exists|ws: Seq<GameWorld>, ss: Seq<CoroutineStorage>|
        {
            &&& ws.len() == ids.len() + 1
            &&& ss.len() == ids.len() + 1
            &&& ws[0] == w0
            &&& ss[0] == s0
            &&& ws[ids.len() as int] == w2
            &&& ss[ids.len() as int] == s2
            &&& forall|k: int|
                0 <= k < ids.len() ==> #[trigger] step_post(ids[k], ws[k], ss[k], ws[k + 1], ss[k + 1])
        }
}

/// One scheduler tick: dispatch the fired queue (waking listeners and then
/// clearing it), then resume, exactly once each, every task flagged ready at
/// that point.  A task that completes is removed for good; one that suspends
/// stays, to be resumed only when woken again.  Tasks spawned or listeners
/// registered during the tick are not resumed or woken until a later tick.
pub fn update_coroutines(coro_storage: &mut CoroutineStorage, world: &mut GameWorld)
    requires
        old(coro_storage).wf(),
        old(world).wf(),
        old(coro_storage).slots@.len() <= 0x7fff_ffff,
    ensures
        final(coro_storage).wf(),
        final(world).wf(),
        final(coro_storage).slots@.len() >= old(coro_storage).slots@.len(),
        // a task neither ready nor woken is untouched
        forall|i: int|
            0 <= i < old(coro_storage).slots@.len() && !spec_ready(
                *old(coro_storage),
                old(world).events,
                i,
            ) ==> (#[trigger] final(coro_storage).slots@[i]).coroutine == old(coro_storage).slots@[i].coroutine && final(coro_storage).slots@[i].live == old(coro_storage).slots@[i].live,
        // a resumed task whose computation completes without suspending is
        // removed from the registry after this one resume
        forall|i: int|
            0 <= i < old(coro_storage).slots@.len() && spec_ready(
                *old(coro_storage),
                old(world).events,
                i,
            ) && slot_immediate(old(coro_storage).slots@[i]) ==> !(
            #[trigger] final(coro_storage).slots@[i]).live && final(coro_storage).slots@[i].coroutine is None,
        // a completed task never comes back
        forall|i: int|
            0 <= i < old(coro_storage).slots@.len() && (
            #[trigger] final(coro_storage).slots@[i]).live ==> old(coro_storage).slots@[i].live,
        // a tick with nothing to resume only drains the fired queue
        (forall|i: int|
            0 <= i < old(coro_storage).slots@.len() ==> !spec_ready(
                *old(coro_storage),
                old(world).events,
                i,
            )) ==> (final(world).entities@ == old(world).entities@ && final(world).events.table()
            == old(world).events.table() && final(world).events.fired() == Seq::<
            GameEvent,
        >::empty()),
        // the full tick: dispatch drains the queue and clears every flag,
        // then exactly the ready tasks are resumed, in increasing id order,
        // each step per `resume_post`
        exists|ids: Seq<CoroutineId>, w1: GameWorld, s1: CoroutineStorage|
            {
                &&& ready_ids(ids, *old(coro_storage), old(world).events)
                &&& w1.entities@ == old(world).entities@
                &&& w1.events.table() == old(world).events.table()
                &&& w1.events.fired() == Seq::<GameEvent>::empty()
                &&& s1.slots@.len() == old(coro_storage).slots@.len()
                &&& forall|i: int|
                    0 <= i < s1.slots@.len() ==> ((#[trigger] s1.slots@[i]).live == old(
                        coro_storage,
                    ).slots@[i].live && s1.slots@[i].coroutine == old(coro_storage).slots@[i].coroutine
                        && !s1.slots@[i].needs_poll)
                &&& #[trigger] tick_rel(ids, w1, s1, *final(world), *final(coro_storage))
            },
{
    let ghost s0 = coro_storage.slots@;
    let ghost ev0 = old(world).events;
    dispatch_events(coro_storage, &mut world.events);
    let ghost s1 = coro_storage.slots@;
    let ghost w1 = *world;

    // snapshot the ready set, clearing the flags
    let n = coro_storage.slots.len();
    let mut to_poll: Vec<CoroutineId> = Vec::new();
    let mut i: usize = 0;
    while i < n
        invariant
            n == coro_storage.slots@.len(),
            0 <= i <= n,
            n == s1.len(),
            n <= 0x7fff_ffff,
            to_poll@.len() <= i,
            forall|j: int|
                0 <= j < n ==> (#[trigger] coro_storage.slots@[j]).live == s1[j].live
                    && coro_storage.slots@[j].coroutine == s1[j].coroutine,
            forall|j: int| 0 <= j < i ==> !(#[trigger] coro_storage.slots@[j]).needs_poll,
            forall|j: int| i <= j < n ==> (#[trigger] coro_storage.slots@[j]).needs_poll
                == s1[j].needs_poll,
            forall|p: int, q: int|
                0 <= p < q < to_poll@.len() ==> to_poll@[p] < to_poll@[q],
            forall|p: int| 0 <= p < to_poll@.len() ==> (#[trigger] to_poll@[p]) < i,
            forall|j: int|
                0 <= j < i ==> (s1[j].needs_poll <==> to_poll@.contains(j as CoroutineId)),
        decreases n - i,
    {
        let ghost tp0 = to_poll@;
        if coro_storage.slots[i].needs_poll {
            to_poll.push(i as u32);
        }
        let slot = vstd::std_specs::vec::vec_index_mut(&mut coro_storage.slots, i);
        slot.needs_poll = false;
        proof {
            assert forall|j: int|
                0 <= j < i + 1 implies (s1[j].needs_poll <==> to_poll@.contains(
                j as CoroutineId,
            )) by {
                if j < i {
                    if s1[j].needs_poll {
                        let p = choose|p: int| 0 <= p < tp0.len() && tp0[p] == j as CoroutineId;
                        assert(to_poll@[p] == j as CoroutineId);
                    } else {
                        if to_poll@.contains(j as CoroutineId) {
                            let p = choose|p: int|
                                0 <= p < to_poll@.len() && to_poll@[p] == j as CoroutineId;
                            assert(p < tp0.len());
                            assert(tp0[p] == j as CoroutineId);
                        }
                    }
                } else {
                    if s1[j].needs_poll {
                        assert(to_poll@[to_poll@.len() - 1] == j as CoroutineId);
                    } else {
                        if to_poll@.contains(j as CoroutineId) {
                            let p = choose|p: int|
                                0 <= p < to_poll@.len() && to_poll@[p] == j as CoroutineId;
                            assert(tp0 == to_poll@);
                            assert(to_poll@[p] < i);
                        }
                    }
                }
            }
        }
        i += 1;
    }
    let ghost s2 = coro_storage.slots@;
    let ghost w1full = *world;
    let ghost s1full = *coro_storage;
    let ghost mut ws: Seq<GameWorld> = seq![*world];
    let ghost mut ss: Seq<CoroutineStorage> = seq![*coro_storage];
    proof {
        assert forall|p: int| 0 <= p < to_poll@.len() implies (
        #[trigger] s2[to_poll@[p] as int]).live by {
            let idp = to_poll@[p];
            assert(to_poll@.contains(idp));
            assert(s1[idp as int].needs_poll);
        }
    }

    // resume each ready task exactly once
    let m = to_poll.len();
    let mut j: usize = 0;
    while j < m
        invariant
            world.wf(),
            m == to_poll@.len(),
            0 <= j <= m,
            n == s2.len(),
            n <= 0x7fff_ffff,
            m <= n,
            forall|p: int, q: int|
                0 <= p < q < m ==> to_poll@[p] < to_poll@[q],
            forall|p: int| 0 <= p < m ==> (#[trigger] to_poll@[p]) < n,
            forall|idx: int| 0 <= idx < n ==> !(#[trigger] s2[idx]).needs_poll,
            forall|idx: int|
                0 <= idx < n ==> ((#[trigger] s2[idx]).live <==> s2[idx].coroutine is Some),
            n <= coro_storage.slots@.len() <= n + j,
            forall|idx: int|
                0 <= idx < n && (forall|p: int| 0 <= p < j ==> to_poll@[p] != idx as CoroutineId)
                    ==> (#[trigger] coro_storage.slots@[idx]) == s2[idx],
            forall|p: int|
                0 <= p < j ==> {
                    let idx = #[trigger] to_poll@[p] as int;
                    &&& (coro_storage.slots@[idx].live <==> coro_storage.slots@[idx].coroutine
                        is Some)
                    &&& !coro_storage.slots@[idx].needs_poll
                    &&& (coro_storage.slots@[idx].live ==> s2[idx].live)
                    &&& (slot_immediate(s2[idx]) ==> !coro_storage.slots@[idx].live
                        && coro_storage.slots@[idx].coroutine is None)
                },
            forall|idx: int|
                n <= idx < coro_storage.slots@.len() ==> (#[trigger] coro_storage.slots@[idx]).live
                    && coro_storage.slots@[idx].coroutine is Some,
            m == 0 ==> *world == w1,
            forall|p: int| 0 <= p < m ==> (#[trigger] s2[to_poll@[p] as int]).live,
            ws.len() == j + 1,
            ss.len() == j + 1,
            ws[0] == w1full,
            ss[0] == s1full,
            ws[j as int] == *world,
            ss[j as int] == *coro_storage,
            forall|k: int|
                0 <= k < j ==> #[trigger] step_post(
                    to_poll@[k],
                    ws[k],
                    ss[k],
                    ws[k + 1],
                    ss[k + 1],
                ),
        decreases m - j,
    {
        let id = to_poll[j];
        let idusize = id as usize;
        proof {
            assert(to_poll@[j as int] == id);
            assert forall|p: int| 0 <= p < j implies to_poll@[p] != id by {
                assert(to_poll@[p] < to_poll@[j as int]);
            }
            assert(coro_storage.slots@[id as int] == s2[id as int]);
        }
        let ghost w_b = *world;
        let ghost s_b = *coro_storage;
        let slot = vstd::std_specs::vec::vec_index_mut(&mut coro_storage.slots, idusize);
        let c_opt = slot.coroutine.take();
        let ghost st_v = *coro_storage;
        match c_opt {
            Some(c) => {
                let r = resume_coroutine(c, id, world, coro_storage);
                let ghost w_m = *world;
                let ghost s_m = *coro_storage;
                let ghost r0 = r;
                let slot2 = vstd::std_specs::vec::vec_index_mut(&mut coro_storage.slots, idusize);
                match r {
                    None => {
                        slot2.live = false;
                        slot2.needs_poll = false;
                    },
                    Some(c2) => {
                        slot2.coroutine = Some(c2);
                    },
                }
                proof {
                    let s_a = *coro_storage;
                    assert(st_v.slots@ == s_b.slots@.update(
                        id as int,
                        TaskSlot {
                            live: s_b.slots@[id as int].live,
                            needs_poll: s_b.slots@[id as int].needs_poll,
                            coroutine: None,
                        },
                    ));
                    assert(s_b.slots@[id as int].coroutine == Some(c));
                    assert(resume_post(c, id, w_b, w_m, st_v, s_m, r0));
                    assert(s_m.slots@[id as int] == st_v.slots@[id as int]);
                    assert(s_a.slots@ == match r0 {
                        None => s_m.slots@.update(
                            id as int,
                            TaskSlot { live: false, needs_poll: false, coroutine: None },
                        ),
                        Some(c2g) => s_m.slots@.update(
                            id as int,
                            TaskSlot {
                                live: s_m.slots@[id as int].live,
                                needs_poll: s_m.slots@[id as int].needs_poll,
                                coroutine: Some(c2g),
                            },
                        ),
                    });
                    assert(step_post(id, w_b, s_b, w_m, s_a));
                    let ghost ws0 = ws;
                    let ghost ss0 = ss;
                    ws = ws.push(*world);
                    ss = ss.push(*coro_storage);
                    assert(ws[j as int + 1] == w_m);
                    assert(ss[j as int + 1] == s_a);
                    assert forall|k: int|
                        0 <= k < j + 1 implies #[trigger] step_post(
                        to_poll@[k],
                        ws[k],
                        ss[k],
                        ws[k + 1],
                        ss[k + 1],
                    ) by {
                        if k < j {
                            assert(ws[k] == ws0[k] && ws[k + 1] == ws0[k + 1]);
                            assert(ss[k] == ss0[k] && ss[k + 1] == ss0[k + 1]);
                            assert(step_post(to_poll@[k], ws0[k], ss0[k], ws0[k + 1], ss0[k + 1]));
                        } else {
                            assert(ws[k] == w_b && ss[k] == s_b);
                        }
                    }
                }
            },
            None => {
                proof {
                    assert(s2[id as int].live);
                    assert(s2[id as int].coroutine is Some);
                    assert(false);
                }
            },
        }
        proof {
            assert forall|idx: int|
                0 <= idx < n && (forall|p: int|
                    0 <= p < j + 1 ==> to_poll@[p] != idx as CoroutineId) implies (
            #[trigger] coro_storage.slots@[idx]) == s2[idx] by {
                assert(idx as CoroutineId != id ==> idx != id as int);
            }
        }
        j += 1;
    }
    proof {
        assert forall|i2: int|
            0 <= i2 < n && spec_ready(CoroutineStorage { slots: old(coro_storage).slots }, ev0, i2)
                && slot_immediate(s0[i2]) implies !(
        #[trigger] coro_storage.slots@[i2]).live && coro_storage.slots@[i2].coroutine
            is None by {
            assert(s1[i2].needs_poll);
            assert(to_poll@.contains(i2 as CoroutineId));
            let p = choose|p: int| 0 <= p < m && to_poll@[p] == i2 as CoroutineId;
            assert(s2[i2].coroutine == s1[i2].coroutine);
            assert(slot_immediate(s2[i2]));
        }
        assert forall|i2: int|
            0 <= i2 < n && !spec_ready(
                CoroutineStorage { slots: old(coro_storage).slots },
                ev0,
                i2,
            ) implies (#[trigger] coro_storage.slots@[i2]).coroutine == s0[i2].coroutine
            && coro_storage.slots@[i2].live == s0[i2].live by {
            assert(!s1[i2].needs_poll);
            assert(!to_poll@.contains(i2 as CoroutineId));
            assert(forall|p: int| 0 <= p < m ==> to_poll@[p] != i2 as CoroutineId);
            assert(coro_storage.slots@[i2] == s2[i2]);
        }
        assert forall|i2: int|
            0 <= i2 < n && (#[trigger] coro_storage.slots@[i2]).live implies s0[i2].live by {
            if to_poll@.contains(i2 as CoroutineId) {
                let p = choose|p: int| 0 <= p < m && to_poll@[p] == i2 as CoroutineId;
            } else {
                assert(forall|p: int| 0 <= p < m ==> to_poll@[p] != i2 as CoroutineId);
                assert(coro_storage.slots@[i2] == s2[i2]);
            }
        }
        assert forall|i2: int|
            0 <= i2 < coro_storage.slots@.len() implies (((#[trigger] coro_storage.slots@[i2]).live
            <==> coro_storage.slots@[i2].coroutine is Some) && (!coro_storage.slots@[i2].live
            ==> !coro_storage.slots@[i2].needs_poll)) by {
            if i2 < n {
                if to_poll@.contains(i2 as CoroutineId) {
                    let p = choose|p: int| 0 <= p < m && to_poll@[p] == i2 as CoroutineId;
                } else {
                    assert(forall|p: int| 0 <= p < m ==> to_poll@[p] != i2 as CoroutineId);
                    assert(coro_storage.slots@[i2] == s2[i2]);
                }
            }
        }
        if forall|i2: int| 0 <= i2 < n ==> !spec_ready(
            CoroutineStorage { slots: old(coro_storage).slots },
            ev0,
            i2,
        ) {
            assert(to_poll@.len() == 0) by {
                if to_poll@.len() > 0 {
                    let x = to_poll@[0];
                    assert(to_poll@.contains(x));
                    assert(s1[x as int].needs_poll);
                    assert(spec_ready(
                        CoroutineStorage { slots: old(coro_storage).slots },
                        ev0,
                        x as int,
                    ));
                }
            }
            assert(*world == w1);
        }
        // the tick chain: to_poll is exactly the ready set, and ws/ss link the
        // post-dispatch state to the final one step by step
        assert(ready_ids(to_poll@, *old(coro_storage), ev0)) by {
            assert forall|i2: int|
                0 <= i2 < old(coro_storage).slots@.len() implies (to_poll@.contains(
                i2 as CoroutineId,
            ) <==> spec_ready(*old(coro_storage), ev0, i2)) by {
                assert(s1[i2].needs_poll == (old(coro_storage).slots@[i2].needs_poll || (old(
                    coro_storage,
                ).slots@[i2].live && spec_woken(ev0, i2 as CoroutineId))));
            }
        }
        assert(tick_rel(to_poll@, w1full, s1full, *world, *coro_storage)) by {
            assert(ws.len() == to_poll@.len() + 1);
            assert(ws[to_poll@.len() as int] == *world);
            assert(ss[to_poll@.len() as int] == *coro_storage);
        }
        assert(w1full.entities@ == old(world).entities@);
        assert(s1full.slots@ == s2);
        assert forall|i2: int|
            0 <= i2 < s1full.slots@.len() implies ((#[trigger] s1full.slots@[i2]).live == old(
            coro_storage,
        ).slots@[i2].live && s1full.slots@[i2].coroutine == old(coro_storage).slots@[i2].coroutine
            && !s1full.slots@[i2].needs_poll) by {}
    }
}

} // verus!
