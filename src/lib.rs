use std::collections::HashMap;
use std::hash::Hash;
use vstd::prelude::*;
use vstd::std_specs::cmp::PartialEqSpec;
use vstd::std_specs::hash::obeys_key_model;

pub mod stack;

use stack::{pushed, LoopedStack};

verus! {

/// Why an undo or a redo did not take place.
#[derive(Debug, Clone, PartialEq, Eq, Hash, Structural)]
pub enum HistoryError {
    /// There is nothing to undo, or nothing to redo.
    NoSnapshot,
    /// A snapshot could not be restored onto its model's live state.
    RestoreFailed,
}

/// Sets a model's live state from a recorded snapshot of it.
pub trait Snapshot<L> {
    /// Overwrites `state` with the data this snapshot holds; fails when
    /// `state` is not the kind of model the snapshot was taken of.
    fn restore(&self, state: &L) -> Result<(), HistoryError>;
}

/// Gives access to the live state of each model, by its identifier.
pub trait Stateful<T> {
    type State;

    fn state(&self, typ: &T) -> &Self::State;
}

/// What the history needs of a model identifier: `==` is identity, and
/// hashing agrees with it.
pub open spec fn model_id_laws<T: PartialEq>() -> bool {
    &&& obeys_key_model::<T>()
    &&& T::obeys_eq_spec()
    &&& forall|x: T, y: T| #[trigger] x.eq_spec(&y) <==> (x == y)
}

/// One recorded state: a model identifier and the snapshot taken of it.
pub struct Entry<T, U> {
    pub typ: T,
    pub snaps: U,
}

impl<T, U> Entry<T, U> {
    /// An entry for snapshot `snaps` of model `typ`.
    pub fn new(typ: T, snaps: U) -> (r: Self)
        ensures
            r.typ == typ,
            r.snaps == snaps,
    {
        Entry { typ, snaps }
    }

    /// Restores this entry's snapshot onto its model's live state.
    pub fn restore<S>(&self, stateful: &S) -> Result<(), HistoryError>
        where
            S: Stateful<T>,
            U: Snapshot<S::State>,
    {
        self.snaps.restore(stateful.state(&self.typ))
    }
}

/// The newest snapshot of model `m` in `s`, if `s` holds one.
pub open spec fn prev_snapshot<T, U>(s: Seq<Entry<T, U>>, m: T) -> Option<U>
    decreases s.len(),
{
    if s.len() == 0 {
        None
    } else if s.last().typ == m {
        Some(s.last().snaps)
    } else {
        prev_snapshot(s.drop_last(), m)
    }
}

/// The state that undoing the newest entry of `timeline` goes back to: its
/// model, with the model's previous snapshot in the timeline or else its
/// baseline. None when the timeline is empty or no such snapshot exists.
pub open spec fn last_snapshot<T, U>(timeline: Seq<Entry<T, U>>, baselines: Map<T, U>) -> Option<
    (T, U),
> {
    if timeline.len() == 0 {
        None
    } else {
        let m = timeline.last().typ;
        match prev_snapshot(timeline.drop_last(), m) {
            Some(u) => Some((m, u)),
            None => if baselines.contains_key(m) {
                Some((m, baselines[m]))
            } else {
                None
            },
        }
    }
}

/// The timeline after the undone entries `redo` are pushed back, in the order
/// in which they were undone.
pub open spec fn restored<T, U>(timeline: Seq<Entry<T, U>>, cap: nat, redo: Seq<Entry<T, U>>) -> Seq<
    Entry<T, U>,
> {
    redo.fold_left(timeline, |s: Seq<Entry<T, U>>, e: Entry<T, U>| pushed(s, cap, e))
}

/// When the timeline has room for them, putting undone entries back appends
/// them in order and drops nothing: an `insert` after undos grows the timeline
/// instead of truncating it, so the undone entries stay reachable by undo.
pub proof fn lemma_insert_keeps_undone<T, U>(
    timeline: Seq<Entry<T, U>>,
    cap: nat,
    redo: Seq<Entry<T, U>>,
)
    requires
        timeline.len() + redo.len() <= cap,
    ensures
        restored(timeline, cap, redo) == timeline + redo,
    decreases redo.len(),
{
    if redo.len() > 0 {
        lemma_insert_keeps_undone(timeline, cap, redo.drop_last());
        assert(timeline + redo.drop_last() + seq![redo.last()] =~= timeline + redo);
        assert((timeline + redo.drop_last()).push(redo.last()) =~= timeline + redo);
    } else {
        assert(timeline + redo =~= timeline);
    }
}

/// Undo walks a model back one recorded state at a time: after states `s1`,
/// `s2`, `s3` of model `m` are pushed, the first undo restores `s2` and the
/// second, on the timeline that the first leaves, restores `s1`.
pub proof fn lemma_undo_round_trip<T, U>(
    timeline: Seq<Entry<T, U>>,
    baselines: Map<T, U>,
    m: T,
    s1: U,
    s2: U,
    s3: U,
)
    ensures
        ({
            let t = timeline.push(Entry { typ: m, snaps: s1 }).push(Entry { typ: m, snaps: s2 }).push(
                Entry { typ: m, snaps: s3 },
            );
            &&& last_snapshot(t, baselines) == Some((m, s2))
            &&& last_snapshot(t.drop_last(), baselines) == Some((m, s1))
        }),
{
    let t1 = timeline.push(Entry { typ: m, snaps: s1 });
    let t2 = t1.push(Entry { typ: m, snaps: s2 });
    let t3 = t2.push(Entry { typ: m, snaps: s3 });
    assert(t3.drop_last() =~= t2);
    assert(t2.drop_last() =~= t1);
}

/// The entries that a history keeps, apart from the live states.
struct InnerHistory<S, T, U> {
    entries: LoopedStack<Entry<T, U>>,
    undo_stack: Vec<Entry<T, U>>,
    baselines: HashMap<T, U>,
    stateful: S,
}

impl<S, T: Eq + Hash, U> InnerHistory<S, T, U> {
    spec fn wf(&self) -> bool {
        &&& self.entries.inv()
        &&& self.entries@.len() + self.undo_stack@.len() <= self.entries.cap()
    }

    fn new(stateful: S, capacity: usize) -> (r: Self)
        requires
            capacity > 0,
        ensures
            r.wf(),
            r.entries.cap() == capacity,
            r.entries@ == Seq::<Entry<T, U>>::empty(),
            r.undo_stack@ == Seq::<Entry<T, U>>::empty(),
            r.baselines@ == Map::<T, U>::empty(),
            r.stateful == stateful,
    {
        InnerHistory {
            entries: LoopedStack::new(capacity),
            undo_stack: Vec::with_capacity(capacity),
            baselines: HashMap::new(),
            stateful,
        }
    }

    /// Records `entry` and discards the undone entries.
    fn push(&mut self, entry: Entry<T, U>) -> (r: Option<Entry<T, U>>)
        requires
            old(self).wf(),
        ensures
            final(self).wf(),
            final(self).entries.cap() == old(self).entries.cap(),
            final(self).entries@ == pushed(old(self).entries@, old(self).entries.cap(), entry),
            final(self).undo_stack@ == Seq::<Entry<T, U>>::empty(),
            final(self).baselines@ == old(self).baselines@,
            final(self).stateful == old(self).stateful,
    {
        self.undo_stack.clear();
        self.entries.push(entry)
    }

    /// Records `entry` after putting the undone entries back in the timeline.
    fn insert(&mut self, entry: Entry<T, U>) -> (r: Option<Entry<T, U>>)
        requires
            old(self).wf(),
        ensures
            final(self).wf(),
            final(self).entries.cap() == old(self).entries.cap(),
            final(self).entries@ == pushed(
                restored(old(self).entries@, old(self).entries.cap(), old(self).undo_stack@),
                old(self).entries.cap(),
                entry,
            ),
            final(self).undo_stack@ == Seq::<Entry<T, U>>::empty(),
            final(self).baselines@ == old(self).baselines@,
            final(self).stateful == old(self).stateful,
    {
        let mut undone: Vec<Entry<T, U>> = Vec::new();
        std::mem::swap(&mut undone, &mut self.undo_stack);
        self.entries.extend(undone);
        proof {
            stack::lemma_pushes_bounded(
                old(self).entries@,
                old(self).entries.cap(),
                old(self).undo_stack@,
            );
        }
        self.entries.push(entry)
    }

    fn can_undo(&self) -> (r: bool)
        requires
            self.wf(),
        ensures
            r == (self.entries@.len() > 0),
    {
        self.entries.len() > 0
    }

    fn can_redo(&self) -> (r: bool)
        requires
            self.wf(),
        ensures
            r == (self.undo_stack@.len() > 0),
    {
        self.undo_stack.len() > 0
    }

    /// Moves the newest entry of the timeline to the undone entries.
    fn undo(&mut self)
        requires
            old(self).wf(),
        ensures
            final(self).wf(),
            final(self).entries.cap() == old(self).entries.cap(),
            final(self).baselines@ == old(self).baselines@,
            final(self).stateful == old(self).stateful,
            old(self).entries@.len() == 0 ==> final(self).entries@ == old(self).entries@
                && final(self).undo_stack@ == old(self).undo_stack@,
            old(self).entries@.len() > 0 ==> final(self).entries@ == old(self).entries@.drop_last()
                && final(self).undo_stack@ == old(self).undo_stack@.push(old(self).entries@.last()),
    {
        if let Some(entry) = self.entries.pop() {
            self.undo_stack.push(entry);
        }
    }

    /// Puts an undone entry back as the newest of the timeline; the slot it
    /// takes was freed by its undo, so nothing is evicted.
    fn redo(&mut self, entry: Entry<T, U>)
        requires
            old(self).wf(),
            old(self).entries@.len() + old(self).undo_stack@.len() < old(self).entries.cap(),
        ensures
            final(self).wf(),
            final(self).entries.cap() == old(self).entries.cap(),
            final(self).entries@ == old(self).entries@.push(entry),
            final(self).undo_stack@ == old(self).undo_stack@,
            final(self).baselines@ == old(self).baselines@,
            final(self).stateful == old(self).stateful,
    {
        let evicted = self.entries.push(entry);
        assert(evicted is None);
    }
}

/// An undo/redo history over one or more models.
///
/// Snapshots of all models share one chronological timeline of fixed
/// capacity; when it is full the oldest entry is overwritten. The first
/// snapshot of each model is kept apart as its baseline and is never evicted,
/// so a model can always be undone back to it. Undone entries wait on a redo
/// stack, which a `push` discards and an `insert` writes back into the
/// timeline.
pub struct History<S, T, U> {
    inner: InnerHistory<S, T, U>,
}

impl<S, T, U> History<S, T, U> where
    T: PartialEq + Eq + Hash + Clone,
    S: Stateful<T>,
    U: Snapshot<S::State>,
 {
    /// The recorded entries, oldest first.
    pub closed spec fn timeline(&self) -> Seq<Entry<T, U>> {
        self.inner.entries@
    }

    /// The undone entries; the next to redo is the last.
    pub closed spec fn redo_stack(&self) -> Seq<Entry<T, U>> {
        self.inner.undo_stack@
    }

    /// The baseline snapshot of each model that has one.
    pub closed spec fn baselines(&self) -> Map<T, U> {
        self.inner.baselines@
    }

    /// The access to the live states that restores go through.
    pub closed spec fn source(&self) -> S {
        self.inner.stateful
    }

    /// The capacity of the timeline.
    pub closed spec fn cap(&self) -> nat {
        self.inner.entries.cap()
    }

    pub closed spec fn wf(&self) -> bool {
        &&& self.inner.wf()
        &&& model_id_laws::<T>()
    }

    /// A well-formed history: the timeline and the redo stack together never
    /// hold more entries than the capacity.
    pub open spec fn inv(&self) -> bool {
        &&& self.wf()
        &&& self.cap() > 0
        &&& self.timeline().len() + self.redo_stack().len() <= self.cap()
    }

    /// An empty history of `capacity` entries over the live states that
    /// `stateful` gives.
    pub fn new(stateful: S, capacity: usize) -> (r: Self)
        requires
            capacity > 0,
            model_id_laws::<T>(),
        ensures
            r.inv(),
            r.cap() == capacity,
            r.timeline() == Seq::<Entry<T, U>>::empty(),
            r.redo_stack() == Seq::<Entry<T, U>>::empty(),
            r.baselines() == Map::<T, U>::empty(),
            r.source() == stateful,
    {
        History { inner: InnerHistory::new(stateful, capacity) }
    }

    /// The number of entries the timeline holds at most.
    pub fn capacity(&self) -> (r: usize)
        requires
            self.inv(),
        ensures
            r == self.cap(),
    {
        self.inner.entries.size()
    }

    /// The number of entries in the timeline.
    pub fn size(&self) -> (r: usize)
        requires
            self.inv(),
        ensures
            r == self.timeline().len(),
    {
        self.inner.entries.len()
    }

    /// Sets the baseline of model `typ` to the snapshot that `f` makes, unless
    /// the model has one already; `f` is called only in the first case.
    pub fn begin<F>(&mut self, typ: T, f: F)
        where
            F: FnOnce() -> U,
        requires
            old(self).inv(),
            !old(self).baselines().contains_key(typ) ==> f.requires(()),
        ensures
            final(self).inv(),
            final(self).cap() == old(self).cap(),
            final(self).source() == old(self).source(),
            final(self).timeline() == old(self).timeline(),
            final(self).redo_stack() == old(self).redo_stack(),
            old(self).baselines().contains_key(typ) ==> final(self).baselines()
                == old(self).baselines(),
            !old(self).baselines().contains_key(typ) ==> exists|u: U|
                f.ensures((), u) && final(self).baselines() == old(self).baselines().insert(typ, u),
    {
        if !self.inner.baselines.contains_key(&typ) {
            let baseline = f();
            self.inner.baselines.insert(typ, baseline);
        }
    }

    /// Records a new state of model `typ`; the undone entries are discarded.
    pub fn push(&mut self, typ: T, snapshot: U) -> (r: Result<(), HistoryError>)
        requires
            old(self).inv(),
        ensures
            final(self).inv(),
            r is Ok,
            final(self).cap() == old(self).cap(),
            final(self).source() == old(self).source(),
            final(self).timeline() == pushed(
                old(self).timeline(),
                old(self).cap(),
                Entry { typ, snaps: snapshot },
            ),
            final(self).redo_stack() == Seq::<Entry<T, U>>::empty(),
            final(self).baselines() == old(self).baselines(),
    {
        self.inner.push(Entry { typ, snaps: snapshot });
        Ok(())
    }

    /// Records a new state of model `typ`; the undone entries are first put
    /// back in the timeline, in the order in which they were undone.
    pub fn insert(&mut self, typ: T, snapshot: U) -> (r: Result<(), HistoryError>)
        requires
            old(self).inv(),
        ensures
            final(self).inv(),
            r is Ok,
            final(self).cap() == old(self).cap(),
            final(self).source() == old(self).source(),
            final(self).timeline() == pushed(
                restored(old(self).timeline(), old(self).cap(), old(self).redo_stack()),
                old(self).cap(),
                Entry { typ, snaps: snapshot },
            ),
            final(self).redo_stack() == Seq::<Entry<T, U>>::empty(),
            final(self).baselines() == old(self).baselines(),
    {
        self.inner.insert(Entry { typ, snaps: snapshot });
        Ok(())
    }

    /// Whether the timeline holds an entry.
    pub fn can_undo(&self) -> (r: bool)
        requires
            self.inv(),
        ensures
            r == (self.timeline().len() > 0),
    {
        self.inner.can_undo()
    }

    /// Whether an undone entry waits to be redone.
    pub fn can_redo(&self) -> (r: bool)
        requires
            self.inv(),
        ensures
            r == (self.redo_stack().len() > 0),
    {
        self.inner.can_redo()
    }

    /// The model of the newest entry and the snapshot that undoing it
    /// restores: the model's previous entry in the timeline, or else its
    /// baseline.
    pub fn get_last_snapshot(&self) -> (r: Option<(&T, &U)>)
        requires
            self.inv(),
        ensures
            match r {
                Some((t, u)) => last_snapshot(self.timeline(), self.baselines()) == Some((*t, *u)),
                None => last_snapshot(self.timeline(), self.baselines()) is None,
            },
    {
        let inner = &self.inner;
        let n = inner.entries.len();
        if n == 0 {
            return None;
        }
        let ghost tl = self.timeline();
        let last = inner.entries.get(n - 1).unwrap();
        let typ = &last.typ;
        let mut i: usize = n - 1;
        while i > 0
            invariant
                self.inv(),
                inner == &self.inner,
                tl == self.timeline(),
                n == tl.len(),
                i < n,
                *typ == tl.last().typ,
                prev_snapshot(tl.take(i as int), *typ) == prev_snapshot(tl.drop_last(), *typ),
            decreases i,
        {
            let entry = inner.entries.get(i - 1).unwrap();
            proof {
                assert(tl.take(i as int).drop_last() =~= tl.take(i - 1));
                assert(tl.take(i as int).last() == tl[i - 1]);
            }
            if entry.typ == *typ {
                return Some((typ, &entry.snaps));
            }
            i = i - 1;
        }
        proof {
            assert(tl.take(n - 1) =~= tl.drop_last());
        }
        match inner.baselines.get(typ) {
            Some(s) => Some((typ, s)),
            None => None,
        }
    }

    /// Takes back the newest entry: the state of its model recorded before
    /// it is restored, and the entry moves to the redo stack. Fails with
    /// `NoSnapshot`, changing nothing, when there is no such state; with
    /// `RestoreFailed`, changing nothing, when restoring it fails.
    pub fn undo(&mut self) -> (r: Result<(), HistoryError>)
        requires
            old(self).inv(),
        ensures
            final(self).inv(),
            final(self).cap() == old(self).cap(),
            final(self).source() == old(self).source(),
            final(self).baselines() == old(self).baselines(),
            (r == Err::<(), HistoryError>(HistoryError::NoSnapshot)) <==> last_snapshot(
                old(self).timeline(),
                old(self).baselines(),
            ) is None,
            r is Ok ==> final(self).timeline() == old(self).timeline().drop_last()
                && final(self).redo_stack() == old(self).redo_stack().push(
                old(self).timeline().last(),
            ),
            r is Err ==> final(self).timeline() == old(self).timeline() && final(self).redo_stack()
                == old(self).redo_stack(),
            r is Err ==> r == Err::<(), HistoryError>(HistoryError::NoSnapshot) || r == Err::<
                (),
                HistoryError,
            >(HistoryError::RestoreFailed),
    {
        match self.get_last_snapshot() {
            None => Err(HistoryError::NoSnapshot),
            Some((typ, snaps)) => {
                let restored = snaps.restore(self.inner.stateful.state(typ));
                self.finish_undo(restored)
            },
        }
    }

    /// Re-applies the most recently undone entry: its own snapshot is
    /// restored and it goes back to the timeline. Fails with `NoSnapshot`,
    /// changing nothing, when nothing was undone; with `RestoreFailed`,
    /// changing nothing, when restoring fails.
    pub fn redo(&mut self) -> (r: Result<(), HistoryError>)
        requires
            old(self).inv(),
        ensures
            final(self).inv(),
            final(self).cap() == old(self).cap(),
            final(self).source() == old(self).source(),
            final(self).baselines() == old(self).baselines(),
            (r == Err::<(), HistoryError>(HistoryError::NoSnapshot)) <==> old(self).redo_stack().len()
                == 0,
            r is Ok ==> final(self).timeline() == old(self).timeline().push(
                old(self).redo_stack().last(),
            ) && final(self).redo_stack() == old(self).redo_stack().drop_last(),
            r is Err ==> final(self).timeline() == old(self).timeline() && final(self).redo_stack()
                == old(self).redo_stack(),
            r is Err ==> r == Err::<(), HistoryError>(HistoryError::NoSnapshot) || r == Err::<
                (),
                HistoryError,
            >(HistoryError::RestoreFailed),
    {
        let n = self.inner.undo_stack.len();
        if n == 0 {
            return Err(HistoryError::NoSnapshot);
        }
        let restored = self.inner.undo_stack[n - 1].restore(&self.inner.stateful);
        self.finish_redo(restored)
    }

    /// Completes an undo once the previous state of the newest entry's model
    /// has been handed to `restore`, which returned `restored`: on success the
    /// entry moves to the redo stack; on failure nothing changes and the undo
    /// fails with `RestoreFailed`.
    pub fn finish_undo(&mut self, restored: Result<(), HistoryError>) -> (r: Result<
        (),
        HistoryError,
    >)
        requires
            old(self).inv(),
            old(self).timeline().len() > 0,
        ensures
            final(self).inv(),
            final(self).cap() == old(self).cap(),
            final(self).source() == old(self).source(),
            final(self).baselines() == old(self).baselines(),
            restored is Ok ==> r is Ok && final(self).timeline() == old(self).timeline().drop_last()
                && final(self).redo_stack() == old(self).redo_stack().push(
                old(self).timeline().last(),
            ),
            restored is Err ==> r == Err::<(), HistoryError>(HistoryError::RestoreFailed)
                && final(self).timeline() == old(self).timeline() && final(self).redo_stack()
                == old(self).redo_stack(),
    {
        if restored.is_err() {
            return Err(HistoryError::RestoreFailed);
        }
        self.inner.undo();
        Ok(())
    }

    /// Completes a redo once the most recently undone entry's own snapshot has
    /// been handed to `restore`, which returned `restored`: on success the
    /// entry goes back to the timeline, evicting nothing; on failure nothing
    /// changes and the redo fails with `RestoreFailed`.
    pub fn finish_redo(&mut self, restored: Result<(), HistoryError>) -> (r: Result<
        (),
        HistoryError,
    >)
        requires
            old(self).inv(),
            old(self).redo_stack().len() > 0,
        ensures
            final(self).inv(),
            final(self).cap() == old(self).cap(),
            final(self).source() == old(self).source(),
            final(self).baselines() == old(self).baselines(),
            restored is Ok ==> r is Ok && final(self).timeline() == old(self).timeline().push(
                old(self).redo_stack().last(),
            ) && final(self).redo_stack() == old(self).redo_stack().drop_last(),
            restored is Err ==> r == Err::<(), HistoryError>(HistoryError::RestoreFailed)
                && final(self).timeline() == old(self).timeline() && final(self).redo_stack()
                == old(self).redo_stack(),
    {
        if restored.is_err() {
            return Err(HistoryError::RestoreFailed);
        }
        let entry = self.inner.undo_stack.pop().unwrap();
        self.inner.redo(entry);
        Ok(())
    }
}

} // verus!
