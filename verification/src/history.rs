//! The studio's memory: its shelf of recently opened sets, newest last, each
//! name once and never more than it was given room for; and its undo stack,
//! which keeps the most recent edits, folds a quick run of the same edit into
//! one, and never grows past its depth.

use vstd::prelude::*;
use vstd::std_specs::cmp::PartialEqSpec;

verus! {

/// The entries of a shelf filed under any name but `key`, in order.
pub open spec fn without<T>(store: Seq<(String, T)>, key: Seq<char>) -> Seq<(String, T)>
    decreases store.len(),
{
    if store.len() == 0 {
        Seq::empty()
    } else {
        let prior = without(store.drop_last(), key);
        if store.last().0@ == key {
            prior
        } else {
            prior.push(store.last())
        }
    }
}

/// The shelf after `held` is shelved under `key`: any entry already under
/// that name is taken out, the new one goes last, and the oldest entries fall
/// off the front until at most `cap` remain.
pub open spec fn shelved<T>(store: Seq<(String, T)>, key: String, held: T, cap: int) -> Seq<(String, T)> {
    let kept = without(store, key@).push((key, held));
    if kept.len() > cap {
        kept.skip(kept.len() - cap)
    } else {
        kept
    }
}

/// Whether no two entries of a shelf share a name.
pub open spec fn distinct_names<T>(store: Seq<(String, T)>) -> bool {
    forall|first: int, second: int|
        0 <= first < second < store.len() ==> (#[trigger] store[first]).0@ != (#[trigger] store[second]).0@
}

/// Shelves `held` under `key`; see [`shelved`]. The shelf never holds more
/// than `cap` entries, ends with the new one where it has room for any, and
/// keeps its names distinct.
pub fn shelve<T>(store: &mut Vec<(String, T)>, key: String, held: T, cap: usize)
    ensures
        final(store)@ == shelved(old(store)@, key, held, cap as int),
        final(store)@.len() <= cap,
        cap >= 1 ==> final(store)@.last() == (key, held),
        distinct_names(old(store)@) ==> distinct_names(final(store)@),
{
    let ghost given = old(store)@;
    let mut pending: Vec<(String, T)> = Vec::new();
    std::mem::swap(store, &mut pending);
    let ghost mut consumed: int = 0;
    while pending.len() > 0
        invariant
            0 <= consumed <= given.len(),
            pending@ == given.skip(consumed),
            store@ == without(given.take(consumed), key@),
        decreases pending@.len(),
    {
        let entry = pending.remove(0);
        proof {
            assert(given.take(consumed + 1).drop_last() == given.take(consumed));
            assert(entry == given[consumed]);
        }
        if entry.0 != key {
            store.push(entry);
        }
        proof {
            consumed = consumed + 1;
            assert(pending@ == given.skip(consumed));
        }
    }
    proof {
        assert(given.take(consumed) == given);
        lemma_without_keeps_distinct(given, key@);
    }
    let ghost kept = store@.push((key, held));
    store.push((key, held));
    assert(kept.skip(0) == kept);
    while store.len() > cap
        invariant
            store@.len() <= kept.len(),
            store@.len() >= cap || store@.len() == kept.len(),
            store@ == kept.skip(kept.len() - store@.len()),
        decreases store@.len(),
    {
        store.remove(0);
        assert(store@ == kept.skip(kept.len() - store@.len()));
    }
    proof {
        if kept.len() <= cap {
            assert(store@ == kept);
        }
        if distinct_names(given) {
            assert forall|first: int, second: int|
                0 <= first < second < store@.len() implies (#[trigger] store@[first]).0@ != (
                #[trigger] store@[second]).0@ by {
                let shift = kept.len() - store@.len();
                assert(store@[first] == kept[first + shift]);
                assert(store@[second] == kept[second + shift]);
            }
        }
    }
}

/// Taking a name out of a shelf leaves only other names, keeps what is left
/// distinct where it was, and drops no entry under another name.
proof fn lemma_without_keeps_distinct<T>(store: Seq<(String, T)>, key: Seq<char>)
    ensures
        forall|at: int| 0 <= at < without(store, key).len() ==> (#[trigger] without(store, key)[at]).0@ != key,
        distinct_names(store) ==> distinct_names(without(store, key)),
        forall|at: int|
            #![trigger without(store, key)[at]]
            0 <= at < without(store, key).len() ==> exists|from: int|
                0 <= from < store.len() && #[trigger] store[from] == without(store, key)[at],
    decreases store.len(),
{
    if store.len() > 0 {
        let rest = store.drop_last();
        lemma_without_keeps_distinct(rest, key);
        let prior = without(rest, key);
        assert forall|at: int| #![trigger prior[at]] 0 <= at < prior.len() implies exists|from: int|
            0 <= from < store.len() && #[trigger] store[from] == prior[at] by {
            let from = choose|from: int| 0 <= from < rest.len() && #[trigger] rest[from] == prior[at];
            assert(store[from] == rest[from]);
        }
        assert(store[store.len() - 1] == store.last());
        if distinct_names(store) {
            assert(distinct_names(rest)) by {
                assert forall|first: int, second: int|
                    0 <= first < second < rest.len() implies (#[trigger] rest[first]).0@ != (
                    #[trigger] rest[second]).0@ by {
                    assert(rest[first] == store[first] && rest[second] == store[second]);
                }
            }
            if store.last().0@ != key {
                let grown = prior.push(store.last());
                assert forall|first: int, second: int|
                    0 <= first < second < grown.len() implies (#[trigger] grown[first]).0@ != (
                    #[trigger] grown[second]).0@ by {
                    if second == grown.len() - 1 {
                        let from = choose|from: int|
                            0 <= from < rest.len() && #[trigger] rest[from] == prior[first];
                        assert(store[from] == prior[first]);
                        assert(store[store.len() - 1] == grown[second]);
                    } else {
                        assert(grown[first] == prior[first] && grown[second] == prior[second]);
                    }
                }
            }
        }
    }
}

} // verus!

verus! {

/// How many edits the undo stack keeps.
pub const DEPTH: usize = 25;
/// How long after an edit, in milliseconds, the same edit again is folded into it.
pub const COALESCE_MILLIS: u64 = 700;

/// One undoable edit: what was edited, the file it was made in where it was
/// made in one, what to restore, and when it was made, in milliseconds on the
/// caller's clock.
pub struct Entry<T, A, S> {
    pub tag: T,
    pub anchor: Option<A>,
    pub shot: S,
    pub at: u64,
}

/// The undo stack: the most recent edits, oldest first.
pub struct History<T, A, S> {
    entries: Vec<Entry<T, A, S>>,
}

/// A stack after one more entry: the oldest entries fall off the front until
/// at most [`DEPTH`] remain.
pub open spec fn capped<E>(entries: Seq<E>) -> Seq<E> {
    if entries.len() > DEPTH {
        entries.skip(entries.len() - DEPTH)
    } else {
        entries
    }
}

/// Whether two optional anchors name the same file.
pub open spec fn same_anchor<A: PartialEq>(left: Option<A>, right: Option<A>) -> bool {
    match (left, right) {
        (Some(held), Some(asked)) => held.eq_spec(&asked),
        (None, None) => true,
        _ => false,
    }
}

/// The milliseconds from `then` to `now`, none where the clock went back.
pub open spec fn elapsed(then: u64, now: u64) -> int {
    if now >= then {
        now - then
    } else {
        0
    }
}

impl<T, A, S> History<T, A, S> {
    /// The edits the stack holds, oldest first.
    pub closed spec fn entries(self) -> Seq<Entry<T, A, S>> {
        self.entries@
    }

    /// An empty stack.
    pub fn new() -> (history: Self)
        ensures
            history.entries() == Seq::<Entry<T, A, S>>::empty(),
    {
        History { entries: Vec::new() }
    }

    /// How many edits the stack holds.
    pub fn len(&self) -> (count: usize)
        ensures
            count == self.entries().len(),
    {
        self.entries.len()
    }

    /// What edit `at`, counting from the oldest, was made to.
    pub fn tag_at(&self, at: usize) -> (tag: Option<&T>)
        ensures
            match tag {
                Some(held) => at < self.entries().len() && *held == self.entries()[at as int].tag,
                None => at >= self.entries().len(),
            },
    {
        if at < self.entries.len() {
            Some(&self.entries[at].tag)
        } else {
            None
        }
    }

    /// Whether an edit of `tag` in `anchor`'s file at `now` earns an entry of
    /// its own: it does unless the last entry is the same edit of the same
    /// file, made less than [`COALESCE_MILLIS`] earlier.
    pub fn wanted(&self, tag: &T, anchor: Option<&A>, now: u64) -> (wanted: bool)
        where
            T: PartialEq,
            A: PartialEq,
        ensures
            T::obeys_eq_spec() && A::obeys_eq_spec() ==> wanted == (self.entries().len() == 0 || {
                let last = self.entries().last();
                ||| !last.tag.eq_spec(tag)
                ||| !same_anchor(
                    last.anchor,
                    match anchor {
                        Some(asked) => Some(*asked),
                        None => None,
                    },
                )
                ||| elapsed(last.at, now) >= COALESCE_MILLIS
            }),
    {
        let count = self.entries.len();
        if count == 0 {
            return true;
        }
        let last = &self.entries[count - 1];
        if !(last.tag == *tag) {
            return true;
        }
        let same = match (&last.anchor, anchor) {
            (Some(held), Some(asked)) => held == asked,
            (None, None) => true,
            _ => false,
        };
        if !same {
            return true;
        }
        let gone: u64 = if now >= last.at { now - last.at } else { 0 };
        gone >= COALESCE_MILLIS
    }

    /// Records an edit made at `now`; the oldest edits fall off the front so
    /// the stack never holds more than [`DEPTH`].
    pub fn push(&mut self, tag: T, anchor: Option<A>, shot: S, now: u64)
        ensures
            final(self).entries() == capped(old(self).entries().push(Entry { tag, anchor, shot, at: now })),
            final(self).entries().len() <= DEPTH,
    {
        let ghost full = old(self).entries().push(Entry { tag, anchor, shot, at: now });
        self.entries.push(Entry { tag, anchor, shot, at: now });
        let ghost mut dropped: int = 0;
        while self.entries.len() > DEPTH
            invariant
                self.entries@ == full.skip(dropped),
                0 <= dropped,
                full.len() > DEPTH ==> dropped <= full.len() - DEPTH,
                full.len() <= DEPTH ==> dropped == 0,
            decreases self.entries@.len(),
        {
            self.entries.remove(0);
            proof {
                dropped = dropped + 1;
                assert(self.entries@ =~= full.skip(dropped));
            }
        }
        proof {
            if full.len() <= DEPTH {
                assert(full.skip(0) =~= full);
            }
        }
    }

    /// Takes the newest edit off the stack, giving back what it restores.
    pub fn pop(&mut self) -> (shot: Option<S>)
        ensures
            old(self).entries().len() == 0 ==> shot.is_none() && final(self).entries() == old(self).entries(),
            old(self).entries().len() > 0 ==> shot == Some(old(self).entries().last().shot)
                && final(self).entries() == old(self).entries().drop_last(),
    {
        match self.entries.pop() {
            Some(entry) => Some(entry.shot),
            None => None,
        }
    }

    /// Forgets every edit.
    pub fn clear(&mut self)
        ensures
            final(self).entries() == Seq::<Entry<T, A, S>>::empty(),
    {
        self.entries.clear();
    }
}

impl<T, A, S> Default for History<T, A, S> {
    fn default() -> (history: Self)
        ensures
            history.entries() == Seq::<Entry<T, A, S>>::empty(),
    {
        History::new()
    }
}

} // verus!
