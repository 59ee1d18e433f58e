//! The observer traits: what a map observer is, and what the hooks around an execution see.
//!
//! Observers are written by users of the library. A hook whose work is up to its observer
//! comes with a `_step` relation, which says what one call of it may do.
use std::borrow::Cow;
use vstd::prelude::*;
use vstd::set_lib::set_int_range;

verus! {

/// What an observer reports when it could not do its work.
#[derive(Debug)]
pub struct Error {
    pub message: String,
}

/// How an execution of the target ended.
#[derive(Debug, Clone, Copy, PartialEq, Eq, Structural)]
pub enum ExitKind {
    /// The run ended normally.
    Normal,
    /// The run ended in a crash.
    Crash,
}

/// A thing with a name.
pub trait Named {
    spec fn spec_name(&self) -> Seq<char>;

    /// The name.
    fn name(&self) -> (name: &Cow<'static, str>)
        ensures
            name@ == self.spec_name(),
    ;
}

/// A thing with a length.
pub trait HasLen {
    spec fn spec_len(&self) -> nat;

    /// The length.
    fn len(&self) -> (len: usize)
        ensures
            len == self.spec_len(),
    ;
}

/// The number of entries that differ from `initial`.
pub open spec fn count_set<E>(entries: Seq<E>, initial: E) -> nat {
    entries.filter(|entry: E| entry != initial).len()
}

/// The number of `indexes` that name an entry which differs from `initial`. An index that
/// occurs twice counts twice, one outside the map not at all.
pub open spec fn count_set_at<E>(entries: Seq<E>, initial: E, indexes: Seq<usize>) -> nat {
    indexes.filter(|idx: usize| idx < entries.len() && entries[idx as int] != initial).len()
}

/// A map whose first `count` entries were replaced by `value`.
pub open spec fn reset_usable<E>(storage: Seq<E>, count: nat, value: E) -> Seq<E> {
    Seq::new(
        storage.len(),
        |i: int|
            if i < count {
                value
            } else {
                storage[i]
            },
    )
}

/// Counting one entry more.
pub proof fn lemma_count_set_step<E>(entries: Seq<E>, initial: E, idx: int)
    requires
        0 <= idx < entries.len(),
    ensures
        count_set(entries.take(idx + 1), initial) == count_set(entries.take(idx), initial)
            + if entries[idx] != initial {
            1nat
        } else {
            0nat
        },
{
    reveal(Seq::filter);
    assert(entries.take(idx + 1).drop_last() =~= entries.take(idx));
}

/// Counting one index more.
pub proof fn lemma_count_set_at_step<E>(
    entries: Seq<E>,
    initial: E,
    indexes: Seq<usize>,
    k: int,
)
    requires
        0 <= k < indexes.len(),
    ensures
        count_set_at(entries, initial, indexes.take(k + 1)) == count_set_at(
            entries,
            initial,
            indexes.take(k),
        ) + if indexes[k] < entries.len() && entries[indexes[k] as int] != initial {
            1nat
        } else {
            0nat
        },
{
    reveal(Seq::filter);
    assert(indexes.take(k + 1).drop_last() =~= indexes.take(k));
}

/// There is nothing to count in an empty map or an empty list of indexes.
pub proof fn lemma_count_set_nothing<E>(entries: Seq<E>, initial: E, indexes: Seq<usize>)
    ensures
        count_set(entries.take(0), initial) == 0,
        count_set_at(entries, initial, indexes.take(0)) == 0,
{
    reveal(Seq::filter);
}

/// An observer over a map of entries.
///
/// Such an observer is its map and its settings: what it holds beside the map, and what no
/// write to the map changes.
pub trait MapObserver: HasLen + Named {
    type Entry;

    type Settings;

    /// The whole map, with what lies beyond the usable entries.
    spec fn storage(&self) -> Seq<Self::Entry>;

    /// All that the observer holds beside the map.
    spec fn settings(&self) -> Self::Settings;

    /// The usable entries of the map.
    spec fn entries(&self) -> Seq<Self::Entry>;

    /// The value of an entry that nothing has touched.
    spec fn spec_initial(&self) -> Self::Entry;

    /// What one call of [`Self::set`] may do.
    spec fn set_step(pre: &Self, post: &Self, idx: usize, val: Self::Entry) -> bool;

    /// The usable entries are a prefix of the map.
    proof fn lemma_entries_are_prefix(&self)
        ensures
            self.entries().len() <= self.storage().len(),
            self.entries() == self.storage().take(self.entries().len() as int),
    ;

    /// The value of an entry that nothing has touched.
    fn initial(&self) -> (entry: Self::Entry)
        ensures
            entry == self.spec_initial(),
    ;

    /// The number of usable entries.
    fn usable_count(&self) -> (count: usize)
        ensures
            count == self.entries().len(),
            count <= self.storage().len(),
    ;

    /// The entry at `idx`.
    fn get(&self, idx: usize) -> (entry: Self::Entry)
        requires
            idx < self.entries().len(),
        ensures
            entry == self.entries()[idx as int],
    ;

    /// Replace the entry at `idx`.
    fn set(&mut self, idx: usize, val: Self::Entry)
        requires
            idx < old(self).entries().len(),
        ensures
            Self::set_step(old(self), final(self), idx, val),
            final(self).storage() == old(self).storage().update(idx as int, val),
            final(self).entries() == old(self).entries().update(idx as int, val),
            final(self).settings() == old(self).settings(),
            final(self).spec_initial() == old(self).spec_initial(),
            final(self).spec_len() == old(self).spec_len(),
            final(self).spec_name() == old(self).spec_name(),
    ;

    /// Count the entries that differ from the initial value.
    fn count_bytes(&self) -> (count: u64)
        ensures
            count == count_set(self.entries(), self.spec_initial()),
    ;

    /// Reset every entry to the initial value.
    fn reset_map(&mut self) -> (r: Result<(), Error>)
        ensures
            r is Ok ==> final(self).entries() == Seq::new(
                old(self).entries().len(),
                |i: int| old(self).spec_initial(),
            ),
            r is Ok ==> final(self).storage() == reset_usable(
                old(self).storage(),
                old(self).entries().len(),
                old(self).spec_initial(),
            ),
            final(self).settings() == old(self).settings(),
            final(self).spec_initial() == old(self).spec_initial(),
            final(self).spec_len() == old(self).spec_len(),
            final(self).spec_name() == old(self).spec_name(),
    ;

    /// A copy of the usable entries.
    fn to_vec(&self) -> (entries: Vec<Self::Entry>)
        ensures
            entries@ == self.entries(),
    ;

    /// Count the given indexes whose entry differs from the initial value.
    fn how_many_set(&self, indexes: &[usize]) -> (count: usize)
        ensures
            count == count_set_at(self.entries(), self.spec_initial(), indexes@),
    ;
}

/// A map observer whose map has the length `N`.
pub trait ConstLenMapObserver<const N: usize>: MapObserver {
    /// What a caller may have done who wrote `map` through [`Self::map_slice_mut`].
    spec fn map_slice_mut_step(pre: &Self, post: &Self, map: Seq<Self::Entry>) -> bool;

    /// The map.
    fn map_slice(&self) -> (map: &[Self::Entry; N])
        ensures
            map@ == self.storage(),
            map@ == self.entries(),
    ;

    /// The map, for writing.
    fn map_slice_mut(&mut self) -> (map: &mut [Self::Entry; N])
        ensures
            map@ == old(self).storage(),
            Self::map_slice_mut_step(old(self), final(self), final(map)@),
            map@ == old(self).entries(),
            final(self).storage() == final(map)@,
            final(self).entries() == final(map)@,
            final(self).settings() == old(self).settings(),
            final(self).spec_initial() == old(self).spec_initial(),
            final(self).spec_len() == old(self).spec_len(),
            final(self).spec_name() == old(self).spec_name(),
    ;
}

/// A map observer whose map holds a usable prefix of varying size.
pub trait VarLenMapObserver: MapObserver + Sized {
    /// The size of the usable prefix.
    spec fn spec_size(&self) -> usize;

    /// What a caller may have done who wrote `map` through [`Self::map_slice_mut`].
    spec fn map_slice_mut_step(pre: &Self, post: &Self, map: Seq<Self::Entry>) -> bool;

    /// What a caller may have done who wrote `size` through [`Self::size_mut`].
    spec fn size_mut_step(pre: Self, post: Self, size: usize) -> bool;

    /// The usable entries are the prefix of that size, or all where the map is shorter.
    proof fn lemma_usable_prefix(&self)
        ensures
            self.entries() == if self.spec_size() <= self.storage().len() {
                self.storage().take(self.spec_size() as int)
            } else {
                self.storage()
            },
    ;

    /// The size is one of the settings.
    proof fn lemma_size_is_a_setting(&self, other: &Self)
        requires
            self.settings() == other.settings(),
        ensures
            self.spec_size() == other.spec_size(),
    ;

    /// The whole map.
    fn map_slice(&self) -> (map: &[Self::Entry])
        ensures
            map@ == self.storage(),
    ;

    /// The whole map, for writing.
    fn map_slice_mut(&mut self) -> (map: &mut [Self::Entry])
        ensures
            map@ == old(self).storage(),
            Self::map_slice_mut_step(old(self), final(self), final(map)@),
            final(self).storage() == final(map)@,
            final(self).settings() == old(self).settings(),
            final(self).spec_size() == old(self).spec_size(),
            final(self).spec_initial() == old(self).spec_initial(),
            final(map)@.len() == map@.len() ==> final(self).spec_len() == old(self).spec_len(),
            final(self).spec_name() == old(self).spec_name(),
    ;

    /// The size of the usable prefix.
    fn size(&self) -> (size: &usize)
        ensures
            *size == self.spec_size(),
    ;

    /// The size of the usable prefix, for writing.
    fn size_mut(&mut self) -> (size: &mut usize)
        ensures
            *size == old(self).spec_size(),
            Self::size_mut_step(*old(self), *final(self), *final(size)),
            final(self).spec_size() == *final(size),
            final(self).storage() == old(self).storage(),
            final(self).spec_initial() == old(self).spec_initial(),
            final(self).spec_len() == old(self).spec_len(),
            final(self).spec_name() == old(self).spec_name(),
    ;
}

/// A sequence that can be cut short.
pub trait Truncate: Sized {
    type Item;

    spec fn items(&self) -> Seq<Self::Item>;

    /// What one call of [`Self::truncate`] may do.
    spec fn truncate_step(pre: Self, post: Self, new_len: usize) -> bool;

    /// Keep the first `new_len` items; a shorter sequence stays as it is.
    fn truncate(&mut self, new_len: usize)
        ensures
            Self::truncate_step(*old(self), *final(self), new_len),
            final(self).items() == if new_len < old(self).items().len() {
                old(self).items().take(new_len as int)
            } else {
                old(self).items()
            },
    ;
}

/// A thing that can be read as a slice.
pub trait ToSlice: Sized {
    type Item;

    spec fn slice_view(&self) -> Seq<Self::Item>;

    /// The slice.
    fn to_slice(&self) -> (slice: &[Self::Item])
        ensures
            slice@ == self.slice_view(),
    ;
}

/// A thing that can be written as a slice.
pub trait ToSliceMut: ToSlice {
    /// What a caller may have done who wrote `slice` through [`Self::to_slice_mut`].
    spec fn slice_mut_step(pre: Self, post: Self, slice: Seq<Self::Item>) -> bool;

    /// The slice, for writing.
    fn to_slice_mut(&mut self) -> (slice: &mut [Self::Item])
        ensures
            slice@ == old(self).slice_view(),
            Self::slice_mut_step(*old(self), *final(self), final(slice)@),
            final(self).slice_view() == final(slice)@,
    ;
}

/// An observer of executions of the target on an input `I`, with a campaign state `S`.
pub trait Observer<I, S>: Sized {
    spec fn flush_step(pre: Self, post: Self, r: Result<(), Error>) -> bool;

    spec fn pre_exec_step(
        pre: Self,
        post: Self,
        state_pre: S,
        state_post: S,
        input: I,
        r: Result<(), Error>,
    ) -> bool;

    spec fn post_exec_step(
        pre: Self,
        post: Self,
        state_pre: S,
        state_post: S,
        input: I,
        exit_kind: ExitKind,
        r: Result<(), Error>,
    ) -> bool;

    /// Finish whatever is pending.
    fn flush(&mut self) -> (r: Result<(), Error>)
        ensures
            Self::flush_step(*old(self), *final(self), r),
    ;

    /// Called right before an execution.
    fn pre_exec(&mut self, state: &mut S, input: &I) -> (r: Result<(), Error>)
        ensures
            Self::pre_exec_step(*old(self), *final(self), *old(state), *final(state), *input, r),
    ;

    /// Called right after an execution.
    fn post_exec(&mut self, state: &mut S, input: &I, exit_kind: &ExitKind) -> (r: Result<
        (),
        Error,
    >)
        ensures
            Self::post_exec_step(
                *old(self),
                *final(self),
                *old(state),
                *final(state),
                *input,
                *exit_kind,
                r,
            ),
    ;
}

/// An observer of two executors that run side by side, with observers `OTA` and `OTB`.
pub trait DifferentialObserver<OTA, OTB, I, S>: Observer<I, S> {
    spec fn pre_observe_first_step(
        pre: Self,
        post: Self,
        observers_pre: OTA,
        observers_post: OTA,
        r: Result<(), Error>,
    ) -> bool;

    spec fn post_observe_first_step(
        pre: Self,
        post: Self,
        observers_pre: OTA,
        observers_post: OTA,
        r: Result<(), Error>,
    ) -> bool;

    spec fn pre_observe_second_step(
        pre: Self,
        post: Self,
        observers_pre: OTB,
        observers_post: OTB,
        r: Result<(), Error>,
    ) -> bool;

    spec fn post_observe_second_step(
        pre: Self,
        post: Self,
        observers_pre: OTB,
        observers_post: OTB,
        r: Result<(), Error>,
    ) -> bool;

    /// Called before the first executor runs.
    fn pre_observe_first(&mut self, observers: &mut OTA) -> (r: Result<(), Error>)
        ensures
            Self::pre_observe_first_step(
                *old(self),
                *final(self),
                *old(observers),
                *final(observers),
                r,
            ),
    ;

    /// Called after the first executor ran.
    fn post_observe_first(&mut self, observers: &mut OTA) -> (r: Result<(), Error>)
        ensures
            Self::post_observe_first_step(
                *old(self),
                *final(self),
                *old(observers),
                *final(observers),
                r,
            ),
    ;

    /// Called before the second executor runs.
    fn pre_observe_second(&mut self, observers: &mut OTB) -> (r: Result<(), Error>)
        ensures
            Self::pre_observe_second_step(
                *old(self),
                *final(self),
                *old(observers),
                *final(observers),
                r,
            ),
    ;

    /// Called after the second executor ran.
    fn post_observe_second(&mut self, observers: &mut OTB) -> (r: Result<(), Error>)
        ensures
            Self::post_observe_second_step(
                *old(self),
                *final(self),
                *old(observers),
                *final(observers),
                r,
            ),
    ;
}

/// The entries counted are as many as there are indexes of entries that differ from `initial`.
pub proof fn law_count_is_a_number_of_indexes<E>(entries: Seq<E>, initial: E) -> (indexes: Set<
    int,
>)
    ensures
        forall|i: int| #[trigger]
            indexes.contains(i) <==> 0 <= i < entries.len() && entries[i] != initial,
        indexes.finite(),
        count_set(entries, initial) == indexes.len(),
        count_set(entries, initial) <= entries.len(),
        (count_set(entries, initial) == 0) == (forall|i: int|
            0 <= i < entries.len() ==> #[trigger] entries[i] == initial),
    decreases entries.len(),
{
    let n = entries.len() as int;
    let here = |i: int| entries[i] != initial;
    let all = set_int_range(0, n).filter(here);
    lemma_count_set_nothing(entries, initial, Seq::empty());
    if n == 0 {
        assert(entries.take(0) =~= entries);
        assert(all =~= Set::<int>::empty());
    } else {
        vstd::set_lib::lemma_int_range(0, n);
        let rest = entries.drop_last();
        let before = law_count_is_a_number_of_indexes(rest, initial);
        lemma_count_set_step(entries, initial, n - 1);
        assert(entries.take(n - 1) =~= rest);
        assert(entries.take(n) =~= entries);
        vstd::set_lib::lemma_int_range(0, n - 1);
        assert(forall|i: int| 0 <= i < n - 1 ==> rest[i] == entries[i]);
        if entries[n - 1] != initial {
            assert(all =~= before.insert(n - 1));
        } else {
            assert(all =~= before);
        }
        if count_set(entries, initial) == 0 {
            assert forall|i: int| 0 <= i < n implies #[trigger] entries[i] == initial by {
                if i < n - 1 {
                    assert(rest[i] == initial);
                }
            }
        }
        if forall|i: int| 0 <= i < n ==> #[trigger] entries[i] == initial {
            assert forall|i: int| 0 <= i < n - 1 implies #[trigger] rest[i] == initial by {
                assert(entries[i] == initial);
            }
        }
    }
    all
}

/// The indexes counted are as many as there are places in the list whose index lies in the map
/// and names an entry that differs from `initial`.
pub proof fn law_count_at_is_a_number_of_places<E>(
    entries: Seq<E>,
    initial: E,
    indexes: Seq<usize>,
) -> (places: Set<int>)
    ensures
        forall|k: int| #[trigger]
            places.contains(k) <==> 0 <= k < indexes.len() && indexes[k] < entries.len()
                && entries[indexes[k] as int] != initial,
        places.finite(),
        count_set_at(entries, initial, indexes) == places.len(),
        count_set_at(entries, initial, indexes) <= indexes.len(),
    decreases indexes.len(),
{
    let n = indexes.len() as int;
    let here = |k: int| indexes[k] < entries.len() && entries[indexes[k] as int] != initial;
    let all = set_int_range(0, n).filter(here);
    lemma_count_set_nothing(entries, initial, indexes);
    if n == 0 {
        assert(indexes.take(0) =~= indexes);
        assert(all =~= Set::<int>::empty());
    } else {
        let rest = indexes.drop_last();
        let before = law_count_at_is_a_number_of_places(entries, initial, rest);
        lemma_count_set_at_step(entries, initial, indexes, n - 1);
        assert(indexes.take(n - 1) =~= rest);
        assert(indexes.take(n) =~= indexes);
        vstd::set_lib::lemma_int_range(0, n - 1);
        assert(forall|k: int| 0 <= k < n - 1 ==> rest[k] == indexes[k]);
        if indexes[n - 1] < entries.len() && entries[indexes[n - 1] as int] != initial {
            assert(all =~= before.insert(n - 1));
        } else {
            assert(all =~= before);
        }
    }
    all
}

/// A reset writes the value into the first entries and leaves the rest, and the length, as they
/// were.
pub proof fn law_reset_writes_the_first<E>(storage: Seq<E>, count: nat, value: E)
    ensures
        reset_usable(storage, count, value).len() == storage.len(),
        forall|i: int|
            0 <= i < count && i < storage.len() ==> #[trigger] reset_usable(
                storage,
                count,
                value,
            )[i] == value,
        forall|i: int|
            count <= i < storage.len() ==> #[trigger] reset_usable(storage, count, value)[i]
                == storage[i],
{
}

} // verus!
