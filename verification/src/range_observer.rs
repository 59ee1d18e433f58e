//! The input-range map observer.
use crate::entry::{decoded, fresh_map, is_map, unpack_range, RANGE_EMPTY};
use crate::observer::{
    count_set, count_set_at, lemma_count_set_at_step, lemma_count_set_nothing, lemma_count_set_step,
    reset_usable, ConstLenMapObserver, DifferentialObserver, Error, ExitKind, HasLen, MapObserver,
    Named, Observer, ToSlice, ToSliceMut, Truncate, VarLenMapObserver,
};
use crate::text::{format_observer, observer_text, quote, quoted};
use std::borrow::Cow;
use std::ops::{Deref, DerefMut};
use vstd::prelude::*;

verus! {

/// Map observer tracking the *range of values* seen at each entry rather than hitcounts.
///
/// This wraps any `u8`-valued [`MapObserver`], which keeps all of the storage and slice
/// plumbing, and overrides what carries the range semantics: an entry that nothing has
/// touched is [`RANGE_EMPTY`] instead of the base observer's initial value, and a reset
/// writes [`RANGE_EMPTY`].
#[derive(Hash)]
pub struct InputRangeMapObserver<M> {
    base: M,
}

/// The entries that have seen at least one value, in order, as `(index, lo, hi)`.
pub open spec fn range_list(entries: Seq<u8>) -> Seq<(usize, u8, u8)>
    decreases entries.len(),
{
    if entries.len() == 0 {
        Seq::empty()
    } else {
        let rest = range_list(entries.drop_last());
        match decoded(entries.last()) {
            Some((lo, hi)) => rest.push(((entries.len() - 1) as usize, lo, hi)),
            None => rest,
        }
    }
}

/// Whether `states` are the states of an observer as its first `count` entries are written
/// with [`RANGE_EMPTY`], one write each, in order.
pub open spec fn reset_chain<M>(states: Seq<M>, count: nat) -> bool where
    M: MapObserver<Entry = u8>,
 {
    &&& states.len() == count + 1
    &&& forall|i: int|
        0 <= i < count ==> #[trigger] M::set_step(
            &states[i],
            &states[i + 1],
            i as usize,
            RANGE_EMPTY,
        )
}

/// Whether `post` is what becomes of `pre` when each of its usable entries is written once with
/// [`RANGE_EMPTY`], in order, and nothing else is done to it.
pub open spec fn is_reset_of<M>(pre: M, post: M) -> bool where M: MapObserver<Entry = u8> {
    exists|states: Seq<M>| #[trigger]
        reset_chain(states, pre.entries().len()) && states.first() == pre && states.last() == post
}

impl<M> InputRangeMapObserver<M> {
    /// The wrapped observer.
    pub closed spec fn spec_base(&self) -> M {
        self.base
    }

    /// Wrap a `u8`-valued [`MapObserver`] as an input-range map.
    pub fn new(base: M) -> (observer: Self)
        ensures
            observer.spec_base() == base,
    {
        Self { base }
    }

    /// The wrapped observer.
    pub fn base(&self) -> (base: &M)
        ensures
            *base == self.spec_base(),
    {
        &self.base
    }
}

impl<M> Clone for InputRangeMapObserver<M> where M: Clone {
    fn clone(&self) -> (observer: Self)
        ensures
            cloned(self.spec_base(), observer.spec_base()),
    {
        Self { base: self.base.clone() }
    }
}

impl<M> InputRangeMapObserver<M> where M: MapObserver<Entry = u8> {
    /// List the entries that have seen at least one value, as `(index, lo, hi)`.
    pub fn ranges(&self) -> (list: Vec<(usize, u8, u8)>)
        requires
            is_map(self.entries()),
        ensures
            list@ == range_list(self.entries()),
    {
        let count: usize = self.base.usable_count();
        let ghost entries = self.entries();
        let mut list: Vec<(usize, u8, u8)> = Vec::new();
        let mut idx: usize = 0;
        while idx < count
            invariant
                idx <= count,
                count == entries.len(),
                entries == self.base.entries(),
                is_map(entries),
                list@ == range_list(entries.take(idx as int)),
            decreases count - idx,
        {
            assert(entries.take(idx + 1).drop_last() =~= entries.take(idx as int));
            match unpack_range(self.base.get(idx)) {
                Some((lo, hi)) => {
                    list.push((idx, lo, hi));
                },
                None => {},
            }
            idx = idx + 1;
        }
        assert(entries.take(count as int) =~= entries);
        list
    }
}

impl<M> InputRangeMapObserver<M> where M: MapObserver<Entry = u8> + Named {
    /// The decoded `idx: lo..=hi` intervals under the name; the raw packed bytes are unreadable.
    pub fn debug_text(&self) -> (text: String)
        requires
            is_map(self.entries()),
        ensures
            text@ == observer_text(quoted(self.spec_name()), range_list(self.entries())),
    {
        format_observer(quote(self.name()).as_str(), &self.ranges())
    }
}

impl<M> Deref for InputRangeMapObserver<M> {
    type Target = M;

    fn deref(&self) -> (base: &M)
        ensures
            *base == self.spec_base(),
    {
        &self.base
    }
}

impl<M> DerefMut for InputRangeMapObserver<M> {
    fn deref_mut(&mut self) -> (base: &mut M)
        ensures
            *base == old(self).spec_base(),
            final(self).spec_base() == *final(base),
    {
        &mut self.base
    }
}

impl<M> AsRef<Self> for InputRangeMapObserver<M> {
    fn as_ref(&self) -> (r: &Self)
        ensures
            *r == *self,
    {
        self
    }
}

impl<M> AsMut<Self> for InputRangeMapObserver<M> {
    fn as_mut(&mut self) -> (r: &mut Self)
        ensures
            *r == *old(self),
            *final(self) == *final(r),
    {
        self
    }
}

impl<M> Named for InputRangeMapObserver<M> where M: Named {
    open spec fn spec_name(&self) -> Seq<char> {
        self.spec_base().spec_name()
    }

    #[inline]
    fn name(&self) -> (name: &Cow<'static, str>) {
        self.base.name()
    }
}

impl<M> HasLen for InputRangeMapObserver<M> where M: HasLen {
    open spec fn spec_len(&self) -> nat {
        self.spec_base().spec_len()
    }

    #[inline]
    fn len(&self) -> (len: usize) {
        self.base.len()
    }
}

impl<M> MapObserver for InputRangeMapObserver<M> where M: MapObserver<Entry = u8> {
    type Entry = u8;

    type Settings = M::Settings;

    open spec fn storage(&self) -> Seq<u8> {
        self.spec_base().storage()
    }

    open spec fn settings(&self) -> M::Settings {
        self.spec_base().settings()
    }

    open spec fn entries(&self) -> Seq<u8> {
        self.spec_base().entries()
    }

    /// [`RANGE_EMPTY`], *not* the base observer's initial value.
    open spec fn spec_initial(&self) -> u8 {
        RANGE_EMPTY
    }

    open spec fn set_step(pre: &Self, post: &Self, idx: usize, val: u8) -> bool {
        M::set_step(&pre.spec_base(), &post.spec_base(), idx, val)
    }

    proof fn lemma_entries_are_prefix(&self) {
        self.base.lemma_entries_are_prefix();
    }

    /// [`RANGE_EMPTY`], *not* the base observer's initial value.
    #[inline]
    fn initial(&self) -> (entry: u8) {
        RANGE_EMPTY
    }

    #[inline]
    fn usable_count(&self) -> (count: usize) {
        self.base.usable_count()
    }

    #[inline]
    fn get(&self, idx: usize) -> (entry: u8) {
        self.base.get(idx)
    }

    #[inline]
    fn set(&mut self, idx: usize, val: u8)
        ensures
            final(self).spec_base().spec_initial() == old(self).spec_base().spec_initial(),
    {
        self.base.set(idx, val);
    }

    /// Count the entries that have observed at least one value.
    fn count_bytes(&self) -> (count: u64) {
        let cnt: usize = self.usable_count();
        let ghost entries = self.entries();
        let mut res: u64 = 0;
        let mut idx: usize = 0;
        proof {
            lemma_count_set_nothing(entries, RANGE_EMPTY, Seq::empty());
        }
        while idx < cnt
            invariant
                idx <= cnt,
                cnt == entries.len(),
                entries == self.base.entries(),
                res == count_set(entries.take(idx as int), RANGE_EMPTY),
                res <= idx,
            decreases cnt - idx,
        {
            proof {
                lemma_count_set_step(entries, RANGE_EMPTY, idx as int);
            }
            if self.base.get(idx) != RANGE_EMPTY {
                res = res + 1;
            }
            idx = idx + 1;
        }
        assert(entries.take(cnt as int) =~= entries);
        res
    }

    /// Reset every entry to [`RANGE_EMPTY`].
    #[inline]
    fn reset_map(&mut self) -> (r: Result<(), Error>)
        ensures
            r is Ok,
            is_reset_of(old(self).spec_base(), final(self).spec_base()),
            final(self).entries() == fresh_map(old(self).entries().len()),
            final(self).storage() == reset_usable(
                old(self).storage(),
                old(self).entries().len(),
                RANGE_EMPTY,
            ),
            final(self).spec_base().spec_initial() == old(self).spec_base().spec_initial(),
    {
        let cnt: usize = self.usable_count();
        let ghost mut states = seq![self.base];
        let mut idx: usize = 0;
        while idx < cnt
            invariant
                idx <= cnt,
                reset_chain(states, idx as nat),
                states.first() == old(self).base,
                states.last() == self.base,
                cnt == old(self).base.entries().len(),
                self.base.entries().len() == cnt,
                cnt <= old(self).base.storage().len(),
                self.base.storage().len() == old(self).base.storage().len(),
                forall|i: int| 0 <= i < idx ==> self.base.entries()[i] == RANGE_EMPTY,
                forall|i: int| 0 <= i < idx ==> self.base.storage()[i] == RANGE_EMPTY,
                forall|i: int|
                    idx <= i < old(self).base.storage().len() ==> self.base.storage()[i] == old(
                        self,
                    ).base.storage()[i],
                self.base.settings() == old(self).base.settings(),
                self.base.spec_initial() == old(self).base.spec_initial(),
                self.base.spec_len() == old(self).base.spec_len(),
                self.base.spec_name() == old(self).base.spec_name(),
            decreases cnt - idx,
        {
            self.base.set(idx, RANGE_EMPTY);
            proof {
                let longer = states.push(self.base);
                assert forall|i: int| 0 <= i < idx + 1 implies #[trigger] M::set_step(
                    &longer[i],
                    &longer[i + 1],
                    i as usize,
                    RANGE_EMPTY,
                ) by {
                    if i < idx {
                        assert(M::set_step(&states[i], &states[i + 1], i as usize, RANGE_EMPTY));
                    }
                }
                states = longer;
            }
            idx = idx + 1;
        }
        Ok(())
    }

    fn to_vec(&self) -> (entries: Vec<u8>) {
        self.base.to_vec()
    }

    fn how_many_set(&self, indexes: &[usize]) -> (count: usize) {
        let cnt: usize = self.usable_count();
        let ghost entries = self.entries();
        let mut res: usize = 0;
        let mut k: usize = 0;
        proof {
            lemma_count_set_nothing(entries, RANGE_EMPTY, indexes@);
        }
        while k < indexes.len()
            invariant
                k <= indexes.len(),
                cnt == entries.len(),
                entries == self.base.entries(),
                res == count_set_at(entries, RANGE_EMPTY, indexes@.take(k as int)),
                res <= k,
            decreases indexes.len() - k,
        {
            proof {
                lemma_count_set_at_step(entries, RANGE_EMPTY, indexes@, k as int);
            }
            let i: usize = indexes[k];
            if i < cnt && self.base.get(i) != RANGE_EMPTY {
                res = res + 1;
            }
            k = k + 1;
        }
        assert(indexes@.take(indexes@.len() as int) =~= indexes@);
        res
    }
}

impl<M, const N: usize> ConstLenMapObserver<N> for InputRangeMapObserver<M> where
    M: ConstLenMapObserver<N> + MapObserver<Entry = u8>,
 {
    open spec fn map_slice_mut_step(pre: &Self, post: &Self, map: Seq<u8>) -> bool {
        M::map_slice_mut_step(&pre.spec_base(), &post.spec_base(), map)
    }

    fn map_slice(&self) -> (map: &[Self::Entry; N]) {
        self.base.map_slice()
    }

    fn map_slice_mut(&mut self) -> (map: &mut [Self::Entry; N])
        ensures
            final(self).spec_base().spec_initial() == old(self).spec_base().spec_initial(),
    {
        self.base.map_slice_mut()
    }
}

impl<M> VarLenMapObserver for InputRangeMapObserver<M> where
    M: VarLenMapObserver + MapObserver<Entry = u8>,
 {
    open spec fn spec_size(&self) -> usize {
        self.spec_base().spec_size()
    }

    open spec fn map_slice_mut_step(pre: &Self, post: &Self, map: Seq<u8>) -> bool {
        M::map_slice_mut_step(&pre.spec_base(), &post.spec_base(), map)
    }

    open spec fn size_mut_step(pre: Self, post: Self, size: usize) -> bool {
        M::size_mut_step(pre.spec_base(), post.spec_base(), size)
    }

    proof fn lemma_usable_prefix(&self) {
        self.base.lemma_usable_prefix();
    }

    proof fn lemma_size_is_a_setting(&self, other: &Self) {
        self.base.lemma_size_is_a_setting(&other.base);
    }

    fn map_slice(&self) -> (map: &[Self::Entry]) {
        self.base.map_slice()
    }

    fn map_slice_mut(&mut self) -> (map: &mut [Self::Entry])
        ensures
            final(self).spec_base().spec_initial() == old(self).spec_base().spec_initial(),
    {
        self.base.map_slice_mut()
    }

    fn size(&self) -> (size: &usize) {
        self.base.size()
    }

    fn size_mut(&mut self) -> (size: &mut usize)
        ensures
            final(self).spec_base().spec_initial() == old(self).spec_base().spec_initial(),
    {
        self.base.size_mut()
    }
}

impl<M> Truncate for InputRangeMapObserver<M> where M: Truncate {
    type Item = M::Item;

    open spec fn items(&self) -> Seq<M::Item> {
        self.spec_base().items()
    }

    open spec fn truncate_step(pre: Self, post: Self, new_len: usize) -> bool {
        M::truncate_step(pre.spec_base(), post.spec_base(), new_len)
    }

    fn truncate(&mut self, new_len: usize) {
        self.base.truncate(new_len);
    }
}

impl<M> ToSlice for InputRangeMapObserver<M> where M: ToSlice {
    type Item = M::Item;

    open spec fn slice_view(&self) -> Seq<M::Item> {
        self.spec_base().slice_view()
    }

    #[inline]
    fn to_slice(&self) -> (slice: &[Self::Item]) {
        self.base.to_slice()
    }
}

impl<M> ToSliceMut for InputRangeMapObserver<M> where M: ToSliceMut {
    open spec fn slice_mut_step(pre: Self, post: Self, slice: Seq<M::Item>) -> bool {
        M::slice_mut_step(pre.spec_base(), post.spec_base(), slice)
    }

    #[inline]
    fn to_slice_mut(&mut self) -> (slice: &mut [Self::Item]) {
        self.base.to_slice_mut()
    }
}

impl<I, S, M> Observer<I, S> for InputRangeMapObserver<M> where
    M: MapObserver<Entry = u8> + Observer<I, S>,
 {
    open spec fn flush_step(pre: Self, post: Self, r: Result<(), Error>) -> bool {
        M::flush_step(pre.spec_base(), post.spec_base(), r)
    }

    /// A reset to [`RANGE_EMPTY`], which never fails and leaves the state alone.
    open spec fn pre_exec_step(
        pre: Self,
        post: Self,
        state_pre: S,
        state_post: S,
        input: I,
        r: Result<(), Error>,
    ) -> bool {
        &&& r is Ok
        &&& state_post == state_pre
        &&& is_reset_of(pre.spec_base(), post.spec_base())
        &&& post.entries() == fresh_map(pre.entries().len())
        &&& post.storage() == reset_usable(pre.storage(), pre.entries().len(), RANGE_EMPTY)
        &&& post.settings() == pre.settings()
        &&& post.spec_base().spec_initial() == pre.spec_base().spec_initial()
        &&& post.spec_len() == pre.spec_len()
        &&& post.spec_name() == pre.spec_name()
    }

    open spec fn post_exec_step(
        pre: Self,
        post: Self,
        state_pre: S,
        state_post: S,
        input: I,
        exit_kind: ExitKind,
        r: Result<(), Error>,
    ) -> bool {
        M::post_exec_step(
            pre.spec_base(),
            post.spec_base(),
            state_pre,
            state_post,
            input,
            exit_kind,
            r,
        )
    }

    #[inline]
    fn flush(&mut self) -> (r: Result<(), Error>) {
        self.base.flush()
    }

    /// Resets to [`RANGE_EMPTY`].
    ///
    /// Note this deliberately does *not* delegate to `base.pre_exec`, which would reset
    /// the map to the base observer's initial value (typically `0`, a valid range).
    #[inline]
    fn pre_exec(&mut self, _state: &mut S, _input: &I) -> (r: Result<(), Error>) {
        self.reset_map()
    }

    #[inline]
    fn post_exec(&mut self, state: &mut S, input: &I, exit_kind: &ExitKind) -> (r: Result<
        (),
        Error,
    >) {
        self.base.post_exec(state, input, exit_kind)
    }
}

impl<M, OTA, OTB, I, S> DifferentialObserver<OTA, OTB, I, S> for InputRangeMapObserver<M> where
    M: DifferentialObserver<OTA, OTB, I, S> + MapObserver<Entry = u8>,
 {
    open spec fn pre_observe_first_step(
        pre: Self,
        post: Self,
        observers_pre: OTA,
        observers_post: OTA,
        r: Result<(), Error>,
    ) -> bool {
        M::pre_observe_first_step(
            pre.spec_base(),
            post.spec_base(),
            observers_pre,
            observers_post,
            r,
        )
    }

    open spec fn post_observe_first_step(
        pre: Self,
        post: Self,
        observers_pre: OTA,
        observers_post: OTA,
        r: Result<(), Error>,
    ) -> bool {
        M::post_observe_first_step(
            pre.spec_base(),
            post.spec_base(),
            observers_pre,
            observers_post,
            r,
        )
    }

    open spec fn pre_observe_second_step(
        pre: Self,
        post: Self,
        observers_pre: OTB,
        observers_post: OTB,
        r: Result<(), Error>,
    ) -> bool {
        M::pre_observe_second_step(
            pre.spec_base(),
            post.spec_base(),
            observers_pre,
            observers_post,
            r,
        )
    }

    open spec fn post_observe_second_step(
        pre: Self,
        post: Self,
        observers_pre: OTB,
        observers_post: OTB,
        r: Result<(), Error>,
    ) -> bool {
        M::post_observe_second_step(
            pre.spec_base(),
            post.spec_base(),
            observers_pre,
            observers_post,
            r,
        )
    }

    fn pre_observe_first(&mut self, observers: &mut OTA) -> (r: Result<(), Error>) {
        self.base.pre_observe_first(observers)
    }

    fn post_observe_first(&mut self, observers: &mut OTA) -> (r: Result<(), Error>) {
        self.base.post_observe_first(observers)
    }

    fn pre_observe_second(&mut self, observers: &mut OTB) -> (r: Result<(), Error>) {
        self.base.pre_observe_second(observers)
    }

    fn post_observe_second(&mut self, observers: &mut OTB) -> (r: Result<(), Error>) {
        self.base.post_observe_second(observers)
    }
}

/// A triple is listed exactly if it is the index of an entry and what that entry says, and the
/// list goes by increasing index.
pub proof fn law_ranges_are_exact(entries: Seq<u8>)
    requires
        entries.len() <= usize::MAX,
    ensures
        forall|idx: usize, lo: u8, hi: u8| #[trigger]
            range_list(entries).contains((idx, lo, hi)) <==> idx < entries.len() && decoded(
                entries[idx as int],
            ) == Some((lo, hi)),
        forall|j: int, k: int|
            0 <= j < k < range_list(entries).len() ==> (#[trigger] range_list(entries)[j]).0 < (
            #[trigger] range_list(entries)[k]).0,
    decreases entries.len(),
{
    if entries.len() > 0 {
        let rest = entries.drop_last();
        let n = entries.len() - 1;
        law_ranges_are_exact(rest);
        let list = range_list(entries);
        let before = range_list(rest);
        assert forall|k: int| 0 <= k < before.len() implies (#[trigger] before[k]).0 < n by {
            assert(before.contains((before[k].0, before[k].1, before[k].2)));
        }
        assert forall|idx: usize, lo: u8, hi: u8| #[trigger]
            list.contains((idx, lo, hi)) <==> idx < entries.len() && decoded(entries[idx as int])
                == Some((lo, hi)) by {
            let t = (idx, lo, hi);
            if list.contains(t) {
                let k = choose|k: int| 0 <= k < list.len() && list[k] == t;
                if k < before.len() {
                    assert(before[k] == t);
                    assert(before.contains(t));
                }
            }
            if idx < n && decoded(entries[idx as int]) == Some((lo, hi)) {
                assert(before.contains(t));
                let k = choose|k: int| 0 <= k < before.len() && before[k] == t;
                assert(list[k] == t);
            }
            if idx == n && decoded(entries[idx as int]) == Some((lo, hi)) {
                assert(list[list.len() - 1] == t);
            }
        }
    }
}

/// As many entries are counted as ranges are listed.
pub proof fn law_count_is_listed(entries: Seq<u8>)
    ensures
        count_set(entries, RANGE_EMPTY) == range_list(entries).len(),
    decreases entries.len(),
{
    if entries.len() == 0 {
        lemma_count_set_nothing(entries, RANGE_EMPTY, Seq::empty());
        assert(entries.take(0) =~= entries);
    } else {
        let n = entries.len() - 1;
        law_count_is_listed(entries.drop_last());
        lemma_count_set_step(entries, RANGE_EMPTY, n);
        assert(entries.take(n) =~= entries.drop_last());
        assert(entries.take(n + 1) =~= entries);
    }
}

/// A reset leaves nothing to count and nothing to list, and entries that decode.
pub proof fn law_fresh_map_is_empty(len: nat)
    ensures
        is_map(fresh_map(len)),
        range_list(fresh_map(len)) == Seq::<(usize, u8, u8)>::empty(),
        count_set(fresh_map(len), RANGE_EMPTY) == 0,
    decreases len,
{
    if len > 0 {
        law_fresh_map_is_empty((len - 1) as nat);
        assert(fresh_map(len).drop_last() =~= fresh_map((len - 1) as nat));
    }
    law_count_is_listed(fresh_map(len));
}

/// By number: a triple is listed exactly if the byte at its index is not 15 and the triple holds
/// the byte's remainder and quotient by 16.
pub proof fn law_ranges_by_number(entries: Seq<u8>, idx: usize, lo: u8, hi: u8)
    requires
        entries.len() <= usize::MAX,
    ensures
        range_list(entries).contains((idx, lo, hi)) <==> {
            &&& idx < entries.len()
            &&& entries[idx as int] as int != 15
            &&& lo as int == entries[idx as int] as int % 16
            &&& hi as int == entries[idx as int] as int / 16
        },
{
    law_ranges_are_exact(entries);
}

/// An observer's untouched entry is 15, whatever that of its base is; the map, its usable part,
/// the settings, the name and the length are the base's own.
pub proof fn law_only_the_initial_value_differs<M>(observer: InputRangeMapObserver<M>) where
    M: MapObserver<Entry = u8>,

    ensures
        observer.spec_initial() as int == 15,
        observer.storage() == observer.spec_base().storage(),
        observer.entries() == observer.spec_base().entries(),
        observer.settings() == observer.spec_base().settings(),
        observer.spec_name() == observer.spec_base().spec_name(),
        observer.spec_len() == observer.spec_base().spec_len(),
{
}

/// What happens before an execution: the call succeeds, every usable entry holds 15 afterwards,
/// and the rest of the map, its length, the settings, the name, the base's own initial value and
/// the campaign state are as before.
pub proof fn law_pre_exec_empties_the_map<I, S, M>(
    pre: InputRangeMapObserver<M>,
    post: InputRangeMapObserver<M>,
    state_pre: S,
    state_post: S,
    input: I,
    r: Result<(), Error>,
) where M: MapObserver<Entry = u8> + Observer<I, S>
    requires
        <InputRangeMapObserver<M> as Observer<I, S>>::pre_exec_step(
            pre,
            post,
            state_pre,
            state_post,
            input,
            r,
        ),
    ensures
        r is Ok,
        state_post == state_pre,
        post.entries().len() == pre.entries().len(),
        forall|i: int| 0 <= i < pre.entries().len() ==> #[trigger] post.entries()[i] as int == 15,
        post.storage().len() == pre.storage().len(),
        forall|i: int|
            pre.entries().len() <= i < pre.storage().len() ==> #[trigger] post.storage()[i]
                == pre.storage()[i],
        post.settings() == pre.settings(),
        post.spec_name() == pre.spec_name(),
        post.spec_len() == pre.spec_len(),
        post.spec_base().spec_initial() == pre.spec_base().spec_initial(),
{
}

/// A reset is made of single writes: there is a row of states from the one before to the one
/// after, each made from the last by writing 15 at the next index, one for each usable entry.
pub proof fn law_reset_is_one_write_each<M>(pre: M, post: M) -> (states: Seq<M>) where
    M: MapObserver<Entry = u8>,

    requires
        is_reset_of(pre, post),
    ensures
        states.len() == pre.entries().len() + 1,
        states[0] == pre,
        states[pre.entries().len() as int] == post,
        forall|i: int|
            0 <= i < pre.entries().len() ==> #[trigger] M::set_step(
                &states[i],
                &states[i + 1],
                i as usize,
                15,
            ),
{
    let states = choose|states: Seq<M>| #[trigger]
        reset_chain(states, pre.entries().len()) && states.first() == pre && states.last() == post;
    states
}

/// A single write, a flush and what happens after an execution are the base's own doing.
pub proof fn law_hooks_are_the_bases<I, S, M>(
    pre: InputRangeMapObserver<M>,
    post: InputRangeMapObserver<M>,
    state_pre: S,
    state_post: S,
    input: I,
    exit_kind: ExitKind,
    idx: usize,
    val: u8,
    r: Result<(), Error>,
) where M: MapObserver<Entry = u8> + Observer<I, S>
    ensures
        <InputRangeMapObserver<M> as MapObserver>::set_step(&pre, &post, idx, val) == M::set_step(
            &pre.spec_base(),
            &post.spec_base(),
            idx,
            val,
        ),
        <InputRangeMapObserver<M> as Observer<I, S>>::flush_step(pre, post, r)
            == <M as Observer<I, S>>::flush_step(pre.spec_base(), post.spec_base(), r),
        <InputRangeMapObserver<M> as Observer<I, S>>::post_exec_step(
            pre,
            post,
            state_pre,
            state_post,
            input,
            exit_kind,
            r,
        ) == <M as Observer<I, S>>::post_exec_step(
            pre.spec_base(),
            post.spec_base(),
            state_pre,
            state_post,
            input,
            exit_kind,
            r,
        ),
{
}

/// What happens around two executors that run side by side is the base's own doing.
pub proof fn law_differential_hooks_are_the_bases<M, OTA, OTB, I, S>(
    pre: InputRangeMapObserver<M>,
    post: InputRangeMapObserver<M>,
    first_pre: OTA,
    first_post: OTA,
    second_pre: OTB,
    second_post: OTB,
    r: Result<(), Error>,
) where M: DifferentialObserver<OTA, OTB, I, S> + MapObserver<Entry = u8>
    ensures
        <InputRangeMapObserver<M> as DifferentialObserver<OTA, OTB, I, S>>::pre_observe_first_step(
            pre,
            post,
            first_pre,
            first_post,
            r,
        ) == <M as DifferentialObserver<OTA, OTB, I, S>>::pre_observe_first_step(
            pre.spec_base(),
            post.spec_base(),
            first_pre,
            first_post,
            r,
        ),
        <InputRangeMapObserver<M> as DifferentialObserver<OTA, OTB, I, S>>::post_observe_first_step(
            pre,
            post,
            first_pre,
            first_post,
            r,
        ) == <M as DifferentialObserver<OTA, OTB, I, S>>::post_observe_first_step(
            pre.spec_base(),
            post.spec_base(),
            first_pre,
            first_post,
            r,
        ),
        <InputRangeMapObserver<M> as DifferentialObserver<OTA, OTB, I, S>>::pre_observe_second_step(
            pre,
            post,
            second_pre,
            second_post,
            r,
        ) == <M as DifferentialObserver<OTA, OTB, I, S>>::pre_observe_second_step(
            pre.spec_base(),
            post.spec_base(),
            second_pre,
            second_post,
            r,
        ),
        <InputRangeMapObserver<M> as DifferentialObserver<OTA, OTB, I, S>>::post_observe_second_step(
            pre,
            post,
            second_pre,
            second_post,
            r,
        ) == <M as DifferentialObserver<OTA, OTB, I, S>>::post_observe_second_step(
            pre.spec_base(),
            post.spec_base(),
            second_pre,
            second_post,
            r,
        ),
{
}

/// Cutting the map short and handing it out as a slice are the base's own doing.
pub proof fn law_slices_are_the_bases<M>(
    pre: InputRangeMapObserver<M>,
    post: InputRangeMapObserver<M>,
    new_len: usize,
    slice: Seq<<M as ToSlice>::Item>,
) where M: Truncate + ToSliceMut
    ensures
        <InputRangeMapObserver<M> as Truncate>::items(&pre) == <M as Truncate>::items(
            &pre.spec_base(),
        ),
        <InputRangeMapObserver<M> as Truncate>::truncate_step(pre, post, new_len)
            == <M as Truncate>::truncate_step(pre.spec_base(), post.spec_base(), new_len),
        <InputRangeMapObserver<M> as ToSlice>::slice_view(&pre) == <M as ToSlice>::slice_view(
            &pre.spec_base(),
        ),
        <InputRangeMapObserver<M> as ToSliceMut>::slice_mut_step(pre, post, slice)
            == <M as ToSliceMut>::slice_mut_step(pre.spec_base(), post.spec_base(), slice),
{
}

/// The size of the usable prefix, and writing it or the whole map, are the base's own doing.
pub proof fn law_sizes_are_the_bases<M>(
    pre: InputRangeMapObserver<M>,
    post: InputRangeMapObserver<M>,
    size: usize,
    map: Seq<u8>,
) where M: VarLenMapObserver + MapObserver<Entry = u8>
    ensures
        pre.spec_size() == pre.spec_base().spec_size(),
        <InputRangeMapObserver<M> as VarLenMapObserver>::size_mut_step(pre, post, size)
            == <M as VarLenMapObserver>::size_mut_step(pre.spec_base(), post.spec_base(), size),
        <InputRangeMapObserver<M> as VarLenMapObserver>::map_slice_mut_step(&pre, &post, map)
            == <M as VarLenMapObserver>::map_slice_mut_step(
            &pre.spec_base(),
            &post.spec_base(),
            map,
        ),
{
}

/// Writing the whole map of fixed length is the base's own doing.
pub proof fn law_fixed_map_is_the_bases<M, const N: usize>(
    pre: InputRangeMapObserver<M>,
    post: InputRangeMapObserver<M>,
    map: Seq<u8>,
) where M: ConstLenMapObserver<N> + MapObserver<Entry = u8>
    ensures
        <InputRangeMapObserver<M> as ConstLenMapObserver<N>>::map_slice_mut_step(&pre, &post, map)
            == <M as ConstLenMapObserver<N>>::map_slice_mut_step(
            &pre.spec_base(),
            &post.spec_base(),
            map,
        ),
{
}

} // verus!
