//! Map observers that own their map.
use crate::observer::{
    count_set, count_set_at, lemma_count_set_at_step, lemma_count_set_nothing, lemma_count_set_step,
    reset_usable, ConstLenMapObserver, DifferentialObserver, Error, ExitKind, HasLen, MapObserver,
    Named, Observer, ToSlice, ToSliceMut, Truncate, VarLenMapObserver,
};
use std::borrow::Cow;
use vstd::prelude::*;

verus! {

/// Count the first `count` entries that differ from `initial`.
pub(crate) fn count_differing(map: &[u8], count: usize, initial: u8) -> (res: u64)
    requires
        count <= map@.len(),
    ensures
        res == count_set(map@.take(count as int), initial),
{
    let ghost entries = map@.take(count as int);
    let mut res: u64 = 0;
    let mut idx: usize = 0;
    proof {
        lemma_count_set_nothing(entries, initial, Seq::empty());
    }
    while idx < count
        invariant
            idx <= count <= map@.len(),
            entries == map@.take(count as int),
            res == count_set(entries.take(idx as int), initial),
            res <= idx,
        decreases count - idx,
    {
        proof {
            lemma_count_set_step(entries, initial, idx as int);
        }
        if map[idx] != initial {
            res = res + 1;
        }
        idx = idx + 1;
    }
    assert(entries.take(count as int) =~= entries);
    res
}

/// Count the indexes that name one of the first `count` entries which differs from `initial`.
fn count_differing_at(map: &[u8], count: usize, initial: u8, indexes: &[usize]) -> (res: usize)
    requires
        count <= map@.len(),
    ensures
        res == count_set_at(map@.take(count as int), initial, indexes@),
{
    let ghost entries = map@.take(count as int);
    let mut res: usize = 0;
    let mut k: usize = 0;
    proof {
        lemma_count_set_nothing(entries, initial, indexes@);
    }
    while k < indexes.len()
        invariant
            k <= indexes.len(),
            count <= map@.len(),
            entries == map@.take(count as int),
            res == count_set_at(entries, initial, indexes@.take(k as int)),
            res <= k,
        decreases indexes.len() - k,
    {
        proof {
            lemma_count_set_at_step(entries, initial, indexes@, k as int);
        }
        let idx: usize = indexes[k];
        if idx < count && map[idx] != initial {
            res = res + 1;
        }
        k = k + 1;
    }
    assert(indexes@.take(indexes@.len() as int) =~= indexes@);
    res
}

/// Copy the first `count` entries.
fn copy_prefix(map: &[u8], count: usize) -> (res: Vec<u8>)
    requires
        count <= map@.len(),
    ensures
        res@ == map@.take(count as int),
{
    let mut res: Vec<u8> = Vec::new();
    let mut idx: usize = 0;
    while idx < count
        invariant
            idx <= count <= map@.len(),
            res@ =~= map@.take(idx as int),
        decreases count - idx,
    {
        res.push(map[idx]);
        idx = idx + 1;
    }
    res
}

/// Copy a name.
fn copy_name(name: &Cow<'static, str>) -> (copy: Cow<'static, str>)
    ensures
        copy@ == name@,
{
    match name {
        Cow::Borrowed(text) => Cow::Borrowed(*text),
        Cow::Owned(text) => Cow::Owned(text.clone()),
    }
}

/// A map observer over an array of `N` entries, which a reset sets to `0`.
#[derive(Hash)]
pub struct ConstMapObserver<const N: usize> {
    map: [u8; N],
    initial: u8,
    name: Cow<'static, str>,
}

impl<const N: usize> ConstMapObserver<N> {
    /// The map.
    pub closed spec fn spec_map(&self) -> [u8; N] {
        self.map
    }

    /// The entries of the map.
    pub open spec fn map_view(&self) -> Seq<u8> {
        self.spec_map()@
    }

    /// Observe `map` under the name `name`.
    pub fn new(name: Cow<'static, str>, map: [u8; N]) -> (observer: Self)
        ensures
            observer.map_view() == map@,
            observer.spec_initial() == 0,
            observer.spec_name() == name@,
    {
        ConstMapObserver { map, initial: 0, name }
    }
}

impl<const N: usize> Clone for ConstMapObserver<N> {
    fn clone(&self) -> (observer: Self)
        ensures
            observer.map_view() == self.map_view(),
            observer.spec_initial() == self.spec_initial(),
            observer.spec_name() == self.spec_name(),
    {
        ConstMapObserver { map: self.map, initial: self.initial, name: copy_name(&self.name) }
    }
}

impl<const N: usize> Named for ConstMapObserver<N> {
    closed spec fn spec_name(&self) -> Seq<char> {
        self.name@
    }

    fn name(&self) -> (name: &Cow<'static, str>) {
        &self.name
    }
}

impl<const N: usize> HasLen for ConstMapObserver<N> {
    open spec fn spec_len(&self) -> nat {
        self.map_view().len()
    }

    fn len(&self) -> (len: usize) {
        self.map.len()
    }
}

impl<const N: usize> MapObserver for ConstMapObserver<N> {
    type Entry = u8;

    type Settings = (u8, Seq<char>);

    open spec fn storage(&self) -> Seq<u8> {
        self.map_view()
    }

    open spec fn settings(&self) -> (u8, Seq<char>) {
        (self.spec_initial(), self.spec_name())
    }

    open spec fn entries(&self) -> Seq<u8> {
        self.map_view()
    }

    closed spec fn spec_initial(&self) -> u8 {
        self.initial
    }

    open spec fn set_step(pre: &Self, post: &Self, idx: usize, val: u8) -> bool {
        &&& post.map_view() == pre.map_view().update(idx as int, val)
        &&& post.settings() == pre.settings()
    }

    proof fn lemma_entries_are_prefix(&self) {
        assert(self.entries() =~= self.storage().take(self.entries().len() as int));
    }

    fn initial(&self) -> (entry: u8) {
        self.initial
    }

    fn usable_count(&self) -> (count: usize) {
        N
    }

    fn get(&self, idx: usize) -> (entry: u8) {
        self.map[idx]
    }

    fn set(&mut self, idx: usize, val: u8) {
        self.map[idx] = val;
    }

    fn count_bytes(&self) -> (count: u64) {
        assert(self.map@.take(N as int) =~= self.entries());
        count_differing(self.map.as_slice(), self.usable_count(), self.initial)
    }

    fn reset_map(&mut self) -> (r: Result<(), Error>)
        ensures
            r is Ok,
    {
        let count: usize = self.usable_count();
        let mut idx: usize = 0;
        while idx < count
            invariant
                idx <= count,
                count == old(self).entries().len(),
                self.entries().len() == count,
                count <= self.map@.len(),
                self.map@.len() == old(self).map@.len(),
                forall|i: int| 0 <= i < idx ==> self.map@[i] == old(self).initial,
                self.initial == old(self).initial,
                self.name == old(self).name,
            decreases count - idx,
        {
            self.map[idx] = self.initial;
            idx = idx + 1;
        }
        Ok(())
    }

    fn to_vec(&self) -> (entries: Vec<u8>) {
        copy_prefix(self.map.as_slice(), self.usable_count())
    }

    fn how_many_set(&self, indexes: &[usize]) -> (count: usize) {
        assert(self.map@.take(N as int) =~= self.entries());
        count_differing_at(self.map.as_slice(), self.usable_count(), self.initial, indexes)
    }
}

impl<const N: usize> ConstLenMapObserver<N> for ConstMapObserver<N> {
    open spec fn map_slice_mut_step(pre: &Self, post: &Self, map: Seq<u8>) -> bool {
        &&& post.map_view() == map
        &&& post.settings() == pre.settings()
    }

    fn map_slice(&self) -> (map: &[u8; N]) {
        &self.map
    }

    fn map_slice_mut(&mut self) -> (map: &mut [u8; N]) {
        &mut self.map
    }
}

impl<const N: usize> ToSlice for ConstMapObserver<N> {
    type Item = u8;

    open spec fn slice_view(&self) -> Seq<u8> {
        self.map_view()
    }

    fn to_slice(&self) -> (slice: &[u8]) {
        self.map.as_slice()
    }
}

impl<const N: usize> ToSliceMut for ConstMapObserver<N> {
    open spec fn slice_mut_step(pre: Self, post: Self, slice: Seq<u8>) -> bool {
        &&& post.map_view() == slice
        &&& post.settings() == pre.settings()
    }

    fn to_slice_mut(&mut self) -> (slice: &mut [u8]) {
        &mut self.map
    }
}

impl<I, S, const N: usize> Observer<I, S> for ConstMapObserver<N> {
    open spec fn flush_step(pre: Self, post: Self, r: Result<(), Error>) -> bool {
        r is Ok && post == pre
    }

    /// A reset to the initial value.
    open spec fn pre_exec_step(
        pre: Self,
        post: Self,
        state_pre: S,
        state_post: S,
        input: I,
        r: Result<(), Error>,
    ) -> bool {
        &&& r is Ok
        &&& state_post == state_pre
        &&& post.storage() == reset_usable(pre.storage(), pre.entries().len(), pre.spec_initial())
        &&& post.settings() == pre.settings()
    }

    open spec fn post_exec_step(
        pre: Self,
        post: Self,
        state_pre: S,
        state_post: S,
        input: I,
        exit_kind: ExitKind,
        r: Result<(), Error>,
    ) -> bool {
        r is Ok && post == pre && state_post == state_pre
    }

    fn flush(&mut self) -> (r: Result<(), Error>) {
        Ok(())
    }

    fn pre_exec(&mut self, _state: &mut S, _input: &I) -> (r: Result<(), Error>) {
        self.reset_map()
    }

    fn post_exec(&mut self, _state: &mut S, _input: &I, _exit_kind: &ExitKind) -> (r: Result<
        (),
        Error,
    >) {
        Ok(())
    }
}

impl<OTA, OTB, I, S, const N: usize> DifferentialObserver<OTA, OTB, I, S> for ConstMapObserver<N> {
    open spec fn pre_observe_first_step(
        pre: Self,
        post: Self,
        observers_pre: OTA,
        observers_post: OTA,
        r: Result<(), Error>,
    ) -> bool {
        r is Ok && post == pre && observers_post == observers_pre
    }

    open spec fn post_observe_first_step(
        pre: Self,
        post: Self,
        observers_pre: OTA,
        observers_post: OTA,
        r: Result<(), Error>,
    ) -> bool {
        r is Ok && post == pre && observers_post == observers_pre
    }

    open spec fn pre_observe_second_step(
        pre: Self,
        post: Self,
        observers_pre: OTB,
        observers_post: OTB,
        r: Result<(), Error>,
    ) -> bool {
        r is Ok && post == pre && observers_post == observers_pre
    }

    open spec fn post_observe_second_step(
        pre: Self,
        post: Self,
        observers_pre: OTB,
        observers_post: OTB,
        r: Result<(), Error>,
    ) -> bool {
        r is Ok && post == pre && observers_post == observers_pre
    }

    fn pre_observe_first(&mut self, _observers: &mut OTA) -> (r: Result<(), Error>) {
        Ok(())
    }

    fn post_observe_first(&mut self, _observers: &mut OTA) -> (r: Result<(), Error>) {
        Ok(())
    }

    fn pre_observe_second(&mut self, _observers: &mut OTB) -> (r: Result<(), Error>) {
        Ok(())
    }

    fn post_observe_second(&mut self, _observers: &mut OTB) -> (r: Result<(), Error>) {
        Ok(())
    }
}

/// A map observer over a vector of entries, of which a prefix of varying size is usable. A reset
/// sets the usable entries to `0`.
#[derive(Hash)]
pub struct StdMapObserver {
    map: Vec<u8>,
    size: usize,
    initial: u8,
    name: Cow<'static, str>,
}

/// The first `size` entries of a map, or all of them where it is shorter.
pub open spec fn usable_prefix(map: Seq<u8>, size: usize) -> Seq<u8> {
    if size <= map.len() {
        map.take(size as int)
    } else {
        map
    }
}

impl StdMapObserver {
    /// The whole map.
    pub closed spec fn map_view(&self) -> Seq<u8> {
        self.map@
    }

    /// The size of the usable prefix.
    pub closed spec fn size_view(&self) -> usize {
        self.size
    }

    /// Observe the whole of `map` under the name `name`.
    pub fn new(name: Cow<'static, str>, map: Vec<u8>) -> (observer: Self)
        ensures
            observer.map_view() == map@,
            observer.size_view() == map@.len(),
            observer.spec_initial() == 0,
            observer.spec_name() == name@,
    {
        let size: usize = map.len();
        StdMapObserver { map, size, initial: 0, name }
    }
}

impl Clone for StdMapObserver {
    fn clone(&self) -> (observer: Self)
        ensures
            observer.map_view() == self.map_view(),
            observer.size_view() == self.size_view(),
            observer.spec_initial() == self.spec_initial(),
            observer.spec_name() == self.spec_name(),
    {
        StdMapObserver {
            map: copy_prefix(self.map.as_slice(), self.map.len()),
            size: self.size,
            initial: self.initial,
            name: copy_name(&self.name),
        }
    }
}

impl Named for StdMapObserver {
    closed spec fn spec_name(&self) -> Seq<char> {
        self.name@
    }

    fn name(&self) -> (name: &Cow<'static, str>) {
        &self.name
    }
}

impl HasLen for StdMapObserver {
    open spec fn spec_len(&self) -> nat {
        self.map_view().len()
    }

    fn len(&self) -> (len: usize) {
        self.map.len()
    }
}

impl MapObserver for StdMapObserver {
    type Entry = u8;

    type Settings = (usize, u8, Seq<char>);

    open spec fn storage(&self) -> Seq<u8> {
        self.map_view()
    }

    open spec fn settings(&self) -> (usize, u8, Seq<char>) {
        (self.size_view(), self.spec_initial(), self.spec_name())
    }

    open spec fn entries(&self) -> Seq<u8> {
        usable_prefix(self.map_view(), self.size_view())
    }

    closed spec fn spec_initial(&self) -> u8 {
        self.initial
    }

    open spec fn set_step(pre: &Self, post: &Self, idx: usize, val: u8) -> bool {
        &&& post.map_view() == pre.map_view().update(idx as int, val)
        &&& post.settings() == pre.settings()
    }

    proof fn lemma_entries_are_prefix(&self) {
        assert(self.entries() =~= self.storage().take(self.entries().len() as int));
    }

    fn initial(&self) -> (entry: u8) {
        self.initial
    }

    fn usable_count(&self) -> (count: usize) {
        if self.size <= self.map.len() {
            self.size
        } else {
            self.map.len()
        }
    }

    fn get(&self, idx: usize) -> (entry: u8) {
        self.map[idx]
    }

    fn set(&mut self, idx: usize, val: u8) {
        self.map[idx] = val;
    }

    fn count_bytes(&self) -> (count: u64) {
        assert(self.map@.take(self.entries().len() as int) =~= self.entries());
        count_differing(self.map.as_slice(), self.usable_count(), self.initial)
    }

    fn reset_map(&mut self) -> (r: Result<(), Error>)
        ensures
            r is Ok,
    {
        let count: usize = self.usable_count();
        let mut idx: usize = 0;
        while idx < count
            invariant
                idx <= count,
                count == old(self).entries().len(),
                self.entries().len() == count,
                count <= self.map@.len(),
                self.map@.len() == old(self).map@.len(),
                forall|i: int| 0 <= i < idx ==> self.map@[i] == old(self).initial,
                forall|i: int| idx <= i < self.map@.len() ==> self.map@[i] == old(self).map@[i],
                self.initial == old(self).initial,
                self.name == old(self).name,
                self.size == old(self).size,
            decreases count - idx,
        {
            self.map[idx] = self.initial;
            idx = idx + 1;
        }
        Ok(())
    }

    fn to_vec(&self) -> (entries: Vec<u8>) {
        copy_prefix(self.map.as_slice(), self.usable_count())
    }

    fn how_many_set(&self, indexes: &[usize]) -> (count: usize) {
        assert(self.map@.take(self.entries().len() as int) =~= self.entries());
        count_differing_at(self.map.as_slice(), self.usable_count(), self.initial, indexes)
    }
}

impl VarLenMapObserver for StdMapObserver {
    open spec fn spec_size(&self) -> usize {
        self.size_view()
    }

    open spec fn map_slice_mut_step(pre: &Self, post: &Self, map: Seq<u8>) -> bool {
        &&& post.map_view() == map
        &&& post.settings() == pre.settings()
    }

    open spec fn size_mut_step(pre: Self, post: Self, size: usize) -> bool {
        &&& post.map_view() == pre.map_view()
        &&& post.settings() == (size, pre.spec_initial(), pre.spec_name())
    }

    proof fn lemma_usable_prefix(&self) {
    }

    proof fn lemma_size_is_a_setting(&self, other: &Self) {
    }

    fn map_slice(&self) -> (map: &[u8]) {
        self.map.as_slice()
    }

    fn map_slice_mut(&mut self) -> (map: &mut [u8]) {
        self.map.as_mut_slice()
    }

    fn size(&self) -> (size: &usize) {
        &self.size
    }

    fn size_mut(&mut self) -> (size: &mut usize) {
        &mut self.size
    }
}

impl Truncate for StdMapObserver {
    type Item = u8;

    open spec fn items(&self) -> Seq<u8> {
        self.map_view()
    }

    open spec fn truncate_step(pre: Self, post: Self, new_len: usize) -> bool {
        &&& post.map_view() == if new_len < pre.map_view().len() {
            pre.map_view().take(new_len as int)
        } else {
            pre.map_view()
        }
        &&& post.settings() == pre.settings()
    }

    fn truncate(&mut self, new_len: usize) {
        self.map.truncate(new_len);
    }
}

impl ToSlice for StdMapObserver {
    type Item = u8;

    open spec fn slice_view(&self) -> Seq<u8> {
        self.map_view()
    }

    fn to_slice(&self) -> (slice: &[u8]) {
        self.map.as_slice()
    }
}

impl ToSliceMut for StdMapObserver {
    open spec fn slice_mut_step(pre: Self, post: Self, slice: Seq<u8>) -> bool {
        &&& post.map_view() == slice
        &&& post.settings() == pre.settings()
    }

    fn to_slice_mut(&mut self) -> (slice: &mut [u8]) {
        self.map.as_mut_slice()
    }
}

impl<I, S> Observer<I, S> for StdMapObserver {
    open spec fn flush_step(pre: Self, post: Self, r: Result<(), Error>) -> bool {
        r is Ok && post == pre
    }

    /// A reset to the initial value.
    open spec fn pre_exec_step(
        pre: Self,
        post: Self,
        state_pre: S,
        state_post: S,
        input: I,
        r: Result<(), Error>,
    ) -> bool {
        &&& r is Ok
        &&& state_post == state_pre
        &&& post.storage() == reset_usable(pre.storage(), pre.entries().len(), pre.spec_initial())
        &&& post.settings() == pre.settings()
    }

    open spec fn post_exec_step(
        pre: Self,
        post: Self,
        state_pre: S,
        state_post: S,
        input: I,
        exit_kind: ExitKind,
        r: Result<(), Error>,
    ) -> bool {
        r is Ok && post == pre && state_post == state_pre
    }

    fn flush(&mut self) -> (r: Result<(), Error>) {
        Ok(())
    }

    fn pre_exec(&mut self, _state: &mut S, _input: &I) -> (r: Result<(), Error>) {
        self.reset_map()
    }

    fn post_exec(&mut self, _state: &mut S, _input: &I, _exit_kind: &ExitKind) -> (r: Result<
        (),
        Error,
    >) {
        Ok(())
    }
}

impl<OTA, OTB, I, S> DifferentialObserver<OTA, OTB, I, S> for StdMapObserver {
    open spec fn pre_observe_first_step(
        pre: Self,
        post: Self,
        observers_pre: OTA,
        observers_post: OTA,
        r: Result<(), Error>,
    ) -> bool {
        r is Ok && post == pre && observers_post == observers_pre
    }

    open spec fn post_observe_first_step(
        pre: Self,
        post: Self,
        observers_pre: OTA,
        observers_post: OTA,
        r: Result<(), Error>,
    ) -> bool {
        r is Ok && post == pre && observers_post == observers_pre
    }

    open spec fn pre_observe_second_step(
        pre: Self,
        post: Self,
        observers_pre: OTB,
        observers_post: OTB,
        r: Result<(), Error>,
    ) -> bool {
        r is Ok && post == pre && observers_post == observers_pre
    }

    open spec fn post_observe_second_step(
        pre: Self,
        post: Self,
        observers_pre: OTB,
        observers_post: OTB,
        r: Result<(), Error>,
    ) -> bool {
        r is Ok && post == pre && observers_post == observers_pre
    }

    fn pre_observe_first(&mut self, _observers: &mut OTA) -> (r: Result<(), Error>) {
        Ok(())
    }

    fn post_observe_first(&mut self, _observers: &mut OTA) -> (r: Result<(), Error>) {
        Ok(())
    }

    fn pre_observe_second(&mut self, _observers: &mut OTB) -> (r: Result<(), Error>) {
        Ok(())
    }

    fn post_observe_second(&mut self, _observers: &mut OTB) -> (r: Result<(), Error>) {
        Ok(())
    }
}

/// The usable entries of a vector are as many as its size says, or all where it is shorter, and
/// each is the one at its own place.
pub proof fn law_usable_is_the_front(map: Seq<u8>, size: usize)
    ensures
        usable_prefix(map, size).len() == if map.len() < size {
            map.len()
        } else {
            size as nat
        },
        forall|i: int|
            0 <= i < usable_prefix(map, size).len() ==> #[trigger] usable_prefix(map, size)[i]
                == map[i],
{
}


/// What is done to an array observer: a flush and the hook after an execution change nothing, the
/// hook before it writes the initial value into every entry, and a single write changes its entry
/// alone.
pub proof fn law_const_map_steps<I, S, const N: usize>(
    pre: ConstMapObserver<N>,
    post: ConstMapObserver<N>,
    state_pre: S,
    state_post: S,
    input: I,
    exit_kind: ExitKind,
    idx: usize,
    val: u8,
    r: Result<(), Error>,
)
    ensures
        <ConstMapObserver<N> as Observer<I, S>>::flush_step(pre, post, r) ==> r is Ok && post == pre,
        <ConstMapObserver<N> as Observer<I, S>>::post_exec_step(
            pre,
            post,
            state_pre,
            state_post,
            input,
            exit_kind,
            r,
        ) ==> r is Ok && post == pre && state_post == state_pre,
        <ConstMapObserver<N> as Observer<I, S>>::pre_exec_step(
            pre,
            post,
            state_pre,
            state_post,
            input,
            r,
        ) ==> {
            &&& r is Ok
            &&& state_post == state_pre
            &&& post.storage().len() == pre.storage().len()
            &&& forall|i: int|
                0 <= i < pre.entries().len() ==> #[trigger] post.storage()[i] == pre.spec_initial()
            &&& forall|i: int|
                pre.entries().len() <= i < pre.storage().len() ==> #[trigger] post.storage()[i]
                    == pre.storage()[i]
            &&& post.spec_initial() == pre.spec_initial()
            &&& post.spec_name() == pre.spec_name()
        },
        idx < pre.entries().len() && <ConstMapObserver<N> as MapObserver>::set_step(&pre, &post, idx, val) ==> {
            &&& post.entries().len() == pre.entries().len()
            &&& post.entries()[idx as int] == val
            &&& forall|i: int|
                0 <= i < pre.storage().len() && i != idx ==> #[trigger] post.storage()[i]
                    == pre.storage()[i]
            &&& post.spec_initial() == pre.spec_initial()
            &&& post.spec_name() == pre.spec_name()
        },
{
}


/// What is done to a vector observer: a flush and the hook after an execution change nothing, the
/// hook before it writes the initial value into the usable entries alone, and a single write
/// changes its entry alone.
pub proof fn law_std_map_steps<I, S>(
    pre: StdMapObserver,
    post: StdMapObserver,
    state_pre: S,
    state_post: S,
    input: I,
    exit_kind: ExitKind,
    idx: usize,
    val: u8,
    r: Result<(), Error>,
)
    ensures
        <StdMapObserver as Observer<I, S>>::flush_step(pre, post, r) ==> r is Ok && post == pre,
        <StdMapObserver as Observer<I, S>>::post_exec_step(
            pre,
            post,
            state_pre,
            state_post,
            input,
            exit_kind,
            r,
        ) ==> r is Ok && post == pre && state_post == state_pre,
        <StdMapObserver as Observer<I, S>>::pre_exec_step(
            pre,
            post,
            state_pre,
            state_post,
            input,
            r,
        ) ==> {
            &&& r is Ok
            &&& state_post == state_pre
            &&& post.storage().len() == pre.storage().len()
            &&& forall|i: int|
                0 <= i < pre.entries().len() ==> #[trigger] post.storage()[i] == pre.spec_initial()
            &&& forall|i: int|
                pre.entries().len() <= i < pre.storage().len() ==> #[trigger] post.storage()[i]
                    == pre.storage()[i]
            &&& post.spec_initial() == pre.spec_initial()
            &&& post.spec_name() == pre.spec_name()
        },
        idx < pre.entries().len() && <StdMapObserver as MapObserver>::set_step(&pre, &post, idx, val) ==> {
            &&& post.entries().len() == pre.entries().len()
            &&& post.entries()[idx as int] == val
            &&& forall|i: int|
                0 <= i < pre.storage().len() && i != idx ==> #[trigger] post.storage()[i]
                    == pre.storage()[i]
            &&& post.spec_initial() == pre.spec_initial()
            &&& post.spec_name() == pre.spec_name()
        },
{
}

/// Around two executors that run side by side an array observer changes nothing.
pub proof fn law_const_map_ignores_pairs<OTA, OTB, I, S, const N: usize>(
    pre: ConstMapObserver<N>,
    post: ConstMapObserver<N>,
    first_pre: OTA,
    first_post: OTA,
    second_pre: OTB,
    second_post: OTB,
    r: Result<(), Error>,
)
    ensures
        <ConstMapObserver<N> as DifferentialObserver<OTA, OTB, I, S>>::pre_observe_first_step(
            pre,
            post,
            first_pre,
            first_post,
            r,
        ) ==> r is Ok && post == pre && first_post == first_pre,
        <ConstMapObserver<N> as DifferentialObserver<OTA, OTB, I, S>>::post_observe_first_step(
            pre,
            post,
            first_pre,
            first_post,
            r,
        ) ==> r is Ok && post == pre && first_post == first_pre,
        <ConstMapObserver<N> as DifferentialObserver<OTA, OTB, I, S>>::pre_observe_second_step(
            pre,
            post,
            second_pre,
            second_post,
            r,
        ) ==> r is Ok && post == pre && second_post == second_pre,
        <ConstMapObserver<N> as DifferentialObserver<OTA, OTB, I, S>>::post_observe_second_step(
            pre,
            post,
            second_pre,
            second_post,
            r,
        ) ==> r is Ok && post == pre && second_post == second_pre,
{
}

/// Around two executors that run side by side a vector observer changes nothing.
pub proof fn law_std_map_ignores_pairs<OTA, OTB, I, S>(
    pre: StdMapObserver,
    post: StdMapObserver,
    first_pre: OTA,
    first_post: OTA,
    second_pre: OTB,
    second_post: OTB,
    r: Result<(), Error>,
)
    ensures
        <StdMapObserver as DifferentialObserver<OTA, OTB, I, S>>::pre_observe_first_step(
            pre,
            post,
            first_pre,
            first_post,
            r,
        ) ==> r is Ok && post == pre && first_post == first_pre,
        <StdMapObserver as DifferentialObserver<OTA, OTB, I, S>>::post_observe_first_step(
            pre,
            post,
            first_pre,
            first_post,
            r,
        ) ==> r is Ok && post == pre && first_post == first_pre,
        <StdMapObserver as DifferentialObserver<OTA, OTB, I, S>>::pre_observe_second_step(
            pre,
            post,
            second_pre,
            second_post,
            r,
        ) ==> r is Ok && post == pre && second_post == second_pre,
        <StdMapObserver as DifferentialObserver<OTA, OTB, I, S>>::post_observe_second_step(
            pre,
            post,
            second_pre,
            second_post,
            r,
        ) ==> r is Ok && post == pre && second_post == second_pre,
{
}

/// What a vector observer hands out: cutting the map short keeps its front, writing the map or
/// the size changes that alone, and none of it touches the initial value or the name.
pub proof fn law_std_map_handouts(
    pre: StdMapObserver,
    post: StdMapObserver,
    new_len: usize,
    map: Seq<u8>,
)
    ensures
        <StdMapObserver as Truncate>::truncate_step(pre, post, new_len) ==> {
            &&& post.storage().len() == new_len || (post.storage().len() == pre.storage().len()
                && post.storage().len() < new_len)
            &&& forall|i: int|
                0 <= i < post.storage().len() ==> #[trigger] post.storage()[i] == pre.storage()[i]
            &&& post.spec_size() == pre.spec_size()
            &&& post.spec_initial() == pre.spec_initial()
            &&& post.spec_name() == pre.spec_name()
        },
        <StdMapObserver as ToSliceMut>::slice_mut_step(pre, post, map) ==> {
            &&& post.storage() == map
            &&& post.spec_size() == pre.spec_size()
            &&& post.spec_initial() == pre.spec_initial()
            &&& post.spec_name() == pre.spec_name()
        },
        <StdMapObserver as VarLenMapObserver>::map_slice_mut_step(&pre, &post, map) ==> {
            &&& post.storage() == map
            &&& post.spec_size() == pre.spec_size()
            &&& post.spec_initial() == pre.spec_initial()
            &&& post.spec_name() == pre.spec_name()
        },
        <StdMapObserver as VarLenMapObserver>::size_mut_step(pre, post, new_len) ==> {
            &&& post.storage() == pre.storage()
            &&& post.spec_size() == new_len
            &&& post.spec_initial() == pre.spec_initial()
            &&& post.spec_name() == pre.spec_name()
        },
{
}

/// What an array observer hands out: writing the map changes that alone.
pub proof fn law_const_map_handouts<const N: usize>(
    pre: ConstMapObserver<N>,
    post: ConstMapObserver<N>,
    map: Seq<u8>,
)
    ensures
        <ConstMapObserver<N> as ToSliceMut>::slice_mut_step(pre, post, map)
            || <ConstMapObserver<N> as ConstLenMapObserver<N>>::map_slice_mut_step(&pre, &post, map)
            ==> {
            &&& post.storage() == map
            &&& post.entries() == map
            &&& post.spec_initial() == pre.spec_initial()
            &&& post.spec_name() == pre.spec_name()
        },
{
}

} // verus!
