use std::borrow::Cow;
use std::collections::hash_map::DefaultHasher;
use std::hash::{Hash, Hasher};
use std::ops::{Deref, DerefMut};

use range_map::entry::{range_map_record, RANGE_EMPTY};
use range_map::observer::{
    ConstLenMapObserver, DifferentialObserver, ExitKind, HasLen, MapObserver, Named, Observer,
    ToSlice, ToSliceMut, Truncate, VarLenMapObserver,
};
use range_map::range_observer::InputRangeMapObserver;
use range_map::storage::{ConstMapObserver, StdMapObserver};

fn const_observer() -> InputRangeMapObserver<ConstMapObserver<4>> {
    let base = ConstMapObserver::new(Cow::Borrowed("ranges"), [RANGE_EMPTY, 0x85, 0x00, 0x42]);
    InputRangeMapObserver::new(base)
}

fn std_observer() -> InputRangeMapObserver<StdMapObserver> {
    let map = vec![RANGE_EMPTY, 0x85, RANGE_EMPTY, 0x42, 0x11];
    InputRangeMapObserver::new(StdMapObserver::new(Cow::Owned(String::from("std")), map))
}

#[test]
fn ranges_lists_observed_entries() {
    assert_eq!(const_observer().ranges(), vec![(1, 5, 8), (2, 0, 0), (3, 2, 4)]);
    assert_eq!(std_observer().ranges(), vec![(1, 5, 8), (3, 2, 4), (4, 1, 1)]);
}

#[test]
fn initial_is_the_empty_entry() {
    let observer = const_observer();
    assert_eq!(observer.initial(), RANGE_EMPTY);
    assert_eq!(observer.base().initial(), 0);
}

#[test]
fn count_bytes_counts_observed_entries() {
    let observer = const_observer();
    assert_eq!(observer.count_bytes(), 3);
    assert_eq!(observer.count_bytes() as usize, observer.ranges().len());
    // The base counts what differs from 0, its own initial value.
    assert_eq!(observer.base().count_bytes(), 3);
    assert_eq!(std_observer().count_bytes(), 3);
    assert_eq!(std_observer().base().count_bytes(), 5);
}

#[test]
fn how_many_set_skips_empty_and_foreign_indexes() {
    let observer = const_observer();
    assert_eq!(observer.how_many_set(&[0, 1, 2, 3]), 3);
    assert_eq!(observer.how_many_set(&[1, 1, 0, 4, 99]), 2);
    assert_eq!(observer.how_many_set(&[]), 0);
    assert_eq!(observer.base().how_many_set(&[0, 1, 2, 3, 4]), 3);
}

#[test]
fn reset_writes_the_empty_entry() {
    let mut observer = const_observer();
    assert!(observer.reset_map().is_ok());
    assert_eq!(observer.to_vec(), vec![RANGE_EMPTY; 4]);
    assert_eq!(observer.count_bytes(), 0);
    assert!(observer.ranges().is_empty());
    assert!(observer.deref_mut().reset_map().is_ok());
    assert_eq!(observer.to_vec(), vec![0; 4]);
    assert_eq!(observer.name().as_ref(), "ranges");
}

#[test]
fn pre_exec_does_not_delegate_to_the_base() {
    let mut observer = const_observer();
    let mut state = 7u32;
    assert!(observer.pre_exec(&mut state, &"input").is_ok());
    assert_eq!(state, 7);
    assert_eq!(observer.to_vec(), vec![RANGE_EMPTY; 4]);
    let mut base = observer.base().clone();
    assert!(base.pre_exec(&mut state, &"input").is_ok());
    assert_eq!(base.to_vec(), vec![0; 4]);
}

#[test]
fn other_hooks_go_to_the_base() {
    let mut observer = const_observer();
    let before = observer.to_vec();
    let mut state = 1u8;
    assert!(Observer::<(), u8>::flush(&mut observer).is_ok());
    assert!(observer.post_exec(&mut state, &(), &ExitKind::Crash).is_ok());
    let mut first = 2u8;
    let mut second = 3u16;
    type Hooks = InputRangeMapObserver<ConstMapObserver<4>>;
    let o = &mut observer;
    assert!(<Hooks as DifferentialObserver<u8, u16, (), u8>>::pre_observe_first(o, &mut first).is_ok());
    assert!(<Hooks as DifferentialObserver<u8, u16, (), u8>>::post_observe_first(o, &mut first).is_ok());
    assert!(<Hooks as DifferentialObserver<u8, u16, (), u8>>::pre_observe_second(o, &mut second).is_ok());
    assert!(<Hooks as DifferentialObserver<u8, u16, (), u8>>::post_observe_second(o, &mut second).is_ok());
    assert_eq!((state, first, second), (1, 2, 3));
    assert_eq!(observer.to_vec(), before);
}

#[test]
fn get_gives_back_what_set_wrote() {
    let mut observer = const_observer();
    observer.set(2, 0x91);
    assert_eq!(observer.get(2), 0x91);
    assert_eq!(observer.get(1), 0x85);
    assert_eq!(observer.get(3), 0x42);
    assert_eq!(observer.usable_count(), 4);
    assert_eq!(observer.len(), 4);
}

#[test]
fn slices_reach_the_map() {
    let mut observer = const_observer();
    range_map_record(observer.to_slice_mut(), 0, 100);
    range_map_record(ConstLenMapObserver::map_slice_mut(&mut observer), 2, 3);
    assert_eq!(observer.to_slice(), &[0x88, 0x85, 0x30, 0x42]);
    assert_eq!(ConstLenMapObserver::map_slice(&observer), &[0x88, 0x85, 0x30, 0x42]);
    let mut observer = std_observer();
    range_map_record(observer.to_slice_mut(), 0, 0);
    range_map_record(observer.map_slice_mut(), 2, 1);
    assert_eq!(observer.to_slice(), &[0x00, 0x85, 0x11, 0x42, 0x11]);
    assert_eq!(observer.map_slice(), &[0x00, 0x85, 0x11, 0x42, 0x11]);
}

#[test]
fn size_bounds_the_usable_entries() {
    let mut observer = std_observer();
    assert_eq!(*observer.size(), 5);
    *observer.size_mut() = 2;
    assert_eq!(*observer.size(), 2);
    assert_eq!(observer.usable_count(), 2);
    assert_eq!(observer.len(), 5);
    assert_eq!(observer.to_vec(), vec![RANGE_EMPTY, 0x85]);
    assert_eq!(observer.ranges(), vec![(1, 5, 8)]);
    assert_eq!(observer.how_many_set(&[1, 3]), 1);
    assert!(observer.reset_map().is_ok());
    assert_eq!(observer.map_slice(), &[RANGE_EMPTY, RANGE_EMPTY, RANGE_EMPTY, 0x42, 0x11]);
    *observer.size_mut() = 9;
    assert_eq!(observer.usable_count(), 5);
}

#[test]
fn truncate_cuts_the_map() {
    let mut observer = std_observer();
    observer.truncate(9);
    assert_eq!(observer.len(), 5);
    observer.truncate(3);
    assert_eq!(observer.to_slice(), &[RANGE_EMPTY, 0x85, RANGE_EMPTY]);
    assert_eq!(observer.count_bytes(), 1);
}

#[test]
fn references_lead_to_the_observer_and_the_base() {
    let mut observer = const_observer();
    assert_eq!(observer.deref().get(1), 0x85);
    observer.deref_mut().set(1, 0x11);
    assert_eq!(observer.base().get(1), 0x11);
    let same: &InputRangeMapObserver<ConstMapObserver<4>> = observer.as_ref();
    assert_eq!(same.get(1), 0x11);
    let same: &mut InputRangeMapObserver<ConstMapObserver<4>> = observer.as_mut();
    same.set(1, 0x22);
    assert_eq!(observer.get(1), 0x22);
}

fn hash_of<T: Hash>(value: &T) -> u64 {
    let mut hasher = DefaultHasher::new();
    value.hash(&mut hasher);
    hasher.finish()
}

#[test]
fn clones_are_equal() {
    let observer = std_observer();
    let mut copy = observer.clone();
    assert_eq!(copy.to_vec(), observer.to_vec());
    assert_eq!(copy.name(), observer.name());
    assert_eq!(hash_of(&copy), hash_of(&observer));
    copy.set(0, 0x33);
    assert_ne!(hash_of(&copy), hash_of(&observer));
}

#[test]
fn debug_text_shows_decoded_intervals() {
    assert_eq!(
        const_observer().debug_text(),
        "InputRangeMapObserver { name: \"ranges\", ranges: { 1: 5..=8, 2: 0..=0, 3: 2..=4 } }",
    );
    let mut observer = const_observer();
    assert!(observer.reset_map().is_ok());
    assert_eq!(
        observer.debug_text(),
        "InputRangeMapObserver { name: \"ranges\", ranges: { } }",
    );
}

#[test]
fn debug_text_quotes_the_name() {
    let name = "two\nlines \"quoted\"";
    let observer =
        InputRangeMapObserver::new(StdMapObserver::new(Cow::Borrowed(name), vec![0xFA; 1]));
    let expected =
        format!("InputRangeMapObserver {{ name: {:?}, ranges: {{ 0: 10..=15 }} }}", name);
    assert_eq!(observer.debug_text(), expected);
}

#[test]
fn reset_leaves_the_rest_of_the_base_alone() {
    let mut observer = std_observer();
    *observer.size_mut() = 3;
    observer.set(1, 0x66);
    assert!(observer.pre_exec(&mut (), &()).is_ok());
    assert_eq!(observer.map_slice(), &[RANGE_EMPTY, RANGE_EMPTY, RANGE_EMPTY, 0x42, 0x11]);
    assert_eq!(*observer.size(), 3);
    assert_eq!(observer.base().initial(), 0);
    observer.truncate(4);
    assert_eq!(*observer.size(), 3);
    assert_eq!(observer.name().as_ref(), "std");
    assert_eq!(observer.base().initial(), 0);
    assert_eq!(observer.map_slice(), &[RANGE_EMPTY, RANGE_EMPTY, RANGE_EMPTY, 0x42]);
}
