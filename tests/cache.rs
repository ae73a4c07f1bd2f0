use std::cell::Cell;
use std::sync::Arc;

use surfer_cxxrtl::cache::CachedData;

#[test]
fn empty_cell_has_no_value() {
    let c: CachedData<u32> = CachedData::empty();
    assert!(c.get().is_none());
    assert!(c.is_uncached());
}

#[test]
fn overlapping_fetches_issue_one_request() {
    let calls = Cell::new(0u32);
    let mut c: CachedData<u32> = CachedData::empty();
    let first = c.fetch_if_needed(|| calls.set(calls.get() + 1));
    let second = c.fetch_if_needed(|| calls.set(calls.get() + 1));
    assert_eq!(calls.get(), 1);
    assert!(first.is_none());
    assert!(second.is_none());
    assert!(matches!(c, CachedData::Waiting { prev: None }));
}

#[test]
fn invalidate_keeps_last_value() {
    let c = CachedData::filled(7u32);
    let u = c.make_uncached();
    assert_eq!(u.get().map(|v| *v), Some(7));
    assert!(u.is_uncached());
    let calls = Cell::new(0u32);
    let mut u = u;
    let r = u.fetch_if_needed(|| calls.set(calls.get() + 1));
    assert_eq!(r.map(|v| *v), Some(7));
    assert_eq!(calls.get(), 1);
    assert_eq!(u.get().map(|v| *v), Some(7));
}

#[test]
fn filled_value_is_served_until_invalidated() {
    let calls = Cell::new(0u32);
    let mut c = CachedData::filled(String::from("v"));
    for _ in 0..3 {
        let r = c.fetch_if_needed(|| calls.set(calls.get() + 1));
        assert_eq!(r.as_deref().map(|s| s.as_str()), Some("v"));
    }
    assert_eq!(calls.get(), 0);
    let shared = c.share();
    match (&c, &shared) {
        (CachedData::Filled(a), CachedData::Filled(b)) => assert!(Arc::ptr_eq(a, b)),
        _ => panic!("cell should stay filled"),
    }
}
