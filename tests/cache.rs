use file_backed_lfu::cache::{Access, LfuCache, LoadState};
use file_backed_lfu::error::Error;
use file_backed_lfu::frequency::{pick_eviction_candidate, Entry, Tier};

type Res<T> = Result<T, Error<String>>;

fn put(c: &mut LfuCache<u32>, k: u128, v: u32) -> Vec<u128> {
    let r: Res<Vec<u128>> = c.put(k, v);
    r.unwrap()
}

fn get(c: &mut LfuCache<u32>, k: u128) -> Res<Access> {
    c.get(k)
}

#[test]
fn evicts_least_frequent_and_reloads() {
    let (a, b, cc) = (1u128, 2u128, 3u128);
    let mut c: LfuCache<u32> = LfuCache::new(2);
    assert!(put(&mut c, a, 1).is_empty());
    assert!(put(&mut c, b, 2).is_empty());
    assert!(matches!(get(&mut c, a), Ok(Access::Hit)));
    assert!(c.release(a));
    assert_eq!(c.frequency(a), Some(2));
    assert_eq!(c.frequency(b), Some(1));
    let victims = put(&mut c, cc, 3);
    assert_eq!(victims, vec![b]);
    assert_eq!(c.tier(b), Some(Tier::Flushing));
    assert_eq!(c.len(), 2);
    c.finish_flush(b, true);
    assert!(c.is_on_disk(b));
    assert_eq!(c.value(b), None);
    assert!(matches!(get(&mut c, a), Ok(Access::Hit)));
    assert_eq!(c.value(a), Some(&1));
    assert!(matches!(get(&mut c, cc), Ok(Access::Hit)));
    assert_eq!(c.value(cc), Some(&3));
    assert!(c.release(a));
    assert!(c.release(cc));
    assert!(matches!(get(&mut c, b), Ok(Access::Load)));
    let victims = c.complete_load(b, 2);
    assert_eq!(c.value(b), Some(&2));
    assert_eq!(c.frequency(b), Some(1));
    assert_eq!(c.borrow_count(b), Some(1));
    // a has frequency 3, c has 2 and b is borrowed: c goes.
    assert_eq!(victims, vec![cc]);
}

#[test]
fn remove_waits_for_release() {
    let k = 7u128;
    let mut c: LfuCache<u32> = LfuCache::new(4);
    put(&mut c, k, 70);
    assert!(matches!(get(&mut c, k), Ok(Access::Hit)));
    let r: Res<bool> = c.remove(k);
    assert!(matches!(r, Err(Error::Immutable(x)) if x == k));
    assert_eq!(c.value(k), Some(&70));
    assert!(c.release(k));
    let r: Res<bool> = c.remove(k);
    assert!(matches!(r, Ok(false)));
    assert!(matches!(get(&mut c, k), Err(Error::NotFound(x)) if x == k));
}

#[test]
fn put_then_get_returns_value() {
    let mut c: LfuCache<u32> = LfuCache::new(3);
    put(&mut c, 10, 100);
    put(&mut c, 10, 101);
    assert!(matches!(get(&mut c, 10), Ok(Access::Hit)));
    assert_eq!(c.value(10), Some(&101));
    assert_eq!(c.frequency(10), Some(2));
}

#[test]
fn capacity_is_kept_after_puts() {
    let mut c: LfuCache<u32> = LfuCache::new(3);
    for k in 0..10u128 {
        let victims = put(&mut c, k, k as u32);
        assert!(c.len() <= 3);
        for v in victims {
            c.finish_flush(v, true);
        }
    }
    assert_eq!(c.len(), 3);
    assert!(c.is_on_disk(0));
}

#[test]
fn capacity_zero_evicts_every_new_key() {
    let mut c: LfuCache<u32> = LfuCache::new(0);
    assert_eq!(put(&mut c, 1, 1), vec![1]);
    assert_eq!(c.len(), 0);
}

#[test]
fn all_borrowed_overshoots_capacity() {
    let mut c: LfuCache<u32> = LfuCache::new(1);
    put(&mut c, 1, 1);
    assert!(matches!(get(&mut c, 1), Ok(Access::Hit)));
    assert!(matches!(get(&mut c, 1), Ok(Access::Hit)));
    assert_eq!(c.borrow_count(1), Some(2));
    assert_eq!(put(&mut c, 2, 2), vec![2]);
    c.finish_flush(2, true);
    // Entry 1 stays resident with its value while borrowed.
    assert_eq!(c.tier(1), Some(Tier::Memory));
    assert_eq!(c.value(1), Some(&1));
    let r: Res<Vec<u128>> = c.put(1, 9);
    assert!(matches!(r, Err(Error::Immutable(1))));
    assert_eq!(c.value(1), Some(&1));
}

#[test]
fn soft_capacity_when_nothing_eligible() {
    let mut c: LfuCache<u32> = LfuCache::new(1);
    put(&mut c, 1, 1);
    assert!(matches!(get(&mut c, 1), Ok(Access::Hit)));
    put(&mut c, 2, 2);
    c.finish_flush(2, true);
    assert!(matches!(get(&mut c, 2), Ok(Access::Load)));
    let victims = c.complete_load(2, 2);
    assert!(victims.is_empty());
    assert_eq!(c.len(), 2);
}

#[test]
fn candidate_is_least_frequent_then_oldest() {
    let e = |key: u128, freq: u64, borrows: u64, tier: Tier| Entry { key, value: (), freq, borrows, tier };
    let v = vec![
        e(1, 2, 0, Tier::Memory),
        e(2, 1, 1, Tier::Memory),
        e(3, 1, 0, Tier::Flushing),
        e(4, 3, 0, Tier::Memory),
        e(5, 2, 0, Tier::Memory),
    ];
    assert_eq!(pick_eviction_candidate(&v), Some(0));
    let w = vec![e(1, 5, 1, Tier::Memory), e(2, 1, 0, Tier::Flushing)];
    assert_eq!(pick_eviction_candidate(&w), None);
    let empty: Vec<Entry<()>> = Vec::new();
    assert_eq!(pick_eviction_candidate(&empty), None);
}

#[test]
fn tie_goes_to_longest_at_frequency() {
    let mut c: LfuCache<u32> = LfuCache::new(2);
    put(&mut c, 3, 3);
    put(&mut c, 1, 1);
    assert_eq!(put(&mut c, 2, 2), vec![3]);
    c.finish_flush(3, true);
    assert!(matches!(get(&mut c, 2), Ok(Access::Hit)));
    c.release(2);
    assert!(matches!(get(&mut c, 1), Ok(Access::Hit)));
    c.release(1);
    // Both at frequency 2; 2 reached it first. The reloaded 3 is borrowed.
    assert!(matches!(get(&mut c, 3), Ok(Access::Load)));
    assert_eq!(c.complete_load(3, 3), vec![2]);
}

#[test]
fn concurrent_misses_load_once() {
    let mut c: LfuCache<u32> = LfuCache::new(1);
    put(&mut c, 1, 1);
    assert_eq!(put(&mut c, 2, 2), vec![1]);
    c.finish_flush(1, true);
    assert!(matches!(get(&mut c, 1), Ok(Access::Load)));
    assert!(c.is_loading(1));
    assert!(matches!(get(&mut c, 1), Ok(Access::Wait)));
    assert!(matches!(get(&mut c, 1), Ok(Access::Wait)));
    let r: Res<Vec<u128>> = c.put(1, 5);
    assert!(matches!(r, Err(Error::Immutable(1))));
    c.complete_load(1, 1);
    assert!(!c.is_loading(1));
    assert_eq!(c.value(1), Some(&1));
    assert_eq!(c.poll_load(1), LoadState::Ready);
    assert!(matches!(get(&mut c, 1), Ok(Access::Hit)));
    assert_eq!(c.borrow_count(1), Some(2));
}

#[test]
fn failed_load_is_shared_with_waiters() {
    let mut c: LfuCache<u32> = LfuCache::new(1);
    put(&mut c, 1, 1);
    assert_eq!(put(&mut c, 2, 2), vec![1]);
    c.finish_flush(1, true);
    assert!(matches!(get(&mut c, 1), Ok(Access::Load)));
    assert!(matches!(get(&mut c, 1), Ok(Access::Wait)));
    assert!(matches!(get(&mut c, 1), Ok(Access::Wait)));
    assert_eq!(c.poll_load(1), LoadState::Pending);
    c.abort_load(1, false);
    assert!(c.is_on_disk(1));
    // A newcomer did not wait on the failed load: it starts a new one.
    assert!(matches!(get(&mut c, 1), Ok(Access::Load)));
    // The two waiters of the failed load are told first.
    assert_eq!(c.poll_load(1), LoadState::Failed);
    assert_eq!(c.poll_load(1), LoadState::Failed);
    assert_eq!(c.poll_load(1), LoadState::Pending);
    c.complete_load(1, 1);
    assert_eq!(c.poll_load(1), LoadState::Ready);
    assert_eq!(c.value(1), Some(&1));
}

#[test]
fn get_after_remove_with_failure_owed_is_not_found() {
    let mut c: LfuCache<u32> = LfuCache::new(1);
    put(&mut c, 1, 1);
    assert_eq!(put(&mut c, 2, 2), vec![1]);
    c.finish_flush(1, true);
    assert!(matches!(get(&mut c, 1), Ok(Access::Load)));
    assert!(matches!(get(&mut c, 1), Ok(Access::Wait)));
    c.abort_load(1, false);
    let r: Res<bool> = c.remove(1);
    assert!(matches!(r, Ok(true)));
    assert!(matches!(get(&mut c, 1), Err(Error::NotFound(1))));
    assert_eq!(c.poll_load(1), LoadState::Failed);
    assert_eq!(c.poll_load(1), LoadState::Ready);
}

#[test]
fn withdrawn_waiter_is_not_owed_the_failure() {
    let mut c: LfuCache<u32> = LfuCache::new(1);
    put(&mut c, 1, 1);
    assert_eq!(put(&mut c, 2, 2), vec![1]);
    c.finish_flush(1, true);
    assert!(matches!(get(&mut c, 1), Ok(Access::Load)));
    assert!(matches!(get(&mut c, 1), Ok(Access::Wait)));
    assert!(matches!(get(&mut c, 1), Ok(Access::Wait)));
    c.stop_waiting(1);
    c.abort_load(1, false);
    assert_eq!(c.poll_load(1), LoadState::Failed);
    assert_eq!(c.poll_load(1), LoadState::Ready);
}

#[test]
fn load_without_waiters_keeps_no_failure() {
    let mut c: LfuCache<u32> = LfuCache::new(1);
    put(&mut c, 1, 1);
    assert_eq!(put(&mut c, 2, 2), vec![1]);
    c.finish_flush(1, true);
    assert!(matches!(get(&mut c, 1), Ok(Access::Load)));
    c.abort_load(1, false);
    assert!(matches!(get(&mut c, 1), Ok(Access::Load)));
}

#[test]
fn failed_load_of_missing_file() {
    let mut c: LfuCache<u32> = LfuCache::new(1);
    put(&mut c, 1, 1);
    assert_eq!(put(&mut c, 2, 2), vec![1]);
    c.finish_flush(1, true);
    assert!(matches!(get(&mut c, 1), Ok(Access::Load)));
    c.abort_load(1, true);
    assert!(!c.is_loading(1));
    assert!(!c.is_on_disk(1));
    assert!(matches!(get(&mut c, 1), Err(Error::NotFound(1))));
}

#[test]
fn failed_flush_keeps_value() {
    let mut c: LfuCache<u32> = LfuCache::new(1);
    put(&mut c, 1, 1);
    assert_eq!(put(&mut c, 2, 2), vec![1]);
    assert!(matches!(get(&mut c, 1), Err(Error::Immutable(1))));
    c.finish_flush(1, false);
    assert_eq!(c.tier(1), Some(Tier::Memory));
    assert_eq!(c.value(1), Some(&1));
    assert!(!c.is_on_disk(1));
    assert_eq!(c.len(), 2);
}

#[test]
fn remove_from_disk_asks_for_delete() {
    let mut c: LfuCache<u32> = LfuCache::new(1);
    put(&mut c, 1, 1);
    assert_eq!(put(&mut c, 2, 2), vec![1]);
    c.finish_flush(1, true);
    let r: Res<bool> = c.remove(1);
    assert!(matches!(r, Ok(true)));
    assert!(!c.is_on_disk(1));
    let r: Res<bool> = c.remove(1);
    assert!(matches!(r, Err(Error::NotFound(1))));
    c.keep_file(1);
    assert!(c.is_on_disk(1));
}

#[test]
fn release_without_handle_changes_nothing() {
    let mut c: LfuCache<u32> = LfuCache::new(1);
    assert!(!c.release(1));
    put(&mut c, 1, 1);
    assert!(!c.release(1));
    assert_eq!(c.borrow_count(1), Some(0));
    assert_eq!(c.capacity(), 1);
}

#[test]
fn io_error_converts() {
    let e: Error<String> = Error::from(std::io::Error::new(std::io::ErrorKind::Other, "x"));
    assert!(matches!(e, Error::Io(_)));
}
