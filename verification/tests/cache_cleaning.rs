use http_cache_server::cache_cleaner::{oldest_first, plan_cleanup, CacheCleaner};
use http_cache_server::cache_manager::CacheManager;
use http_cache_server::cache_strategy::CacheStrategy;

fn entries(items: &[(&str, u64)]) -> Vec<(String, u64)> {
    items.iter().map(|(k, t)| (k.to_string(), *t)).collect()
}

#[test]
fn oldest_first_is_a_stable_sort_by_time() {
    assert_eq!(oldest_first(&vec![30, 10, 20, 10]), vec![1, 3, 2, 0]);
    assert!(oldest_first(&Vec::new()).is_empty());
}

#[test]
fn plan_drops_stale_entries() {
    let e = entries(&[("a", 0), ("b", 900), ("c", 100)]);
    let sizes = vec![Some(10), Some(10), Some(10)];
    // At 1000 with a ttl of 500: "a" and "c" are stale; 10 bytes live fit.
    assert_eq!(plan_cleanup(&e, &sizes, 1000, 500, 100).unwrap(), vec!["a".to_string(), "c".to_string()]);
}

#[test]
fn plan_drops_least_recently_used_while_over_the_limit() {
    let e = entries(&[("new", 900), ("old", 700), ("mid", 800)]);
    let sizes = vec![Some(40), Some(40), Some(40)];
    // All live (ttl 1000), 120 bytes in use, 50 allowed: drop "old", then "mid".
    assert_eq!(plan_cleanup(&e, &sizes, 1000, 1000, 50).unwrap(), vec!["old".to_string(), "mid".to_string()]);
}

#[test]
fn plan_skips_entries_whose_size_is_unknown() {
    let e = entries(&[("a", 100), ("b", 200)]);
    let sizes = vec![None, Some(80)];
    assert_eq!(plan_cleanup(&e, &sizes, 300, 1000, 50).unwrap(), vec!["b".to_string()]);
}

#[test]
fn plan_reports_a_count_below_zero() {
    // "x" is stale and large, so not counted in use, yet taken off in the walk.
    let e = entries(&[("x", 0), ("y", 900)]);
    let sizes = vec![Some(1000), Some(60)];
    assert!(plan_cleanup(&e, &sizes, 1000, 500, 50).is_none());
}

#[test]
fn cleaner_records_and_forgets_accesses() {
    let mut c = CacheCleaner::new(500, 100);
    c.record_access_at("k1", 10);
    c.record_access_at("k2", 20);
    c.record_access_at("k1", 30);
    let mut e = c.entries();
    e.sort();
    assert_eq!(e, vec![("k1".to_string(), 30), ("k2".to_string(), 20)]);
    c.forget("k1");
    assert_eq!(c.entries(), vec![("k2".to_string(), 20)]);
    let plan = c.plan(&c.entries(), &vec![Some(5)], 1000).unwrap();
    assert_eq!(plan, vec!["k2".to_string()]);
}

#[test]
fn strategy_combines_its_three_rules() {
    let mut s = CacheStrategy::new(1000, 100, 2);
    s.record_access("a", 60, 0);
    s.record_access("b", 60, 500);
    s.record_access("b", 0, 600);
    s.record_access("c", 10, 1100);
    s.record_access("c", 0, 1150);
    assert_eq!(s.clean_by_time(1500), vec!["a".to_string()]);
    assert_eq!(s.clean_by_frequency(), vec!["a".to_string()]);
    // 130 bytes in use, 100 allowed: the oldest, "a", frees enough.
    assert_eq!(s.clean_by_size(&vec![Some(60), Some(60), Some(10)]).unwrap(), vec!["a".to_string()]);
    let all = s.keys_to_clean(1500, &vec![Some(60), Some(60), Some(10)]).unwrap();
    assert_eq!(all, vec!["a".to_string()]);
    s.forget("a", 60);
    assert_eq!(s.clean_by_size(&vec![Some(60), Some(10)]).unwrap(), Vec::<String>::new());
}

#[test]
fn manager_makes_room_from_old_entries_only() {
    let mut m = CacheManager::new(100, 1000);
    m.record("a", 50, "video/mp4".to_string(), 0);
    m.record("b", 40, "video/mp4".to_string(), 1900);
    // 90 in use, 30 more needed: "a" is old enough to go, "b" is not.
    assert_eq!(m.plan_space(30, 2000).unwrap(), vec!["a".to_string()]);
    assert_eq!(m.plan_space(5, 2000).unwrap(), Vec::<String>::new());
    assert_eq!(m.touch("b", 2000), Some("video/mp4".to_string()));
    assert_eq!(m.touch("zzz", 2000), None);
    m.forget("a");
    assert_eq!(m.plan_space(30, 2000).unwrap(), Vec::<String>::new());
}
