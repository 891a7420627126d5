use minisgl_cpu::types::BatchPhase;
use minisgl_cpu::{Batch, CacheManager, CachePrefixMatch, NoopCacheManager, Req, SchedulerPlan};

#[test]
fn noop_cache_manager_handles_non_empty_input() {
    let req = Req::new(1, vec![10, 20, 30], 0, 64);
    let mgr = NoopCacheManager;
    let matched = mgr.match_prefix(&req).expect("prefix match should work");
    assert_eq!(matched.cached_len, 0);
    assert!(matched.indices.is_empty());
}

#[test]
fn noop_cache_manager_rejects_empty_input() {
    let req = Req::new(2, vec![], 0, 8);
    let mgr = NoopCacheManager;
    let err = mgr.match_prefix(&req).expect_err("empty prompt");
    assert!(matches!(err, minisgl_cpu::CacheError::EmptyInput));
}

#[test]
fn scheduler_plan_tracks_batch_uids() {
    let req_a = Req::new(100, vec![1, 2], 0, 5);
    let req_b = Req::new(101, vec![3, 4], 0, 7);
    let batch = Batch::new(vec![req_a, req_b], BatchPhase::Prefill);
    let plan = SchedulerPlan::from_batch(&batch);
    assert_eq!(plan.selected_uids, vec![100, 101]);
    assert_eq!(plan.phase, BatchPhase::Prefill);
}

#[test]
fn noop_cache_manager_works_through_the_trait() {
    fn probe<M: CacheManager>(mgr: &M, req: &Req) -> CachePrefixMatch {
        mgr.match_prefix(req).expect("prefix match should work")
    }
    let req = Req::new(3, vec![7], 0, 1);
    let matched = probe(&NoopCacheManager, &req);
    assert_eq!(matched.cached_len, 0);
}

#[test]
fn size_info_totals_both_pools() {
    let info = minisgl_cpu::SizeInfo { evictable_size: 5, protected_size: 7 };
    assert_eq!(info.total_size(), 12);
}
