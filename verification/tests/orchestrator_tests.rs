use cdn_client::cache::CacheStore;
use cdn_client::errors::{CodecError, DistributionError, DownloadError, FetchFailure};
use cdn_client::orchestrator::{FetchAction, FetchConfig, FetchSession, FetchState};
use cdn_client::singleflight::{Admission, SessionRegistry};

fn config() -> FetchConfig {
    FetchConfig { chunk_size: 1_500_000, ttl: 3600, concurrency: 4, max_attempts: 3 }
}

fn patterned(len: usize) -> Vec<u8> {
    let mut v = Vec::with_capacity(len);
    for i in 0..len {
        v.push((i % 241) as u8);
    }
    v
}

#[test]
fn end_to_end_miss_then_hit() {
    let key = String::from("video-1");
    let mut cache = CacheStore::new();
    let mut reg = SessionRegistry::new();

    // first fetch: fresh miss
    assert_eq!(reg.begin(&key), Admission::Owner);
    let mut s = FetchSession::start(key.clone(), config());
    let a = s.cache_step(&cache, 1000);
    assert_eq!(a, FetchAction::DownloadOrigin);

    // origin download of the six-megabyte object
    let content = patterned(6_000_000);
    let a = s.origin_step(&mut cache, Ok(content), 1000);
    assert_eq!(a, FetchAction::Distribute);
    let d = s.descriptor.as_ref().expect("descriptor built");
    assert_eq!(d.chunks.len(), 4);
    assert_eq!(d.total_length, 6_000_000);

    // cache populated with a 3600-second window
    let e = cache.lookup(&key).expect("cache populated");
    assert_eq!(e.created_at, 1000);
    assert_eq!(e.expires_at, 4600);

    // distribution completes; the session is terminal and retires
    let a = s.distribution_step(Ok(()));
    assert_eq!(a, FetchAction::Finished);
    assert_eq!(s.state, FetchState::Completed);
    assert!(s.is_terminal());
    reg.finish(&key);

    // second fetch within the window: the cache hit skips origin entirely
    assert_eq!(reg.begin(&key), Admission::Owner);
    let mut s2 = FetchSession::start(key.clone(), config());
    let a = s2.cache_step(&cache, 2000);
    assert_eq!(a, FetchAction::Distribute);
    assert_eq!(s2.state, FetchState::AwaitDistribution);
    let d2 = s2.descriptor.as_ref().expect("descriptor decoded from cache");
    assert_eq!(d2.chunks.len(), 4);
    assert_eq!(d2.total_length, 6_000_000);
    let a = s2.distribution_step(Ok(()));
    assert_eq!(a, FetchAction::Finished);
    assert_eq!(s2.state, FetchState::Completed);
    reg.finish(&key);
}

#[test]
fn expired_entry_goes_to_origin() {
    let key = String::from("video-1");
    let mut cache = CacheStore::new();
    let mut s = FetchSession::start(key.clone(), config());
    let content = patterned(10);
    let a = s.cache_step(&cache, 1000);
    assert_eq!(a, FetchAction::DownloadOrigin);
    s.origin_step(&mut cache, Ok(content), 1000);

    // after the window has passed, the entry is stale: origin again
    let mut s2 = FetchSession::start(key.clone(), config());
    let a = s2.cache_step(&cache, 1000 + 3601);
    assert_eq!(a, FetchAction::DownloadOrigin);
}

#[test]
fn origin_failure_is_terminal() {
    let key = String::from("video-1");
    let mut cache = CacheStore::new();
    let mut s = FetchSession::start(key.clone(), config());
    assert_eq!(s.cache_step(&cache, 1000), FetchAction::DownloadOrigin);
    let a = s.origin_step(&mut cache, Err(DownloadError::LengthUnknown), 1000);
    assert_eq!(a, FetchAction::Finished);
    assert_eq!(s.state, FetchState::Failed(FetchFailure::Origin(DownloadError::LengthUnknown)));
    // a failed origin fetch leaves no cache entry behind
    assert!(cache.lookup(&key).is_none());
}

#[test]
fn distribution_failure_after_hit_falls_back_once() {
    let key = String::from("video-1");
    let mut cache = CacheStore::new();

    // seed the cache through a first successful fetch
    let mut s0 = FetchSession::start(key.clone(), config());
    s0.cache_step(&cache, 1000);
    s0.origin_step(&mut cache, Ok(patterned(100)), 1000);
    s0.distribution_step(Ok(()));

    // a later fetch hits the cache, but the swarm fails
    let mut s = FetchSession::start(key.clone(), config());
    assert_eq!(s.cache_step(&cache, 1500), FetchAction::Distribute);
    let a = s.distribution_step(Err(DistributionError::SwarmFailure));
    // one fallback to origin: the cached descriptor may be unservable
    assert_eq!(a, FetchAction::DownloadOrigin);
    assert_eq!(s.state, FetchState::AwaitOrigin);

    // the refetched content distributes, but the swarm fails again:
    // terminal now, so no retry loop can arise
    assert_eq!(s.origin_step(&mut cache, Ok(patterned(100)), 1600), FetchAction::Distribute);
    let a = s.distribution_step(Err(DistributionError::Timeout));
    assert_eq!(a, FetchAction::Finished);
    assert_eq!(
        s.state,
        FetchState::Failed(FetchFailure::Distribution(DistributionError::Timeout))
    );
}

#[test]
fn corrupt_cached_descriptor_fails_the_fetch() {
    let key = String::from("video-1");
    let mut cache = CacheStore::new();
    cache.upsert(key.clone(), vec![0xde, 0xad], 1000, 5000).unwrap();
    let mut s = FetchSession::start(key.clone(), config());
    let a = s.cache_step(&cache, 1500);
    assert_eq!(a, FetchAction::Finished);
    assert_eq!(s.state, FetchState::Failed(FetchFailure::Codec(CodecError::Malformed)));
}

#[test]
fn clock_clamp_keeps_window_representable() {
    let key = String::from("video-1");
    let mut cache = CacheStore::new();
    let mut s = FetchSession::start(key.clone(), config());
    s.cache_step(&cache, i64::MAX);
    s.origin_step(&mut cache, Ok(patterned(10)), i64::MAX);
    let e = cache.lookup(&key).expect("cache populated");
    assert_eq!(e.created_at, i64::MAX - 3600);
    assert_eq!(e.expires_at, i64::MAX);
}
