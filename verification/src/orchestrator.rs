use vstd::prelude::*;

use crate::cache::{CacheEntry, CacheStore};
use crate::codec::{decode, encode, lemma_encode_generated, spec_encode, spec_generated_encoding};
use crate::descriptor::{generate, ContentDescriptor};
use crate::errors::{CodecError, DistributionError, DownloadError, FetchFailure};

verus! {

/// The tunables of one fetch: chunk geometry, cache lifetime, download
/// parallelism and the per-partition retry budget.
#[derive(Clone, Copy, PartialEq, Eq, Structural, Debug)]
pub struct FetchConfig {
    pub chunk_size: usize,
    pub ttl: i64,
    pub concurrency: usize,
    pub max_attempts: u32,
}

impl FetchConfig {
    /// All tunables are positive.
    pub open spec fn wf(self) -> bool {
        &&& self.chunk_size >= 1
        &&& self.ttl >= 1
        &&& self.concurrency >= 1
        &&& self.max_attempts >= 1
    }
}

/// The states of one fetch session.
#[derive(Clone, Copy, PartialEq, Eq, Structural, Debug)]
pub enum FetchState {
    AwaitCache,
    AwaitOrigin,
    AwaitDistribution,
    Completed,
    Failed(FetchFailure),
}

/// What the driver must do next after a step.
#[derive(Clone, Copy, PartialEq, Eq, Structural, Debug)]
pub enum FetchAction {
    /// Download the content object from the origin, in planned ranges.
    DownloadOrigin,
    /// Hand the session's descriptor to the distribution engine and await it.
    Distribute,
    /// The session is terminal; retire it from the registry.
    Finished,
}

/// The creation timestamp actually written: the clock reading, clamped so
/// that the expiry `ttl` seconds later stays representable.
pub open spec fn spec_clamp_created(now: i64, ttl: i64) -> int {
    if now > i64::MAX - ttl {
        i64::MAX - ttl
    } else {
        now as int
    }
}

/// One fetch session: the per-key state machine that decides between cache
/// hit, origin fallback and distribution, one step per external event.
pub struct FetchSession {
    pub key: String,
    pub config: FetchConfig,
    pub state: FetchState,
    pub from_cache: bool,
    pub descriptor: Option<ContentDescriptor>,
}

impl FetchSession {
    /// A session awaiting distribution holds a well-formed descriptor.
    pub open spec fn wf(self) -> bool {
        &&& self.config.wf()
        &&& (self.state is AwaitDistribution ==> self.descriptor is Some
            && self.descriptor.unwrap().wf())
    }

    /// Open a session; the first step is the cache lookup.
    pub fn start(key: String, config: FetchConfig) -> (s: FetchSession)
        requires
            config.wf(),
        ensures
            s.wf(),
            s.key == key,
            s.config == config,
            s.state == FetchState::AwaitCache,
            s.descriptor is None,
            !s.from_cache,
    {
        FetchSession { key, config, state: FetchState::AwaitCache, from_cache: false, descriptor: None }
    }

    /// Whether the session has reached `Completed` or `Failed`.
    pub fn is_terminal(&self) -> (r: bool)
        ensures
            r == (self.state is Completed || self.state is Failed),
    {
        match self.state {
            FetchState::Completed => true,
            FetchState::Failed(_) => true,
            _ => false,
        }
    }

    /// Consult the cache: a fresh entry whose descriptor decodes goes
    /// straight to distribution; a fresh entry that does not decode fails the
    /// fetch; a missing or stale entry falls back to the origin. The cache is
    /// never written here.
    pub fn cache_step(&mut self, cache: &CacheStore, now: i64) -> (a: FetchAction)
        requires
            old(self).wf(),
            old(self).state == FetchState::AwaitCache,
            cache.wf(),
        ensures
            final(self).wf(),
            final(self).key == old(self).key,
            final(self).config == old(self).config,
            ({
                let m = cache.contents();
                let k = old(self).key@;
                if m.dom().contains(k) && m[k].fresh_at(now) {
                    if exists|d: ContentDescriptor| d.wf() && spec_encode(d) == m[k].descriptor@ {
                        &&& final(self).state == FetchState::AwaitDistribution
                        &&& final(self).from_cache
                        &&& final(self).descriptor is Some
                        &&& spec_encode(final(self).descriptor.unwrap()) == m[k].descriptor@
                        &&& a == FetchAction::Distribute
                    } else {
                        &&& final(self).state == FetchState::Failed(
                            FetchFailure::Codec(CodecError::Malformed),
                        )
                        &&& a == FetchAction::Finished
                    }
                } else {
                    &&& final(self).state == FetchState::AwaitOrigin
                    &&& a == FetchAction::DownloadOrigin
                }
            }),
    {
        let found = cache.lookup_fresh(&self.key, now);
        match found {
            Some(e) => {
                match decode(e.descriptor.as_slice()) {
                    Ok(d) => {
                        self.descriptor = Some(d);
                        self.from_cache = true;
                        self.state = FetchState::AwaitDistribution;
                        FetchAction::Distribute
                    },
                    Err(_) => {
                        self.state = FetchState::Failed(
                            FetchFailure::Codec(CodecError::Malformed),
                        );
                        FetchAction::Finished
                    },
                }
            },
            None => {
                self.state = FetchState::AwaitOrigin;
                FetchAction::DownloadOrigin
            },
        }
    }

    /// Take the origin download's outcome. Success builds the descriptor,
    /// upserts the cache with a `ttl`-second validity window stamped at
    /// `now`, and proceeds to distribution; failure is terminal and leaves
    /// the cache untouched.
    pub fn origin_step(
        &mut self,
        cache: &mut CacheStore,
        result: Result<Vec<u8>, DownloadError>,
        now: i64,
    ) -> (a: FetchAction)
        requires
            old(self).wf(),
            old(self).state == FetchState::AwaitOrigin,
            old(cache).wf(),
            result matches Ok(bytes) ==> bytes@.len() + old(self).config.chunk_size
                <= usize::MAX,
        ensures
            final(self).wf(),
            final(cache).wf(),
            final(self).key == old(self).key,
            final(self).config == old(self).config,
            ({
                let k = old(self).key@;
                let cs = old(self).config.chunk_size as int;
                let ttl = old(self).config.ttl;
                match result {
                    Ok(bytes) => {
                        let created = spec_clamp_created(now, ttl);
                        &&& final(self).state == FetchState::AwaitDistribution
                        &&& !final(self).from_cache
                        &&& final(self).descriptor is Some
                        &&& final(self).descriptor.unwrap().generated_from(bytes@, cs)
                        &&& a == FetchAction::Distribute
                        &&& exists|v: Vec<u8>|
                            v@ == spec_generated_encoding(bytes@, cs) && final(cache).contents()
                                == old(cache).contents().insert(
                                k,
                                (CacheEntry {
                                    descriptor: v,
                                    created_at: created as i64,
                                    expires_at: (created + ttl) as i64,
                                }),
                            )
                    },
                    Err(e) => {
                        &&& final(self).state == FetchState::Failed(FetchFailure::Origin(e))
                        &&& a == FetchAction::Finished
                        &&& *final(cache) == *old(cache)
                    },
                }
            }),
    {
        match result {
            Ok(bytes) => {
                let d = generate(bytes.as_slice(), self.config.chunk_size);
                let enc = encode(&d);
                proof {
                    lemma_encode_generated(d, bytes@, self.config.chunk_size as int);
                }
                let created = if now > i64::MAX - self.config.ttl {
                    i64::MAX - self.config.ttl
                } else {
                    now
                };
                let expires = created + self.config.ttl;
                let _ = cache.upsert(self.key.clone(), enc, created, expires);
                self.descriptor = Some(d);
                self.from_cache = false;
                self.state = FetchState::AwaitDistribution;
                FetchAction::Distribute
            },
            Err(e) => {
                self.state = FetchState::Failed(FetchFailure::Origin(e));
                FetchAction::Finished
            },
        }
    }

    /// Take the distribution engine's outcome. Success completes the fetch.
    /// A failure after a cache hit falls back to the origin exactly once (the
    /// cached descriptor may be unservable); a failure after a fresh origin
    /// fetch is terminal, so no retry loop can arise.
    pub fn distribution_step(&mut self, result: Result<(), DistributionError>) -> (a: FetchAction)
        requires
            old(self).wf(),
            old(self).state == FetchState::AwaitDistribution,
        ensures
            final(self).wf(),
            final(self).key == old(self).key,
            final(self).config == old(self).config,
            (match result {
                Ok(_) => final(self).state == FetchState::Completed && a
                    == FetchAction::Finished,
                Err(e) => if old(self).from_cache {
                    &&& final(self).state == FetchState::AwaitOrigin
                    &&& !final(self).from_cache
                    &&& a == FetchAction::DownloadOrigin
                } else {
                    &&& final(self).state == FetchState::Failed(
                        FetchFailure::Distribution(e),
                    )
                    &&& a == FetchAction::Finished
                },
            }),
    {
        match result {
            Ok(_) => {
                self.state = FetchState::Completed;
                FetchAction::Finished
            },
            Err(e) => {
                if self.from_cache {
                    self.from_cache = false;
                    self.descriptor = None;
                    self.state = FetchState::AwaitOrigin;
                    FetchAction::DownloadOrigin
                } else {
                    self.state = FetchState::Failed(FetchFailure::Distribution(e));
                    FetchAction::Finished
                }
            },
        }
    }
}

} // verus!
