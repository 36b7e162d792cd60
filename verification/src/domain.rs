//! Creating a domain: one writer endpoint and a factory for reader
//! endpoints, sharing one state.

use vstd::prelude::*;
use std::sync::Arc;
use crate::collector::GcHandle;
use crate::collector::GcModel;
use crate::garbage::Bag;
use crate::reader::LocalEpoch;
use crate::state::SharedState;
use crate::state::AUTO_RECLAIM_THRESHOLD;
use crate::state::DEFAULT_CLEANUP_INTERVAL;

verus! {

/// A value that names an automatic-reclamation threshold: a number of
/// records, or `None` for no automatic reclamation.
pub trait IntoThreshold {
    /// The threshold that the value names.
    spec fn threshold(self) -> Option<usize>;

    /// The threshold that the value names.
    fn into_threshold(self) -> (threshold: Option<usize>)
        ensures
            threshold == self.threshold(),
    ;
}

impl IntoThreshold for usize {
    open spec fn threshold(self) -> Option<usize> {
        Some(self)
    }

    fn into_threshold(self) -> (threshold: Option<usize>) {
        Some(self)
    }
}

impl IntoThreshold for Option<usize> {
    open spec fn threshold(self) -> Option<usize> {
        self
    }

    fn into_threshold(self) -> (threshold: Option<usize>) {
        self
    }
}

/// Configuration of a domain before it is built.
pub struct EpochGcDomainBuilder {
    auto_reclaim_threshold: Option<usize>,
    cleanup_interval: usize,
}

impl EpochGcDomainBuilder {
    /// Number of staged records above which the writer collects by itself,
    /// or `None` if it never does.
    pub closed spec fn threshold(&self) -> Option<usize> {
        self.auto_reclaim_threshold
    }

    /// Number of collection cycles between two cleanups of the reader
    /// registry; zero for never.
    pub closed spec fn interval(&self) -> usize {
        self.cleanup_interval
    }

    /// The default configuration: automatic reclamation above 64 staged
    /// records, registry cleanup every 16 cycles.
    pub fn new() -> (builder: Self)
        ensures
            builder.threshold() == Some(AUTO_RECLAIM_THRESHOLD),
            builder.interval() == DEFAULT_CLEANUP_INTERVAL,
    {
        EpochGcDomainBuilder {
            auto_reclaim_threshold: Some(AUTO_RECLAIM_THRESHOLD),
            cleanup_interval: DEFAULT_CLEANUP_INTERVAL,
        }
    }

    /// Sets the number of staged records above which `retire` runs a
    /// collection cycle by itself; `None` switches that off.
    pub fn auto_reclaim_threshold(self, threshold: impl IntoThreshold) -> (builder: Self)
        ensures
            builder.threshold() == threshold.threshold(),
            builder.interval() == self.interval(),
    {
        EpochGcDomainBuilder {
            auto_reclaim_threshold: threshold.into_threshold(),
            cleanup_interval: self.cleanup_interval,
        }
    }

    /// Sets the number of collection cycles between two cleanups of the
    /// reader registry; zero switches the cleanup off.
    pub fn cleanup_interval(self, interval: usize) -> (builder: Self)
        ensures
            builder.threshold() == self.threshold(),
            builder.interval() == interval,
    {
        EpochGcDomainBuilder {
            auto_reclaim_threshold: self.auto_reclaim_threshold,
            cleanup_interval: interval,
        }
    }

    /// Builds the domain: fresh shared state at epoch zero, the writer's
    /// handle with nothing staged, and the factory for readers.
    pub fn build(self) -> (parts: (GcHandle, EpochGcDomain))
        ensures
            parts.0.wf(),
            parts.0.domain() == parts.1.state(),
            parts.0@ == (GcModel {
                garbage: Seq::<Bag>::empty(),
                auto_reclaim_threshold: self.threshold(),
                collection_counter: 0,
                cleanup_interval: self.interval(),
            }),
    {
        let shared = Arc::new(SharedState::new());
        let gc = GcHandle::new(
            Arc::clone(&shared),
            self.auto_reclaim_threshold,
            self.cleanup_interval,
        );
        let domain = EpochGcDomain { shared };
        (gc, domain)
    }
}

impl Default for EpochGcDomainBuilder {
    fn default() -> (builder: Self)
        ensures
            builder.threshold() == Some(AUTO_RECLAIM_THRESHOLD),
            builder.interval() == DEFAULT_CLEANUP_INTERVAL,
    {
        EpochGcDomainBuilder::new()
    }
}

/// The readers' side of a domain. It can be cloned and handed to every
/// thread that reads.
#[derive(Clone)]
pub struct EpochGcDomain {
    shared: Arc<SharedState>,
}

impl EpochGcDomain {
    /// The state that the writer's handle and every reader of the domain
    /// share.
    pub closed spec fn state(&self) -> SharedState {
        *self.shared
    }

    /// A domain with the default configuration, and its writer's handle.
    pub fn new() -> (parts: (GcHandle, Self))
        ensures
            parts.0.wf(),
            parts.0.domain() == parts.1.state(),
            parts.0@ == (GcModel {
                garbage: Seq::<Bag>::empty(),
                auto_reclaim_threshold: Some(AUTO_RECLAIM_THRESHOLD),
                collection_counter: 0,
                cleanup_interval: DEFAULT_CLEANUP_INTERVAL,
            }),
    {
        EpochGcDomain::builder().build()
    }

    /// A builder with the default configuration.
    pub fn builder() -> (builder: EpochGcDomainBuilder)
        ensures
            builder.threshold() == Some(AUTO_RECLAIM_THRESHOLD),
            builder.interval() == DEFAULT_CLEANUP_INTERVAL,
    {
        EpochGcDomainBuilder::new()
    }

    /// Registers a reader and returns its endpoint, which must stay with
    /// the thread that uses it.
    pub fn register_reader(&self) -> (reader: LocalEpoch)
        ensures
            reader.domain() == self.state(),
    {
        LocalEpoch::new(Arc::clone(&self.shared))
    }

    /// Number of reader slots in the registry at this moment. The slot of a
    /// reader that is gone stays counted until a cleanup cycle removes it.
    pub fn reader_count(&self) -> usize {
        let registry = self.shared.registry().lock();
        registry.len()
    }
}

} // verus!
