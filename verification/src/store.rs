//! The process-wide threshold store: the three limits behind independent
//! read/write locks.
//!
//! One lock per field, so an operator adjusting one threshold never
//! blocks the loop reading another. The locks are verified: a reader
//! always receives a whole, well-formed decimal that some writer stored —
//! never a torn value. A snapshot takes the three read locks one after
//! the other, briefly, so its values may come from slightly different
//! instants when a writer interleaves; that relaxation is deliberate.

use vstd::prelude::*;
use vstd::rwlock::RwLock;
use crate::decimal::Decimal;
use crate::thresholds::Thresholds;

verus! {

/// The invariant each field's lock maintains: only well-formed decimals
/// are ever stored.
pub open spec fn wf_dec() -> spec_fn(Decimal) -> bool {
    |d: Decimal| d.wf()
}

/// The shared store: one verified read/write lock per threshold field.
pub struct ThresholdStore {
    cpu: RwLock<Decimal, spec_fn(Decimal) -> bool>,
    gpu: RwLock<Decimal, spec_fn(Decimal) -> bool>,
    overall: RwLock<Decimal, spec_fn(Decimal) -> bool>,
}

impl ThresholdStore {
    /// Every lock of the store admits exactly the well-formed decimals.
    #[verifier::type_invariant]
    spec fn locks_wf(self) -> bool {
        self.cpu.pred() == wf_dec() && self.gpu.pred() == wf_dec() && self.overall.pred()
            == wf_dec()
    }

    /// Builds the store holding an initial triple, typically what
    /// `load_or_defaults` gave.
    pub fn new_store(initial: Thresholds) -> (s: ThresholdStore)
        requires
            initial.wf(),
    {
        ThresholdStore {
            cpu: RwLock::new(initial.cpu_temp_threshold, Ghost(wf_dec())),
            gpu: RwLock::new(initial.gpu_temp_threshold, Ghost(wf_dec())),
            overall: RwLock::new(initial.overall_temp_threshold, Ghost(wf_dec())),
        }
    }

    /// A snapshot of the three limits: each field is read under its own
    /// read lock, briefly, and comes out whole and well-formed. The three
    /// reads are not atomic together, by design.
    pub fn snapshot(&self) -> (r: Thresholds)
        ensures
            r.wf(),
    {
        proof {
            use_type_invariant(self);
        }
        let cpu_handle = self.cpu.acquire_read();
        let cpu = *cpu_handle.borrow();
        cpu_handle.release_read();
        let gpu_handle = self.gpu.acquire_read();
        let gpu = *gpu_handle.borrow();
        gpu_handle.release_read();
        let overall_handle = self.overall.acquire_read();
        let overall = *overall_handle.borrow();
        overall_handle.release_read();
        Thresholds {
            cpu_temp_threshold: cpu,
            gpu_temp_threshold: gpu,
            overall_temp_threshold: overall,
        }
    }

    /// Overwrites exactly the fields that are given, each under its own
    /// write lock; a field passed `None` is not touched, nor is its lock.
    pub fn update(
        &self,
        new_cpu: Option<Decimal>,
        new_gpu: Option<Decimal>,
        new_overall: Option<Decimal>,
    )
        requires
            new_cpu matches Some(d) ==> d.wf(),
            new_gpu matches Some(d) ==> d.wf(),
            new_overall matches Some(d) ==> d.wf(),
    {
        proof {
            use_type_invariant(self);
        }
        if let Some(c) = new_cpu {
            let (_, write_handle) = self.cpu.acquire_write();
            write_handle.release_write(c);
        }
        if let Some(g) = new_gpu {
            let (_, write_handle) = self.gpu.acquire_write();
            write_handle.release_write(g);
        }
        if let Some(o) = new_overall {
            let (_, write_handle) = self.overall.acquire_write();
            write_handle.release_write(o);
        }
    }
}

} // verus!
