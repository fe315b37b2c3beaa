//! The per-cycle alerting decision of the monitor loop.
//!
//! The loop itself — fetch, decide, dispatch, sleep one second, repeat —
//! runs outside the library; each cycle it hands the fetch outcome and
//! the current thresholds to `evaluate_cycle` and dispatches one alert
//! per metric the decision marks. The decision is stateless: it looks at
//! nothing but this cycle's readings and thresholds, so a sustained
//! excess alerts again on every cycle, with no suppression, and a failed
//! fetch merely yields a cycle with no alerts.

use vstd::prelude::*;
use crate::decimal::Decimal;
use crate::source::FetchError;
use crate::thresholds::Thresholds;

verus! {

/// Which alerts one cycle dispatches.
#[derive(Clone, Copy, Debug, PartialEq, Eq, Structural)]
pub struct CycleDecision {
    pub cpu_alert: bool,
    pub gpu_alert: bool,
}

/// What one cycle decides: nothing on a failed fetch; otherwise an alert
/// for each metric whose reading is present and exceeds its threshold,
/// the two checks independent of each other.
pub open spec fn spec_evaluate_cycle(
    fetch: Result<(Option<Decimal>, Option<Decimal>), FetchError>,
    t: Thresholds,
) -> CycleDecision {
    match fetch {
        Err(_) => CycleDecision { cpu_alert: false, gpu_alert: false },
        Ok(p) => CycleDecision {
            cpu_alert: (p.0 matches Some(v) && t.cpu_temp_threshold.spec_lt(v)),
            gpu_alert: (p.1 matches Some(v) && t.gpu_temp_threshold.spec_lt(v)),
        },
    }
}

/// Decides one cycle. A `FetchError` degrades the cycle to "no alert",
/// never to a fault; a present reading strictly above its threshold
/// raises that metric's alert, and both may fire in the same cycle. The
/// overall threshold is stored and exposed but not evaluated here.
pub fn evaluate_cycle(
    fetch: &Result<(Option<Decimal>, Option<Decimal>), FetchError>,
    t: &Thresholds,
) -> (r: CycleDecision)
    requires
        t.wf(),
        fetch matches Ok(p) ==> (p.0 matches Some(d) ==> d.wf()) && (p.1 matches Some(d)
            ==> d.wf()),
    ensures
        r == spec_evaluate_cycle(*fetch, *t),
        fetch is Err ==> !r.cpu_alert && !r.gpu_alert,
{
    match fetch {
        Err(_) => CycleDecision { cpu_alert: false, gpu_alert: false },
        Ok(p) => {
            let cpu_alert = match &p.0 {
                Some(v) => v.gt(&t.cpu_temp_threshold),
                None => false,
            };
            let gpu_alert = match &p.1 {
                Some(v) => v.gt(&t.gpu_temp_threshold),
                None => false,
            };
            CycleDecision { cpu_alert, gpu_alert }
        },
    }
}

} // verus!
