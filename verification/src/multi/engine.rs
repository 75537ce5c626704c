//! The decisions of a multi-objective run: whether it can start, and when it stops.

use crate::error::{reason, Error, Result};
use vstd::prelude::*;

verus! {

/// Whether a multi-objective run can start: it needs a stop condition or an abort flag, and a
/// stop condition without a fitness target (a target needs a single objective).
///
/// # Errors
///
/// [`Error::MissingSetting`] for `stop_when` without a stop condition or an abort flag, and
/// [`Error::InvalidSetting`] for `stop_when` when the stop condition has a target.
pub fn check_run(has_stop: bool, has_abort: bool, stop_has_target: bool) -> (r: Result<()>)
    ensures
        r is Ok <==> (has_stop || has_abort) && !(has_stop && stop_has_target),
        r matches Err(e) ==> if !has_stop && !has_abort {
            e.is_missing_setting("stop_when")
        } else {
            e.is_invalid_setting("stop_when")
        },
{
    if !has_stop && !has_abort {
        return Err(Error::MissingSetting { setting: "stop_when" });
    }
    if has_stop && stop_has_target {
        return Err(Error::InvalidSetting {
            setting: "stop_when",
            reason: reason("a target needs a single objective; stop a multi-objective run by generations, evaluations, time, stagnation or a custom condition"),
        });
    }
    Ok(())
}

/// Why a run stops after a generation, if it does: `aborted` when the abort flag is set, and
/// otherwise what the stop condition answers (`None` to go on, or without a stop condition).
pub fn stop_after_generation<R>(aborted: bool, aborted_reason: R, condition: Option<R>) -> (r: Option<R>)
    ensures
        r == (if aborted { Some(aborted_reason) } else { condition }),
{
    if aborted {
        Some(aborted_reason)
    } else {
        condition
    }
}

} // verus!
