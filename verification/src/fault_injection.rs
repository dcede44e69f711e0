//! One-shot crash points in the cycle that persists and then sends.
//!
//! A crash point is armed for one stage. The first check at that stage consumes
//! it and says that the node is to stop there; a check at another stage leaves
//! it armed.
use vstd::prelude::*;

verus! {

/// A boundary of the cycle at which a node can be stopped.
#[derive(Clone, Copy, Debug, PartialEq, Eq, Structural)]
pub enum Stage {
    /// Entries and hard state are durable; no message has been sent.
    AfterPersist,
    /// Messages have been sent; nothing has been applied.
    AfterDeliver,
}

/// The stage that is armed, if one is.
#[derive(Clone, Copy, Debug, PartialEq, Eq)]
pub struct CrashPoint {
    pub stage: Option<Stage>,
}

impl CrashPoint {
    /// A crash point that is not armed.
    pub fn new() -> (r: CrashPoint)
        ensures
            r.stage is None,
    {
        CrashPoint { stage: None }
    }
}

/// Arm a one-shot crash at `stage`, in place of any other.
pub fn arm(point: &mut CrashPoint, stage: Stage)
    ensures
        final(point).stage == Some(stage),
{
    point.stage = Some(stage);
}

/// Disarm without a crash.
pub fn disarm(point: &mut CrashPoint)
    ensures
        final(point).stage is None,
{
    point.stage = None;
}

/// Whether a crash is armed.
pub fn armed(point: &CrashPoint) -> (r: bool)
    ensures
        r == point.stage is Some,
{
    point.stage.is_some()
}

/// Whether the node is to stop at this boundary. A hit disarms the point.
pub fn check(point: &mut CrashPoint, stage: Stage) -> (hit: bool)
    ensures
        hit == (old(point).stage == Some(stage)),
        final(point).stage == (if hit {
            None::<Stage>
        } else {
            old(point).stage
        }),
{
    let hit = match point.stage {
        Some(s) => s == stage,
        None => false,
    };
    if hit {
        point.stage = None;
    }
    hit
}

} // verus!
