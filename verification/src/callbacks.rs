//! Platform services the evaluator may ask for.
use vstd::prelude::*;

verus! {

/// Platform callbacks that answer with safe defaults: no barometric
/// sensor (pressure 0) and no PID values.
#[derive(Debug, Clone, Copy)]
pub struct DefaultPlatformCallbacks;

} // verus!
