//! Enforcers put an allocation plan into effect on the switches.

use vstd::prelude::*;

verus! {

/// An enforcer that accepts every plan and changes nothing, for controllers without
/// switch access.
#[derive(Debug, Default, Clone, Copy)]
pub struct MockSwitchEnforcer;

} // verus!
