//! PFE node `type` → store node label (same string).

use vstd::prelude::*;

verus! {

pub const PROBLEM: &'static str = "problem";
pub const CLUSTER: &'static str = "cluster";
pub const COMPONENT: &'static str = "component";
pub const CONTRACT: &'static str = "contract";

} // verus!
