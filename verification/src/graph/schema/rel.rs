//! PFE edge `type` → store relationship name (same string).

use vstd::prelude::*;

verus! {

pub const DEPENDS_ON: &'static str = "depends_on";
pub const MEMBER_OF: &'static str = "member_of";
pub const INTERFACES: &'static str = "interfaces";

} // verus!
