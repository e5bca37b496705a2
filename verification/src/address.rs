//! The older name of the prefix key.

use vstd::prelude::*;

use crate::routing_prefix::RoutingPrefix;

verus! {

/// An address with its mask length. This is [`RoutingPrefix`] under the name
/// that path listings use.
pub type Address = RoutingPrefix;

} // verus!
