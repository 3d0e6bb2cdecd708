//! The names of the remote protocol's methods.
use vstd::prelude::*;

verus! {

pub const BEVY_QUERY: &'static str = "bevy/query";

pub const BEVY_GET: &'static str = "bevy/get";

pub const BEVY_SPAWN: &'static str = "bevy/spawn";

pub const BEVY_INSERT: &'static str = "bevy/insert";

pub const BEVY_REMOVE: &'static str = "bevy/remove";

pub const BEVY_LIST: &'static str = "bevy/list";

} // verus!
