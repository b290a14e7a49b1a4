//! The response that a handler fills in.
use crate::string_map::StringMap;
use vstd::prelude::*;

verus! {

/// A response to the host.
pub struct Response {
    pub status_code: u16,
    pub headers: StringMap,
    pub body: Vec<u8>,
}

} // verus!
