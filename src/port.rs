//! Choosing the next port after a failed bind.

use vstd::prelude::*;

verus! {

/// The port tried after `port` could not be bound: one lower, wrapping from 1 to
/// 65535 (and from 0, which is never bound, to 65535 too).
pub open spec fn port_after(port: u16) -> u16 {
    if port <= 1 {
        u16::MAX
    } else {
        (port - 1) as u16
    }
}

/// The port to try after `port` failed to bind.
pub fn next_port(port: u16) -> (r: u16)
    ensures
        r == port_after(port),
        r != 0,
{
    if port <= 1 {
        u16::MAX
    } else {
        port - 1
    }
}

} // verus!
