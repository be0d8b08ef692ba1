//! Core of a keyboard-firmware configuration daemon.
//!
//! The daemon owns privileged access to keyboard embedded controllers over
//! two transports (USB HID and an internal bus) and exposes that access to an
//! unprivileged peer through a narrow, line-oriented command protocol.  This
//! crate holds the verified logic: the color model, the wire codec for the
//! command protocol, the dispatcher, the board registry with its hot-plug
//! reconciliation, the per-layer LED state cache, and an in-memory board set
//! for offline use.  Hardware access and process plumbing live outside it.

pub mod codec;
pub mod color;
pub mod dummy;
pub mod hex;
pub mod layer;
pub mod protocol;
pub mod registry;
pub mod server;

use vstd::prelude::*;

verus! {

/// Session-scoped opaque identifier of one discovered board.  Generated
/// fresh each time a physical device is recognized; never persisted and
/// never reused for a different device within one run of the daemon.
#[derive(Clone, Copy, PartialEq, Eq, Structural, Debug, Hash, PartialOrd, Ord)]
pub struct BoardId(pub u128);

} // verus!
