//! Double-fetch detection for shared-memory regions.
//!
//! A region is a watched range of addresses. Each region remembers which of
//! its bytes have been read; reading bytes that are marked as read is a
//! double fetch.
//!
//! - [`span`]: half-open address intervals and how one lies against another.
//! - [`memory_tracking`]: the read ranges of one region, merged when a range
//!   is marked and split when one is cleared.
//! - [`detector`]: the watched regions and the check of each access.
//! - [`laws`]: what holds of marking, clearing and unwatching in general.
//! - [`lemmas`]: how marking and clearing act on spans that are in order.

use vstd::prelude::*;

pub mod detector;
pub mod laws;
pub mod lemmas;
pub mod memory_tracking;
pub mod span;

verus! {

/// A virtual address.
pub type Address = usize;

} // verus!
