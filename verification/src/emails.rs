//! The parsed form of one message.

use vstd::prelude::*;

verus! {

/// One parsed message: who wrote to whom, and the body text.
pub struct Email {
    pub from: String,
    pub to: String,
    pub content: String,
}

} // verus!
