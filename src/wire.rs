//! The values exchanged with a message transport.
use std::collections::BTreeMap;

use vstd::prelude::*;

verus! {

/// Types that can be shared between threads.
pub trait ThreadSafe: Send + Sync {}

impl<T: Send + Sync> ThreadSafe for T {}

/// A message as it travels on the wire: headers, payload bytes, and the
/// optional correlation id and content type.
#[derive(Debug, Clone)]
pub struct WireMessage {
    pub headers: BTreeMap<String, String>,
    pub payload: Vec<u8>,
    pub correlation_id: Option<String>,
    pub content_type: Option<String>,
}

/// Configuration for creating sender and receiver endpoints.
pub struct ChannelConfig;

} // verus!
