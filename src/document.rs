//! The typed document model that a resolved specification is read into.
use std::collections::BTreeMap;

use vstd::prelude::*;

verus! {

/// A specification's operations, by name.
pub struct Document {
    pub operations: BTreeMap<String, Operation>,
}

/// One operation of a specification.
pub struct Operation;

/// One channel of a specification.
pub struct Channel;

/// One message of a specification.
pub struct Message;

} // verus!
