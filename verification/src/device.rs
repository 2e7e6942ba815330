//! What is known of a connected device, in a form that can be written out.

use crate::messages::{Id, MetaData, SetRGB};
use vstd::prelude::*;

verus! {

/// A device as it is listed: its USB descriptor as text, what it has said
/// of itself so far, and the colour of its light.
#[derive(Debug, Clone)]
pub struct SerializableDevice {
    pub descriptor: String,
    pub id: Option<Id>,
    pub meta_data: Option<MetaData>,
    pub rgb: SetRGB,
}

} // verus!
