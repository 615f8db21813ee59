use vstd::prelude::*;
use crate::stream::Stream;

verus! {

/// A PDF document: its stream and its version.
pub struct PdfDocument {
    pub(crate) stream: Stream<'static>,
    pub(crate) version: String,
}

} // verus!
