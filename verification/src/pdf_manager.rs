use vstd::prelude::*;
use crate::stream::{Stream, StreamView};

verus! {

/// Holds the stream of a PDF file being read.
pub struct PdfManager<'a> {
    stream: Stream<'a>,
}

impl<'a> PdfManager<'a> {
    pub closed spec fn stream_view(&self) -> StreamView {
        self.stream@
    }

    pub fn new(stream: Stream<'a>) -> (m: Self)
        ensures
            m.stream_view() == stream@,
    {
        PdfManager { stream: stream }
    }
}

} // verus!
