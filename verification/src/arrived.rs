//! One Stream that arrived: where it came from, and its bytes.

use vstd::prelude::*;

verus! {

/// A Stream as it arrived.
#[derive(Clone, Debug, PartialEq, Eq)]
pub struct Arrived {
    /// The message it came as.
    pub origin_uri: String,
    /// What it holds.
    pub bytes: Vec<u8>,
}

/// What an [`Arrived`] holds.
#[verifier::ext_equal]
pub struct ArrivedView {
    pub origin_uri: Seq<char>,
    pub bytes: Seq<u8>,
}

impl View for Arrived {
    type V = ArrivedView;

    open spec fn view(&self) -> ArrivedView {
        ArrivedView { origin_uri: self.origin_uri@, bytes: self.bytes@ }
    }
}

impl Arrived {
    pub fn new(origin_uri: String, bytes: Vec<u8>) -> (arrived: Self)
        ensures
            arrived@ == (ArrivedView { origin_uri: origin_uri@, bytes: bytes@ }),
    {
        Arrived { origin_uri, bytes }
    }
}

} // verus!
