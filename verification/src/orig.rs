//! Identifiers as they appear in the input files.

use vstd::prelude::*;

use crate::ids::OrigKey;
use crate::text::TextKeyed;

verus! {

#[derive(Clone, Debug, PartialEq, Eq, PartialOrd, Ord)]
pub struct StopID(pub String);

#[derive(Clone, Debug, PartialEq, Eq, PartialOrd, Ord, Hash)]
pub struct TripID(pub String);

impl TextKeyed for StopID {
    open spec fn key_text(&self) -> Seq<char> {
        self.0@
    }

    fn key_str(&self) -> (r: &str) {
        self.0.as_str()
    }
}

impl OrigKey for StopID {
    fn duplicate(&self) -> (r: Self) {
        StopID(self.0.clone())
    }
}

impl TextKeyed for TripID {
    open spec fn key_text(&self) -> Seq<char> {
        self.0@
    }

    fn key_str(&self) -> (r: &str) {
        self.0.as_str()
    }
}

impl OrigKey for TripID {
    fn duplicate(&self) -> (r: Self) {
        TripID(self.0.clone())
    }
}

} // verus!
