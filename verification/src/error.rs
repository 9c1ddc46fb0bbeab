//! The failures of bundle analysis.

use vstd::prelude::*;

verus! {

/// Why a bundle could not be analysed. Each failure carries a message for
/// the reader.
#[derive(Debug)]
pub enum WebpackGraphError {
    /// The source text is not a valid script.
    ParseError(String),
    /// The unit is not a bundle of the expected form.
    InvalidBundleFormat(String),
    /// A module was asked for that the graph does not have.
    ModuleNotFound(String),
    /// The modules table could not be read.
    ModuleExtractionError(String),
}

pub ghost enum WebpackGraphErrorView {
    ParseError(Seq<char>),
    InvalidBundleFormat(Seq<char>),
    ModuleNotFound(Seq<char>),
    ModuleExtractionError(Seq<char>),
}

impl View for WebpackGraphError {
    type V = WebpackGraphErrorView;

    open spec fn view(&self) -> WebpackGraphErrorView {
        match self {
            WebpackGraphError::ParseError(s) => WebpackGraphErrorView::ParseError(s@),
            WebpackGraphError::InvalidBundleFormat(s) => WebpackGraphErrorView::InvalidBundleFormat(
                s@,
            ),
            WebpackGraphError::ModuleNotFound(s) => WebpackGraphErrorView::ModuleNotFound(s@),
            WebpackGraphError::ModuleExtractionError(s) => {
                WebpackGraphErrorView::ModuleExtractionError(s@)
            },
        }
    }
}

impl WebpackGraphErrorView {
    /// The text that describes the failure: what kind it is, then its
    /// message.
    pub open spec fn description(self) -> Seq<char> {
        match self {
            WebpackGraphErrorView::ParseError(s) => "Failed to parse JavaScript: "@ + s,
            WebpackGraphErrorView::InvalidBundleFormat(s) => "Invalid webpack bundle format: "@ + s,
            WebpackGraphErrorView::ModuleNotFound(s) => "Module not found: "@ + s,
            WebpackGraphErrorView::ModuleExtractionError(s) => {
                "Failed to extract webpack modules: "@ + s
            },
        }
    }
}

impl WebpackGraphError {
    /// The text that describes the failure.
    pub fn message(&self) -> (out: String)
        ensures
            out@ == self@.description(),
    {
        match self {
            WebpackGraphError::ParseError(s) => "Failed to parse JavaScript: ".to_owned().concat(
                s.as_str(),
            ),
            WebpackGraphError::InvalidBundleFormat(s) => {
                "Invalid webpack bundle format: ".to_owned().concat(s.as_str())
            },
            WebpackGraphError::ModuleNotFound(s) => "Module not found: ".to_owned().concat(
                s.as_str(),
            ),
            WebpackGraphError::ModuleExtractionError(s) => {
                "Failed to extract webpack modules: ".to_owned().concat(s.as_str())
            },
        }
    }
}

} // verus!
