//! The ways in which decoding a line can fail.

use vstd::prelude::*;

verus! {

/// Why a piece of text could not be decoded. Each kind that names an `input`
/// holds the text that was left when the decoder gave up.
#[derive(Debug, PartialEq)]
#[allow(inconsistent_fields)]
pub enum ErrorKind {
    /// The kind of a type directive is none of the five known ones.
    InvalidMetricKind { input: String },
    /// A literal token was required and not found.
    ExpectedToken { expected: &'static str, input: String },
    /// A space or a tab was required and not found.
    ExpectedSpace { input: String },
    /// A single character was required and not found.
    ExpectedChar { expected: char, input: String },
    /// The text does not start with `[A-Za-z_]`.
    ParseNameError { input: String },
    /// The text is neither a number nor one of `+Inf`, `-Inf`, `Nan`.
    ParseFloatError { input: String },
    /// A failure of the combinator layer that no kind above describes;
    /// `kind` is that layer's name for what failed.
    Nom { input: String, kind: String },
    /// The combinator layer ran out of input.
    NomIncomplete,
    /// The combinator layer failed without a way back.
    NomFailure,
}

/// An [`ErrorKind`] as the specifications see it: the same kinds, over
/// sequences of characters.
#[allow(inconsistent_fields)]
pub ghost enum ErrorView {
    InvalidMetricKind { input: Seq<char> },
    ExpectedToken { expected: Seq<char>, input: Seq<char> },
    ExpectedSpace { input: Seq<char> },
    ExpectedChar { expected: char, input: Seq<char> },
    ParseNameError { input: Seq<char> },
    ParseFloatError { input: Seq<char> },
    Nom { input: Seq<char>, kind: Seq<char> },
    NomIncomplete,
    NomFailure,
}

impl View for ErrorKind {
    type V = ErrorView;

    open spec fn view(&self) -> ErrorView {
        match *self {
            ErrorKind::InvalidMetricKind { input } => ErrorView::InvalidMetricKind {
                input: input@,
            },
            ErrorKind::ExpectedToken { expected, input } => ErrorView::ExpectedToken {
                expected: expected@,
                input: input@,
            },
            ErrorKind::ExpectedSpace { input } => ErrorView::ExpectedSpace { input: input@ },
            ErrorKind::ExpectedChar { expected, input } => ErrorView::ExpectedChar {
                expected,
                input: input@,
            },
            ErrorKind::ParseNameError { input } => ErrorView::ParseNameError { input: input@ },
            ErrorKind::ParseFloatError { input } => ErrorView::ParseFloatError { input: input@ },
            ErrorKind::Nom { input, kind } => ErrorView::Nom { input: input@, kind: kind@ },
            ErrorKind::NomIncomplete => ErrorView::NomIncomplete,
            ErrorKind::NomFailure => ErrorView::NomFailure,
        }
    }
}

impl ErrorView {
    /// Whether the error is one of the kinds the grammar itself reports,
    /// rather than a catch-all of the combinator layer.
    pub open spec fn is_specific(self) -> bool {
        !(self is Nom || self is NomIncomplete || self is NomFailure)
    }
}

} // verus!
