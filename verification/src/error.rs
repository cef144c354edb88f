//! The errors of the pipeline.

use vstd::prelude::*;

verus! {

/// Why a text is no subtitle document.
#[derive(Debug, Clone, Copy, PartialEq, Eq, Structural)]
pub enum ParseError {
    /// The line after an index does not split into exactly two parts on the
    /// arrow.
    MalformedTimeRange,
    /// The input ends, or an empty line comes, where a unit still needs its
    /// time range or its first line of text.
    UnexpectedEOF,
    /// A line writes an index that is greater than `usize::MAX`.
    InvalidIndex,
}

/// Why the translation service gave no text.
#[derive(Debug, Clone, Copy, PartialEq, Eq, Structural)]
pub enum ServiceError {
    /// No credential for the service was found.
    CredentialMissing,
    /// The request could not be sent, or the response could not be received.
    TransportFailure,
    /// The service answered with a status that is no success.
    NonSuccessStatus,
    /// The answer does not hold a translated text where one is expected.
    UnexpectedResponseShape,
}

/// Why a document could not be translated.
#[derive(Debug, Clone, Copy, PartialEq, Eq, Structural)]
pub enum OrchestratorError {
    /// A response holds more or fewer frames than its chunk holds records.
    ResponseLengthMismatch,
    /// The service failed on a chunk.
    Service(ServiceError),
}

impl ParseError {
    /// What went wrong, in words.
    pub open spec fn spec_message(self) -> Seq<char> {
        match self {
            ParseError::MalformedTimeRange => "the time range does not split into a start and an end on \" --> \""@,
            ParseError::UnexpectedEOF => "the input ends inside a subtitle unit"@,
            ParseError::InvalidIndex => "the index of a subtitle unit is too large"@,
        }
    }

    /// What went wrong, in words.
    pub fn message(&self) -> (out: &'static str)
        ensures
            out@ == self.spec_message(),
    {
        match self {
            ParseError::MalformedTimeRange => "the time range does not split into a start and an end on \" --> \"",
            ParseError::UnexpectedEOF => "the input ends inside a subtitle unit",
            ParseError::InvalidIndex => "the index of a subtitle unit is too large",
        }
    }
}

impl ServiceError {
    /// What went wrong, in words.
    pub open spec fn spec_message(self) -> Seq<char> {
        match self {
            ServiceError::CredentialMissing => "no credential for the translation service was found"@,
            ServiceError::TransportFailure => "the request to the translation service failed"@,
            ServiceError::NonSuccessStatus => "the translation service answered with a status that is no success"@,
            ServiceError::UnexpectedResponseShape => "the answer of the translation service holds no translated text"@,
        }
    }

    /// What went wrong, in words.
    pub fn message(&self) -> (out: &'static str)
        ensures
            out@ == self.spec_message(),
    {
        match self {
            ServiceError::CredentialMissing => "no credential for the translation service was found",
            ServiceError::TransportFailure => "the request to the translation service failed",
            ServiceError::NonSuccessStatus => "the translation service answered with a status that is no success",
            ServiceError::UnexpectedResponseShape => "the answer of the translation service holds no translated text",
        }
    }
}

impl OrchestratorError {
    /// What went wrong, in words.
    pub open spec fn spec_message(self) -> Seq<char> {
        match self {
            OrchestratorError::ResponseLengthMismatch => "the response does not hold one frame for each record of its chunk"@,
            OrchestratorError::Service(e) => e.spec_message(),
        }
    }

    /// What went wrong, in words.
    pub fn message(&self) -> (out: &'static str)
        ensures
            out@ == self.spec_message(),
    {
        match self {
            OrchestratorError::ResponseLengthMismatch => "the response does not hold one frame for each record of its chunk",
            OrchestratorError::Service(e) => e.message(),
        }
    }
}

} // verus!
