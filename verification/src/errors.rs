//! Typed failures of the library: decode errors of the message codec,
//! failures of the asset-resolution policy, and the error reported by a
//! combined shutdown.

use vstd::prelude::*;

verus! {

/// Why decoding a wire message failed.
#[derive(Clone, Copy, Debug, PartialEq, Eq, Structural)]
pub enum HttpError {
    /// The status line or status code of a response is not well formed.
    MalformedResponse,
    /// The request line of a request is not well formed.
    MalformedRequest,
    /// A `content-length` value is not a decimal numeral that fits.
    InvalidContentLength,
    /// A chunk-size line is not a hexadecimal numeral that fits.
    InvalidChunkSize,
    /// The chunked body ended before a full chunk frame was read.
    TruncatedChunk,
    /// A chunk payload is not followed by CR LF.
    MissingChunkTerminator,
    /// A decoded body is not valid UTF-8 text.
    InvalidEncoding,
}

impl HttpError {
    /// A short description, stable for reporting.
    pub fn describe(&self) -> (r: &'static str)
        ensures
            r@.len() > 0,
    {
        proof {
            reveal_strlit("malformed response");
            reveal_strlit("malformed request");
            reveal_strlit("invalid content-length");
            reveal_strlit("invalid chunk size");
            reveal_strlit("chunked: truncated chunk");
            reveal_strlit("chunked: missing CRLF after chunk");
            reveal_strlit("invalid text encoding");
        }
        match self {
            HttpError::MalformedResponse => "malformed response",
            HttpError::MalformedRequest => "malformed request",
            HttpError::InvalidContentLength => "invalid content-length",
            HttpError::InvalidChunkSize => "invalid chunk size",
            HttpError::TruncatedChunk => "chunked: truncated chunk",
            HttpError::MissingChunkTerminator => "chunked: missing CRLF after chunk",
            HttpError::InvalidEncoding => "invalid text encoding",
        }
    }
}

/// Why asset resolution failed.
#[derive(Clone, Copy, Debug, PartialEq, Eq, Structural)]
pub enum AssetError {
    /// The remote listing named no version at all.
    NoVersionFound,
}

impl AssetError {
    /// A short description, stable for reporting.
    pub fn describe(&self) -> (r: &'static str)
        ensures
            r@.len() > 0,
    {
        proof {
            reveal_strlit("could not find any version");
        }
        match self {
            AssetError::NoVersionFound => "could not find any version",
        }
    }
}

/// Which step of a combined shutdown failed.
#[derive(Clone, Copy, Debug, PartialEq, Eq, Structural)]
pub enum StopError {
    /// Closing the transport failed.
    TransportClose,
    /// Terminating the hypervisor process failed.
    ProcessKill,
}

} // verus!
