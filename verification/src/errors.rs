//! The error taxonomy of the crate.
//!
//! Every failure is fatal for the current call: input-format errors from the
//! binary codecs, assignment errors from the constraint system, algebraic
//! errors from the satisfaction check, resource errors from domain
//! construction, and AEAD errors from the envelope.

use vstd::prelude::*;

verus! {

/// Everything that an operation of this crate can report.
#[derive(Clone, Copy, Debug, PartialEq, Eq, Structural)]
pub enum Error {
    /// A binary container did not start with its magic bytes.
    BadMagic,
    /// A binary container's version word is unsupported.
    BadVersion,
    /// A section, or the whole container, ends before its declared length.
    TruncatedSection,
    /// A required section appears more than once.
    DuplicateSection,
    /// A required section is absent.
    SectionMissing,
    /// A declared length or count cannot be addressed on this machine.
    ValueTooLarge,
    /// The witness data section does not match its declared element count.
    SizeMismatch,
    /// The circuit handed the builder an invalid constraint.
    SynthesisError,
    /// A wire value needed by the operation was never assigned.
    AssignmentMissing,
    /// The full assignment does not satisfy the constraint system.
    InvalidWitness,
    /// The instance assignment differs from the ciphertext's public inputs.
    PublicInputMismatch,
    /// The field has no smooth evaluation domain of the required size.
    DomainUnavailable,
    /// A group element failed to (de)serialise.
    SerializationError,
    /// The combined frame is malformed.
    BadFrame,
    /// The AEAD tag check failed.
    AuthenticationFailed,
    /// The AEAD key is not exactly 32 bytes.
    BadKeyLength,
    /// An input value has a shape the mapper does not accept.
    UnsupportedValue,
}

impl Error {
    /// A short human-readable account of the error.
    pub fn describe(&self) -> (r: String)
        ensures
            r@ == match self {
                Error::BadMagic => "Bad magic bytes"@,
                Error::BadVersion => "Unsupported container version"@,
                Error::TruncatedSection => "Truncated section"@,
                Error::DuplicateSection => "Duplicate section"@,
                Error::SectionMissing => "Required section missing"@,
                Error::ValueTooLarge => "Declared value too large"@,
                Error::SizeMismatch => "Witness data size mismatch"@,
                Error::SynthesisError => "Synthesis error"@,
                Error::AssignmentMissing => "Assignment missing"@,
                Error::InvalidWitness => "Invalid witness: QAP relation not satisfied"@,
                Error::PublicInputMismatch => "Invalid public inputs"@,
                Error::DomainUnavailable => "Evaluation domain unavailable"@,
                Error::SerializationError => "Serialization error"@,
                Error::BadFrame => "Malformed combined frame"@,
                Error::AuthenticationFailed => "Authentication failed"@,
                Error::BadKeyLength => "Key must be 32 bytes"@,
                Error::UnsupportedValue => "Unsupported input value"@,
            },
    {
        let s: &str = match self {
            Error::BadMagic => "Bad magic bytes",
            Error::BadVersion => "Unsupported container version",
            Error::TruncatedSection => "Truncated section",
            Error::DuplicateSection => "Duplicate section",
            Error::SectionMissing => "Required section missing",
            Error::ValueTooLarge => "Declared value too large",
            Error::SizeMismatch => "Witness data size mismatch",
            Error::SynthesisError => "Synthesis error",
            Error::AssignmentMissing => "Assignment missing",
            Error::InvalidWitness => "Invalid witness: QAP relation not satisfied",
            Error::PublicInputMismatch => "Invalid public inputs",
            Error::DomainUnavailable => "Evaluation domain unavailable",
            Error::SerializationError => "Serialization error",
            Error::BadFrame => "Malformed combined frame",
            Error::AuthenticationFailed => "Authentication failed",
            Error::BadKeyLength => "Key must be 32 bytes",
            Error::UnsupportedValue => "Unsupported input value",
        };
        proof {
            reveal_strlit("Bad magic bytes");
            reveal_strlit("Unsupported container version");
            reveal_strlit("Truncated section");
            reveal_strlit("Duplicate section");
            reveal_strlit("Required section missing");
            reveal_strlit("Declared value too large");
            reveal_strlit("Witness data size mismatch");
            reveal_strlit("Synthesis error");
            reveal_strlit("Assignment missing");
            reveal_strlit("Invalid witness: QAP relation not satisfied");
            reveal_strlit("Invalid public inputs");
            reveal_strlit("Evaluation domain unavailable");
            reveal_strlit("Serialization error");
            reveal_strlit("Malformed combined frame");
            reveal_strlit("Authentication failed");
            reveal_strlit("Key must be 32 bytes");
            reveal_strlit("Unsupported input value");
        }
        s.to_owned()
    }
}

} // verus!
