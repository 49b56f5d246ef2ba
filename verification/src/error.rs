//! Error type shared by every operation of the library.
use vstd::prelude::*;
use vstd::string::*;

verus! {

/// Why a run was aborted.
#[derive(Debug)]
pub enum ProcessingError {
    /// An input or output stream could not be read or written.
    Io { message: String },
    /// A row could not be decoded into a trip record.
    Csv { message: String },
    /// A value failed a domain rule.
    Validation { message: String },
    /// General processing failure.
    Processing { message: String },
    /// A report could not be encoded.
    Json { message: String },
}

impl ProcessingError {
    /// The detail carried by the error, without the prefix of its kind.
    pub open spec fn detail(&self) -> Seq<char> {
        match self {
            ProcessingError::Io { message } => message@,
            ProcessingError::Csv { message } => message@,
            ProcessingError::Validation { message } => message@,
            ProcessingError::Processing { message } => message@,
            ProcessingError::Json { message } => message@,
        }
    }

    /// The prefix that names the kind of the error in its rendered form.
    pub open spec fn prefix(&self) -> Seq<char> {
        match self {
            ProcessingError::Io { .. } => "IO error: "@,
            ProcessingError::Csv { .. } => "CSV parsing error: "@,
            ProcessingError::Validation { .. } => "Data validation error: "@,
            ProcessingError::Processing { .. } => "Processing error: "@,
            ProcessingError::Json { .. } => "JSON error: "@,
        }
    }

    /// Renders the error for display: the prefix of its kind, then the detail.
    pub fn to_string(&self) -> (text: String)
        ensures
            text@ == self.prefix() + self.detail(),
    {
        match self {
            ProcessingError::Io { message } => String::from_str("IO error: ").concat(
                message.as_str(),
            ),
            ProcessingError::Csv { message } => String::from_str("CSV parsing error: ").concat(
                message.as_str(),
            ),
            ProcessingError::Validation { message } => String::from_str(
                "Data validation error: ",
            ).concat(message.as_str()),
            ProcessingError::Processing { message } => String::from_str(
                "Processing error: ",
            ).concat(message.as_str()),
            ProcessingError::Json { message } => String::from_str("JSON error: ").concat(
                message.as_str(),
            ),
        }
    }
}

/// Whether an error reports a count of trips out of range.
pub open spec fn is_count_overflow(error: ProcessingError) -> bool {
    error is Processing && error.detail() == "Trip count out of range"@
}

/// The error of a merge in which a count of trips would leave the range of
/// a machine word.
pub fn count_overflow() -> (error: ProcessingError)
    ensures
        is_count_overflow(error),
{
    ProcessingError::Processing { message: String::from_str("Trip count out of range") }
}

/// Whether an error reports a directory without any file to read.
pub open spec fn is_empty_directory_error(error: ProcessingError, directory: Seq<char>) -> bool {
    error is Processing && error.detail() == "No CSV files found in directory: "@ + directory
}

/// The error of a run over a directory without any file to read.
pub fn empty_directory_error(directory_path: &str) -> (error: ProcessingError)
    ensures
        is_empty_directory_error(error, directory_path@),
{
    ProcessingError::Processing {
        message: String::from_str("No CSV files found in directory: ").concat(directory_path),
    }
}

} // verus!
