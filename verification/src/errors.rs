//! Why a build fails.
use crate::dictionary::FtsError;
use vstd::prelude::*;
use vstd::string::StringExecFns;

verus! {

/// A failed build.
#[derive(Debug)]
pub enum BuildError {
    /// An input batch could not be read.
    BatchReadError,
    /// Reading or writing failed, with what there is to say of it.
    Io(String),
}

/// What stands before the description of a failed merge.
pub open spec fn merge_prefix() -> Seq<char> {
    "fts sorted merge: "@
}

/// The message of a merge that met a term that is not text.
pub open spec fn non_utf8_message() -> Seq<char> {
    "fts sorted merge: non-utf8 term"@
}

/// `error` is the build error of the failed read `e`.
pub open spec fn is_read_error(e: FtsError, error: BuildError) -> bool {
    error matches BuildError::Io(message) && message@ == merge_prefix() + e.message@
}

/// `error` is the build error of a term that is not text.
pub open spec fn is_non_utf8_error(error: BuildError) -> bool {
    error matches BuildError::Io(message) && message@ == non_utf8_message()
}

/// The build error of a read that failed.
pub fn read_error(e: FtsError) -> (error: BuildError)
    ensures
        is_read_error(e, error),
{
    let mut message: String = "fts sorted merge: ".to_owned();
    message.append(e.message.as_str());
    BuildError::Io(message)
}

/// The build error of a term that is not text.
pub fn non_utf8_error() -> (error: BuildError)
    ensures
        is_non_utf8_error(error),
{
    BuildError::Io("fts sorted merge: non-utf8 term".to_owned())
}

} // verus!
