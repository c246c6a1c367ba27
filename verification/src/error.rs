//! The ways in which loading a table can fail.
use vstd::prelude::*;

verus! {

#[verifier::external_type_specification]
#[verifier::external_body]
pub struct ExIoError(std::io::Error);

/// An error met while a table was loaded. Probing never fails with one.
#[derive(Debug)]
pub enum SyzygyError {
    /// The data does not appear to be in the Syzygy format.
    NotSyzygy,
    /// The material could not be determined.
    UnknownMaterial,
    /// Reading the data failed.
    Io(std::io::Error),
}

impl SyzygyError {
    /// The message that describes the error.
    pub fn message(&self) -> (r: String)
        ensures
            self is NotSyzygy ==> r@ == "the data does not appear to be in the Syzygy format"@,
            self is UnknownMaterial ==> r@ == "the material could not be determined"@,
    {
        match self {
            SyzygyError::NotSyzygy => "the data does not appear to be in the Syzygy format".to_owned(),
            SyzygyError::UnknownMaterial => "the material could not be determined".to_owned(),
            SyzygyError::Io(e) => io_error_message(e),
        }
    }
}

/// The text that `std::io::Error` displays; nothing is claimed of it.
#[verifier::external_body]
fn io_error_message(e: &std::io::Error) -> String {
    format!("{}", e)
}

impl From<std::io::Error> for SyzygyError {
    fn from(e: std::io::Error) -> (r: SyzygyError) {
        SyzygyError::Io(e)
    }
}

impl vstd::std_specs::convert::FromSpecImpl<std::io::Error> for SyzygyError {
    open spec fn obeys_from_spec() -> bool {
        true
    }

    open spec fn from_spec(e: std::io::Error) -> SyzygyError {
        SyzygyError::Io(e)
    }
}

} // verus!
