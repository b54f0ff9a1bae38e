//! What can go wrong.

use vstd::prelude::*;
use vstd::string::StringExecFns;

verus! {

/// `std::io::Error`, carried through as it came.
#[verifier::external_type_specification]
#[verifier::external_body]
pub struct ExIoError(std::io::Error);

/// The errors of this library.
#[derive(Debug)]
pub enum UtilsError {
    /// The mount table, or what a process wrote, could not be read.
    IoError(std::io::Error),
    /// A line is no identity line.
    BlkidError(String),
    /// No device answers to a label.
    DeviceError(String),
    /// A description of block devices holds what cannot be read.
    BlockError(String),
}

impl UtilsError {
    /// The message of an error, as a text.
    pub open spec fn message_spec(&self) -> Seq<char> {
        match self {
            UtilsError::IoError(_) => "I/O error"@,
            UtilsError::BlkidError(m) => "Blkid error: `"@ + m@ + "`"@,
            UtilsError::DeviceError(m) => "Device error: `"@ + m@ + "`"@,
            UtilsError::BlockError(m) => "Block error: `"@ + m@ + "`"@,
        }
    }

    /// The message of an error.
    pub fn to_string(&self) -> (r: String)
        ensures
            r@ == self.message_spec(),
    {
        match self {
            UtilsError::IoError(_) => String::from_str("I/O error"),
            UtilsError::BlkidError(m) => quoted("Blkid error: `", m),
            UtilsError::DeviceError(m) => quoted("Device error: `", m),
            UtilsError::BlockError(m) => quoted("Block error: `", m),
        }
    }
}

/// `head`, then `m`, then a closing backquote.
fn quoted(head: &str, m: &String) -> (r: String)
    ensures
        r@ == head@ + m@ + "`"@,
{
    let mut r = String::from_str(head);
    r.append(m.as_str());
    r.append("`");
    r
}

impl From<std::io::Error> for UtilsError {
    fn from(e: std::io::Error) -> (r: UtilsError)
    {
        UtilsError::IoError(e)
    }
}

impl vstd::std_specs::convert::FromSpecImpl<std::io::Error> for UtilsError {
    open spec fn obeys_from_spec() -> bool {
        true
    }

    open spec fn from_spec(e: std::io::Error) -> UtilsError {
        UtilsError::IoError(e)
    }
}

} // verus!
