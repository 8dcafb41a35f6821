//! The errors of keys and of stores.

use vstd::prelude::*;
use vstd::std_specs::cmp::PartialEqSpecImpl;
use vstd::std_specs::convert::FromSpecImpl;
use crate::text::append_text;

verus! {

/// `std::io::Error`, the error type of std's input and output. Nothing is known of what
/// one holds; it is only carried.
#[verifier::external_type_specification]
#[verifier::external_body]
pub struct ExIoError(std::io::Error);

/// Calls `to_string` of `std::io::Error`, which gives what the error prints as. Nothing is
/// claimed of that text.
#[verifier::external_body]
fn io_error_text(e: &std::io::Error) -> (r: String) {
    e.to_string()
}

/// What can go wrong in making a key.
#[derive(Debug, Clone, Copy, PartialEq, Eq, Structural)]
pub enum KeyError {
    /// A piece of text stands for no component, or for no value.
    ParseError,
    /// A key must have at least one component.
    NoKey,
}

impl KeyError {
    /// The message of the error, a line of text.
    pub open spec fn message_text(self) -> Seq<char> {
        match self {
            KeyError::ParseError => "Could not parse input\n"@,
            KeyError::NoKey => "Input Key had a size of 0\n"@,
        }
    }

    /// The message of the error, a line of text.
    pub fn message(&self) -> (r: String)
        ensures
            r@ == self.message_text(),
    {
        match self {
            KeyError::ParseError => "Could not parse input\n".to_owned(),
            KeyError::NoKey => "Input Key had a size of 0\n".to_owned(),
        }
    }
}

/// What can go wrong in using a store.
#[derive(Debug)]
pub enum DBError {
    /// Reading or writing failed; the error of the reader or writer is kept.
    IOError(std::io::Error),
    /// A key or a value could not be made from its text.
    KeyError(KeyError),
    /// The text of a store is malformed.
    CorruptDBFile,
    /// A value was to be put where a nested store stands.
    InsertValueToDirectory,
    /// A key was to be extended below a component that holds a value.
    MultiKeyExtendValueKey,
}

impl DBError {
    /// The message of the error, for every kind but `IOError`.
    pub open spec fn message_text(self) -> Seq<char> {
        match self {
            DBError::IOError(_) => Seq::<char>::empty(),
            DBError::KeyError(e) => e.message_text().push('\n'),
            DBError::CorruptDBFile => "Database is corrupted.\n"@,
            DBError::InsertValueToDirectory => "Trying to insert value, into a Key that's a directory\n"@,
            DBError::MultiKeyExtendValueKey => "Trying to insert MultiKey trying to extend Key that has a value.\n"@,
        }
    }

    /// The message of the error, which ends in a line break. For an `IOError` it is what the
    /// kept error prints as, and a line break.
    pub fn message(&self) -> (r: String)
        ensures
            r@.len() > 0,
            r@.last() == '\n',
            !(self is IOError) ==> r@ == self.message_text(),
    {
        match self {
            DBError::IOError(e) => {
                let mut out = io_error_text(e);
                out.push('\n');
                out
            },
            DBError::KeyError(e) => {
                let mut out = e.message();
                out.push('\n');
                out
            },
            DBError::CorruptDBFile => {
                let mut out = String::new();
                append_text(&mut out, "Database is corrupted.");
                out.push('\n');
                proof {
                    reveal_strlit("Database is corrupted.");
                    reveal_strlit("Database is corrupted.\n");
                    assert(out@ =~= "Database is corrupted.\n"@);
                }
                out
            },
            DBError::InsertValueToDirectory => {
                let mut out = String::new();
                append_text(&mut out, "Trying to insert value, into a Key that's a directory");
                out.push('\n');
                proof {
                    reveal_strlit("Trying to insert value, into a Key that's a directory");
                    reveal_strlit("Trying to insert value, into a Key that's a directory\n");
                    assert(out@ =~= "Trying to insert value, into a Key that's a directory\n"@);
                }
                out
            },
            DBError::MultiKeyExtendValueKey => {
                let mut out = String::new();
                append_text(&mut out, "Trying to insert MultiKey trying to extend Key that has a value.");
                out.push('\n');
                proof {
                    reveal_strlit("Trying to insert MultiKey trying to extend Key that has a value.");
                    reveal_strlit("Trying to insert MultiKey trying to extend Key that has a value.\n");
                    assert(out@ =~= "Trying to insert MultiKey trying to extend Key that has a value.\n"@);
                }
                out
            },
        }
    }

    /// The error that lies under this one: the kept error of an `IOError`, nothing else.
    pub fn source(&self) -> (r: Option<&std::io::Error>)
        ensures
            match self {
                DBError::IOError(e) => r == Some(e),
                _ => r is None,
            },
    {
        match self {
            DBError::IOError(e) => Some(e),
            _ => None,
        }
    }

    /// Two errors are of the same kind.
    pub open spec fn same_kind(self, other: DBError) -> bool {
        match self {
            DBError::IOError(_) => other is IOError,
            DBError::KeyError(_) => other is KeyError,
            DBError::CorruptDBFile => other is CorruptDBFile,
            DBError::InsertValueToDirectory => other is InsertValueToDirectory,
            DBError::MultiKeyExtendValueKey => other is MultiKeyExtendValueKey,
        }
    }
}

/// Errors are equal where they are of the same kind, whatever they hold.
impl PartialEq for DBError {
    fn eq(&self, other: &DBError) -> (r: bool) {
        match self {
            DBError::IOError(_) => matches!(other, DBError::IOError(_)),
            DBError::KeyError(_) => matches!(other, DBError::KeyError(_)),
            DBError::CorruptDBFile => matches!(other, DBError::CorruptDBFile),
            DBError::InsertValueToDirectory => matches!(other, DBError::InsertValueToDirectory),
            DBError::MultiKeyExtendValueKey => matches!(other, DBError::MultiKeyExtendValueKey),
        }
    }
}

impl PartialEqSpecImpl for DBError {
    open spec fn obeys_eq_spec() -> bool {
        true
    }

    open spec fn eq_spec(&self, other: &DBError) -> bool {
        self.same_kind(*other)
    }
}

impl From<std::io::Error> for DBError {
    fn from(error: std::io::Error) -> (r: DBError) {
        DBError::IOError(error)
    }
}

impl FromSpecImpl<std::io::Error> for DBError {
    open spec fn obeys_from_spec() -> bool {
        true
    }

    open spec fn from_spec(error: std::io::Error) -> DBError {
        DBError::IOError(error)
    }
}

impl From<KeyError> for DBError {
    fn from(error: KeyError) -> (r: DBError) {
        DBError::KeyError(error)
    }
}

impl FromSpecImpl<KeyError> for DBError {
    open spec fn obeys_from_spec() -> bool {
        true
    }

    open spec fn from_spec(error: KeyError) -> DBError {
        DBError::KeyError(error)
    }
}

} // verus!
