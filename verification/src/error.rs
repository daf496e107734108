//! The errors that openmem can produce, and their messages.
use vstd::prelude::*;


verus! {

#[verifier::external_type_specification]
#[verifier::external_body]
pub struct ExIoError(std::io::Error);

/// All errors that openmem can produce.
#[derive(Debug)]
pub enum OpenMemError {
    NodeNotFound(String),
    Io(std::io::Error),
    VcsError(String),
}

/// The result of an openmem operation.
pub type Result<T> = std::result::Result<T, OpenMemError>;

/// The text of an I/O error, as its `Display` writes it.
///
/// Trusted: it calls `std::io::Error`'s `Display`; nothing is claimed of the text.
#[verifier::external_body]
fn io_error_text(e: &std::io::Error) -> String {
    format!("{}", e)
}

/// The message of an error whose text the library holds: `None` for an I/O error.
pub open spec fn known_message(e: OpenMemError) -> Option<Seq<char>> {
    match e {
        OpenMemError::NodeNotFound(p) => Some("Node not found: "@ + p@),
        OpenMemError::VcsError(m) => Some("VCS error: "@ + m@),
        OpenMemError::Io(_) => None,
    }
}

impl OpenMemError {
    /// The message of the error, as shown to the user.
    pub fn to_string(&self) -> (res: String)
        ensures
            known_message(*self) matches Some(m) ==> res@ == m,
            self is Io ==> res@.len() >= 10 && res@.subrange(0, 10) == "IO error: "@,
    {
        match self {
            OpenMemError::NodeNotFound(p) => {
                let mut s = String::from_str("Node not found: ");
                s.append(p.as_str());
                s
            },
            OpenMemError::VcsError(m) => {
                let mut s = String::from_str("VCS error: ");
                s.append(m.as_str());
                s
            },
            OpenMemError::Io(e) => {
                let mut s = String::from_str("IO error: ");
                proof {
                    reveal_strlit("IO error: ");
                }
                let t = io_error_text(e);
                let ghost start = s@;
                s.append(t.as_str());
                assert(s@.subrange(0, 10) =~= start);
                s
            },
        }
    }
}

impl From<std::io::Error> for OpenMemError {
    fn from(e: std::io::Error) -> (res: Self) {
        OpenMemError::Io(e)
    }
}

impl vstd::std_specs::convert::FromSpecImpl<std::io::Error> for OpenMemError {
    open spec fn obeys_from_spec() -> bool {
        true
    }

    open spec fn from_spec(v: std::io::Error) -> Self {
        OpenMemError::Io(v)
    }
}

} // verus!
