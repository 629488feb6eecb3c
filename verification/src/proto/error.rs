//! Why a command could not be read.
use vstd::prelude::*;

verus! {

#[derive(Debug)]
pub enum ProtoError {
    /// The command has the wrong number of arguments.
    WrongArity { cmd: &'static str },
    /// An argument is not a decimal integer, or is out of range.
    InvalidInteger { raw: Vec<u8> },
    /// An expire time of zero.
    InvalidExpiry { raw: Vec<u8> },
    /// An option that the command does not have.
    Syntax { token: Vec<u8> },
    /// No command has this name.
    UnknownCommand { cmd: Vec<u8> },
    /// The request is not a command at all.
    InvalidFormat { reason: &'static str },
    /// The database index is out of range.
    DbIndexOutOfRange,
}

pub type Result<T> = std::result::Result<T, ProtoError>;

/// What a `ProtoError` says.
#[verifier::ext_equal]
pub enum ProtoErrorView {
    WrongArity { cmd: Seq<char> },
    InvalidInteger { raw: Seq<u8> },
    InvalidExpiry { raw: Seq<u8> },
    Syntax { token: Seq<u8> },
    UnknownCommand { cmd: Seq<u8> },
    InvalidFormat { reason: Seq<char> },
    DbIndexOutOfRange,
}

impl View for ProtoError {
    type V = ProtoErrorView;

    open spec fn view(&self) -> ProtoErrorView {
        match *self {
            ProtoError::WrongArity { cmd } => ProtoErrorView::WrongArity { cmd: cmd@ },
            ProtoError::InvalidInteger { raw } => ProtoErrorView::InvalidInteger { raw: raw@ },
            ProtoError::InvalidExpiry { raw } => ProtoErrorView::InvalidExpiry { raw: raw@ },
            ProtoError::Syntax { token } => ProtoErrorView::Syntax { token: token@ },
            ProtoError::UnknownCommand { cmd } => ProtoErrorView::UnknownCommand { cmd: cmd@ },
            ProtoError::InvalidFormat { reason } => ProtoErrorView::InvalidFormat {
                reason: reason@,
            },
            ProtoError::DbIndexOutOfRange => ProtoErrorView::DbIndexOutOfRange,
        }
    }
}

} // verus!
