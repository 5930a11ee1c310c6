//! The crate's error type.
use vstd::prelude::*;

use crate::text::{append_str, owned};

verus! {

/// Errors reported by planning, ownership and bookkeeping operations.
#[derive(Debug, Clone)]
pub enum Error {
    /// A plain diagnostic message.
    Msg { message: String },
    /// A VFS rule transaction or protocol failure.
    VfsProtocol { detail: String },
    /// Two module contributions claim one mount target for different backends.
    PlanConflict {
        target: String,
        first_backend: String,
        first_source: String,
        second_backend: String,
        second_source: String,
    },
}

pub type Result<T> = core::result::Result<T, Error>;

impl Error {
    /// A plain diagnostic message.
    pub fn msg(message: String) -> (e: Error)
        ensures
            e == (Error::Msg { message }),
    {
        Error::Msg { message }
    }

    /// An identical copy of the error.
    pub fn duplicate(&self) -> (e: Error)
        ensures
            e == *self,
    {
        match self {
            Error::Msg { message } => Error::Msg { message: message.clone() },
            Error::VfsProtocol { detail } => Error::VfsProtocol { detail: detail.clone() },
            Error::PlanConflict {
                target,
                first_backend,
                first_source,
                second_backend,
                second_source,
            } => Error::PlanConflict {
                target: target.clone(),
                first_backend: first_backend.clone(),
                first_source: first_source.clone(),
                second_backend: second_backend.clone(),
                second_source: second_source.clone(),
            },
        }
    }

    /// The human-readable description of the error.
    pub fn message(&self) -> (r: String)
        ensures
            r@ == self.spec_message(),
    {
        match self {
            Error::Msg { message } => message.clone(),
            Error::VfsProtocol { detail } => {
                let mut r = owned("VFS protocol error: ");
                append_str(&mut r, detail.as_str());
                r
            },
            Error::PlanConflict {
                target,
                first_backend,
                first_source,
                second_backend,
                second_source,
            } => {
                let mut r = owned("mount plan conflict at ");
                append_str(&mut r, target.as_str());
                append_str(&mut r, ": ");
                append_str(&mut r, first_backend.as_str());
                append_str(&mut r, " from ");
                append_str(&mut r, first_source.as_str());
                append_str(&mut r, " vs ");
                append_str(&mut r, second_backend.as_str());
                append_str(&mut r, " from ");
                append_str(&mut r, second_source.as_str());
                r
            },
        }
    }

    pub open spec fn spec_message(&self) -> Seq<char> {
        match self {
            Error::Msg { message } => message@,
            Error::VfsProtocol { detail } => "VFS protocol error: "@ + detail@,
            Error::PlanConflict {
                target,
                first_backend,
                first_source,
                second_backend,
                second_source,
            } => "mount plan conflict at "@ + target@ + ": "@ + first_backend@ + " from "@
                + first_source@ + " vs "@ + second_backend@ + " from "@ + second_source@,
        }
    }
}

} // verus!
