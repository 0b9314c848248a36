//! Errors of the entry store.
//!
//! Every failure carries a kind and an optional chained cause, so callers
//! can discriminate by operation (the call-site kinds) without losing the
//! underlying reason. The spec-level model of an error is the sequence of
//! kinds along its cause chain, outermost first.

use vstd::prelude::*;

verus! {

#[derive(Clone, Copy, Debug, PartialEq, Eq, Structural)]
pub enum StoreErrorKind {
    ConfigurationError,
    FileError,
    IoError,
    FileNotFound,
    StorePathCreate,
    StorePathExists,
    CreateStoreDirDenied,
    LockPoisoned,
    LockError,
    EntryAlreadyBorrowed,
    EntryAlreadyExists,
    MalformedEntry,
    HeaderError,
    HeaderInconsistency,
    EncodingError,
    InvalidId,
    StoreIdHandlingError,
    IdLocked,
    IdNotFound,
    EntryRenameError,
    GlobError,
    CreateCallError,
    RetrieveCallError,
    GetCallError,
    UpdateCallError,
    DeleteCallError,
    MoveCallError,
    MoveByIdCallError,
    RetrieveCopyCallError,
    RetrieveForModuleCallError,
    HookExecutionError,
    PreHookExecuteError,
    PostHookExecuteError,
    HookRegisterError,
    AspectNameNotFoundError,
}

/// An error with its chain of causes.
#[derive(Debug)]
pub struct StoreError {
    pub kind: StoreErrorKind,
    pub cause: Option<Box<StoreError>>,
}

/// The model of an error: its kinds, outermost first.
pub open spec fn error_chain(e: StoreError) -> Seq<StoreErrorKind>
    decreases e,
{
    match e.cause {
        Option::None => seq![e.kind],
        Option::Some(c) => seq![e.kind] + error_chain(*c),
    }
}

impl StoreError {
    pub open spec fn chain(self) -> Seq<StoreErrorKind> {
        error_chain(self)
    }

    pub fn new(kind: StoreErrorKind) -> (r: StoreError)
        ensures
            r.chain() == seq![kind],
    {
        StoreError { kind, cause: None }
    }

    /// Wraps a cause in an outer kind, keeping the chain.
    pub fn wrap(kind: StoreErrorKind, cause: StoreError) -> (r: StoreError)
        ensures
            r.chain() == seq![kind] + cause.chain(),
    {
        StoreError { kind, cause: Some(Box::new(cause)) }
    }

    /// The outermost kind; callers discriminate by it.
    pub fn err_type(&self) -> (r: StoreErrorKind)
        ensures
            r == self.chain()[0],
    {
        self.kind
    }

    /// The direct cause, if one was recorded.
    pub fn cause(&self) -> (r: &Option<Box<StoreError>>)
        ensures
            r is Some <==> self.chain().len() > 1,
            r matches Some(c) ==> c.chain() == self.chain().skip(1),
    {
        proof {
            if self.cause is Some {
                assert(self.chain() =~= seq![self.kind] + error_chain(*self.cause->0));
                assert(self.chain().skip(1) =~= error_chain(*self.cause->0));
            }
        }
        &self.cause
    }

    /// A short name for the outermost kind, for display by callers.
    pub fn kind_name(&self) -> String {
        kind_name_of(self.kind)
    }
}

/// A short name for an error kind, for display by callers.
pub fn kind_name_of(kind: StoreErrorKind) -> String {
    let s: &str = match kind {
        StoreErrorKind::ConfigurationError => "ConfigurationError",
        StoreErrorKind::FileError => "FileError",
        StoreErrorKind::IoError => "IoError",
        StoreErrorKind::FileNotFound => "FileNotFound",
        StoreErrorKind::StorePathCreate => "StorePathCreate",
        StoreErrorKind::StorePathExists => "StorePathExists",
        StoreErrorKind::CreateStoreDirDenied => "CreateStoreDirDenied",
        StoreErrorKind::LockPoisoned => "LockPoisoned",
        StoreErrorKind::LockError => "LockError",
        StoreErrorKind::EntryAlreadyBorrowed => "EntryAlreadyBorrowed",
        StoreErrorKind::EntryAlreadyExists => "EntryAlreadyExists",
        StoreErrorKind::MalformedEntry => "MalformedEntry",
        StoreErrorKind::HeaderError => "HeaderError",
        StoreErrorKind::HeaderInconsistency => "HeaderInconsistency",
        StoreErrorKind::EncodingError => "EncodingError",
        StoreErrorKind::InvalidId => "InvalidId",
        StoreErrorKind::StoreIdHandlingError => "StoreIdHandlingError",
        StoreErrorKind::IdLocked => "IdLocked",
        StoreErrorKind::IdNotFound => "IdNotFound",
        StoreErrorKind::EntryRenameError => "EntryRenameError",
        StoreErrorKind::GlobError => "GlobError",
        StoreErrorKind::CreateCallError => "CreateCallError",
        StoreErrorKind::RetrieveCallError => "RetrieveCallError",
        StoreErrorKind::GetCallError => "GetCallError",
        StoreErrorKind::UpdateCallError => "UpdateCallError",
        StoreErrorKind::DeleteCallError => "DeleteCallError",
        StoreErrorKind::MoveCallError => "MoveCallError",
        StoreErrorKind::MoveByIdCallError => "MoveByIdCallError",
        StoreErrorKind::RetrieveCopyCallError => "RetrieveCopyCallError",
        StoreErrorKind::RetrieveForModuleCallError => "RetrieveForModuleCallError",
        StoreErrorKind::HookExecutionError => "HookExecutionError",
        StoreErrorKind::PreHookExecuteError => "PreHookExecuteError",
        StoreErrorKind::PostHookExecuteError => "PostHookExecuteError",
        StoreErrorKind::HookRegisterError => "HookRegisterError",
        StoreErrorKind::AspectNameNotFoundError => "AspectNameNotFoundError",
    };
    String::from_str(s)
}

} // verus!
