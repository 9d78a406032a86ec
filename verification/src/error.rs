use vstd::prelude::*;

verus! {

/// Typed failure taxonomy of the store and its configuration reader.
///
/// Every operation of the library reports failure through this type rather
/// than panicking.  The two configuration variants carry the offending key
/// path and, for type mismatches, the kind of value that was expected there;
/// `IoFailure` carries the path whose underlying filesystem operation failed,
/// for callers that bind the store to real files.
#[derive(Debug)]
pub enum StoreError {
    /// The addressed (id, version) pair has no entry.
    NotFound,
    /// `create` was asked to make an entry that is already present.
    AlreadyExists,
    /// The addressed entry is held by a live exclusive handle.
    LockConflict,
    /// No version was supplied and none could be recovered from the id.
    NoVersion,
    /// A malformed enumeration pattern.
    PatternError,
    /// A configuration key that was looked for is absent.
    ConfigKeyMissing(String),
    /// A configuration value had the wrong shape; the fields name the key
    /// path and the expected kind.
    ConfigTypeError(String, String),
    /// An underlying filesystem failure, with the path as context.
    IoFailure(String),
}

impl StoreError {
    /// True on the variant that reports a missing entry.
    pub fn is_not_found(&self) -> (r: bool)
        ensures
            r == (self matches StoreError::NotFound),
    {
        match self {
            StoreError::NotFound => true,
            _ => false,
        }
    }

    /// True on the variant that reports a live conflicting lock.
    pub fn is_lock_conflict(&self) -> (r: bool)
        ensures
            r == (self matches StoreError::LockConflict),
    {
        match self {
            StoreError::LockConflict => true,
            _ => false,
        }
    }

    /// A short human-readable name of the variant, for reporting at a
    /// front end.
    pub fn describe(&self) -> (r: &'static str)
        ensures
            self matches StoreError::NotFound ==> r@ == "entry not found"@,
            self matches StoreError::AlreadyExists ==> r@ == "entry already exists"@,
            self matches StoreError::LockConflict ==> r@ == "entry is locked"@,
            self matches StoreError::NoVersion ==> r@ == "no version given"@,
            self matches StoreError::PatternError ==> r@ == "malformed pattern"@,
            self matches StoreError::ConfigKeyMissing(_) ==> r@ == "configuration key missing"@,
            self matches StoreError::ConfigTypeError(_, _) ==> r@
                == "configuration value has the wrong type"@,
            self matches StoreError::IoFailure(_) ==> r@ == "filesystem operation failed"@,
    {
        match self {
            StoreError::NotFound => "entry not found",
            StoreError::AlreadyExists => "entry already exists",
            StoreError::LockConflict => "entry is locked",
            StoreError::NoVersion => "no version given",
            StoreError::PatternError => "malformed pattern",
            StoreError::ConfigKeyMissing(_) => "configuration key missing",
            StoreError::ConfigTypeError(_, _) => "configuration value has the wrong type",
            StoreError::IoFailure(_) => "filesystem operation failed",
        }
    }
}

} // verus!
