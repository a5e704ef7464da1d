//! The version of the store's format.

use vstd::prelude::*;

use crate::text::{decimal, decimal_text, joined, joined3, parse_u64, parse_u64_spec, trim_text, trimmed};
use crate::types::StoreError;

verus! {

/// The version that this code reads and writes.
pub const STORE_FORMAT_VERSION: u32 = 3;

/// The version that a marker file names, where it names one.
pub open spec fn version_named(stored: Seq<char>) -> Option<u32> {
    match parse_u64_spec(trimmed(stored)) {
        Some(v) => if v <= u32::MAX {
            Some(v as u32)
        } else {
            None
        },
        None => None,
    }
}

/// What to do about the marker file of a store.
#[derive(Debug)]
pub enum VersionStep {
    /// Nothing: it names the current version.
    Keep,
    /// Write this into it.
    Write(String),
}

/// Decides what to do about the marker file of a store, given what it holds, if
/// there is one. A store of another version, or with a marker that names none, is
/// refused.
pub fn check_version(stored: Option<&str>) -> (out: Result<VersionStep, StoreError>)
    ensures
        match stored {
            None => out matches Ok(VersionStep::Write(text)) && text@ == decimal(
                STORE_FORMAT_VERSION as nat,
            ) + "\n"@,
            Some(text) => match version_named(text@) {
                None => out matches Err(StoreError::Rejected(m)),
                Some(v) => if v == STORE_FORMAT_VERSION {
                    out matches Ok(VersionStep::Keep)
                } else {
                    out matches Err(StoreError::Rejected(m)) && m@ == "store format version "@
                        + decimal(v as nat) + " is not supported (current: "@ + decimal(
                        STORE_FORMAT_VERSION as nat,
                    ) + ")"@
                },
            },
        },
{
    let current = decimal_text(STORE_FORMAT_VERSION as u64);
    let text = match stored {
        Some(text) => trim_text(text),
        None => return Ok(VersionStep::Write(joined(current.as_str(), "\n"))),
    };
    let version: u64 = match parse_u64(text.as_str()) {
        Some(v) => v,
        None => return Err(
            StoreError::Rejected(joined("corrupt format version file: ", text.as_str())),
        ),
    };
    if version > u32::MAX as u64 {
        return Err(StoreError::Rejected(joined("corrupt format version file: ", text.as_str())));
    }
    if version != STORE_FORMAT_VERSION as u64 {
        let front = joined3(
            "store format version ",
            decimal_text(version).as_str(),
            " is not supported (current: ",
        );
        return Err(StoreError::Rejected(joined3(front.as_str(), current.as_str(), ")")));
    }
    Ok(VersionStep::Keep)
}

/// A marker that was written is accepted.
pub proof fn law_version_roundtrip()
    ensures
        version_named(decimal(STORE_FORMAT_VERSION as nat) + "\n"@) == Some(STORE_FORMAT_VERSION),
{
    reveal_strlit("\n");
    let s = decimal(STORE_FORMAT_VERSION as nat) + "\n"@;
    assert(decimal(3) =~= seq!['3']);
    assert(s =~= seq!['3', '\n']);
    assert(crate::text::trimmed_front(s) == s);
    assert(s.drop_last() =~= seq!['3']);
    assert(crate::text::trimmed_back(s) == crate::text::trimmed_back(s.drop_last()));
    assert(crate::text::trimmed_back(seq!['3']) == seq!['3']);
    crate::text::law_decimal_roundtrip(3);
}

} // verus!
