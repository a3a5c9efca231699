//! Declarations of the outside types that the library carries.
use vstd::prelude::*;


verus! {

/// A file-system path; carried through, never inspected.
#[verifier::external_type_specification]
#[verifier::external_body]
pub struct ExPathBuf(std::path::PathBuf);

/// An operating-system I/O error; carried through, never inspected.
#[verifier::external_type_specification]
#[verifier::external_body]
pub struct ExIoError(std::io::Error);

/// A 128-bit identifier; carried through, never inspected.
#[verifier::external_type_specification]
#[verifier::external_body]
pub struct ExUuid(uuid::Uuid);

/// A JSON (de)serialisation error; carried through, never inspected.
#[verifier::external_type_specification]
#[verifier::external_body]
pub struct ExJsonError(serde_json::Error);

/// An error of the local project index database; carried through, never inspected.
#[verifier::external_type_specification]
#[verifier::external_body]
pub struct ExSqliteError(rusqlite::Error);

/// `uuid::Uuid` derives both `Copy` and `Clone`, so its `clone` returns the
/// same identifier; that is all this claims.
pub assume_specification [<uuid::Uuid as std::clone::Clone>::clone] (id: &uuid::Uuid) -> (r: uuid::Uuid)
    ensures
        r == *id,
;

/// `std::path::PathBuf::clone`, which the derived `Clone` of the project
/// types calls; nothing is claimed of the copy.
pub assume_specification [<std::path::PathBuf as std::clone::Clone>::clone] (path: &std::path::PathBuf) -> (r: std::path::PathBuf);

} // verus!
