//! Content-derived fingerprints for the object files packed inside a
//! static archive: members are walked in sorted name order, each parsed
//! object's sections, relocations and symbols are folded into a
//! canonical token stream, and the stream is rendered either as a
//! cryptographic digest or as a verbatim dump for diffing.

pub mod archive;
pub mod digest;
pub mod laws;
pub mod members;
pub mod model;
pub mod raw;
pub mod sorting;
pub mod text;
pub mod tokens;

pub use archive::{archive_members, ArchiveMember};
pub use digest::fingerprint_object;
pub use members::{expected_archive_message, fingerprint_members};
pub use model::{
    object_well_formed, records_well_formed, Backend, FingerprintError, MemberRecord,
    ParsedObject, Relocation, Section, SectionKind, Symbol,
};
pub use tokens::Token;
