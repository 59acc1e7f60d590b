//! The decryption predicate: whether a password opens an encrypted archive.
use vstd::prelude::*;

verus! {

/// Whether `password` opens the archive held in `archive`: the archive parses,
/// its first entry decrypts with the password, and that entry reads to its end.
/// The answer depends on the password and the archive bytes alone.
pub uninterp spec fn unlocks(password: Seq<char>, archive: Seq<u8>) -> bool;

/// Relies on `zip::ZipArchive::new`, `ZipArchive::by_index_decrypt` and
/// reading the returned entry to its end: `true` exactly when all three
/// succeed. An archive without entries fails at `by_index_decrypt`
/// (`FileNotFound`). No step writes anywhere; the bytes are only read.
#[verifier::external_body]
pub fn try_password(password: &str, zip_data: &[u8]) -> (r: bool)
    ensures
        r == unlocks(password@, zip_data@),
{
    let mut archive = match zip::ZipArchive::new(std::io::Cursor::new(zip_data)) {
        Ok(archive) => archive,
        Err(_) => return false,
    };
    let mut file = match archive.by_index_decrypt(0, password.as_bytes()) {
        Ok(file) => file,
        Err(_) => return false,
    };
    let mut buffer = Vec::new();
    std::io::Read::read_to_end(&mut file, &mut buffer).is_ok()
}

} // verus!
