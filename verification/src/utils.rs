//! Small helpers: fresh identifiers, the clock, and bytes as text.

use vstd::prelude::*;
use vstd::utf8::{decode_utf8, valid_utf8};

verus! {

/// The text that a lossy reading of `bytes` as UTF-8 gives.
pub uninterp spec fn lossy_text(bytes: Seq<u8>) -> Seq<char>;

/// `Uuid::new_v4` and its `to_string`: a random identifier in its
/// hyphenated form, which is 36 characters long whatever was drawn.
#[verifier::external_body]
pub fn generate_id() -> (id: String)
    ensures
        id@.len() == 36,
{
    uuid::Uuid::new_v4().to_string()
}

/// `SystemTime::now` and `duration_since`: the seconds since the Unix
/// epoch by this machine's clock, zero for a clock set before it. Nothing
/// is claimed of the value.
#[verifier::external_body]
pub fn current_timestamp() -> u64 {
    std::time::SystemTime::now().duration_since(std::time::UNIX_EPOCH).unwrap_or_default().as_secs()
}

/// `String::from_utf8_lossy`: `bytes` read as UTF-8, every invalid
/// sequence replaced by the replacement character. Bytes that are valid
/// UTF-8 are read exactly.
#[verifier::external_body]
fn read_lossy(bytes: &[u8]) -> (text: String)
    ensures
        text@ == lossy_text(bytes@),
        valid_utf8(bytes@) ==> text@ == decode_utf8(bytes@),
{
    String::from_utf8_lossy(bytes).to_string()
}

/// Reads bytes as text; what is not valid UTF-8 is replaced.
pub fn bytes_to_string(bytes: &[u8]) -> (text: String)
    ensures
        text@ == lossy_text(bytes@),
        valid_utf8(bytes@) ==> text@ == decode_utf8(bytes@),
{
    read_lossy(bytes)
}

} // verus!
