//! Turning the bytes of files and command output into text.
use vstd::prelude::*;
use vstd::utf8::{decode_utf8, valid_utf8};

use crate::text::{chars_of, string_of, trim, trimmed};

verus! {

/// What `encoding_rs::GBK.decode` makes of `bytes` (BOM sniffing included,
/// malformed sequences replaced by U+FFFD).
pub uninterp spec fn gbk_decoded(bytes: Seq<u8>) -> Seq<char>;

/// What `String::from_utf8_lossy` makes of `bytes`.
pub uninterp spec fn lossy_utf8(bytes: Seq<u8>) -> Seq<char>;

/// The largest input that the decoders below are given: `encoding_rs`
/// sizes its output buffer as about three bytes per input byte and panics
/// when that size overflows.
pub open spec fn max_decoded_input() -> nat {
    (usize::MAX / 8) as nat
}

/// `std::str::from_utf8`, owned: the text when `bytes` are valid UTF-8.
///
/// States what `std` documents: success exactly on valid UTF-8, and then
/// the decoded characters (both as vstd's UTF-8 model defines them).
#[verifier::external_body]
fn utf8_text(bytes: &[u8]) -> (r: Option<String>)
    ensures
        r is Some <==> valid_utf8(bytes@),
        r matches Some(s) ==> s@ == decode_utf8(bytes@),
{
    match std::str::from_utf8(bytes) {
        Ok(s) => Some(s.to_owned()),
        Err(_) => None,
    }
}

/// `String::from_utf8_lossy`, owned.
///
/// The result is named by `lossy_utf8`; of it the contract says only what
/// `std` documents for valid input: then nothing is replaced.
#[verifier::external_body]
pub(crate) fn utf8_lossy(bytes: &[u8]) -> (r: String)
    ensures
        r@ == lossy_utf8(bytes@),
        valid_utf8(bytes@) ==> r@ == decode_utf8(bytes@),
{
    String::from_utf8_lossy(bytes).into_owned()
}

/// `encoding_rs::GBK.decode`, owned.
///
/// The result is named by `gbk_decoded`. The input is bounded because
/// `decode` panics when the size of its output buffer overflows.
#[verifier::external_body]
fn gbk_text(bytes: &[u8]) -> (r: String)
    requires
        bytes@.len() <= max_decoded_input(),
    ensures
        r@ == gbk_decoded(bytes@),
{
    let (decoded, _, _) = encoding_rs::GBK.decode(bytes);
    decoded.into_owned()
}

/// The text of a hosts file as Windows may hold it: UTF-8 when the bytes
/// are valid UTF-8, else GBK.
pub open spec fn windows_text(bytes: Seq<u8>) -> Seq<char> {
    if valid_utf8(bytes) {
        decode_utf8(bytes)
    } else {
        gbk_decoded(bytes)
    }
}

/// Decodes the bytes of a hosts file: as UTF-8 when they are valid UTF-8,
/// else as GBK.
pub fn decode_windows_text(bytes: &[u8]) -> (text: String)
    requires
        bytes@.len() <= max_decoded_input(),
    ensures
        text@ == windows_text(bytes@),
{
    match utf8_text(bytes) {
        Some(text) => text,
        None => gbk_text(bytes),
    }
}

/// The text of a command's output on the given platform, trimmed.
pub open spec fn shell_text(bytes: Seq<u8>, windows: bool) -> Seq<char> {
    trim(
        if windows {
            windows_text(bytes)
        } else {
            lossy_utf8(bytes)
        },
    )
}

/// Decodes the output of a command and trims it: on Windows as a hosts
/// file is decoded, elsewhere as UTF-8 with malformed sequences replaced.
pub fn decode_shell_output(bytes: &[u8], windows: bool) -> (text: String)
    requires
        windows ==> bytes@.len() <= max_decoded_input(),
    ensures
        text@ == shell_text(bytes@, windows),
{
    let decoded = if windows {
        decode_windows_text(bytes)
    } else {
        utf8_lossy(bytes)
    };
    let chars = chars_of(decoded.as_str());
    let t = trimmed(&chars);
    string_of(&t)
}

} // verus!
