//! SHA-256 digests of byte strings, written as lowercase hexadecimal.
use sha2::{Digest, Sha256};
use vstd::prelude::*;

verus! {

/// The lowercase hexadecimal SHA-256 digest of `data`.
pub uninterp spec fn sha256_hex_spec(data: Seq<u8>) -> Seq<char>;

pub open spec fn is_lower_hex_char(c: char) -> bool {
    ('0' <= c && c <= '9') || ('a' <= c && c <= 'f')
}

/// Calls `sha2::Sha256::digest` and writes the 32-byte digest with `{:x}`, which
/// generic-array formats as two lowercase hexadecimal digits per byte; the result
/// is named `sha256_hex_spec` of the input bytes.
#[verifier::external_body]
pub(crate) fn sha256_hex(data: &[u8]) -> (r: String)
    ensures
        r@ == sha256_hex_spec(data@),
        r@.len() == 64,
        forall|i: int| 0 <= i < 64 ==> is_lower_hex_char(#[trigger] r@[i]),
{
    format!("{:x}", Sha256::digest(data))
}


/// A digest as written by a user: 64 hexadecimal digits, with or without a
/// `sha256:` prefix.
pub open spec fn digest_text(value: Seq<char>) -> Seq<char> {
    if crate::text::starts_with(value, "sha256:"@) {
        value.skip(7)
    } else {
        value
    }
}

/// `sha256:` and the lower-cased digest, or the refusal for a digest that is
/// not exactly 64 hexadecimal digits.
pub fn normalize_sha256(value: &str) -> (r: Result<String, String>)
    ensures
        ({
            let d = digest_text(value@);
            if d.len() == 64 && forall|i: int| 0 <= i < 64 ==> crate::text::is_ascii_hex(#[trigger] d[i]) {
                r matches Ok(s) && s@ == "sha256:"@ + crate::text::lower(d)
            } else {
                r matches Err(m) && m@
                    == "--requirements-sha256 must contain exactly 64 hexadecimal characters, optionally prefixed by 'sha256:'"@
            }
        }),
{
    let cs = crate::text::chars_of(value);
    let prefixed = crate::text::starts_with_exec(value, "sha256:");
    proof {
        reveal_strlit("sha256:");
    }
    let start: usize = if prefixed { 7 } else { 0 };
    let ghost d = digest_text(value@);
    assert(d =~= cs@.subrange(start as int, cs@.len() as int));
    let mut ok = cs.len() - start == 64;
    let mut i: usize = start;
    while ok && i < cs.len()
        invariant
            start <= i <= cs.len(),
            d == cs@.subrange(start as int, cs@.len() as int),
            ok ==> forall|j: int| 0 <= j < i - start ==> crate::text::is_ascii_hex(#[trigger] d[j]),
            ok ==> d.len() == 64,
            !ok ==> !(d.len() == 64 && forall|j: int| 0 <= j < 64 ==> crate::text::is_ascii_hex(#[trigger] d[j])),
        decreases cs.len() - i, if ok { 1int } else { 0int },
    {
        if !crate::text::is_hex_exec(cs[i]) {
            assert(!crate::text::is_ascii_hex(d[i - start]));
            ok = false;
        } else {
            i = i + 1;
        }
    }
    if !ok {
        return Err(
            crate::text::owned(
                "--requirements-sha256 must contain exactly 64 hexadecimal characters, optionally prefixed by 'sha256:'",
            ),
        );
    }
    let lowered = crate::text::lower_range(&cs, start, cs.len());
    let mut out = crate::text::owned("sha256:");
    let tail = crate::text::string_of_all(&lowered);
    crate::text::append_str(&mut out, tail.as_str());
    Ok(out)
}

} // verus!
