//! Theme identifiers, derived deterministically from names.
//!
//! Colors, element kinds and style variants are addressed by 64-bit
//! identifiers hashed from strings, so that the same name always maps to the
//! same identifier, in every build and on every machine.

use vstd::prelude::*;
use vstd::string::StringSliceAdditionalSpecFns;

verus! {

/// Identifies a themable color.
#[derive(Copy, Clone, Eq, PartialEq, Structural, Hash, Debug)]
pub struct ColorId(pub u64);

/// Identifies a kind of element (button, panel, ...).
#[derive(Copy, Clone, Eq, PartialEq, Structural, Hash, Debug)]
pub struct ElementKind(pub u64);

/// Identifies a style variant (default, error, ...).
#[derive(Copy, Clone, Eq, PartialEq, Structural, Hash, Debug)]
pub struct StyleVariant(pub u64);

/// The 8-byte keyed BLAKE2b digest of `data` under `key`.
pub uninterp spec fn blake2b64_of(key: Seq<u8>, data: Seq<u8>) -> Seq<u8>;

/// Relies on blake2_rfc::blake2b::blake2b: an `nn`-byte keyed digest that
/// depends on the key and the data alone, here with `nn = 8`; it accepts
/// keys of at most 64 bytes.
#[verifier::external_body]
fn blake2b64(key: &[u8], data: &[u8]) -> (r: Vec<u8>)
    requires
        key@.len() <= 64,
    ensures
        r@ == blake2b64_of(key@, data@),
        r@.len() == 8,
{
    blake2_rfc::blake2b::blake2b(8, key, data).as_bytes().to_vec()
}

/// The 64-bit value read from eight bytes, least significant first.
pub open spec fn le_u64_of(b: Seq<u8>) -> u64
    recommends
        b.len() == 8,
{
    (b[0] as u64) | ((b[1] as u64) << 8) | ((b[2] as u64) << 16) | ((b[3] as u64) << 24) | ((
    b[4] as u64) << 32) | ((b[5] as u64) << 40) | ((b[6] as u64) << 48) | ((b[7] as u64) << 56)
}

/// Hashes `text` under a fixed domain-separation `key` into a 64-bit
/// identifier: the keyed digest read as a little-endian integer.
fn hash(key: &str, text: &str) -> (r: u64)
    requires
        vstd::string::is_ascii(key),
        key@.len() <= 64,
    ensures
        r == le_u64_of(blake2b64_of(key.spec_bytes(), text.spec_bytes())),
{
    proof {
        vstd::utf8::is_ascii_chars_encode_utf8(key@);
    }
    let digest = blake2b64(key.as_bytes(), text.as_bytes());
    (digest[0] as u64) | ((digest[1] as u64) << 8) | ((digest[2] as u64) << 16) | ((
    digest[3] as u64) << 24) | ((digest[4] as u64) << 32) | ((digest[5] as u64) << 40) | ((
    digest[6] as u64) << 48) | ((digest[7] as u64) << 56)
}

/// Generate color identifier from the string.
pub fn color_id(text: &str) -> (r: ColorId)
    ensures
        r == ColorId(le_u64_of(blake2b64_of("color_id".spec_bytes(), text.spec_bytes()))),
{
    proof {
        reveal_strlit("color_id");
        assert(vstd::utf8::is_ascii_chars("color_id"@));
    }
    ColorId(hash("color_id", text))
}

/// Generate element kind identifier from the string.
pub fn element_kind(text: &str) -> (r: ElementKind)
    ensures
        r == ElementKind(le_u64_of(blake2b64_of("element_kind".spec_bytes(), text.spec_bytes()))),
{
    proof {
        reveal_strlit("element_kind");
        assert(vstd::utf8::is_ascii_chars("element_kind"@));
    }
    ElementKind(hash("element_kind", text))
}

/// Generate style variant identifier from the string.
pub fn style_variant(text: &str) -> (r: StyleVariant)
    ensures
        r == StyleVariant(le_u64_of(blake2b64_of("style_variant".spec_bytes(), text.spec_bytes()))),
{
    proof {
        reveal_strlit("style_variant");
        assert(vstd::utf8::is_ascii_chars("style_variant"@));
    }
    StyleVariant(hash("style_variant", text))
}

} // verus!
