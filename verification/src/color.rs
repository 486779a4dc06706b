//! Stable display colours for function names.
//!
//! A name is hashed to 64 bits; three bytes of the hash become the channels,
//! each moved into the lighter half of its range so that every colour stays
//! visible on a dark background.

use std::collections::hash_map::DefaultHasher;
use std::hash::{Hash, Hasher};
use vstd::prelude::*;

verus! {

/// An opaque colour with three 8-bit channels.
#[derive(Clone, Copy, Debug, PartialEq, Eq, Structural)]
pub struct Rgb {
    pub r: u8,
    pub g: u8,
    pub b: u8,
}

/// The 64-bit hash that the standard library's default hasher, freshly made,
/// gives for a name.
pub uninterp spec fn name_hash(name: Seq<char>) -> u64;

/// Moves a channel into the lighter half of its range: `c / 2 + 128`.
pub open spec fn pastel(c: u8) -> u8 {
    (c / 2 + 128) as u8
}

/// Byte `k` of a hash, counted from the least significant one.
pub open spec fn hash_byte(hash: u64, k: u64) -> u8 {
    ((hash >> (8 * k)) & 0xff) as u8
}

/// The colour that belongs to a hash: red from bits 16 to 23, green from
/// bits 8 to 15, blue from bits 0 to 7, each made pastel.
pub open spec fn color_of_hash(hash: u64) -> Rgb {
    Rgb {
        r: pastel(hash_byte(hash, 2)),
        g: pastel(hash_byte(hash, 1)),
        b: pastel(hash_byte(hash, 0)),
    }
}

/// Hashes a name with `DefaultHasher::new()`, `str::hash` and
/// `Hasher::finish`. The default hasher is built with fixed keys, so the
/// result depends on the characters of the name alone; the contract gives
/// that result its name and claims nothing else about it.
#[verifier::external_body]
fn hash_name(name: &str) -> (hash: u64)
    ensures
        hash == name_hash(name@),
{
    let mut hasher = DefaultHasher::new();
    name.hash(&mut hasher);
    hasher.finish()
}

/// Executable form of [`pastel`].
pub fn pastel_channel(c: u8) -> (r: u8)
    ensures
        r == pastel(c),
        128 <= r,
{
    c / 2 + 128
}

/// Turns a 64-bit hash into its colour.
pub fn color_from_hash(hash: u64) -> (color: Rgb)
    ensures
        color == color_of_hash(hash),
        128 <= color.r && 128 <= color.g && 128 <= color.b,
{
    let r: u8 = ((hash >> 16) & 0xff) as u8;
    let g: u8 = ((hash >> 8) & 0xff) as u8;
    let b: u8 = (hash & 0xff) as u8;
    assert(hash >> 0 == hash) by (bit_vector);
    Rgb { r: pastel_channel(r), g: pastel_channel(g), b: pastel_channel(b) }
}

/// The display colour of a function name. Equal names get equal colours.
pub fn generate_color(name: &str) -> (color: Rgb)
    ensures
        color == color_of_hash(name_hash(name@)),
        128 <= color.r && 128 <= color.g && 128 <= color.b,
{
    color_from_hash(hash_name(name))
}

} // verus!
