//! The hash primitive that places node replicas and lookup keys on the ring.
use std::hash::{Hash, Hasher};
use vstd::prelude::*;

verus! {

/// The value that std's `DefaultHasher`, created by `new`, finishes with after
/// hashing a string. `new` uses fixed keys, so this depends on the characters alone.
pub uninterp spec fn default_hash_of(s: Seq<char>) -> u64;

/// Relies on `DefaultHasher::new` with `str`'s `Hash` impl: the 64-bit digest of
/// the string, a function of its characters.
#[verifier::external_body]
fn default_hash_str(value: &str) -> (r: u64)
    ensures
        r == default_hash_of(value@),
{
    let mut h = std::collections::hash_map::DefaultHasher::new();
    value.hash(&mut h);
    h.finish()
}

/// Maps a string to its position in the ring's 64-bit coordinate space.
pub fn hash(value: &str) -> (r: u64)
    ensures
        r == default_hash_of(value@),
{
    default_hash_str(value)
}

/// The decimal digit for `d` (`d < 10`).
pub open spec fn digit_char(d: nat) -> char {
    seq!['0', '1', '2', '3', '4', '5', '6', '7', '8', '9'][d as int]
}

/// The decimal numeral of `n`: no sign, no leading zeros.
pub open spec fn decimal(n: nat) -> Seq<char>
    decreases n,
{
    if n < 10 {
        seq![digit_char(n)]
    } else {
        decimal(n / 10) + seq![digit_char(n % 10)]
    }
}

/// Relies on `usize`'s `ToString` (through `Display`): the decimal numeral.
#[verifier::external_body]
fn decimal_string(n: usize) -> (r: String)
    ensures
        r@ == decimal(n as nat),
{
    n.to_string()
}

/// The string hashed to place replica `i` of the node whose identity is `id`.
pub open spec fn replica_key(id: Seq<char>, i: nat) -> Seq<char> {
    id + decimal(i)
}

/// The ring position of replica `i` of the node whose identity is `id`.
pub open spec fn replica_position(id: Seq<char>, i: nat) -> u64 {
    default_hash_of(replica_key(id, i))
}

/// Computes the ring position of replica `i` of the node whose identity is `id`.
pub fn replica_hash(id: &str, i: usize) -> (r: u64)
    ensures
        r == replica_position(id@, i as nat),
{
    let mut key = String::from_str(id);
    let digits = decimal_string(i);
    key.append(digits.as_str());
    hash(key.as_str())
}

} // verus!
