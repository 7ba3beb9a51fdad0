use std::collections::HashMap;
use vstd::bytes::{
    lemma_auto_spec_u64_to_from_le_bytes, spec_u64_from_le_bytes, spec_u64_to_le_bytes,
    u64_from_le_bytes, u64_to_le_bytes,
};
use vstd::prelude::*;

verus! {

/// A user account: its name, its password hash and, by friend id, what it shares
/// with each friend.
#[derive(Debug)]
pub struct User {
    pub username: String,
    pub password_hash: String,
    pub friends: HashMap<u64, FriendData>,
}

/// The movies shared with a friend.
#[derive(Debug)]
pub struct FriendData {
    pub movies: Vec<u64>,
}

/// A movie record; its name is what the search index holds.
#[derive(Debug)]
pub struct Movie {
    pub name: String,
}

/// The key under which a record with id `id` is stored: its eight little-endian bytes.
pub fn serialize_id(id: u64) -> (r: Vec<u8>)
    ensures
        r@ == spec_u64_to_le_bytes(id),
        r@.len() == 8,
        spec_u64_from_le_bytes(r@) == id,
{
    proof {
        lemma_auto_spec_u64_to_from_le_bytes();
    }
    u64_to_le_bytes(id)
}

/// The id stored under the eight little-endian bytes `id`.
pub fn deserialize_id(id: &[u8]) -> (r: u64)
    requires
        id@.len() == 8,
    ensures
        r == spec_u64_from_le_bytes(id@),
        spec_u64_to_le_bytes(r) == id@,
{
    proof {
        lemma_auto_spec_u64_to_from_le_bytes();
    }
    u64_from_le_bytes(id)
}

} // verus!
