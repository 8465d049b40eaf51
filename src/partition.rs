//! Routing of intermediate keys to reduce partitions.
use std::collections::hash_map::DefaultHasher;
use std::hash::{BuildHasher, BuildHasherDefault};
use vstd::prelude::*;

verus! {

/// The 64-bit digest that std's `DefaultHasher` gives for a string key.
pub uninterp spec fn key_hash_of(key: Seq<char>) -> u64;

/// Relies on `BuildHasher::hash_one` over `BuildHasherDefault<DefaultHasher>`:
/// every `DefaultHasher` made by default starts from the same fixed keys, with
/// no per-process seed, so the digest depends on the key alone.
#[verifier::external_body]
fn hash_key(key: &str) -> (r: u64)
    ensures
        r == key_hash_of(key@),
{
    BuildHasherDefault::<DefaultHasher>::default().hash_one(key)
}

/// The partition that a key is routed to when there are `reduce_task_count`
/// reduce tasks.
pub open spec fn partition_of(key: Seq<char>, reduce_task_count: u64) -> u64
    recommends
        reduce_task_count > 0,
{
    (key_hash_of(key) % reduce_task_count) as u64
}

/// The stable hash of a key.
pub fn calculate_hash(key: &str) -> (r: u64)
    ensures
        r == key_hash_of(key@),
{
    hash_key(key)
}

/// The partition for a key whose hash is `hash`: the hash modulo the number
/// of reduce tasks.
pub fn hash_partition(hash: u64, reduce_task_count: u64) -> (p: u64)
    requires
        reduce_task_count > 0,
    ensures
        p == hash % reduce_task_count,
        p < reduce_task_count,
{
    hash % reduce_task_count
}

/// The reduce partition of `key`: its stable hash modulo the number of reduce
/// tasks.
pub fn partition(key: &str, reduce_task_count: u64) -> (p: u64)
    requires
        reduce_task_count > 0,
    ensures
        p == partition_of(key@, reduce_task_count),
        p < reduce_task_count,
{
    hash_partition(calculate_hash(key), reduce_task_count)
}

/// A key is routed by its characters and the number of reduce tasks alone:
/// equal keys, from whichever map task or process, land in the same partition,
/// and that partition is one of the reduce tasks.
pub proof fn lemma_partition_deterministic(k1: Seq<char>, k2: Seq<char>, reduce_task_count: u64)
    requires
        k1 == k2,
        reduce_task_count > 0,
    ensures
        partition_of(k1, reduce_task_count) == partition_of(k2, reduce_task_count),
        partition_of(k1, reduce_task_count) < reduce_task_count,
{
}

} // verus!
