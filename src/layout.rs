//! Where a key's bucket lives under the cache root.
use crate::hashing::{hash_key, key_hash};
use vstd::prelude::*;
use vstd::string::*;

verus! {

/// Directory under the cache root that holds every bucket of this log format.
pub open spec fn index_dir_of(cache: Seq<char>) -> Seq<char> {
    cache + "/index-v5"@
}

/// `<cache>/index-v5/<h[0..2]>/<h[2..4]>/<h[4..]>`, `h` being the key's hex hash.
pub open spec fn bucket_path_of(cache: Seq<char>, key: Seq<u8>) -> Seq<char> {
    let h = key_hash(key);
    index_dir_of(cache) + "/"@ + h.subrange(0, 2) + "/"@ + h.subrange(2, 4) + "/"@ + h.subrange(
        4,
        h.len() as int,
    )
}

/// The directory that `ls` walks.
pub fn index_dir(cache: &str) -> (r: String)
    ensures
        r@ == index_dir_of(cache@),
{
    let mut p = String::from_str(cache);
    p.append("/index-v5");
    p
}

/// The bucket file that holds every record of `key`.
pub fn bucket_path(cache: &str, key: &str) -> (r: String)
    ensures
        r@ == bucket_path_of(cache@, key.spec_bytes()),
{
    let h = hash_key(key);
    let hs = h.as_str();
    let mut p = index_dir(cache);
    p.append("/");
    p.append(hs.substring_char(0, 2));
    p.append("/");
    p.append(hs.substring_char(2, 4));
    p.append("/");
    p.append(hs.substring_char(4, 40));
    p
}

/// A bucket's location depends on the root and the key alone.
pub proof fn lemma_bucket_path_deterministic(cache: Seq<char>, k1: Seq<u8>, k2: Seq<u8>)
    requires
        k1 == k2,
    ensures
        bucket_path_of(cache, k1) == bucket_path_of(cache, k2),
{
}

} // verus!
