use vstd::prelude::*;
use rand::Rng;
use rand::RngCore;

verus! {

/// The length of an infohash and of a node id.
pub const KEY_LENGTH: usize = 20;

/// The length of a transaction id.
pub const TID_LENGTH: usize = 2;

/// How many leading bytes a neighbor id shares with its target.
pub const CLOSENESS: usize = 15;

/// Overwrites `buf` with random bytes from `rand::thread_rng()`, through
/// `RngCore::fill_bytes`. The length stays; nothing is said of the bytes.
#[verifier::external_body]
fn fill_random(buf: &mut Vec<u8>)
    ensures
        final(buf)@.len() == old(buf)@.len(),
{
    rand::thread_rng().fill_bytes(buf);
}

/// A random number from `low` up to but not including `high`, from
/// `Rng::gen_range` on `rand::thread_rng()`, which panics unless
/// `low < high`.
#[verifier::external_body]
fn random_in(low: u64, high: u64) -> (r: u64)
    requires
        low < high,
    ensures
        low <= r < high,
{
    rand::thread_rng().gen_range(low, high)
}

/// `n` random bytes.
pub fn rand_bytes(n: usize) -> (r: Vec<u8>)
    ensures
        r@.len() == n,
{
    let mut ret: Vec<u8> = Vec::new();
    let mut i: usize = 0;
    while i < n
        invariant
            i <= n,
            ret@.len() == i,
        decreases n - i,
    {
        ret.push(0);
        i += 1;
    }
    fill_random(&mut ret);
    ret
}

/// A random infohash key: 20 bytes.
pub fn rand_infohash_key() -> (r: Vec<u8>)
    ensures
        r@.len() == KEY_LENGTH,
{
    rand_bytes(KEY_LENGTH)
}

/// A random transaction id: 2 bytes.
pub fn rand_transation_id() -> (r: Vec<u8>)
    ensures
        r@.len() == TID_LENGTH,
{
    rand_bytes(TID_LENGTH)
}

/// The first 20 bytes of `v` as a key.
pub fn key_of(v: &[u8]) -> (k: [u8; 20])
    requires
        v@.len() >= KEY_LENGTH,
    ensures
        k@ == v@.take(KEY_LENGTH as int),
{
    let mut k: [u8; 20] = [0u8; 20];
    let mut i: usize = 0;
    while i < KEY_LENGTH
        invariant
            i <= KEY_LENGTH,
            v@.len() >= KEY_LENGTH,
            forall|j: int| 0 <= j < i ==> k@[j] == v@[j],
        decreases KEY_LENGTH - i,
    {
        k[i] = v[i];
        i += 1;
    }
    proof {
        assert(k@ =~= v@.take(KEY_LENGTH as int));
    }
    k
}

/// A random pause between two rounds of joining: 2 to 5 seconds.
pub fn rand_join_pause() -> (seconds: u64)
    ensures
        2 <= seconds <= 5,
{
    random_in(2, 6)
}

/// The id to show to `target`: its first 15 bytes, then bytes 15 to 20 of
/// `local`.
pub open spec fn neighbor_of(target: Seq<u8>, local: Seq<u8>) -> Seq<u8> {
    target.take(CLOSENESS as int) + local.subrange(CLOSENESS as int, KEY_LENGTH as int)
}

/// The id that makes this node a close neighbor of `target`: 20 bytes, the
/// first 15 those of `target`, the last 5 those of `local`.
pub fn neighbor_id(target: &[u8], local: &[u8]) -> (id: Vec<u8>)
    requires
        target@.len() >= CLOSENESS,
        local@.len() >= KEY_LENGTH,
    ensures
        id@ == neighbor_of(target@, local@),
        id@.len() == KEY_LENGTH,
        id@.subrange(0, CLOSENESS as int) == target@.subrange(0, CLOSENESS as int),
        id@.subrange(CLOSENESS as int, KEY_LENGTH as int) == local@.subrange(
            CLOSENESS as int,
            KEY_LENGTH as int,
        ),
{
    let mut id: Vec<u8> = Vec::new();
    let mut i: usize = 0;
    while i < KEY_LENGTH
        invariant
            i <= KEY_LENGTH,
            target@.len() >= CLOSENESS,
            local@.len() >= KEY_LENGTH,
            id@.len() == i,
            forall|k: int|
                0 <= k < i ==> id@[k] == (if k < CLOSENESS {
                    target@[k]
                } else {
                    local@[k]
                }),
        decreases KEY_LENGTH - i,
    {
        if i < CLOSENESS {
            id.push(target[i]);
        } else {
            id.push(local[i]);
        }
        i += 1;
    }
    proof {
        assert(id@ =~= neighbor_of(target@, local@));
        assert(id@.subrange(0, CLOSENESS as int) =~= target@.subrange(0, CLOSENESS as int));
        assert(id@.subrange(CLOSENESS as int, KEY_LENGTH as int) =~= local@.subrange(
            CLOSENESS as int,
            KEY_LENGTH as int,
        ));
    }
    id
}

} // verus!
