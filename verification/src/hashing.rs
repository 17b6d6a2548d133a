//! The fast hash that cache keys are made of.
use vstd::prelude::*;

verus! {

/// The 64-bit XXH3 hash of some bytes.
pub uninterp spec fn xxh3(data: Seq<u8>) -> u64;

/// `xxhash_rust::xxh3::xxh3_64` hashes the bytes with the default secret and no
/// seed: the result is a function of the bytes.
#[verifier::external_body]
pub(crate) fn xxh3_64(data: &[u8]) -> (r: u64)
    ensures
        r == xxh3(data@),
{
    xxhash_rust::xxh3::xxh3_64(data)
}

/// The lowest `count` bytes of a number, least significant first.
pub open spec fn low_bytes(n: nat, count: nat) -> Seq<u8>
    decreases count,
{
    if count == 0 {
        seq![]
    } else {
        seq![(n % 256) as u8] + low_bytes(n / 256, (count - 1) as nat)
    }
}

/// The eight bytes of a number, least significant first.
pub open spec fn little_endian(n: u64) -> Seq<u8> {
    low_bytes(n as nat, 8)
}

fn push_low_bytes(out: &mut Vec<u8>, n: u64, count: u8)
    ensures
        final(out)@ == old(out)@ + low_bytes(n as nat, count as nat),
    decreases count,
{
    if count > 0 {
        out.push((n % 256) as u8);
        push_low_bytes(out, n / 256, count - 1);
    }
    assert(out@ =~= old(out)@ + low_bytes(n as nat, count as nat));
}

/// Appends the eight bytes of a number, least significant first.
pub(crate) fn push_little_endian(out: &mut Vec<u8>, n: u64)
    ensures
        final(out)@ == old(out)@ + little_endian(n),
{
    push_low_bytes(out, n, 8);
}

/// So many bytes hold the numbers below this.
spec fn byte_range(count: nat) -> nat
    decreases count,
{
    if count == 0 {
        1
    } else {
        256 * byte_range((count - 1) as nat)
    }
}

proof fn lemma_low_bytes(a: nat, b: nat, count: nat)
    ensures
        low_bytes(a, count).len() == count,
        a < byte_range(count) && b < byte_range(count) && low_bytes(a, count) == low_bytes(b, count)
            ==> a == b,
    decreases count,
{
    if count > 0 {
        let rest = (count - 1) as nat;
        lemma_low_bytes(a / 256, b / 256, rest);
        let (x, y) = (low_bytes(a, count), low_bytes(b, count));
        if x == y {
            assert(x[0] == (a % 256) as u8 && y[0] == (b % 256) as u8);
            assert(x.skip(1) =~= low_bytes(a / 256, rest));
            assert(y.skip(1) =~= low_bytes(b / 256, rest));
        }
    }
}

/// The bytes of a number are eight, and no other number has them.
pub proof fn little_endian_tells_numbers_apart(a: u64, b: u64)
    ensures
        little_endian(a).len() == 8,
        little_endian(a) == little_endian(b) ==> a == b,
{
    reveal_with_fuel(byte_range, 9);
    lemma_low_bytes(a as nat, b as nat, 8);
}

/// The bytes of a number, each worth 256 times the one before it, make up the number.
pub proof fn little_endian_is_read_back(n: u64)
    ensures
        ({
            let b = little_endian(n);
            b[0] + 0x100 * b[1] + 0x1_0000 * b[2] + 0x100_0000 * b[3] + 0x1_0000_0000 * b[4]
                + 0x100_0000_0000 * b[5] + 0x1_0000_0000_0000 * b[6] + 0x100_0000_0000_0000 * b[7]
                == n
        }),
{
    let b = little_endian(n);
    let n0 = n as nat;
    let n1 = n0 / 256;
    let n2 = n1 / 256;
    let n3 = n2 / 256;
    let n4 = n3 / 256;
    let n5 = n4 / 256;
    let n6 = n5 / 256;
    let n7 = n6 / 256;
    reveal_with_fuel(low_bytes, 9);
    assert(low_bytes(n7, 1) =~= seq![(n7 % 256) as u8]);
    assert(low_bytes(n6, 2) =~= seq![(n6 % 256) as u8, (n7 % 256) as u8]);
    assert(low_bytes(n4, 4) =~= seq![
        (n4 % 256) as u8,
        (n5 % 256) as u8,
        (n6 % 256) as u8,
        (n7 % 256) as u8,
    ]);
    assert(b =~= seq![
        (n0 % 256) as u8,
        (n1 % 256) as u8,
        (n2 % 256) as u8,
        (n3 % 256) as u8,
        (n4 % 256) as u8,
        (n5 % 256) as u8,
        (n6 % 256) as u8,
        (n7 % 256) as u8,
    ]);
}

} // verus!
