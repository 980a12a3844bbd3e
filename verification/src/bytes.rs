//! Reading blobs of bytes.

use vstd::prelude::*;

verus! {

/// The number in `n` bytes from `at` on, lowest byte first.
pub open spec fn little(b: Seq<u8>, at: int, n: nat) -> nat
    decreases n,
{
    if n == 0 {
        0
    } else {
        b[at] as nat + 256 * little(b, at + 1, (n - 1) as nat)
    }
}

/// The blob begins with the magic.
pub open spec fn begins(b: Seq<u8>, magic: [u8; 8]) -> bool {
    b.len() >= 8 && b.take(8) == magic@
}

pub open spec fn pow256(n: nat) -> nat
    decreases n,
{
    if n == 0 {
        1
    } else {
        256 * pow256((n - 1) as nat)
    }
}

pub proof fn lemma_little_bound(b: Seq<u8>, at: int, n: nat)
    ensures
        little(b, at, n) < pow256(n),
    decreases n,
{
    if n > 0 {
        lemma_little_bound(b, at + 1, (n - 1) as nat);
    }
}

pub proof fn lemma_pow256()
    ensures
        pow256(2) == 0x1_0000,
        pow256(4) == 0x1_0000_0000,
        pow256(8) == 0x1_0000_0000_0000_0000,
{
    reveal_with_fuel(pow256, 10);
}

proof fn lemma_pow256_grows(n: nat)
    requires
        n <= 8,
    ensures
        pow256(n) <= 0x1_0000_0000_0000_0000,
{
    reveal_with_fuel(pow256, 10);
    assert(n == 0 || n == 1 || n == 2 || n == 3 || n == 4 || n == 5 || n == 6 || n == 7 || n == 8);
}

/// The number in `n` bytes from `at` on, lowest byte first.
pub fn read_little(b: &[u8], at: usize, n: usize) -> (r: u64)
    requires
        n <= 8,
        at + n <= b@.len(),
    ensures
        r == little(b@, at as int, n as nat),
{
    let mut acc: u64 = 0;
    let mut i: usize = n;
    let len: usize = b.len();
    while i > 0
        invariant
            i <= n,
            b@.len() == len,
            n <= 8,
            at + n <= b@.len(),
            acc == little(b@, at + i, (n - i) as nat),
        decreases i,
    {
        i = i - 1;
        proof {
            let rest = (n - i - 1) as nat;
            lemma_little_bound(b@, at + i + 1, rest);
            lemma_pow256_grows((rest + 1) as nat);
            assert(pow256((rest + 1) as nat) == 256 * pow256(rest));
            assert(little(b@, at + i, (rest + 1) as nat) == b@[at + i] + 256 * acc);
        }
        acc = b[at + i] as u64 + 256 * acc;
    }
    acc
}

pub fn has_magic(b: &[u8], magic: &[u8; 8]) -> (r: bool)
    ensures
        r == begins(b@, *magic),
{
    if b.len() < 8 {
        return false;
    }
    let mut i: usize = 0;
    while i < 8
        invariant
            i <= 8,
            b@.len() >= 8,
            forall|k: int| 0 <= k < i ==> b@[k] == magic@[k],
        decreases 8 - i,
    {
        if b[i] != magic[i] {
            assert(b@.take(8)[i as int] != magic@[i as int]);
            return false;
        }
        i = i + 1;
    }
    assert(b@.take(8) =~= magic@);
    true
}

/// A number in `n` bytes, lowest byte first.
pub open spec fn bytes_of(v: nat, n: nat) -> Seq<u8>
    decreases n,
{
    if n == 0 {
        seq![]
    } else {
        seq![(v % 256) as u8] + bytes_of(v / 256, (n - 1) as nat)
    }
}

/// A number that was written in bytes is read back.
pub proof fn law_number_reads_back(b: Seq<u8>, at: int, n: nat, v: nat)
    requires
        0 <= at,
        at + n <= b.len(),
        b.subrange(at, at + n) == bytes_of(v, n),
        v < pow256(n),
    ensures
        little(b, at, n) == v,
    decreases n,
{
    if n > 0 {
        let part = b.subrange(at, at + n);
        let rest = bytes_of(v / 256, (n - 1) as nat);
        assert(part[0] == b[at]);
        assert(part.skip(1) =~= b.subrange(at + 1, at + n));
        assert((seq![(v % 256) as u8] + rest).skip(1) =~= rest);
        law_number_reads_back(b, at + 1, (n - 1) as nat, v / 256);
    }
}

} // verus!
