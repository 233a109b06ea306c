//! Integers packed into as few little-endian bytes as their value needs.
//!
//! Outputs and node addresses are stored this way: a node records how many
//! bytes its integers take, and each integer is then written with exactly
//! that many bytes, least significant first.

use vstd::prelude::*;

verus! {

/// `256` to the power `n`: the number of values that `n` bytes can hold.
pub open spec fn pow256(n: nat) -> nat
    decreases n,
{
    if n == 0 {
        1
    } else {
        256 * pow256((n - 1) as nat)
    }
}

/// The number that `bytes` spell, least significant byte first.
pub open spec fn le_value(bytes: Seq<u8>) -> nat
    decreases bytes.len(),
{
    if bytes.len() == 0 {
        0
    } else {
        bytes[0] as nat + 256 * le_value(bytes.drop_first())
    }
}

/// The `n` low-order bytes of `v`, least significant first.
pub open spec fn le_bytes(v: nat, n: nat) -> Seq<u8>
    decreases n,
{
    if n == 0 {
        Seq::<u8>::empty()
    } else {
        seq![(v % 256) as u8] + le_bytes(v / 256, (n - 1) as nat)
    }
}

/// The least number of bytes that can hold `v`; zero takes none.
pub open spec fn packed_len(v: nat) -> nat
    decreases v,
{
    if v == 0 {
        0
    } else {
        1 + packed_len(v / 256)
    }
}

/// The values of `pow256` up to eight bytes, where it reaches `2^64`.
pub proof fn lemma_pow256_values()
    ensures
        pow256(0) == 1,
        pow256(1) == 0x100,
        pow256(2) == 0x1_0000,
        pow256(3) == 0x100_0000,
        pow256(4) == 0x1_0000_0000,
        pow256(5) == 0x100_0000_0000,
        pow256(6) == 0x1_0000_0000_0000,
        pow256(7) == 0x100_0000_0000_0000,
        pow256(8) == 0x1_0000_0000_0000_0000,
{
    reveal_with_fuel(pow256, 10);
}

/// More bytes hold more values.
pub proof fn lemma_pow256_monotone(m: nat, n: nat)
    requires
        m <= n,
    ensures
        1 <= pow256(m) <= pow256(n),
    decreases n,
{
    if n == 0 {
    } else if m == n {
        lemma_pow256_monotone((m - 1) as nat, (n - 1) as nat);
    } else {
        lemma_pow256_monotone(m, (n - 1) as nat);
    }
}

/// `n` bytes spell a number below `256^n`.
pub proof fn lemma_le_value_bound(bytes: Seq<u8>)
    ensures
        le_value(bytes) < pow256(bytes.len()),
    decreases bytes.len(),
{
    if bytes.len() > 0 {
        lemma_le_value_bound(bytes.drop_first());
    }
}

/// `le_bytes` yields exactly as many bytes as asked for.
pub proof fn lemma_le_bytes_len(v: nat, n: nat)
    ensures
        le_bytes(v, n).len() == n,
    decreases n,
{
    if n > 0 {
        lemma_le_bytes_len(v / 256, (n - 1) as nat);
    }
}

/// Reading back what was written gives the value, when it fits in `n` bytes.
pub proof fn lemma_le_round_trip(v: nat, n: nat)
    requires
        v < pow256(n),
    ensures
        le_value(le_bytes(v, n)) == v,
    decreases n,
{
    if n > 0 {
        let rest = le_bytes(v / 256, (n - 1) as nat);
        let all = le_bytes(v, n);
        assert(all.drop_first() =~= rest);
        assert(all[0] == (v % 256) as u8);
        lemma_le_round_trip(v / 256, (n - 1) as nat);
    }
}

/// A value takes at most `n` bytes exactly when it is below `256^n`.
pub proof fn lemma_packed_len(v: nat, n: nat)
    ensures
        packed_len(v) <= n <==> v < pow256(n),
    decreases n,
{
    if n == 0 {
    } else if v == 0 {
        lemma_pow256_monotone(0, n);
    } else {
        lemma_packed_len(v / 256, (n - 1) as nat);
    }
}

/// Returns the least number of bytes that can hold `v`.
pub fn pack_size(v: u64) -> (n: usize)
    ensures
        n == packed_len(v as nat),
        n <= 8,
        v < pow256(n as nat),
{
    proof {
        lemma_pow256_values();
        lemma_packed_len(v as nat, 0);
        lemma_packed_len(v as nat, 1);
        lemma_packed_len(v as nat, 2);
        lemma_packed_len(v as nat, 3);
        lemma_packed_len(v as nat, 4);
        lemma_packed_len(v as nat, 5);
        lemma_packed_len(v as nat, 6);
        lemma_packed_len(v as nat, 7);
        lemma_packed_len(v as nat, 8);
    }
    if v == 0 {
        0
    } else if v < 0x100 {
        1
    } else if v < 0x1_0000 {
        2
    } else if v < 0x100_0000 {
        3
    } else if v < 0x1_0000_0000 {
        4
    } else if v < 0x100_0000_0000 {
        5
    } else if v < 0x1_0000_0000_0000 {
        6
    } else if v < 0x100_0000_0000_0000 {
        7
    } else {
        8
    }
}

/// Appends the `n` low-order bytes of `v` to `buf`, least significant first.
pub fn write_uint(buf: &mut Vec<u8>, v: u64, n: usize)
    requires
        n <= 8,
    ensures
        final(buf)@ == old(buf)@ + le_bytes(v as nat, n as nat),
{
    let mut x: u64 = v;
    let mut i: usize = 0;
    while i < n
        invariant
            i <= n,
            buf@ + le_bytes(x as nat, (n - i) as nat) == old(buf)@ + le_bytes(v as nat, n as nat),
        decreases n - i,
    {
        let ghost before = buf@;
        buf.push((x % 256) as u8);
        proof {
            let rest = le_bytes((x / 256) as nat, (n - i - 1) as nat);
            assert(le_bytes(x as nat, (n - i) as nat) == seq![(x % 256) as u8] + rest);
            assert(buf@ + rest =~= before + (seq![(x % 256) as u8] + rest));
        }
        x = x / 256;
        i += 1;
    }
    assert(buf@ + le_bytes(x as nat, 0) =~= buf@);
}

/// Reads the number that the `n` bytes of `data` from `at` on spell.
pub fn read_uint(data: &[u8], at: usize, n: usize) -> (v: u64)
    requires
        n <= 8,
        at + n <= data.len(),
    ensures
        v == le_value(data@.subrange(at as int, at + n)),
{
    let mut acc: u64 = 0;
    let mut i: usize = n;
    assert(data@.subrange(at + n, at + n) =~= Seq::<u8>::empty());
    while i > 0
        invariant
            i <= n <= 8,
            at + n <= data.len(),
            acc == le_value(data@.subrange(at + i, at + n)),
        decreases i,
    {
        proof {
            let tail = data@.subrange(at + i, at + n);
            let next = data@.subrange(at + i - 1, at + n);
            assert(next.drop_first() =~= tail);
            assert(next[0] == data@[at + i - 1]);
            lemma_le_value_bound(tail);
            lemma_pow256_monotone(tail.len(), 7);
            lemma_pow256_values();
        }
        i -= 1;
        acc = acc * 256 + data[at + i] as u64;
    }
    acc
}

} // verus!
