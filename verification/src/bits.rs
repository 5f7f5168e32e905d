//! The bit-packed probability array codec.
//!
//! A probability array is stored as consecutive little-endian unsigned
//! integers of a fixed width. For widths that are a multiple of 8 the buffer
//! splits into chunks of `width / 8` bytes, each chunk one value, and a
//! ragged final chunk still yields one (narrower) value. Other widths use a
//! least-significant-first bit stream.

use vstd::arithmetic::div_mod::lemma_fundamental_div_mod;
use vstd::prelude::*;

verus! {

/// `256^k` (1 for `k <= 0`).
pub open spec fn pow256(k: int) -> int
    decreases k,
{
    if k <= 0 {
        1
    } else {
        256 * pow256(k - 1)
    }
}

/// The value of the little-endian byte string `b`.
pub open spec fn le_bytes_val(b: Seq<u8>) -> int
    decreases b.len(),
{
    if b.len() == 0 {
        0
    } else {
        b[0] + 256 * le_bytes_val(b.drop_first())
    }
}

/// The `cs` little-endian bytes of the value `v`.
pub open spec fn le_bytes_of(v: int, cs: int) -> Seq<u8>
    decreases cs,
{
    if cs <= 0 {
        Seq::empty()
    } else {
        seq![(v % 256) as u8] + le_bytes_of(v / 256, cs - 1)
    }
}

/// The values packed into `b` as chunks of `cs` bytes, the final chunk
/// possibly shorter.
pub open spec fn unpack_chunks(b: Seq<u8>, cs: int) -> Seq<u32>
    decreases b.len(),
{
    if b.len() == 0 || cs <= 0 {
        Seq::empty()
    } else if b.len() <= cs {
        seq![le_bytes_val(b) as u32]
    } else {
        seq![le_bytes_val(b.take(cs)) as u32] + unpack_chunks(b.skip(cs), cs)
    }
}

/// The byte string that packs each value of `vals` into `cs` little-endian
/// bytes.
pub open spec fn pack_chunks(vals: Seq<u32>, cs: int) -> Seq<u8>
    decreases vals.len(),
{
    if vals.len() == 0 {
        Seq::empty()
    } else {
        le_bytes_of(vals[0] as int, cs) + pack_chunks(vals.drop_first(), cs)
    }
}

pub proof fn lemma_pow256_pos(k: int)
    ensures
        pow256(k) >= 1,
    decreases k,
{
    if k > 0 {
        lemma_pow256_pos(k - 1);
    }
}

/// A little-endian byte string denotes a value below `256^len`.
pub proof fn lemma_le_bytes_val_bound(b: Seq<u8>)
    ensures
        0 <= le_bytes_val(b) < pow256(b.len() as int),
    decreases b.len(),
{
    if b.len() == 0 {
    } else {
        lemma_le_bytes_val_bound(b.drop_first());
    }
}

pub proof fn lemma_le_bytes_of_len(v: int, cs: int)
    ensures
        le_bytes_of(v, cs).len() == if cs <= 0 {
            0
        } else {
            cs
        },
    decreases cs,
{
    if cs > 0 {
        lemma_le_bytes_of_len(v / 256, cs - 1);
    }
}

/// Packing a value below `256^cs` into `cs` bytes and reading them back
/// returns the value.
pub proof fn lemma_le_bytes_of_val(v: int, cs: int)
    requires
        0 <= v < pow256(cs),
    ensures
        le_bytes_val(le_bytes_of(v, cs)) == v,
    decreases cs,
{
    if cs <= 0 {
    } else {
        let rest = v / 256;
        assert(0 <= rest < pow256(cs - 1)) by {
            lemma_pow256_pos(cs - 1);
            assert(v < 256 * pow256(cs - 1));
            assert(v / 256 < pow256(cs - 1)) by (nonlinear_arith)
                requires
                    0 <= v,
                    v < 256 * pow256(cs - 1),
                    pow256(cs - 1) >= 1,
            ;
        }
        lemma_le_bytes_of_val(rest, cs - 1);
        let b = le_bytes_of(v, cs);
        assert(b == seq![(v % 256) as u8] + le_bytes_of(rest, cs - 1));
        assert(b.drop_first() =~= le_bytes_of(rest, cs - 1));
        lemma_fundamental_div_mod(v, 256);
    }
}

/// Bit-packed codec round trip: for any chunk size from one to four bytes,
/// packing values that fit the chunk width and unpacking them again is the
/// identity.
pub proof fn lemma_pack_unpack_roundtrip(vals: Seq<u32>, cs: int)
    requires
        1 <= cs <= 4,
        forall|i: int| 0 <= i < vals.len() ==> (vals[i] as int) < pow256(cs),
    ensures
        unpack_chunks(pack_chunks(vals, cs), cs) == vals,
    decreases vals.len(),
{
    if vals.len() == 0 {
        assert(unpack_chunks(pack_chunks(vals, cs), cs) =~= vals);
    } else {
        let head = vals[0];
        let rest = vals.drop_first();
        let hb = le_bytes_of(head as int, cs);
        lemma_le_bytes_of_len(head as int, cs);
        lemma_le_bytes_of_val(head as int, cs);
        let packed = pack_chunks(vals, cs);
        assert(packed == hb + pack_chunks(rest, cs));
        lemma_pack_unpack_roundtrip(rest, cs);
        if packed.len() <= cs {
            // only the head was packed: the remaining values are none
            assert(pack_chunks(rest, cs).len() == 0);
            assert(rest.len() == 0) by {
                if rest.len() > 0 {
                    lemma_le_bytes_of_len(rest[0] as int, cs);
                }
            }
            assert(packed =~= hb);
            assert(unpack_chunks(packed, cs) =~= seq![le_bytes_val(packed) as u32]);
            assert(vals =~= seq![head]);
        } else {
            assert(packed.take(cs) =~= hb);
            assert(packed.skip(cs) =~= pack_chunks(rest, cs));
            assert(unpack_chunks(packed, cs) == seq![le_bytes_val(hb) as u32] + unpack_chunks(
                pack_chunks(rest, cs),
                cs,
            ));
            assert(seq![le_bytes_val(hb) as u32] + rest =~= vals);
        }
    }
}

pub proof fn lemma_pow256_increases(j: int, k: int)
    requires
        j <= k,
    ensures
        pow256(j) <= pow256(k),
    decreases k,
{
    if j < k && k > 0 {
        lemma_pow256_increases(j, k - 1);
        lemma_pow256_pos(k - 1);
    }
}

/// Reads one little-endian value of `cs` bytes starting at `start`.
pub fn read_chunk(bytes: &[u8], start: usize, cs: usize) -> (r: u32)
    requires
        1 <= cs <= 4,
        start + cs <= bytes@.len(),
    ensures
        r as int == le_bytes_val(bytes@.subrange(start as int, start as int + cs as int)),
{
    let n: usize = bytes.len();
    let mut acc: u32 = 0;
    let mut i: usize = cs;
    proof {
        assert(bytes@.subrange(start as int + cs as int, start as int + cs as int) =~= Seq::empty());
    }
    while i > 0
        invariant
            i <= cs,
            1 <= cs <= 4,
            n == bytes@.len(),
            start + cs <= n,
            acc as int == le_bytes_val(bytes@.subrange(start + i as int, start as int + cs as int)),
            (acc as int) < pow256(cs - i),
        decreases i,
    {
        i = i - 1;
        let b = bytes[start + i];
        proof {
            let tail = bytes@.subrange(start + i + 1, start as int + cs as int);
            let whole = bytes@.subrange(start + i as int, start as int + cs as int);
            assert(whole[0] == bytes@[start + i as int]);
            assert(whole.drop_first() =~= tail);
            assert(pow256(cs - i) <= pow256(4)) by {
                lemma_pow256_increases(cs - i, 4);
            }
            assert(pow256(0) == 1);
            assert(pow256(1) == 256);
            assert(pow256(2) == 0x1_0000);
            assert(pow256(3) == 0x100_0000);
            assert(pow256(4) == 0x1_0000_0000);
            assert(256 * (acc as int) + b < 256 * pow256(cs - i - 1) + 256) by {
                assert((acc as int) < pow256(cs - i - 1) ==> 256 * (acc as int) <= 256 * pow256(
                    cs - i - 1,
                ) - 256) by (nonlinear_arith);
            }
        }
        acc = 256 * acc + (b as u32);
    }
    proof {
        assert(bytes@.subrange(start as int, start as int + cs as int) == bytes@.subrange(
            start + 0int,
            start as int + cs as int,
        ));
    }
    acc
}

/// Splits `bytes` into little-endian chunks of `cs` bytes (the final chunk
/// possibly shorter) and returns the value of each chunk.
pub fn unpack_chunked(bytes: &[u8], cs: usize) -> (r: Vec<u32>)
    requires
        1 <= cs <= 4,
    ensures
        r@ == unpack_chunks(bytes@, cs as int),
{
    let mut r: Vec<u32> = Vec::new();
    let mut pos: usize = 0;
    proof {
        assert(bytes@.skip(0) =~= bytes@);
    }
    while pos < bytes.len()
        invariant
            1 <= cs <= 4,
            pos <= bytes@.len(),
            unpack_chunks(bytes@, cs as int) == r@ + unpack_chunks(bytes@.skip(pos as int), cs as int),
        decreases bytes@.len() - pos,
    {
        let remaining = bytes.len() - pos;
        let take = if remaining < cs {
            remaining
        } else {
            cs
        };
        let v = read_chunk(bytes, pos, take);
        proof {
            let rest = bytes@.skip(pos as int);
            let chunk = bytes@.subrange(pos as int, pos as int + take as int);
            if rest.len() <= cs {
                assert(chunk =~= rest);
                assert(unpack_chunks(rest, cs as int) == seq![le_bytes_val(rest) as u32]);
                assert(bytes@.skip(pos as int + take as int) =~= Seq::<u8>::empty());
            } else {
                assert(rest.take(cs as int) =~= chunk);
                assert(rest.skip(cs as int) =~= bytes@.skip(pos as int + take as int));
            }
            assert(r@.push(v) + unpack_chunks(bytes@.skip(pos as int + take as int), cs as int)
                =~= r@ + unpack_chunks(bytes@.skip(pos as int), cs as int));
        }
        r.push(v);
        pos = pos + take;
    }
    proof {
        assert(bytes@.skip(pos as int) =~= Seq::<u8>::empty());
        assert(r@ + unpack_chunks(bytes@.skip(pos as int), cs as int) =~= r@);
    }
    r
}

/// Appends the `cs` little-endian bytes of each value of `vals` to a fresh
/// buffer, truncating values that exceed the chunk width as the wire format
/// prescribes.
pub fn pack_chunked(vals: &Vec<u32>, cs: usize) -> (r: Vec<u8>)
    requires
        1 <= cs <= 4,
    ensures
        r@ == pack_chunks(vals@, cs as int),
{
    let mut r: Vec<u8> = Vec::new();
    let mut j: usize = 0;
    while j < vals.len()
        invariant
            1 <= cs <= 4,
            j <= vals@.len(),
            r@ == pack_chunks(vals@.take(j as int), cs as int),
        decreases vals@.len() - j,
    {
        let ghost prefix = r@;
        let v = vals[j];
        let mut tmp: u32 = v;
        let mut i: usize = 0;
        while i < cs
            invariant
                i <= cs,
                cs <= 4,
                tmp as int == (v as int) / pow256(i as int),
                r@ == prefix + le_bytes_of(v as int, cs as int).take(i as int),
            decreases cs - i,
        {
            proof {
                lemma_le_bytes_of_index(v as int, cs as int, i as int);
                lemma_le_bytes_of_len(v as int, cs as int);
                assert(le_bytes_of(v as int, cs as int).take(i + 1) =~= le_bytes_of(
                    v as int,
                    cs as int,
                ).take(i as int).push(le_bytes_of(v as int, cs as int)[i as int]));
                assert((v as int) / pow256(i as int) / 256 == (v as int) / pow256(i + 1)) by {
                    lemma_pow256_pos(i as int);
                    vstd::arithmetic::div_mod::lemma_div_denominator(
                        v as int,
                        pow256(i as int),
                        256,
                    );
                }
            }
            r.push((tmp % 256) as u8);
            tmp = tmp / 256;
            i = i + 1;
        }
        proof {
            lemma_le_bytes_of_len(v as int, cs as int);
            assert(le_bytes_of(v as int, cs as int).take(cs as int) =~= le_bytes_of(
                v as int,
                cs as int,
            ));
            lemma_pack_chunks_snoc(vals@.take(j as int), v, cs as int);
            assert(vals@.take(j + 1) =~= vals@.take(j as int).push(v));
        }
        j = j + 1;
    }
    proof {
        assert(vals@.take(vals@.len() as int) =~= vals@);
    }
    r
}

/// `2^k` (1 for `k <= 0`).
pub open spec fn pow2i(k: int) -> int
    decreases k,
{
    if k <= 0 {
        1
    } else {
        2 * pow2i(k - 1)
    }
}

/// Bit `i` of the little-endian bit stream over `b`: bit `i % 8` of byte
/// `i / 8`, least significant first.
pub open spec fn bit_at(b: Seq<u8>, i: int) -> int {
    (b[i / 8] as int / pow2i(i % 8)) % 2
}

/// The value of the `n` bits of the stream starting at `start`, least
/// significant first.
pub open spec fn bits_val(b: Seq<u8>, start: int, n: int) -> int
    decreases n,
{
    if n <= 0 {
        0
    } else {
        bit_at(b, start) + 2 * bits_val(b, start + 1, n - 1)
    }
}

/// The values packed into the bit stream over `b` as windows of `w` bits,
/// the final window possibly shorter.
pub open spec fn unpack_bits(b: Seq<u8>, w: int) -> Seq<u32> {
    Seq::new(((8 * b.len() + w - 1) / w) as nat, |j: int|
        {
            let remaining = 8 * b.len() - j * w;
            bits_val(b, j * w, if w <= remaining {
                w
            } else {
                remaining
            }) as u32
        })
}

pub proof fn lemma_pow2i_pos(k: int)
    ensures
        pow2i(k) >= 1,
    decreases k,
{
    if k > 0 {
        lemma_pow2i_pos(k - 1);
    }
}

pub proof fn lemma_pow2i_increases(j: int, k: int)
    requires
        j <= k,
    ensures
        pow2i(j) <= pow2i(k),
    decreases k,
{
    if j < k && k > 0 {
        lemma_pow2i_increases(j, k - 1);
        lemma_pow2i_pos(k - 1);
    }
}

pub proof fn lemma_pow2i_32()
    ensures
        pow2i(32) == 0x1_0000_0000,
{
    reveal_with_fuel(pow2i, 33);
}

/// One bit of the stream, read from its byte.
fn bit_of(bytes: &[u8], i: usize) -> (r: u32)
    requires
        i < 8 * bytes@.len(),
    ensures
        r as int == bit_at(bytes@, i as int),
        r <= 1,
{
    proof {
        assert(i as int / 8 < bytes@.len()) by (nonlinear_arith)
            requires
                (i as int) < 8 * bytes@.len(),
                i >= 0,
        ;
    }
    let byte = bytes[i / 8];
    let s = i % 8;
    let d: u8 = if s == 0 {
        1
    } else if s == 1 {
        2
    } else if s == 2 {
        4
    } else if s == 3 {
        8
    } else if s == 4 {
        16
    } else if s == 5 {
        32
    } else if s == 6 {
        64
    } else {
        128
    };
    proof {
        assert(pow2i(0) == 1);
        assert(pow2i(1) == 2);
        assert(pow2i(2) == 4);
        assert(pow2i(3) == 8);
        assert(pow2i(4) == 16);
        assert(pow2i(5) == 32);
        assert(pow2i(6) == 64);
        assert(pow2i(7) == 128);
        assert(d as int == pow2i(s as int));
    }
    (((byte / d) % 2) as u32)
}

/// Splits the bit stream over `bytes` into windows of `w` bits (the final
/// window possibly shorter) and returns the value of each window.
pub fn unpack_bitstream(bytes: &[u8], w: usize) -> (r: Vec<u32>)
    requires
        1 <= w <= 32,
        8 * bytes@.len() + 31 <= usize::MAX,
    ensures
        r@ == unpack_bits(bytes@, w as int),
{
    let total_bits = 8 * bytes.len();
    let count = if total_bits == 0 {
        0
    } else {
        1 + (total_bits - 1) / w
    };
    let ghost target = unpack_bits(bytes@, w as int);
    proof {
        if total_bits > 0 {
            vstd::arithmetic::div_mod::lemma_div_plus_one(total_bits as int - 1, w as int);
            assert((total_bits as int - 1 + w as int) / (w as int) == (total_bits as int - 1) / (
            w as int) + 1);
            assert(total_bits as int + w as int - 1 == total_bits as int - 1 + w as int);
        } else {
            assert((w as int - 1) / (w as int) == 0) by (nonlinear_arith)
                requires
                    1 <= w as int <= 32,
            ;
        }
        assert(target.len() == count);
    }
    let mut r: Vec<u32> = Vec::new();
    let mut j: usize = 0;
    while j < count
        invariant
            j <= count,
            1 <= w <= 32,
            total_bits == 8 * bytes@.len(),
            total_bits + 31 <= usize::MAX,
            count as int == (total_bits as int + w as int - 1) / (w as int),
            target == unpack_bits(bytes@, w as int),
            target.len() == count,
            r@.len() == j,
            forall|t: int| 0 <= t < j ==> r@[t] == target[t],
        decreases count - j,
    {
        proof {
            assert((j as int) * (w as int) + (w as int) <= (count as int) * (w as int))
                by (nonlinear_arith)
                requires
                    j < count,
                    w >= 1,
            ;
            let t = total_bits as int;
            let wi = w as int;
            vstd::arithmetic::div_mod::lemma_fundamental_div_mod(t + wi - 1, wi);
            vstd::arithmetic::div_mod::lemma_mod_bound(t + wi - 1, wi);
            assert(t + wi - 1 == wi * ((t + wi - 1) / wi) + (t + wi - 1) % wi);
            assert((count as int) * wi == wi * ((t + wi - 1) / wi)) by (nonlinear_arith)
                requires
                    count as int == (t + wi - 1) / wi,
            ;
            assert((count as int) * (w as int) <= total_bits + w - 1);
        }
        let start = j * w;
        let n = if w <= total_bits - start {
            w
        } else {
            total_bits - start
        };
        proof {
            assert(n >= 1);
        }
        let mut acc: u32 = 0;
        let mut k: usize = n;
        while k > 0
            invariant
                k <= n,
                1 <= n <= 32,
                total_bits == 8 * bytes@.len(),
                start + n <= total_bits,
                acc as int == bits_val(bytes@, start + k, n - k),
                (acc as int) < pow2i(n - k),
            decreases k,
        {
            k = k - 1;
            let bit = bit_of(bytes, start + k);
            proof {
                lemma_pow2i_increases(n - k, 32);
                lemma_pow2i_32();
                assert(2 * (acc as int) + 1 < 2 * pow2i(n - k - 1) + 2);
                assert(2 * pow2i(n - k - 1) == pow2i(n - k));
            }
            acc = 2 * acc + bit;
        }
        proof {
            assert(unpack_bits(bytes@, w as int)[j as int] == bits_val(
                bytes@,
                (j as int) * (w as int),
                if w as int <= 8 * bytes@.len() - (j as int) * (w as int) {
                    w as int
                } else {
                    8 * bytes@.len() - (j as int) * (w as int)
                },
            ) as u32);
            assert(start as int == (j as int) * (w as int));
        }
        r.push(acc);
        j = j + 1;
    }
    proof {
        assert(r@ =~= target);
    }
    r
}

/// The byte at index `i` of a little-endian encoding.
pub proof fn lemma_le_bytes_of_index(v: int, cs: int, i: int)
    requires
        0 <= v,
        0 <= i < cs,
    ensures
        le_bytes_of(v, cs)[i] == ((v / pow256(i)) % 256) as u8,
    decreases i,
{
    lemma_le_bytes_of_len(v, cs);
    lemma_le_bytes_of_len(v / 256, cs - 1);
    if i == 0 {
    } else {
        lemma_le_bytes_of_index(v / 256, cs - 1, i - 1);
        assert(le_bytes_of(v, cs)[i] == le_bytes_of(v / 256, cs - 1)[i - 1]);
        assert(v / 256 / pow256(i - 1) == v / pow256(i)) by {
            lemma_pow256_pos(i - 1);
            vstd::arithmetic::div_mod::lemma_div_denominator(v, 256, pow256(i - 1));
            assert(256 * pow256(i - 1) == pow256(i));
            assert(v / (256 * pow256(i - 1)) == v / pow256(i));
        }
    }
}

/// Packing one more value appends its chunk.
pub proof fn lemma_pack_chunks_snoc(vals: Seq<u32>, v: u32, cs: int)
    ensures
        pack_chunks(vals.push(v), cs) == pack_chunks(vals, cs) + le_bytes_of(v as int, cs),
    decreases vals.len(),
{
    if vals.len() == 0 {
        assert(vals.push(v).drop_first() =~= Seq::<u32>::empty());
        assert(vals.push(v)[0] == v);
        assert(pack_chunks(vals.push(v), cs) == le_bytes_of(v as int, cs) + pack_chunks(
            Seq::<u32>::empty(),
            cs,
        ));
        assert(le_bytes_of(v as int, cs) + Seq::<u8>::empty() =~= le_bytes_of(v as int, cs));
        assert(Seq::<u8>::empty() + le_bytes_of(v as int, cs) =~= le_bytes_of(v as int, cs));
    } else {
        let head = le_bytes_of(vals[0] as int, cs);
        let dropped = vals.drop_first();
        assert(vals.push(v)[0] == vals[0]);
        assert(vals.push(v).drop_first() =~= dropped.push(v));
        lemma_pack_chunks_snoc(dropped, v, cs);
        assert(pack_chunks(vals.push(v), cs) == head + (pack_chunks(dropped, cs) + le_bytes_of(
            v as int,
            cs,
        )));
        assert(head + (pack_chunks(dropped, cs) + le_bytes_of(v as int, cs)) =~= (head
            + pack_chunks(dropped, cs)) + le_bytes_of(v as int, cs));
    }
}

} // verus!
