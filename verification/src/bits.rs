//! The mathematical model of MSB-first bit streams: spec functions mapping
//! machine values to bit sequences and back, with the lemmas that relate them.

use vstd::prelude::*;
use vstd::arithmetic::power2::{
    lemma2_to64, lemma_pow2_adds, lemma_pow2_pos, lemma_pow2_strictly_increases, lemma_pow2_unfold,
    pow2,
};
use vstd::arithmetic::div_mod::{
    lemma_div_basics, lemma_div_denominator, lemma_div_multiples_vanish_fancy,
    lemma_fundamental_div_mod, lemma_mod_multiples_vanish,
};

verus! {

/// The low `k` bits of `v`, most significant bit first.
pub open spec fn bits_of(v: nat, k: nat) -> Seq<bool>
    decreases k,
{
    if k == 0 {
        Seq::empty()
    } else {
        bits_of(v / 2, (k - 1) as nat).push(v % 2 == 1)
    }
}

/// The value of a bit string read most significant bit first.
pub open spec fn val_of(s: Seq<bool>) -> nat
    decreases s.len(),
{
    if s.len() == 0 {
        0
    } else {
        val_of(s.drop_last()) * 2 + (if s.last() {
            1nat
        } else {
            0nat
        })
    }
}

/// The eight bits of a byte, most significant first.
pub open spec fn byte_bits(b: u8) -> Seq<bool> {
    bits_of(b as nat, 8)
}

/// The bit stream that a byte sequence denotes: each byte MSB-first, in order.
pub open spec fn bytes_bits(s: Seq<u8>) -> Seq<bool>
    decreases s.len(),
{
    if s.len() == 0 {
        Seq::empty()
    } else {
        byte_bits(s[0]) + bytes_bits(s.skip(1))
    }
}

/// Regroups a bit stream into bytes, eight bits at a time, MSB-first within
/// each byte; a trailing group of fewer than eight bits is dropped.
pub open spec fn bytes_from_bits(s: Seq<bool>) -> Seq<u8>
    decreases s.len(),
{
    if s.len() < 8 {
        Seq::empty()
    } else {
        seq![(val_of(s.take(8)) as u8)] + bytes_from_bits(s.skip(8))
    }
}

/// `bits_of(v, k)` has exactly `k` bits.
pub proof fn lemma_bits_of_len(v: nat, k: nat)
    ensures
        bits_of(v, k).len() == k,
    decreases k,
{
    if k > 0 {
        lemma_bits_of_len(v / 2, (k - 1) as nat);
    }
}

/// A `k`-bit string denotes a value below `pow2(k)`.
pub proof fn lemma_val_of_bound(s: Seq<bool>)
    ensures
        val_of(s) < pow2(s.len()),
    decreases s.len(),
{
    if s.len() == 0 {
        lemma_pow2_pos(0);
    } else {
        lemma_val_of_bound(s.drop_last());
        lemma_pow2_unfold(s.len());
    }
}

/// Expanding a value below `pow2(k)` into `k` bits and reading it back is the
/// identity on the value.
pub proof fn lemma_val_of_bits_of(v: nat, k: nat)
    requires
        v < pow2(k),
    ensures
        val_of(bits_of(v, k)) == v,
    decreases k,
{
    if k == 0 {
        assert(pow2(0) == 1) by {
            lemma2_to64();
        }
    } else {
        lemma_bits_of_len(v / 2, (k - 1) as nat);
        assert(v / 2 < pow2((k - 1) as nat)) by {
            lemma_pow2_unfold(k);
        }
        lemma_val_of_bits_of(v / 2, (k - 1) as nat);
        assert(bits_of(v, k).drop_last() == bits_of(v / 2, (k - 1) as nat));
        lemma_fundamental_div_mod(v as int, 2);
    }
}

/// Reading a bit string as a value and expanding it again is the identity on
/// the string.
pub proof fn lemma_bits_of_val_of(s: Seq<bool>)
    ensures
        bits_of(val_of(s), s.len()) == s,
    decreases s.len(),
{
    if s.len() > 0 {
        let v = val_of(s);
        let v0 = val_of(s.drop_last());
        lemma_bits_of_val_of(s.drop_last());
        assert(v == v0 * 2 + (if s.last() {
            1nat
        } else {
            0nat
        }));
        assert(v / 2 == v0 && (v % 2 == 1) == s.last()) by {
            lemma_fundamental_div_mod(v as int, 2);
        }
        assert(bits_of(v, s.len()) == bits_of(v0, (s.len() - 1) as nat).push(s.last()));
        assert(bits_of(v, s.len()) == s.drop_last().push(s.last()));
        assert(s.drop_last().push(s.last()) =~= s);
    }
}

/// The bit of `bits_of(v, k)` at position `i` is bit `k - 1 - i` of `v`,
/// counting from the least significant end.
pub proof fn lemma_bits_of_index(v: nat, k: nat, i: int)
    requires
        0 <= i < k,
    ensures
        bits_of(v, k)[i] == (v / pow2((k - 1 - i) as nat) % 2 == 1),
    decreases k,
{
    lemma_bits_of_len(v / 2, (k - 1) as nat);
    if i == k - 1 {
        assert(bits_of(v, k)[i] == (v % 2 == 1));
        assert(pow2(0) == 1) by {
            lemma2_to64();
        }
        assert(v as int / 1 == v) by {
            lemma_div_basics(v as int);
        }
    } else {
        lemma_bits_of_index(v / 2, (k - 1) as nat, i);
        let e = (k - 2 - i) as nat;
        assert((v / 2) / pow2(e) == v / (2 * pow2(e))) by {
            lemma_pow2_pos(e);
            lemma_div_denominator(v as int, 2, pow2(e) as int);
        }
        assert(2 * pow2(e) == pow2(e + 1)) by {
            lemma_pow2_unfold(e + 1);
        }
    }
}

/// Reducing `v` modulo `pow2(n)` does not change any bit below position `n`.
pub proof fn lemma_mod_pow2_bit(v: nat, n: nat, j: nat)
    requires
        j < n,
    ensures
        (v % pow2(n)) / pow2(j) % 2 == v / pow2(j) % 2,
{
    let p = pow2(n);
    let q = pow2(j);
    let d = pow2((n - j) as nat);
    lemma_pow2_pos(n);
    lemma_pow2_pos(j);
    lemma_pow2_pos((n - j) as nat);
    lemma_fundamental_div_mod(v as int, p as int);
    let quot = v as int / p as int;
    let r = v as int % p as int;
    assert(p == q * d) by {
        lemma_pow2_adds(j, (n - j) as nat);
    }
    assert(v == q * (d * quot) + r) by (nonlinear_arith)
        requires
            v == p * quot + r,
            p == q * d,
    ;
    assert(v as int / q as int == d * quot + r / q as int) by {
        lemma_div_multiples_vanish_fancy(d * quot + r / q as int, r % q as int, q as int);
        lemma_fundamental_div_mod(r, q as int);
        assert(q * (d * quot + r / q as int) + r % q as int == v) by (nonlinear_arith)
            requires
                v == q * (d * quot) + r,
                r == q * (r / q as int) + r % q as int,
        ;
    }
    assert((d * quot + r / q as int) % 2 == (r / q as int) % 2) by {
        lemma_pow2_unfold((n - j) as nat);
        let h = pow2((n - j - 1) as nat) as int;
        assert(d * quot == 2 * (h * quot)) by (nonlinear_arith)
            requires
                d == 2 * h,
        ;
        lemma_mod_multiples_vanish(h * quot, r / q as int, 2);
    }
}

/// A byte stream denotes eight bits per byte.
pub proof fn lemma_bytes_bits_len(s: Seq<u8>)
    ensures
        bytes_bits(s).len() == 8 * s.len(),
    decreases s.len(),
{
    if s.len() > 0 {
        lemma_bits_of_len(s[0] as nat, 8);
        lemma_bytes_bits_len(s.skip(1));
    }
}

/// A sequence of `k` zero bits.
pub open spec fn zero_bits(k: nat) -> Seq<bool> {
    Seq::new(k, |i: int| false)
}

/// The sink contents after zero-padding `buf` (fewer than eight bits) to a
/// byte boundary and flushing the completed byte; with nothing buffered,
/// nothing is flushed.
pub open spec fn flushed_bytes(sink: Seq<u8>, buf: Seq<bool>) -> Seq<u8> {
    if buf.len() == 0 {
        sink
    } else {
        sink.push((val_of(buf) * pow2((8 - buf.len()) as nat)) as u8)
    }
}

/// Padding then flushing is idempotent: flushing again with nothing buffered
/// adds no byte. This is the whole of what a repeated flush may do.
pub proof fn lemma_flushed_bytes_idempotent(sink: Seq<u8>, buf: Seq<bool>)
    ensures
        flushed_bytes(flushed_bytes(sink, buf), Seq::<bool>::empty()) == flushed_bytes(sink, buf),
{
}

/// Appending a byte to a byte stream appends its eight bits to the bit stream.
pub proof fn lemma_bytes_bits_push(s: Seq<u8>, x: u8)
    ensures
        bytes_bits(s.push(x)) == bytes_bits(s) + byte_bits(x),
    decreases s.len(),
{
    lemma_bits_of_len(x as nat, 8);
    if s.len() == 0 {
        assert(s.push(x).skip(1) =~= Seq::<u8>::empty());
        assert(bytes_bits(s) == Seq::<bool>::empty());
        assert(s.push(x)[0] == x);
        assert(bytes_bits(s.push(x).skip(1)) == Seq::<bool>::empty());
        assert(bytes_bits(s.push(x)) == byte_bits(x) + Seq::<bool>::empty());
        assert(byte_bits(x) + Seq::<bool>::empty() =~= Seq::<bool>::empty() + byte_bits(x));
    } else {
        lemma_bits_of_len(s[0] as nat, 8);
        lemma_bytes_bits_len(s.skip(1));
        assert(s.push(x).skip(1) =~= s.skip(1).push(x));
        lemma_bytes_bits_push(s.skip(1), x);
        assert(bytes_bits(s.push(x)) == byte_bits(s[0]) + (bytes_bits(s.skip(1)) + byte_bits(x)));
        assert(byte_bits(s[0]) + (bytes_bits(s.skip(1)) + byte_bits(x)) =~= (byte_bits(s[0])
            + bytes_bits(s.skip(1))) + byte_bits(x));
    }
}

/// Round trip: the bit stream of a byte sequence, regrouped into bytes, is
/// that byte sequence again. Writing bytes and reading the stream back is the
/// identity.
pub proof fn lemma_bytes_round_trip(bs: Seq<u8>)
    ensures
        bytes_from_bits(bytes_bits(bs)) == bs,
    decreases bs.len(),
{
    if bs.len() > 0 {
        let s = bytes_bits(bs);
        lemma_bits_of_len(bs[0] as nat, 8);
        lemma_bytes_bits_len(bs.skip(1));
        assert(s.take(8) =~= byte_bits(bs[0]));
        assert(s.skip(8) =~= bytes_bits(bs.skip(1)));
        assert(val_of(s.take(8)) == bs[0]) by {
            assert(pow2(8) == 256) by {
                lemma2_to64();
            }
            lemma_val_of_bits_of(bs[0] as nat, 8);
        }
        lemma_bytes_round_trip(bs.skip(1));
        assert(bytes_from_bits(s) =~= bs);
    }
}

/// Two byte sequences with the same bit stream are the same sequence.
pub proof fn lemma_bytes_bits_injective(a: Seq<u8>, b: Seq<u8>)
    requires
        bytes_bits(a) == bytes_bits(b),
    ensures
        a == b,
{
    lemma_bytes_round_trip(a);
    lemma_bytes_round_trip(b);
}

/// A bit stream made of whole bytes followed by fewer than eight further bits
/// determines both parts: the bytes and the tail are unique.
pub proof fn lemma_stream_parts(s1: Seq<u8>, b1: Seq<bool>, s2: Seq<u8>, b2: Seq<bool>)
    requires
        bytes_bits(s1) + b1 == bytes_bits(s2) + b2,
        b1.len() < 8,
        b2.len() < 8,
    ensures
        s1 == s2,
        b1 == b2,
{
    broadcast use vstd::seq::group_seq_axioms;

    lemma_bytes_bits_len(s1);
    lemma_bytes_bits_len(s2);
    let t1 = bytes_bits(s1) + b1;
    let t2 = bytes_bits(s2) + b2;
    assert(t1.len() == bytes_bits(s1).len() + b1.len());
    assert(t2.len() == bytes_bits(s2).len() + b2.len());
    assert(t1.len() == t2.len());
    assert(8 * s1.len() + b1.len() == 8 * s2.len() + b2.len());
    assert(s1.len() == s2.len() && b1.len() == b2.len()) by (nonlinear_arith)
        requires
            8 * s1.len() + b1.len() == 8 * s2.len() + b2.len(),
            b1.len() < 8,
            b2.len() < 8,
    ;
    assert forall|i: int| 0 <= i < bytes_bits(s1).len() implies #[trigger] bytes_bits(s1)[i]
        == bytes_bits(s2)[i] by {
        assert(i < bytes_bits(s2).len());
        assert(t1[i] == bytes_bits(s1)[i]);
        assert(t2[i] == bytes_bits(s2)[i]);
        assert(t1[i] == t2[i]);
    }
    assert(bytes_bits(s1) =~= bytes_bits(s2));
    lemma_bytes_bits_injective(s1, s2);
    assert forall|i: int| 0 <= i < b1.len() implies #[trigger] b1[i] == b2[i] by {
        let n = bytes_bits(s1).len() as int;
        assert(bytes_bits(s2).len() == n);
        assert(t1[n + i] == b1[i]);
        assert(t2[n + i] == b2[i]);
        assert(t1[n + i] == t2[n + i]);
    }
    assert(b1 =~= b2);
}

/// The bits of zero are all zero.
pub proof fn lemma_bits_of_zero(k: nat)
    ensures
        bits_of(0, k) == zero_bits(k),
    decreases k,
{
    if k == 0 {
        assert(bits_of(0, 0) =~= zero_bits(0));
    } else {
        lemma_bits_of_zero((k - 1) as nat);
        lemma_bits_of_len(0, (k - 1) as nat);
        assert(zero_bits((k - 1) as nat).push(false) =~= zero_bits(k));
    }
}

/// Appending `k` zero bits to a bit string multiplies its value by `pow2(k)`:
/// the string left-justified within a wider field.
pub proof fn lemma_shift_zeros(s: Seq<bool>, k: nat)
    ensures
        bits_of(val_of(s) * pow2(k), s.len() + k) == s + zero_bits(k),
    decreases k,
{
    if k == 0 {
        assert(pow2(0) == 1) by {
            lemma2_to64();
        }
        lemma_bits_of_val_of(s);
        assert(s + zero_bits(0) =~= s);
    } else {
        assert(pow2(k) == 2 * pow2((k - 1) as nat)) by {
            lemma_pow2_unfold(k);
        }
        let h = val_of(s) * pow2((k - 1) as nat);
        assert(val_of(s) * pow2(k) == 2 * h) by (nonlinear_arith)
            requires
                pow2(k) == 2 * pow2((k - 1) as nat),
                h == val_of(s) * pow2((k - 1) as nat),
        ;
        assert((2 * h) / 2 == h && (2 * h) % 2 == 0) by {
            lemma_fundamental_div_mod((2 * h) as int, 2);
        }
        lemma_shift_zeros(s, (k - 1) as nat);
        lemma_bits_of_len(h, (s.len() + k - 1) as nat);
        assert(bits_of(val_of(s) * pow2(k), s.len() + k) == bits_of(
            h,
            (s.len() + k - 1) as nat,
        ).push(false));
        assert((s + zero_bits((k - 1) as nat)).push(false) =~= s + zero_bits(k));
    }
}

} // verus!
