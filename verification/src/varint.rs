//! Minimal unsigned LEB128 varints used by NBF for lengths and counts.
use vstd::prelude::*;

use crate::error::{NovaError, Result};

verus! {

/// Maximum encoded length of a `u64` varint.
pub const MAX_VARINT_BYTES: usize = 10;

/// The minimal LEB128 encoding of `v`: seven bits per byte, least significant
/// group first, the high bit set on every byte but the last.
pub open spec fn varint_bytes(v: nat) -> Seq<u8>
    decreases v,
{
    if v < 128 {
        seq![v as u8]
    } else {
        seq![(v % 128 + 128) as u8] + varint_bytes(v / 128)
    }
}

/// `128^k`.
pub open spec fn pow128(k: nat) -> nat
    decreases k,
{
    if k == 0 {
        1
    } else {
        128 * pow128((k - 1) as nat)
    }
}

/// The number whose seven-bit groups are the low bits of `s`, first byte
/// least significant.
pub open spec fn varint_value(s: Seq<u8>) -> nat
    decreases s.len(),
{
    if s.len() == 0 {
        0
    } else {
        varint_value(s.drop_last()) + (s.last() % 128) as nat * pow128((s.len() - 1) as nat)
    }
}

/// `s` starts with the minimal encoding of some `u64`.
pub open spec fn has_varint_prefix(s: Seq<u8>) -> bool {
    exists|v: u64| #[trigger] varint_bytes(v as nat).len() <= s.len() && s.take(
        varint_bytes(v as nat).len() as int,
    ) == varint_bytes(v as nat)
}

proof fn lemma_value_prepend(b: u8, s: Seq<u8>)
    ensures
        varint_value(seq![b] + s) == (b % 128) as nat + 128 * varint_value(s),
    decreases s.len(),
{
    let t = seq![b] + s;
    if s.len() == 0 {
        assert(t.drop_last() =~= Seq::<u8>::empty());
        assert(t.last() == b);
        assert(pow128(0) == 1);
        assert(varint_value(Seq::<u8>::empty()) == 0);
        assert(varint_value(t) == varint_value(t.drop_last()) + (t.last() % 128) as nat * pow128(0));
    } else {
        lemma_value_prepend(b, s.drop_last());
        assert(t.drop_last() =~= seq![b] + s.drop_last());
        assert(t.last() == s.last());
        assert(t.len() - 1 == s.len());
        assert(pow128(s.len() as nat) == 128 * pow128((s.len() - 1) as nat));
        assert(128 * (varint_value(s.drop_last()) + (s.last() % 128) as nat * pow128(
            (s.len() - 1) as nat,
        )) == 128 * varint_value(s.drop_last()) + (s.last() % 128) as nat * (128 * pow128(
            (s.len() - 1) as nat,
        ))) by (nonlinear_arith);
    }
}

/// Facts about the minimal encoding of a value.
pub proof fn lemma_varint_bytes_shape(v: nat)
    ensures
        varint_value(varint_bytes(v)) == v,
        varint_bytes(v).len() >= 1,
        forall|i: int| 0 <= i < varint_bytes(v).len() - 1 ==> #[trigger] varint_bytes(v)[i] >= 128,
        varint_bytes(v).last() < 128,
        varint_bytes(v).len() > 1 ==> varint_bytes(v).last() > 0,
        v < pow128(varint_bytes(v).len()),
        varint_bytes(v).len() > 1 ==> v >= pow128((varint_bytes(v).len() - 1) as nat),
    decreases v,
{
    if v < 128 {
        let e = varint_bytes(v);
        assert(e.drop_last() =~= Seq::<u8>::empty());
        assert(pow128(0) == 1);
        assert(pow128(1) == 128 * pow128(0));
        assert(varint_value(Seq::<u8>::empty()) == 0);
        assert(varint_value(e) == varint_value(e.drop_last()) + (e.last() % 128) as nat * pow128(0));
    } else {
        lemma_varint_bytes_shape(v / 128);
        let rest = varint_bytes(v / 128);
        lemma_value_prepend((v % 128 + 128) as u8, rest);
        assert(varint_bytes(v) == seq![(v % 128 + 128) as u8] + rest);
        assert(varint_bytes(v).last() == rest.last());
        assert forall|i: int| 0 <= i < varint_bytes(v).len() - 1 implies #[trigger] varint_bytes(
            v,
        )[i] >= 128 by {
            if i > 0 {
                assert(varint_bytes(v)[i] == rest[i - 1]);
            }
        }
        assert(v == 128 * (v / 128) + v % 128);
        let k = rest.len();
        assert(pow128(k + 1) == 128 * pow128(k));
        assert(pow128(k) == 128 * pow128((k - 1) as nat)) by {
            if k == 0 {
            }
        }
    }
}

/// The encoding of a `u64` takes at most ten bytes and, when it takes ten,
/// its last byte is at most one.
pub proof fn lemma_varint_bytes_u64(v: u64)
    ensures
        varint_bytes(v as nat).len() <= MAX_VARINT_BYTES,
        varint_bytes(v as nat).len() == MAX_VARINT_BYTES ==> varint_bytes(v as nat).last() <= 1,
{
    lemma_varint_bytes_shape(v as nat);
    let e = varint_bytes(v as nat);
    reveal_with_fuel(pow128, 11);
    assert(pow128(9) == 0x8000_0000_0000_0000nat);
    if e.len() > 10 {
        lemma_pow128_mono(10, (e.len() - 1) as nat);
        assert(false);
    }
    if e.len() == 10 {
        assert(varint_value(e) == varint_value(e.drop_last()) + (e.last() % 128) as nat * pow128(9));
        if e.last() >= 2 {
            assert((e.last() % 128) as nat * pow128(9) >= 2 * pow128(9));
            assert(false);
        }
    }
}

proof fn lemma_pow128_mono(a: nat, b: nat)
    requires
        a <= b,
    ensures
        pow128(a) <= pow128(b),
    decreases b - a,
{
    if a < b {
        lemma_pow128_mono(a, (b - 1) as nat);
        assert(pow128(b) == 128 * pow128((b - 1) as nat));
    }
}

/// Appends the minimal LEB128 encoding of `value`.
pub fn write_varint(value: u64, output: &mut Vec<u8>)
    ensures
        final(output)@ == old(output)@ + varint_bytes(value as nat),
{
    let mut v = value;
    let ghost start = old(output)@;
    proof {
        assert(start + varint_bytes(value as nat) =~= output@ + varint_bytes(v as nat));
    }
    while v >= 128
        invariant
            start + varint_bytes(value as nat) == output@ + varint_bytes(v as nat),
        decreases v,
    {
        let ghost before = output@;
        output.push(((v % 128) + 128) as u8);
        proof {
            assert(varint_bytes(v as nat) == seq![(v % 128 + 128) as u8] + varint_bytes(
                (v / 128) as nat,
            ));
            assert(before + varint_bytes(v as nat) =~= output@ + varint_bytes((v / 128) as nat));
        }
        v = v / 128;
    }
    output.push(v as u8);
    proof {
        assert(varint_bytes(v as nat) == seq![v as u8]);
        assert(output@ =~= start + varint_bytes(value as nat));
    }
}

proof fn lemma_value_take_step(s: Seq<u8>, i: int)
    requires
        0 <= i < s.len(),
    ensures
        varint_value(s.take(i + 1)) == varint_value(s.take(i)) + (s[i] % 128) as nat * pow128(
            i as nat,
        ),
{
    assert(s.take(i + 1).drop_last() =~= s.take(i));
}

/// A canonical encoding that is a prefix of `s` is the one the byte pattern
/// of `s` determines: its length is one past the first byte below 128.
proof fn lemma_prefix_unique(s: Seq<u8>, v: u64, n: int)
    requires
        0 < n <= s.len(),
        forall|i: int| 0 <= i < n - 1 ==> #[trigger] s[i] >= 128,
        s[n - 1] < 128,
        varint_bytes(v as nat).len() <= s.len(),
        s.take(varint_bytes(v as nat).len() as int) == varint_bytes(v as nat),
    ensures
        varint_bytes(v as nat).len() == n,
        varint_value(s.take(n)) == v,
{
    lemma_varint_bytes_shape(v as nat);
    let e = varint_bytes(v as nat);
    let m = e.len() as int;
    if m < n {
        assert(s[m - 1] == e[m - 1]);
    } else if m > n {
        assert(s[n - 1] == e[n - 1]);
    }
    assert(s.take(n) == e);
}

/// The value whose minimal varint starts `s` (meaningful when one does).
pub open spec fn leading_varint(s: Seq<u8>) -> u64 {
    choose|v: u64| #[trigger] varint_bytes(v as nat).len() <= s.len() && s.take(varint_bytes(v as nat).len() as int)
        == varint_bytes(v as nat)
}

/// At most one minimal varint starts a byte sequence.
pub proof fn lemma_varint_prefix_unique(s: Seq<u8>, v: u64, w: u64)
    requires
        varint_bytes(v as nat).len() <= s.len(),
        s.take(varint_bytes(v as nat).len() as int) == varint_bytes(v as nat),
        varint_bytes(w as nat).len() <= s.len(),
        s.take(varint_bytes(w as nat).len() as int) == varint_bytes(w as nat),
    ensures
        v == w,
{
    lemma_varint_bytes_shape(v as nat);
    let e = varint_bytes(v as nat);
    let n = e.len() as int;
    assert forall|i: int| 0 <= i < n - 1 implies #[trigger] s[i] >= 128 by {
        assert(s[i] == s.take(n)[i]);
    }
    assert(s[n - 1] == s.take(n)[n - 1]);
    lemma_prefix_unique(s, w, n);
    assert(s.take(n) == e);
}

/// Reads one minimal varint from the start of `input`, returning its value
/// and encoded length.
///
/// Succeeds exactly when `input` starts with the minimal encoding of some
/// `u64`; truncated, overlong, overflowing and non-minimal input fails with
/// `Corruption`.
pub fn read_varint(input: &[u8]) -> (r: Result<(u64, usize)>)
    ensures
        (r is Ok) == has_varint_prefix(input@),
        match r {
            Ok((v, n)) => n == varint_bytes(v as nat).len() && n <= input@.len() && input@.take(
                n as int,
            ) == varint_bytes(v as nat),
            Err(e) => e is Corruption,
        },
{
    let ghost s = input@;
    let mut value: u64 = 0;
    let mut mult: u64 = 1;
    let mut index: usize = 0;
    while index < MAX_VARINT_BYTES
        invariant
            s == input@,
            index < MAX_VARINT_BYTES,
            index <= s.len(),
            forall|i: int| 0 <= i < index ==> #[trigger] s[i] >= 128,
            value == varint_value(s.take(index as int)),
            mult == pow128(index as nat),
            value < mult,
        decreases MAX_VARINT_BYTES - index,
    {
        if index >= input.len() {
            proof {
                assert forall|w: u64| !(#[trigger] varint_bytes(w as nat).len() <= s.len()
                    && s.take(varint_bytes(w as nat).len() as int) == varint_bytes(w as nat)) by {
                    lemma_varint_bytes_shape(w as nat);
                    let e = varint_bytes(w as nat);
                    if e.len() <= s.len() && s.take(e.len() as int) == e {
                        assert(s[e.len() - 1] == e.last());
                    }
                }
            }
            return Err(NovaError::Corruption("truncated varint".to_owned()));
        }
        let byte = input[index];
        let payload = (byte % 128) as u64;
        if index == MAX_VARINT_BYTES - 1 && payload > 1 {
            proof {
                assert forall|w: u64| !(#[trigger] varint_bytes(w as nat).len() <= s.len()
                    && s.take(varint_bytes(w as nat).len() as int) == varint_bytes(w as nat)) by {
                    lemma_varint_bytes_shape(w as nat);
                    lemma_varint_bytes_u64(w);
                    let e = varint_bytes(w as nat);
                    if e.len() <= s.len() && s.take(e.len() as int) == e {
                        if e.len() < 10 {
                            assert(s[e.len() - 1] == e.last());
                        } else {
                            assert(s[9] == e.last());
                        }
                    }
                }
            }
            return Err(NovaError::Corruption("varint overflows u64".to_owned()));
        }
        proof {
            lemma_value_take_step(s, index as int);
            reveal_with_fuel(pow128, 11);
            if index == 9 {
                assert(pow128(9) == 0x8000_0000_0000_0000nat);
            } else {
                assert(pow128(index as nat) <= pow128(8)) by {
                    lemma_pow128_mono(index as nat, 8);
                }
            }
            assert(value + payload * mult < 128 * mult) by (nonlinear_arith)
                requires
                    value < mult,
                    payload < 128,
            ;
        }
        value = value + payload * mult;
        if byte < 128 {
            if index > 0 && payload == 0 {
                proof {
                    assert forall|w: u64| !(#[trigger] varint_bytes(w as nat).len() <= s.len()
                        && s.take(varint_bytes(w as nat).len() as int) == varint_bytes(w as nat)) by {
                        let e = varint_bytes(w as nat);
                        if e.len() <= s.len() && s.take(e.len() as int) == e {
                            lemma_prefix_unique(s, w, index + 1);
                            lemma_varint_bytes_shape(w as nat);
                            assert(s[index as int] == e.last());
                        }
                    }
                }
                return Err(NovaError::Corruption("non-minimal varint".to_owned()));
            }
            let ghost n = index + 1;
            proof {
                // the decoded value re-encodes to exactly the bytes read
                lemma_decode_is_encoding(s.take(n as int), value);
                assert(s.take(n as int).take(n as int) =~= s.take(n as int));
                assert(varint_bytes(value as nat).len() <= s.len() && s.take(
                    varint_bytes(value as nat).len() as int,
                ) == varint_bytes(value as nat));
            }
            return Ok((value, index + 1));
        }
        mult = if index < MAX_VARINT_BYTES - 1 {
            proof {
                lemma_pow128_mono(index as nat + 1, 9);
                assert(pow128(9) == 0x8000_0000_0000_0000nat) by {
                    reveal_with_fuel(pow128, 10);
                }
            }
            mult * 128
        } else {
            mult
        };
        if index + 1 == MAX_VARINT_BYTES {
            proof {
                assert forall|w: u64| !(#[trigger] varint_bytes(w as nat).len() <= s.len()
                    && s.take(varint_bytes(w as nat).len() as int) == varint_bytes(w as nat)) by {
                    lemma_varint_bytes_shape(w as nat);
                    lemma_varint_bytes_u64(w);
                    let e = varint_bytes(w as nat);
                    if e.len() <= s.len() && s.take(e.len() as int) == e {
                        assert(s[e.len() - 1] == e.last());
                    }
                }
            }
            return Err(NovaError::Corruption("varint exceeds 10 bytes".to_owned()));
        }
        index = index + 1;
    }
    Err(NovaError::Corruption("varint exceeds 10 bytes".to_owned()))
}

/// Bytes whose non-final bytes carry the continuation bit, whose final byte
/// does not and is non-zero unless alone, are the minimal encoding of the
/// value they carry.
proof fn lemma_decode_is_encoding(t: Seq<u8>, v: u64)
    requires
        t.len() >= 1,
        forall|i: int| 0 <= i < t.len() - 1 ==> #[trigger] t[i] >= 128,
        t.last() < 128,
        t.len() > 1 ==> t.last() > 0,
        varint_value(t) == v,
    ensures
        varint_bytes(v as nat) == t,
    decreases t.len(),
{
    if t.len() == 1 {
        assert(t.drop_last() =~= Seq::<u8>::empty());
        assert(pow128(0) == 1);
        assert(varint_value(Seq::<u8>::empty()) == 0);
        assert(varint_value(t) == varint_value(t.drop_last()) + (t.last() % 128) as nat * pow128(0));
        assert(varint_value(t) == (t[0] % 128) as nat);
        assert(varint_bytes(v as nat) =~= t);
    } else {
        let rest = t.drop_first();
        assert(t =~= seq![t[0]] + rest);
        lemma_value_prepend(t[0], rest);
        let rv = varint_value(rest);
        lemma_value_bound(rest);
        assert(rv >= 1) by {
            lemma_value_last_positive(rest);
        }
        assert(v == (t[0] % 128) as nat + 128 * rv);
        assert(rv <= v);
        assert forall|i: int| 0 <= i < rest.len() - 1 implies #[trigger] rest[i] >= 128 by {
            assert(rest[i] == t[i + 1]);
        }
        lemma_decode_is_encoding(rest, rv as u64);
        assert(v >= 128);
        assert(v % 128 == t[0] % 128);
        assert(v / 128 == rv);
        assert((v % 128 + 128) as u8 == t[0]);
        assert(varint_bytes(v as nat) =~= t);
    }
}

proof fn lemma_value_bound(s: Seq<u8>)
    ensures
        varint_value(s) < pow128(s.len()),
    decreases s.len(),
{
    if s.len() > 0 {
        lemma_value_bound(s.drop_last());
        let k = (s.len() - 1) as nat;
        assert(pow128(s.len()) == 128 * pow128(k));
        assert(varint_value(s.drop_last()) + (s.last() % 128) as nat * pow128(k) < 128 * pow128(k))
            by (nonlinear_arith)
            requires
                varint_value(s.drop_last()) < pow128(k),
                s.last() % 128 < 128,
        ;
    }
}

proof fn lemma_value_last_positive(s: Seq<u8>)
    requires
        s.len() >= 1,
        s.last() % 128 > 0,
    ensures
        varint_value(s) >= 1,
{
    let k = (s.len() - 1) as nat;
    lemma_pow128_mono(0, k);
    assert((s.last() % 128) as nat * pow128(k) >= 1) by (nonlinear_arith)
        requires
            s.last() % 128 > 0,
            pow128(k) >= 1,
    ;
}

/// Minimal encodings are prefix-free: when the encodings of `v` and `w` both
/// start `s`, then `v == w`. So reading back what `write_varint` wrote, with
/// anything after it, gives the written value and its length.
pub proof fn law_varint_prefix_unique(s: Seq<u8>, v: u64, w: u64)
    requires
        varint_bytes(v as nat).len() <= s.len(),
        s.take(varint_bytes(v as nat).len() as int) == varint_bytes(v as nat),
        varint_bytes(w as nat).len() <= s.len(),
        s.take(varint_bytes(w as nat).len() as int) == varint_bytes(w as nat),
    ensures
        v == w,
{
    lemma_varint_bytes_shape(v as nat);
    let e = varint_bytes(v as nat);
    let n = e.len() as int;
    assert forall|i: int| 0 <= i < n - 1 implies #[trigger] s[i] >= 128 by {
        assert(s[i] == e[i]);
    }
    assert(s[n - 1] == e[n - 1]);
    lemma_prefix_unique(s, w, n);
    lemma_prefix_unique(s, v, n);
}

} // verus!
