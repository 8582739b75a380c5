use vstd::prelude::*;
use vstd::arithmetic::power2::pow2;
use crate::types::Error;

verus! {

/// The payload of one encoded byte: its low seven bits.
pub open spec fn low_bits(b: u8) -> nat {
    (b % 128) as nat
}

/// A byte with its high bit set continues the varint.
pub open spec fn is_continuation(b: u8) -> bool {
    b >= 128
}

/// Value of the first `n` bytes of `s` read as base-128 digits,
/// least-significant group first.
pub open spec fn group_value(s: Seq<u8>, n: int) -> nat
    decreases n,
{
    if n <= 0 {
        0
    } else {
        low_bits(s[0]) + 128 * group_value(s.drop_first(), n - 1)
    }
}

/// Where a varint that was restarted at byte `i` ends: `Ok(n)` means the
/// terminating byte (high bit clear) is at index `n - 1`.  A varint never
/// spans more than ten bytes (its shift would reach 64 bits).
pub open spec fn spec_varint_end(s: Seq<u8>, i: int) -> Result<int, Error>
    decreases 10 - i,
{
    if i < 0 || i > 10 {
        arbitrary()
    } else if i >= s.len() {
        Err(Error::Truncated)
    } else if i == 10 {
        Err(Error::Overflow)
    } else if !is_continuation(s[i]) {
        Ok(i + 1)
    } else {
        spec_varint_end(s, i + 1)
    }
}

/// Result of decoding one varint from the front of `s`: the value and the
/// number of bytes consumed.  The value is the base-128 number held in the
/// consumed bytes, reduced to 64 bits.
pub open spec fn spec_decode_varint(s: Seq<u8>) -> Result<(u64, int), Error> {
    match spec_varint_end(s, 0) {
        Ok(n) => Ok(((group_value(s, n) % pow2(64)) as u64, n)),
        Err(e) => Err(e),
    }
}

/// A decoded varint consumed between one and ten bytes, all within `s`.
pub proof fn lemma_varint_end_bounds(s: Seq<u8>, i: int, n: int)
    requires
        0 <= i <= 10,
        spec_varint_end(s, i) == Ok::<int, Error>(n),
    ensures
        i < n <= s.len(),
        n <= 10,
    decreases 10 - i,
{
    if i >= s.len() || i == 10 {
    } else if !is_continuation(s[i]) {
    } else {
        lemma_varint_end_bounds(s, i + 1, n);
    }
}

/// Appending a byte to the digits adds its payload at the next position:
/// `group_value(s, n + 1) == group_value(s, n) + low_bits(s[n]) * 2^(7n)`.
pub proof fn lemma_group_value_extend(s: Seq<u8>, n: int)
    requires
        0 <= n < s.len(),
    ensures
        group_value(s, n + 1) == group_value(s, n) + low_bits(s[n]) * pow2((7 * n) as nat),
    decreases n,
{
    if n == 0 {
        assert(pow2(0) == 1) by {
            vstd::arithmetic::power2::lemma2_to64();
        }
        assert(group_value(s, 1) == low_bits(s[0]) + 128 * group_value(s.drop_first(), 0));
        assert(low_bits(s[0]) * pow2(0) == low_bits(s[0])) by (nonlinear_arith)
            requires
                pow2(0) == 1,
        ;
        assert(group_value(s, 1) == group_value(s, 0) + low_bits(s[0]) * pow2((7 * 0) as nat));
    } else {
        let d = s.drop_first();
        lemma_group_value_extend(d, n - 1);
        assert(d[n - 1] == s[n]);
        let b = low_bits(s[n]) as int;
        let p = pow2((7 * (n - 1)) as nat) as int;
        assert(pow2((7 * n) as nat) == 128 * p) by {
            vstd::arithmetic::power2::lemma_pow2_adds(7, (7 * (n - 1)) as nat);
            vstd::arithmetic::power2::lemma2_to64();
        }
        assert(group_value(s, n + 1) == low_bits(s[0]) + 128 * group_value(d, n));
        assert(group_value(d, n) == group_value(d, n - 1) + b * p);
        assert(128 * (group_value(d, n - 1) + b * p) == 128 * group_value(d, n - 1) + b * (128
            * p)) by (nonlinear_arith);
        assert(group_value(s, n) == low_bits(s[0]) + 128 * group_value(d, n - 1));
        assert(group_value(s, n + 1) == group_value(s, n) + b * (128 * p));
        assert(b * pow2((7 * n) as nat) == b * (128 * p)) by (nonlinear_arith)
            requires
                pow2((7 * n) as nat) == 128 * p,
        ;
        vstd::arithmetic::power2::lemma_pow2_pos((7 * (n - 1)) as nat);
        assert(b * (128 * p) >= 0) by (nonlinear_arith)
            requires
                b >= 0,
                p >= 1,
        ;
        assert(group_value(s, n + 1) == group_value(s, n) + low_bits(s[n]) * pow2(
            (7 * n) as nat,
        ));
    }
}

/// The first `n` digits are worth less than `2^(7n)`.
pub proof fn lemma_group_value_bound(s: Seq<u8>, n: int)
    requires
        0 <= n <= s.len(),
    ensures
        group_value(s, n) < pow2((7 * n) as nat),
    decreases n,
{
    if n == 0 {
        assert(pow2(0) == 1) by {
            vstd::arithmetic::power2::lemma2_to64();
        }
    } else {
        lemma_group_value_bound(s, n - 1);
        lemma_group_value_extend(s, n - 1);
        assert(pow2((7 * n) as nat) == 128 * pow2((7 * (n - 1)) as nat)) by {
            vstd::arithmetic::power2::lemma_pow2_adds(7, (7 * (n - 1)) as nat);
            vstd::arithmetic::power2::lemma2_to64();
        }
        assert(low_bits(s[n - 1]) * pow2((7 * (n - 1)) as nat) <= 127 * pow2(
            (7 * (n - 1)) as nat,
        )) by (nonlinear_arith)
            requires
                low_bits(s[n - 1]) <= 127,
                pow2((7 * (n - 1)) as nat) >= 0,
        ;
    }
}

/// A decoded varint consumed between one and ten bytes of its input.
pub proof fn lemma_decode_varint_bounds(s: Seq<u8>, v: u64, n: int)
    requires
        spec_decode_varint(s) == Ok::<(u64, int), Error>((v, n)),
    ensures
        1 <= n <= s.len(),
        n <= 10,
{
    let e = spec_varint_end(s, 0);
    if e is Ok {
        lemma_varint_end_bounds(s, 0, e->Ok_0);
    }
}

/// The bytes that encode `v` as an unsigned LEB128 varint: base-128 digits,
/// least-significant first, every byte but the last with its high bit set.
pub open spec fn spec_encode_varint(v: nat) -> Seq<u8>
    decreases v,
{
    if v < 128 {
        seq![v as u8]
    } else {
        seq![(128 + v % 128) as u8] + spec_encode_varint(v / 128)
    }
}

/// An encoded varint is well shaped: nonempty, terminated exactly at its
/// last byte, and worth its own value when read back as digits.
pub proof fn lemma_encode_varint_props(v: nat)
    ensures
        spec_encode_varint(v).len() >= 1,
        !is_continuation(spec_encode_varint(v).last()),
        forall|j: int|
            0 <= j < spec_encode_varint(v).len() - 1 ==> is_continuation(spec_encode_varint(v)[j]),
        group_value(spec_encode_varint(v), spec_encode_varint(v).len() as int) == v,
    decreases v,
{
    let e = spec_encode_varint(v);
    if v < 128 {
        assert(group_value(e, 1) == low_bits(e[0]) + 128 * group_value(e.drop_first(), 0));
    } else {
        lemma_encode_varint_props(v / 128);
        let rest = spec_encode_varint(v / 128);
        assert(e.drop_first() =~= rest);
        assert(forall|j: int| 1 <= j < e.len() - 1 ==> e[j] == rest[j - 1]);
        assert(group_value(e, e.len() as int) == low_bits(e[0]) + 128 * group_value(
            rest,
            rest.len() as int,
        ));
        vstd::arithmetic::div_mod::lemma_fundamental_div_mod(v as int, 128);
    }
}

/// A value below `2^(7k)` encodes in at most `k` bytes.
pub proof fn lemma_encode_varint_len(v: nat, k: nat)
    requires
        v < pow2(7 * k),
        k >= 1,
    ensures
        spec_encode_varint(v).len() <= k,
    decreases v,
{
    if v < 128 {
    } else {
        assert(k >= 2) by {
            vstd::arithmetic::power2::lemma2_to64();
            if k == 1 {
            }
        }
        assert(v / 128 < pow2(7 * (k - 1) as nat)) by {
            assert(pow2(7 * k) == 128 * pow2(7 * (k - 1) as nat)) by {
                vstd::arithmetic::power2::lemma_pow2_adds(7, 7 * (k - 1) as nat);
                vstd::arithmetic::power2::lemma2_to64();
            }
            assert(v < 128 * pow2(7 * (k - 1) as nat));
            assert(v / 128 < pow2(7 * (k - 1) as nat)) by (nonlinear_arith)
                requires
                    v < 128 * pow2(7 * (k - 1) as nat),
            ;
        }
        lemma_encode_varint_len(v / 128, (k - 1) as nat);
    }
}

/// A run of continuation bytes ended by a terminal byte at index `n - 1`
/// is scanned to exactly `n`, from any start inside the run.
proof fn lemma_varint_end_terminal(s: Seq<u8>, i: int, n: int)
    requires
        0 <= i < n <= s.len(),
        n <= 10,
        forall|j: int| 0 <= j < n - 1 ==> is_continuation(s[j]),
        !is_continuation(s[n - 1]),
    ensures
        spec_varint_end(s, i) == Ok::<int, Error>(n),
    decreases n - i,
{
    if i < n - 1 {
        lemma_varint_end_terminal(s, i + 1, n);
    }
}

/// Varint round trip: decoding an encoded `u64` yields the value back and
/// consumes exactly the encoded bytes.
pub proof fn lemma_varint_round_trip(v: u64)
    ensures
        spec_decode_varint(spec_encode_varint(v as nat)) == Ok::<(u64, int), Error>(
            (v, spec_encode_varint(v as nat).len() as int),
        ),
{
    let e = spec_encode_varint(v as nat);
    lemma_encode_varint_props(v as nat);
    assert(v < pow2(70)) by {
        vstd::arithmetic::power2::lemma2_to64_rest();
        vstd::arithmetic::power2::lemma_pow2_strictly_increases(64, 70);
    }
    lemma_encode_varint_len(v as nat, 10);
    lemma_varint_end_terminal(e, 0, e.len() as int);
    assert(v < pow2(64)) by {
        vstd::arithmetic::power2::lemma2_to64_rest();
    }
    vstd::arithmetic::div_mod::lemma_small_mod(v as nat, pow2(64));
}

/// Encodes `v` as an unsigned LEB128 varint.
pub fn encode_as_varint(v: u64) -> (r: Vec<u8>)
    ensures
        r@ == spec_encode_varint(v as nat),
{
    let mut out: Vec<u8> = Vec::new();
    let mut rest: u64 = v;
    while rest >= 128
        invariant
            spec_encode_varint(v as nat) =~= out@ + spec_encode_varint(rest as nat),
        decreases rest,
    {
        out.push((128 + rest % 128) as u8);
        rest = rest / 128;
    }
    out.push(rest as u8);
    assert(spec_encode_varint(rest as nat) =~= seq![rest as u8]);
    out
}

/// Decodes one unsigned LEB128 varint from the front of `data`.
///
/// Each byte contributes its low seven bits, least-significant group first;
/// a clear high bit ends the number.  Fails with `Truncated` when no
/// terminating byte arrives, and with `Overflow` when the number would span
/// more than ten bytes.
pub fn decode_varint(data: &[u8]) -> (r: Result<(u64, usize), Error>)
    ensures
        match r {
            Ok((v, n)) => spec_decode_varint(data@) == Ok::<(u64, int), Error>((v, n as int)),
            Err(e) => spec_decode_varint(data@) == Err::<(u64, int), Error>(e),
        },
{
    let ghost s = data@;
    let mut result: u64 = 0;
    let mut m: u64 = 1;
    let mut i: usize = 0;
    proof {
        vstd::arithmetic::power2::lemma2_to64();
        vstd::arithmetic::power2::lemma2_to64_rest();
        vstd::arithmetic::div_mod::lemma_small_mod(0, pow2(64));
    }
    loop
        invariant
            0 <= i <= 10,
            i <= s.len(),
            data@ == s,
            spec_varint_end(s, 0) == spec_varint_end(s, i as int),
            i <= 9 ==> m == pow2((7 * i) as nat),
            result == group_value(s, i as int) % pow2(64),
            i <= 9 ==> result == group_value(s, i as int) && result < pow2((7 * i) as nat),
        decreases 10 - i,
    {
        proof {
            vstd::arithmetic::power2::lemma2_to64();
            vstd::arithmetic::power2::lemma2_to64_rest();
        }
        if i >= data.len() {
            return Err(Error::Truncated);
        }
        if i >= 10 {
            return Err(Error::Overflow);
        }
        let b = data[i];
        let v7: u64 = (b % 128) as u64;
        proof {
            lemma_group_value_extend(s, i as int);
            lemma_group_value_bound(s, i as int);
            assert(pow2((7 * (i + 1)) as nat) == 128 * pow2((7 * i) as nat)) by {
                vstd::arithmetic::power2::lemma_pow2_adds(7, (7 * i) as nat);
            }
        }
        if i < 9 {
            proof {
                assert(v7 * m <= 127 * pow2((7 * i) as nat)) by (nonlinear_arith)
                    requires
                        v7 <= 127,
                        m == pow2((7 * i) as nat),
                        m >= 0,
                ;
                assert(result + v7 * m < 128 * pow2((7 * i) as nat));
                assert(128 * pow2((7 * i) as nat) <= pow2(63)) by {
                    vstd::arithmetic::power2::lemma_pow2_adds(7, (7 * i) as nat);
                    if 7 * (i + 1) < 63 {
                        vstd::arithmetic::power2::lemma_pow2_strictly_increases(
                            (7 * (i + 1)) as nat,
                            63,
                        );
                    }
                }
            }
            result = result + v7 * m;
            proof {
                vstd::arithmetic::div_mod::lemma_small_mod(result as nat, pow2(64));
            }
        } else {
            // the tenth byte only keeps its lowest bit within 64 bits
            proof {
                assert(result < pow2(63)) by {
                    if 7 * i < 63 {
                        vstd::arithmetic::power2::lemma_pow2_strictly_increases(
                            (7 * i) as nat,
                            63,
                        );
                    }
                }
            }
            if v7 % 2 == 1 {
                result = result + 0x8000000000000000u64;
            }
            proof {
                // group_value(s, 10) == group_value(s, 9) + low * 2^63; within 64 bits
                // only (low % 2) * 2^63 of the last digit survives.
                let g9 = group_value(s, 9) as int;
                let low = low_bits(s[9]) as int;
                assert(group_value(s, 10) == g9 + low * pow2(63)) by {
                    assert(7 * 9 == 63);
                }
                assert(low * pow2(63) == (low % 2) * pow2(63) + (low / 2) * pow2(64)) by {
                    assert(pow2(64) == 2 * pow2(63));
                    assert((low % 2) * pow2(63) + (low / 2) * (2 * pow2(63)) == (low % 2 + 2 * (low
                        / 2)) * pow2(63)) by (nonlinear_arith);
                    vstd::arithmetic::div_mod::lemma_fundamental_div_mod(low, 2);
                }
                assert((g9 + (low % 2) * pow2(63) + (low / 2) * pow2(64)) % pow2(64) as int == (g9
                    + (low % 2) * pow2(63)) % pow2(64) as int) by {
                    vstd::arithmetic::div_mod::lemma_mod_multiples_vanish(
                        low / 2,
                        g9 + (low % 2) * pow2(63),
                        pow2(64) as int,
                    );
                }
                assert(g9 + (low % 2) * pow2(63) < pow2(64) as int);
                vstd::arithmetic::div_mod::lemma_small_mod(
                    (g9 + (low % 2) * pow2(63)) as nat,
                    pow2(64),
                );
            }
        }
        if b < 128 {
            return Ok((result, i + 1));
        }
        if i < 9 {
            proof {
                assert(m * 128 == pow2((7 * (i + 1)) as nat)) by (nonlinear_arith)
                    requires
                        m == pow2((7 * i) as nat),
                        pow2((7 * (i + 1)) as nat) == 128 * pow2((7 * i) as nat),
                ;
            }
            m = m * 128;
        }
        i = i + 1;
    }
}

} // verus!
