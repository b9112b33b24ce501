//! Verified rendering of numbers as text: decimal for drawing coordinates,
//! and the fixed-width hexadecimal label derived from a vector value.

use vstd::prelude::*;
use vstd::string::StringExecFns;
use crate::value::Bit;

verus! {

/// The character writing one decimal or hexadecimal digit value.
pub open spec fn digit_char(d: nat) -> char {
    if d == 0 {
        '0'
    } else if d == 1 {
        '1'
    } else if d == 2 {
        '2'
    } else if d == 3 {
        '3'
    } else if d == 4 {
        '4'
    } else if d == 5 {
        '5'
    } else if d == 6 {
        '6'
    } else if d == 7 {
        '7'
    } else if d == 8 {
        '8'
    } else if d == 9 {
        '9'
    } else if d == 10 {
        'a'
    } else if d == 11 {
        'b'
    } else if d == 12 {
        'c'
    } else if d == 13 {
        'd'
    } else if d == 14 {
        'e'
    } else if d == 15 {
        'f'
    } else {
        '?'
    }
}

/// The usual decimal writing of `n`, most significant digit first, with no
/// leading zero except for `n == 0` itself.
pub open spec fn dec_rep(n: nat) -> Seq<char>
    decreases n,
{
    if n < 10 {
        seq![digit_char(n)]
    } else {
        dec_rep(n / 10).push(digit_char(n % 10))
    }
}

/// Appends the character of one digit value below 16.
fn push_digit(s: &mut String, d: u8)
    requires
        d < 16,
    ensures
        final(s)@ == old(s)@ + seq![digit_char(d as nat)],
{
    let ghost before = s@;
    match d {
        0 => {
            s.append("0");
            proof {
                reveal_strlit("0");
                assert(s@ =~= before + seq![digit_char(d as nat)]);
            }
        },
        1 => {
            s.append("1");
            proof {
                reveal_strlit("1");
                assert(s@ =~= before + seq![digit_char(d as nat)]);
            }
        },
        2 => {
            s.append("2");
            proof {
                reveal_strlit("2");
                assert(s@ =~= before + seq![digit_char(d as nat)]);
            }
        },
        3 => {
            s.append("3");
            proof {
                reveal_strlit("3");
                assert(s@ =~= before + seq![digit_char(d as nat)]);
            }
        },
        4 => {
            s.append("4");
            proof {
                reveal_strlit("4");
                assert(s@ =~= before + seq![digit_char(d as nat)]);
            }
        },
        5 => {
            s.append("5");
            proof {
                reveal_strlit("5");
                assert(s@ =~= before + seq![digit_char(d as nat)]);
            }
        },
        6 => {
            s.append("6");
            proof {
                reveal_strlit("6");
                assert(s@ =~= before + seq![digit_char(d as nat)]);
            }
        },
        7 => {
            s.append("7");
            proof {
                reveal_strlit("7");
                assert(s@ =~= before + seq![digit_char(d as nat)]);
            }
        },
        8 => {
            s.append("8");
            proof {
                reveal_strlit("8");
                assert(s@ =~= before + seq![digit_char(d as nat)]);
            }
        },
        9 => {
            s.append("9");
            proof {
                reveal_strlit("9");
                assert(s@ =~= before + seq![digit_char(d as nat)]);
            }
        },
        10 => {
            s.append("a");
            proof {
                reveal_strlit("a");
                assert(s@ =~= before + seq![digit_char(d as nat)]);
            }
        },
        11 => {
            s.append("b");
            proof {
                reveal_strlit("b");
                assert(s@ =~= before + seq![digit_char(d as nat)]);
            }
        },
        12 => {
            s.append("c");
            proof {
                reveal_strlit("c");
                assert(s@ =~= before + seq![digit_char(d as nat)]);
            }
        },
        13 => {
            s.append("d");
            proof {
                reveal_strlit("d");
                assert(s@ =~= before + seq![digit_char(d as nat)]);
            }
        },
        14 => {
            s.append("e");
            proof {
                reveal_strlit("e");
                assert(s@ =~= before + seq![digit_char(d as nat)]);
            }
        },
        15 => {
            s.append("f");
            proof {
                reveal_strlit("f");
                assert(s@ =~= before + seq![digit_char(d as nat)]);
            }
        },
        _ => {
            proof {
                assert(false);
            }
        },
    }
}

/// Appends the decimal writing of `n`.
pub fn push_dec(s: &mut String, n: u64)
    ensures
        final(s)@ == old(s)@ + dec_rep(n as nat),
    decreases n,
{
    if n < 10 {
        push_digit(s, n as u8);
    } else {
        push_dec(s, n / 10);
        push_digit(s, (n % 10) as u8);
        proof {
            assert(s@ =~= old(s)@ + dec_rep(n as nat));
        }
    }
}

/// The binary digit a tri-state bit contributes to a numeric label: unknown
/// and high-impedance bits count as 0, a lossy, display-only simplification.
pub open spec fn bit01(b: Bit) -> nat {
    if b == Bit::B1 {
        1
    } else {
        0
    }
}

/// The unsigned integer a bit sequence encodes, most significant bit first,
/// with unknown and high-impedance bits read as 0.
pub open spec fn bits_uint(s: Seq<Bit>) -> nat
    decreases s.len(),
{
    if s.len() == 0 {
        0
    } else {
        bits_uint(s.drop_last()) * 2 + bit01(s.last())
    }
}

spec fn two_pow(e: nat) -> nat
    decreases e,
{
    if e == 0 {
        1
    } else {
        2 * two_pow((e - 1) as nat)
    }
}

spec fn sixteen_pow(d: nat) -> nat
    decreases d,
{
    if d == 0 {
        1
    } else {
        16 * sixteen_pow((d - 1) as nat)
    }
}

/// Exactly `d` hexadecimal digits of `n`, most significant first.
pub open spec fn hex_rep(n: nat, d: nat) -> Seq<char>
    decreases d,
{
    if d == 0 {
        Seq::empty()
    } else {
        hex_rep(n / 16, (d - 1) as nat).push(digit_char(n % 16))
    }
}

/// How many hexadecimal digits writing `n` takes; one for 0.
pub open spec fn min_hex_len(n: nat) -> nat
    decreases n,
{
    if n < 16 {
        1
    } else {
        1 + min_hex_len(n / 16)
    }
}

/// The label of a vector value: `0x`, then the encoded integer in
/// hexadecimal, zero padded so that prefix and digits together fill
/// `floor(width / 4)` characters when the bare writing would fall short.
/// For widths that are not a multiple of 4 this under-represents the true
/// bit width; the sizing is kept as an inherited display quirk.
pub open spec fn label_spec(bits: Seq<Bit>) -> Seq<char> {
    let n = bits_uint(bits);
    let pad = if bits.len() / 4 >= 2 {
        (bits.len() / 4 - 2) as nat
    } else {
        0 as nat
    };
    let d = if min_hex_len(n) >= pad {
        min_hex_len(n)
    } else {
        pad
    };
    seq!['0', 'x'] + hex_rep(n, d)
}

/// The integer a sequence of base-16 digit values encodes.
spec fn val16(ds: Seq<nat>) -> nat
    decreases ds.len(),
{
    if ds.len() == 0 {
        0
    } else {
        val16(ds.drop_last()) * 16 + ds.last()
    }
}

spec fn all_below_16(ds: Seq<nat>) -> bool {
    forall|i: int| 0 <= i < ds.len() ==> (#[trigger] ds[i]) < 16
}

/// The base-16 digit values of a bit sequence, grouped in fours from the
/// least significant end, most significant group first.
spec fn group_vals(bits: Seq<Bit>) -> Seq<nat>
    decreases bits.len(),
{
    if bits.len() == 0 {
        Seq::empty()
    } else if bits.len() <= 4 {
        seq![bits_uint(bits)]
    } else {
        group_vals(bits.take(bits.len() - 4)).push(
            bits_uint(bits.skip(bits.len() - 4)),
        )
    }
}

proof fn lemma_bits_uint_append(a: Seq<Bit>, b: Seq<Bit>)
    ensures
        bits_uint(a + b) == bits_uint(a) * two_pow(b.len()) + bits_uint(b),
    decreases b.len(),
{
    if b.len() == 0 {
        assert(a + b =~= a);
        assert(two_pow(b.len()) == 1);
        assert(bits_uint(b) == 0);
        assert(bits_uint(a) * 1 == bits_uint(a)) by (nonlinear_arith);
    } else {
        let b2 = b.drop_last();
        assert((a + b).drop_last() =~= a + b2);
        assert((a + b).last() == b.last());
        lemma_bits_uint_append(a, b2);
        let x = bits_uint(a);
        let p = two_pow(b2.len());
        let y = bits_uint(b2);
        let z = bit01(b.last());
        assert(bits_uint(a + b) == (x * p + y) * 2 + z);
        assert(two_pow(b.len()) == 2 * p);
        assert(bits_uint(b) == y * 2 + z);
        assert((x * p + y) * 2 + z == x * (2 * p) + (y * 2 + z)) by (nonlinear_arith);
        assert(x * (2 * p) == x * two_pow(b.len()));
        assert(bits_uint(a + b) == x * two_pow(b.len()) + bits_uint(b));
    }
}

proof fn lemma_bits_uint_bound(s: Seq<Bit>)
    ensures
        bits_uint(s) < two_pow(s.len()),
    decreases s.len(),
{
    if s.len() > 0 {
        lemma_bits_uint_bound(s.drop_last());
    }
}

proof fn lemma_val16_bound(ds: Seq<nat>)
    requires
        all_below_16(ds),
    ensures
        val16(ds) < sixteen_pow(ds.len()),
    decreases ds.len(),
{
    if ds.len() > 0 {
        assert(all_below_16(ds.drop_last())) by {
            assert(forall|i: int|
                0 <= i < ds.len() - 1 ==> (#[trigger] ds.drop_last()[i]) == ds[i]);
        }
        lemma_val16_bound(ds.drop_last());
        assert(ds.last() < 16);
    }
}

proof fn lemma_val16_split_first(ds: Seq<nat>)
    requires
        ds.len() >= 1,
    ensures
        val16(ds) == ds[0] * sixteen_pow((ds.len() - 1) as nat) + val16(ds.drop_first()),
    decreases ds.len(),
{
    if ds.len() == 1 {
        assert(ds.drop_last() =~= Seq::<nat>::empty());
        assert(ds.drop_first() =~= Seq::<nat>::empty());
        assert(ds.last() == ds[0]);
        assert(sixteen_pow(0) == 1);
        assert(ds[0] * 1 == ds[0]) by (nonlinear_arith);
    } else {
        let dl = ds.drop_last();
        lemma_val16_split_first(dl);
        assert(dl.drop_first() =~= ds.drop_first().drop_last());
        assert(ds.drop_first().last() == ds.last());
        assert(dl[0] == ds[0]);
        let x = ds[0];
        let p = sixteen_pow((ds.len() - 2) as nat);
        let v = val16(dl.drop_first());
        let z = ds.last();
        assert(val16(ds) == (x * p + v) * 16 + z);
        assert((x * p + v) * 16 + z == x * (16 * p) + (v * 16 + z)) by (nonlinear_arith);
        assert(sixteen_pow((ds.len() - 1) as nat) == 16 * p);
        assert(x * (16 * p) == x * sixteen_pow((ds.len() - 1) as nat));
        assert(val16(ds.drop_first()) == v * 16 + z);
    }
}

proof fn lemma_sixteen_pow_pos(d: nat)
    ensures
        sixteen_pow(d) >= 1,
    decreases d,
{
    if d > 0 {
        lemma_sixteen_pow_pos((d - 1) as nat);
    }
}

proof fn lemma_min_hex_pos(n: nat)
    ensures
        min_hex_len(n) >= 1,
    decreases n,
{
    if n >= 16 {
        lemma_min_hex_pos(n / 16);
    }
}

proof fn lemma_min_hex_iff(n: nat, d: nat)
    requires
        d >= 1,
    ensures
        min_hex_len(n) <= d <==> n < sixteen_pow(d),
    decreases d,
{
    if d == 1 {
        assert(sixteen_pow(1) == 16 * sixteen_pow(0));
        if n >= 16 {
            lemma_min_hex_pos(n / 16);
        }
    } else {
        lemma_min_hex_iff(n / 16, (d - 1) as nat);
        let p = sixteen_pow((d - 1) as nat);
        lemma_sixteen_pow_pos((d - 1) as nat);
        assert(n / 16 < p <==> n < 16 * p) by (nonlinear_arith)
            requires
                p >= 1,
        ;
        if n < 16 {
            assert(n < 16 * p);
        }
    }
}

proof fn lemma_hex_rep_digits(ds: Seq<nat>)
    requires
        all_below_16(ds),
    ensures
        hex_rep(val16(ds), ds.len()) == ds.map_values(|d: nat| digit_char(d)),
    decreases ds.len(),
{
    if ds.len() == 0 {
        assert(hex_rep(0, 0) =~= ds.map_values(|d: nat| digit_char(d)));
    } else {
        let dl = ds.drop_last();
        assert(all_below_16(dl)) by {
            assert(forall|i: int| 0 <= i < dl.len() ==> (#[trigger] dl[i]) == ds[i]);
        }
        lemma_hex_rep_digits(dl);
        let v = val16(ds);
        let v2 = val16(dl);
        assert(v == v2 * 16 + ds.last());
        assert(v / 16 == v2 && v % 16 == ds.last()) by (nonlinear_arith)
            requires
                v == v2 * 16 + ds.last(),
                0 <= ds.last() < 16,
        ;
        assert(hex_rep(v, ds.len()) == hex_rep(v2, dl.len()).push(digit_char(ds.last())));
        assert(ds.map_values(|d: nat| digit_char(d)) =~= dl.map_values(
            |d: nat| digit_char(d),
        ).push(digit_char(ds.last())));
    }
}

proof fn lemma_group_vals(bits: Seq<Bit>)
    requires
        bits.len() >= 1,
    ensures
        group_vals(bits).len() == (bits.len() + 3) / 4,
        all_below_16(group_vals(bits)),
        val16(group_vals(bits)) == bits_uint(bits),
    decreases bits.len(),
{
    reveal_with_fuel(two_pow, 6);
    reveal_with_fuel(val16, 3);
    if bits.len() <= 4 {
        lemma_bits_uint_bound(bits);
        assert(two_pow(bits.len()) <= 16);
        assert(group_vals(bits) =~= seq![bits_uint(bits)]);
        assert(val16(seq![bits_uint(bits)]) == bits_uint(bits));
    } else {
        let a = bits.take(bits.len() - 4);
        let b = bits.skip(bits.len() - 4);
        assert(a + b =~= bits);
        lemma_group_vals(a);
        lemma_bits_uint_append(a, b);
        lemma_bits_uint_bound(b);
        assert(two_pow(4) == 16);
        assert(bits_uint(bits) == bits_uint(a) * 16 + bits_uint(b));
        let gv = group_vals(bits);
        assert(gv == group_vals(a).push(bits_uint(b)));
        assert(gv.drop_last() =~= group_vals(a));
        assert(gv.last() == bits_uint(b));
        assert(val16(gv) == val16(group_vals(a)) * 16 + bits_uint(b));
        assert(all_below_16(gv)) by {
            assert(forall|i: int|
                0 <= i < gv.len() - 1 ==> (#[trigger] gv[i]) == group_vals(a)[i]);
        }
    }
}

/// The rendered numeric label of a vector value: `0x3a` style, as
/// [`label_spec`] describes.
#[verifier::rlimit(60)]
pub fn vector_label(bits: &Vec<Bit>) -> (r: String)
    ensures
        r@ == label_spec(bits@),
{
    let ghost bseq = bits@;
    let ghost n = bits_uint(bseq);
    let len = bits.len();
    let mut digits: Vec<u8> = Vec::new();
    if len == 0 {
        digits.push(0);
    } else {
        let total = (len - 1) / 4 + 1;
        proof {
            assert(4 * ((len - 1) as int / 4) <= len - 1) by (nonlinear_arith);
        }
        let first = len - 4 * (total - 1);
        proof {
            assert((len - 1) as int - 4 * ((len - 1) as int / 4) < 4) by (nonlinear_arith);
            assert(1 <= first <= 4);
        }
        let mut pos: usize = 0;
        while pos < len
            invariant
                bits@ == bseq,
                bseq.len() == len,
                1 <= first <= 4,
                first as int == len - 4 * ((total - 1) as int),
                pos <= len,
                pos == 0 || (pos >= first && (pos - first) % 4 == 0 && (len - pos) % 4 == 0),
                digits@.map_values(|d: u8| d as nat) == group_vals(bseq.take(pos as int)),
            decreases len - pos,
        {
            let g: usize = if pos == 0 {
                first
            } else {
                4
            };
            proof {
                if pos > 0 {
                    assert((len - pos) % 4 == 0);
                    assert(len - pos >= 4);
                }
                assert(pos + g <= len);
            }
            let mut v: u8 = 0;
            let mut q: usize = 0;
            while q < g
                invariant
                    bits@ == bseq,
                    bseq.len() == len,
                    pos + g <= len,
                    g <= 4,
                    q <= g,
                    v as nat == bits_uint(bseq.subrange(pos as int, pos + q)),
                    (v as nat) < two_pow(q as nat),
                decreases g - q,
            {
                let b = bits[pos + q];
                let d: u8 = match b {
                    Bit::B1 => 1,
                    Bit::B0 | Bit::X | Bit::Z => 0,
                };
                proof {
                    reveal_with_fuel(two_pow, 6);
                    assert(q == 0 || q == 1 || q == 2 || q == 3);
                    assert(v < 8);
                    assert(bseq.subrange(pos as int, pos + q + 1).drop_last() =~= bseq.subrange(
                        pos as int,
                        pos + q,
                    ));
                    assert(bseq.subrange(pos as int, pos + q + 1).last() == bseq[pos + q]);
                }
                v = v * 2 + d;
                q += 1;
            }
            digits.push(v);
            proof {
                let done = bseq.take(pos + g);
                if pos == 0 {
                    assert(done =~= bseq.subrange(0, g as int));
                    assert(group_vals(done) == seq![bits_uint(done)]);
                    assert(digits@.map_values(|d: u8| d as nat) =~= group_vals(done));
                } else {
                    assert(done.len() > 4);
                    assert(done.take(done.len() - 4) =~= bseq.take(pos as int));
                    assert(done.skip(done.len() - 4) =~= bseq.subrange(pos as int, pos + 4));
                    assert(group_vals(done) == group_vals(bseq.take(pos as int)).push(
                        bits_uint(bseq.subrange(pos as int, pos + 4)),
                    ));
                    assert(digits@.map_values(|d: u8| d as nat) =~= group_vals(done));
                }
            }
            pos += g;
        }
        proof {
            assert(bseq.take(len as int) =~= bseq);
        }
    }
    let ghost dmap = digits@.map_values(|d: u8| d as nat);
    proof {
        reveal_with_fuel(val16, 3);
        if len == 0 {
            assert(dmap =~= seq![0 as nat]);
            assert(dmap.drop_last() =~= Seq::<nat>::empty());
            assert(val16(dmap) == 0);
            assert(n == 0);
        } else {
            lemma_group_vals(bseq);
        }
        assert(val16(dmap) == n);
        assert(all_below_16(dmap));
        assert(dmap.len() >= 1);
    }
    let pad: usize = if len / 4 >= 2 {
        len / 4 - 2
    } else {
        0
    };
    proof {
        if len > 0 {
            assert(dmap.len() == (len + 3) as int / 4);
            assert((len + 3) as int / 4 >= len as int / 4) by (nonlinear_arith);
        }
        assert(dmap.len() >= pad);
        assert(dmap.skip(0) =~= dmap);
    }
    let ghost dvec = digits@;
    let mut start: usize = 0;
    while start + 1 < digits.len() && digits.len() - start > pad && digits[start] == 0
        invariant
            digits@ == dvec,
            dmap == dvec.map_values(|d: u8| d as nat),
            dmap.len() == dvec.len(),
            start < digits.len(),
            digits.len() - start >= pad,
            val16(dmap.skip(start as int)) == n,
            all_below_16(dmap),
        decreases digits@.len() - start,
    {
        proof {
            let sk = dmap.skip(start as int);
            assert(sk.len() >= 2);
            lemma_val16_split_first(sk);
            assert(sk[0] == dmap[start as int]);
            assert(sk[0] == 0);
            assert((0 as nat) * sixteen_pow((sk.len() - 1) as nat) == 0) by (nonlinear_arith);
            assert(sk.drop_first() =~= dmap.skip(start + 1));
        }
        start += 1;
    }
    let ghost rem = dmap.len() - start;
    proof {
        let sk = dmap.skip(start as int);
        assert(sk.len() == rem);
        assert(all_below_16(sk)) by {
            assert(forall|i: int|
                0 <= i < sk.len() ==> (#[trigger] sk[i]) == dmap[i + start]);
        }
        lemma_val16_bound(sk);
        lemma_min_hex_iff(n, rem as nat);
        assert(min_hex_len(n) <= rem);
        if start + 1 < dvec.len() && dvec.len() - start > pad {
            // the scan stopped on a leading digit that is not zero
            assert(dmap[start as int] != 0);
            lemma_val16_split_first(sk);
            assert(sk[0] * sixteen_pow((rem - 1) as nat) >= sixteen_pow((rem - 1) as nat))
                by (nonlinear_arith)
                requires
                    sk[0] >= 1,
            ;
            assert(n >= sixteen_pow((rem - 1) as nat));
            if rem >= 2 {
                lemma_min_hex_iff(n, (rem - 1) as nat);
                assert(min_hex_len(n) > rem - 1);
            } else {
                lemma_min_hex_pos(n);
            }
            assert(min_hex_len(n) == rem);
            assert(rem > pad);
        } else if start + 1 >= dvec.len() {
            assert(rem == 1);
            lemma_min_hex_pos(n);
            assert(min_hex_len(n) == 1);
            assert(pad <= rem);
        } else {
            assert(rem == pad);
        }
        assert(rem == (if min_hex_len(n) >= pad as nat {
            min_hex_len(n)
        } else {
            pad as nat
        }));
    }
    let mut r: String = <String as StringExecFns>::from_str("0x");
    proof {
        reveal_strlit("0x");
        assert(r@ =~= seq!['0', 'x']);
    }
    let mut idx = start;
    while idx < digits.len()
        invariant
            digits@ == dvec,
            dmap == dvec.map_values(|d: u8| d as nat),
            dmap.len() == dvec.len(),
            start <= idx <= dvec.len(),
            all_below_16(dmap),
            r@ == seq!['0', 'x'] + dmap.subrange(start as int, idx as int).map_values(
                |d: nat| digit_char(d),
            ),
        decreases digits@.len() - idx,
    {
        let dv = digits[idx];
        proof {
            assert(dmap[idx as int] == dv as nat);
            assert(dmap[idx as int] < 16);
        }
        push_digit(&mut r, dv);
        proof {
            assert(dmap.subrange(start as int, idx + 1) =~= dmap.subrange(
                start as int,
                idx as int,
            ).push(dv as nat));
            assert(r@ =~= seq!['0', 'x'] + dmap.subrange(start as int, idx + 1).map_values(
                |d: nat| digit_char(d),
            ));
        }
        idx += 1;
    }
    proof {
        assert(dmap.subrange(start as int, dmap.len() as int) =~= dmap.skip(start as int));
        lemma_hex_rep_digits(dmap.skip(start as int));
        assert(hex_rep(n, rem as nat) == dmap.skip(start as int).map_values(
            |d: nat| digit_char(d),
        ));
        assert(r@ == label_spec(bits@));
    }
    r
}

/// The decimal writing of `n` as an owned string.
pub fn dec_string(n: u64) -> (r: String)
    ensures
        r@ == dec_rep(n as nat),
{
    let mut s = String::new();
    push_dec(&mut s, n);
    proof {
        assert(s@ =~= dec_rep(n as nat));
    }
    s
}

} // verus!
