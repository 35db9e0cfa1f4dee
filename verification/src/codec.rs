//! Turning a finished buffer into the bytes of a binary PPM image, and
//! reading such bytes back.
//!
//! The byte layout is: the magic `P6`, a space, then width, height and
//! per-channel maximum value in decimal, each followed by a single space
//! (the last space is the separator byte), then three raw channel bytes
//! per pixel — red, green, blue — in row-major order. The library only
//! produces and consumes byte sequences; writing them anywhere is the
//! caller's business.

use vstd::prelude::*;

use crate::color::Pixel;
use crate::image::Image;

verus! {

/// An ASCII decimal digit.
pub open spec fn is_digit(b: u8) -> bool {
    48 <= b <= 57
}

/// The decimal digits of `n` as ASCII bytes, most significant first,
/// without leading zeros (zero itself is the single digit `0`).
pub open spec fn dec_digits(n: nat) -> Seq<u8>
    decreases n,
{
    if n < 10 {
        seq![(48 + n) as u8]
    } else {
        dec_digits(n / 10).push((48 + n % 10) as u8)
    }
}

/// The number that a sequence of ASCII digits denotes.
pub open spec fn digits_val(s: Seq<u8>) -> int
    decreases s.len(),
{
    if s.len() == 0 {
        0
    } else {
        digits_val(s.drop_last()) * 10 + (s.last() - 48)
    }
}

/// The channel bytes of a pixel sequence: three bytes per pixel, red,
/// green and blue in that order, in the sequence's order.
pub open spec fn pixel_bytes(px: Seq<Pixel>) -> Seq<u8>
    decreases px.len(),
{
    if px.len() == 0 {
        Seq::empty()
    } else {
        pixel_bytes(px.drop_last()) + seq![px.last().r, px.last().g, px.last().b]
    }
}

/// The header bytes for the given dimensions and channel maximum.
pub open spec fn header_bytes(w: nat, h: nat, d: nat) -> Seq<u8> {
    seq![80u8, 54u8, 32u8] + dec_digits(w) + seq![32u8] + dec_digits(h) + seq![32u8]
        + dec_digits(d) + seq![32u8]
}

/// The whole encoding: the header followed by the channel bytes.
pub open spec fn encode_bytes(w: nat, h: nat, d: nat, px: Seq<Pixel>) -> Seq<u8> {
    header_bytes(w, h, d) + pixel_bytes(px)
}

/// The decimal digits of a number are ASCII digits, start with no
/// leading zero, and denote the number itself.
pub proof fn lemma_dec_digits(n: nat)
    ensures
        dec_digits(n).len() >= 1,
        forall|i: int| 0 <= i < dec_digits(n).len() ==> is_digit(#[trigger] dec_digits(n)[i]),
        n >= 1 ==> dec_digits(n)[0] != 48,
        dec_digits(n).len() > 1 ==> dec_digits(n)[0] != 48,
        digits_val(dec_digits(n)) == n,
    decreases n,
{
    if n < 10 {
        reveal_with_fuel(digits_val, 2);
        assert(dec_digits(n) =~= seq![(48 + n) as u8]);
        assert(dec_digits(n).drop_last() =~= Seq::<u8>::empty());
    } else {
        lemma_dec_digits(n / 10);
        let pre = dec_digits(n / 10);
        let d = (48 + n % 10) as u8;
        assert(dec_digits(n) =~= pre.push(d));
        assert(pre.push(d).drop_last() =~= pre);
        assert(n / 10 >= 1);
        assert(digits_val(dec_digits(n)) == (n / 10) * 10 + n % 10);
        assert((n / 10) * 10 + n % 10 == n) by (nonlinear_arith);
    }
}

/// A nonempty all-digit sequence without a leading zero is exactly the
/// decimal spelling of its value: decimal spellings are unique.
pub proof fn lemma_digits_unique(s: Seq<u8>)
    requires
        s.len() >= 1,
        forall|i: int| 0 <= i < s.len() ==> is_digit(#[trigger] s[i]),
        s[0] != 48 || s.len() == 1,
    ensures
        digits_val(s) >= 0,
        dec_digits(digits_val(s) as nat) == s,
    decreases s.len(),
{
    lemma_digits_val_bounds(s);
    if s.len() == 1 {
        reveal_with_fuel(digits_val, 2);
        let v = digits_val(s);
        assert(s.drop_last() =~= Seq::<u8>::empty());
        assert(v == s[0] - 48);
        assert(dec_digits(v as nat) =~= s);
    } else {
        let pre = s.drop_last();
        let d = s.last();
        lemma_digits_val_bounds(pre);
        lemma_digits_unique(pre);
        let pv = digits_val(pre);
        let v = digits_val(s);
        assert(v == pv * 10 + (d - 48));
        assert(pre[0] == s[0]);
        assert(pv >= 1);
        assert(v >= 10 && v / 10 == pv && v % 10 == d - 48) by (nonlinear_arith)
            requires
                v == pv * 10 + (d - 48),
                pv >= 1,
                48 <= d <= 57,
        ;
        assert(dec_digits(v as nat) =~= dec_digits((v as nat) / 10).push(
            (48 + (v as nat) % 10) as u8,
        ));
        assert(dec_digits(v as nat) =~= pre.push(d));
        assert(pre.push(d) =~= s);
    }
}

/// The value of an all-digit sequence is nonnegative, and positive when
/// the leading digit is not zero.
pub proof fn lemma_digits_val_bounds(s: Seq<u8>)
    requires
        forall|i: int| 0 <= i < s.len() ==> is_digit(#[trigger] s[i]),
    ensures
        digits_val(s) >= 0,
        s.len() >= 1 && s[0] != 48 ==> digits_val(s) >= 1,
    decreases s.len(),
{
    if s.len() == 0 {
    } else {
        let pre = s.drop_last();
        lemma_digits_val_bounds(pre);
        if s.len() >= 2 {
            assert(pre[0] == s[0]);
        }
    }
}

/// The channel bytes are three per pixel.
pub proof fn lemma_pixel_bytes_len(px: Seq<Pixel>)
    ensures
        pixel_bytes(px).len() == 3 * px.len(),
    decreases px.len(),
{
    if px.len() > 0 {
        lemma_pixel_bytes_len(px.drop_last());
    }
}

/// Where the maximal run of ASCII digits that starts at `i` ends.
pub open spec fn digit_run_end(bytes: Seq<u8>, i: int) -> int
    decreases bytes.len() - i,
{
    if i < 0 || i >= bytes.len() || !is_digit(bytes[i]) {
        i
    } else {
        digit_run_end(bytes, i + 1)
    }
}

/// The maximal digit run is made of digits and ends at the first
/// non-digit byte.
pub proof fn lemma_digit_run(bytes: Seq<u8>, i: int)
    requires
        0 <= i <= bytes.len(),
    ensures
        i <= digit_run_end(bytes, i) <= bytes.len(),
        forall|j: int| i <= j < digit_run_end(bytes, i) ==> is_digit(#[trigger] bytes[j]),
        digit_run_end(bytes, i) < bytes.len() ==> !is_digit(bytes[digit_run_end(bytes, i)]),
    decreases bytes.len() - i,
{
    if i < bytes.len() && is_digit(bytes[i]) {
        lemma_digit_run(bytes, i + 1);
    }
}

/// A stretch of digits with a non-digit (or the end) after it is exactly
/// the maximal digit run.
pub proof fn lemma_digit_run_of(bytes: Seq<u8>, i: int, e: int)
    requires
        0 <= i <= e <= bytes.len(),
        forall|j: int| i <= j < e ==> is_digit(#[trigger] bytes[j]),
        e == bytes.len() || !is_digit(bytes[e]),
    ensures
        digit_run_end(bytes, i) == e,
    decreases e - i,
{
    if i < e {
        lemma_digit_run_of(bytes, i + 1, e);
    }
}

/// Extending a digit sequence on the right never shrinks its value.
pub proof fn lemma_digits_val_prefix(s: Seq<u8>, m: int)
    requires
        0 <= m <= s.len(),
        forall|i: int| 0 <= i < s.len() ==> is_digit(#[trigger] s[i]),
    ensures
        digits_val(s) >= digits_val(s.take(m)),
    decreases s.len() - m,
{
    if m == s.len() {
        assert(s.take(m) =~= s);
    } else {
        lemma_digits_val_prefix(s, m + 1);
        let p = s.take(m + 1);
        assert(p.drop_last() =~= s.take(m));
        assert(forall|i: int| 0 <= i < p.len() ==> is_digit(#[trigger] p[i]));
        lemma_digits_val_bounds(s.take(m));
        assert(digits_val(p) == digits_val(s.take(m)) * 10 + (p.last() - 48));
    }
}

/// Where each part of an encoding sits in the byte sequence.
pub proof fn lemma_encode_layout(w: nat, h: nat, d: nat, px: Seq<Pixel>)
    ensures
        ({
            let b = encode_bytes(w, h, d, px);
            let lw = dec_digits(w).len() as int;
            let lh = dec_digits(h).len() as int;
            let ld = dec_digits(d).len() as int;
            &&& b.len() == 3 + lw + 1 + lh + 1 + ld + 1 + pixel_bytes(px).len()
            &&& b[0] == 80
            &&& b[1] == 54
            &&& b[2] == 32
            &&& b.subrange(3, 3 + lw) == dec_digits(w)
            &&& b[3 + lw] == 32
            &&& b.subrange(3 + lw + 1, 3 + lw + 1 + lh) == dec_digits(h)
            &&& b[3 + lw + 1 + lh] == 32
            &&& b.subrange(3 + lw + 1 + lh + 1, 3 + lw + 1 + lh + 1 + ld) == dec_digits(d)
            &&& b[3 + lw + 1 + lh + 1 + ld] == 32
            &&& b.subrange(3 + lw + 1 + lh + 1 + ld + 1, b.len() as int) == pixel_bytes(px)
        }),
{
    let b = encode_bytes(w, h, d, px);
    let lw = dec_digits(w).len() as int;
    let lh = dec_digits(h).len() as int;
    let ld = dec_digits(d).len() as int;
    assert(b.subrange(3, 3 + lw) =~= dec_digits(w));
    assert(b.subrange(3 + lw + 1, 3 + lw + 1 + lh) =~= dec_digits(h));
    assert(b.subrange(3 + lw + 1 + lh + 1, 3 + lw + 1 + lh + 1 + ld) =~= dec_digits(d));
    assert(b.subrange(3 + lw + 1 + lh + 1 + ld + 1, b.len() as int) =~= pixel_bytes(px));
}

/// Append the decimal digits of `n` to `out`.
fn push_dec(out: &mut Vec<u8>, n: usize)
    ensures
        final(out)@ == old(out)@ + dec_digits(n as nat),
    decreases n,
{
    if n < 10 {
        out.push(48 + n as u8);
        proof {
            assert(out@ =~= old(out)@ + dec_digits(n as nat));
        }
    } else {
        push_dec(out, n / 10);
        out.push(48 + (n % 10) as u8);
        proof {
            assert(out@ =~= old(out)@ + dec_digits(n as nat));
        }
    }
}

/// Parse a canonical decimal number at `start`: the maximal digit run
/// there must be nonempty, have no leading zero, and denote a value that
/// fits a `usize`. On success the value and the run's end come back; on
/// failure no `usize` value has its spelling as that run.
fn parse_nat(bytes: &Vec<u8>, start: usize) -> (r: Option<(usize, usize)>)
    requires
        start <= bytes@.len(),
    ensures
        match r {
            Some((v, end)) => {
                &&& start < end <= bytes@.len()
                &&& end as int == digit_run_end(bytes@, start as int)
                &&& bytes@.subrange(start as int, end as int) == dec_digits(v as nat)
            },
            None => forall|v: nat|
                v <= usize::MAX ==> bytes@.subrange(
                    start as int,
                    digit_run_end(bytes@, start as int),
                ) != dec_digits(v),
        },
{
    let len = bytes.len();
    proof {
        lemma_digit_run(bytes@, start as int);
    }
    if start >= len || bytes[start] < 48 || bytes[start] > 57 {
        proof {
            assert(digit_run_end(bytes@, start as int) == start);
            assert forall|v: nat|
                v <= usize::MAX implies bytes@.subrange(
                start as int,
                digit_run_end(bytes@, start as int),
            ) != dec_digits(v) by {
                lemma_dec_digits(v);
            }
        }
        return None;
    }
    if bytes[start] == 48 {
        if start + 1 < len && bytes[start + 1] >= 48 && bytes[start + 1] <= 57 {
            // A longer run that starts with zero spells no number.
            proof {
                let e = digit_run_end(bytes@, start as int);
                assert(is_digit(bytes@[start as int + 1]));
                assert(e > start + 1) by {
                    if e <= start + 1 {
                        assert(e == start + 1 || e == start);
                    }
                }
                assert forall|v: nat|
                    v <= usize::MAX implies bytes@.subrange(start as int, e) != dec_digits(
                    v,
                ) by {
                    lemma_dec_digits(v);
                    if bytes@.subrange(start as int, e) == dec_digits(v) {
                        assert(dec_digits(v)[0] == 48);
                        assert(dec_digits(v).len() == 1);
                    }
                }
            }
            return None;
        }
        proof {
            lemma_digit_run_of(bytes@, start as int, start as int + 1);
            assert(bytes@.subrange(start as int, start as int + 1) =~= dec_digits(0));
        }
        return Some((0, start + 1));
    }
    let mut v: usize = (bytes[start] - 48) as usize;
    let mut end: usize = start + 1;
    proof {
        assert(bytes@.subrange(start as int, end as int) =~= seq![bytes@[start as int]]);
        reveal_with_fuel(digits_val, 2);
        assert(digits_val(bytes@.subrange(start as int, end as int)) == v);
    }
    while end < len && bytes[end] >= 48 && bytes[end] <= 57
        invariant
            start < end <= len,
            len == bytes@.len(),
            bytes@[start as int] != 48,
            forall|j: int| start <= j < end ==> is_digit(#[trigger] bytes@[j]),
            v == digits_val(bytes@.subrange(start as int, end as int)),
        decreases len - end,
    {
        let d: u8 = bytes[end] - 48;
        let ghost run = bytes@.subrange(start as int, digit_run_end(bytes@, start as int));
        if v > (usize::MAX - d as usize) / 10 {
            // The run's value cannot fit a usize.
            proof {
                lemma_digit_run(bytes@, start as int);
                let e = digit_run_end(bytes@, start as int);
                assert(is_digit(bytes@[end as int]));
                assert(e > end as int) by {
                    if e <= end as int {
                        if e < end as int {
                            assert(is_digit(bytes@[e]));
                        } else {
                            assert(is_digit(bytes@[e]));
                        }
                    }
                }
                let grown = bytes@.subrange(start as int, end as int + 1);
                assert(grown.drop_last() =~= bytes@.subrange(start as int, end as int));
                assert(digits_val(grown) == v * 10 + d);
                assert(v * 10 + d > usize::MAX) by (nonlinear_arith)
                    requires
                        v > (usize::MAX - d as usize) / 10,
                        0 <= d <= 9,
                        (usize::MAX - d as usize) / 10 == ((usize::MAX - d) as int) / 10,
                ;
                assert(run.take(end as int + 1 - start) =~= grown);
                assert forall|j: int| 0 <= j < run.len() implies is_digit(
                    #[trigger] run[j],
                ) by {}
                lemma_digits_val_prefix(run, end as int + 1 - start);
                assert(digits_val(run) > usize::MAX);
                assert forall|v2: nat| v2 <= usize::MAX implies run != dec_digits(v2) by {
                    lemma_dec_digits(v2);
                }
            }
            return None;
        }
        v = v * 10 + d as usize;
        end = end + 1;
        proof {
            let cur = bytes@.subrange(start as int, end as int);
            assert(cur.drop_last() =~= bytes@.subrange(start as int, end as int - 1));
            assert(digits_val(cur) == digits_val(cur.drop_last()) * 10 + (cur.last() - 48));
        }
    }
    proof {
        lemma_digit_run_of(bytes@, start as int, end as int);
        let s = bytes@.subrange(start as int, end as int);
        lemma_digits_unique(s);
    }
    Some((v, end))
}

/// Equal channel-byte sequences come from equal pixel sequences.
pub proof fn lemma_pixel_bytes_injective(a: Seq<Pixel>, b: Seq<Pixel>)
    requires
        pixel_bytes(a) == pixel_bytes(b),
    ensures
        a == b,
    decreases a.len(),
{
    lemma_pixel_bytes_len(a);
    lemma_pixel_bytes_len(b);
    if a.len() == 0 {
        assert(a =~= b);
    } else {
        let n = pixel_bytes(a).len();
        assert(pixel_bytes(a.drop_last()) =~= pixel_bytes(a).subrange(0, n - 3));
        assert(pixel_bytes(b.drop_last()) =~= pixel_bytes(b).subrange(0, n - 3));
        lemma_pixel_bytes_injective(a.drop_last(), b.drop_last());
        assert(a.last().r == pixel_bytes(a)[n - 3]);
        assert(a.last().g == pixel_bytes(a)[n - 2]);
        assert(a.last().b == pixel_bytes(a)[n - 1]);
        assert(b.last().r == pixel_bytes(b)[n - 3]);
        assert(b.last().g == pixel_bytes(b)[n - 2]);
        assert(b.last().b == pixel_bytes(b)[n - 1]);
        assert(a.last() == b.last());
        assert(a.len() == b.len());
        assert forall|i: int| 0 <= i < a.len() implies a[i] == b[i] by {
            if i < a.len() - 1 {
                assert(a.drop_last()[i] == a[i]);
                assert(b.drop_last()[i] == b[i]);
            }
        }
        assert(a =~= b);
    }
}

/// Law: an encoding pins the buffer down — equal encodings mean equal
/// width, height, channel maximum and pixel contents. Together with the
/// contracts of `encode` and `decode` this says that decoding an encoded
/// buffer gives back exactly the buffer that was encoded.
pub proof fn lemma_encode_injective(
    w1: nat,
    h1: nat,
    d1: nat,
    px1: Seq<Pixel>,
    w2: nat,
    h2: nat,
    d2: nat,
    px2: Seq<Pixel>,
)
    requires
        encode_bytes(w1, h1, d1, px1) == encode_bytes(w2, h2, d2, px2),
    ensures
        w1 == w2,
        h1 == h2,
        d1 == d2,
        px1 == px2,
{
    let bytes = encode_bytes(w1, h1, d1, px1);
    lemma_encode_layout(w1, h1, d1, px1);
    lemma_encode_layout(w2, h2, d2, px2);
    lemma_dec_digits(w1);
    lemma_dec_digits(w2);
    lemma_dec_digits(h1);
    lemma_dec_digits(h2);
    lemma_dec_digits(d1);
    lemma_dec_digits(d2);
    let lw1 = dec_digits(w1).len() as int;
    let lw2 = dec_digits(w2).len() as int;
    assert forall|j: int| 3 <= j < 3 + lw1 implies is_digit(#[trigger] bytes[j]) by {
        assert(bytes.subrange(3, 3 + lw1)[j - 3] == bytes[j]);
    }
    lemma_digit_run_of(bytes, 3, 3 + lw1);
    assert forall|j: int| 3 <= j < 3 + lw2 implies is_digit(#[trigger] bytes[j]) by {
        assert(bytes.subrange(3, 3 + lw2)[j - 3] == bytes[j]);
    }
    lemma_digit_run_of(bytes, 3, 3 + lw2);
    assert(lw1 == lw2);
    assert(dec_digits(w1) == dec_digits(w2));
    assert(w1 == w2);
    let p1 = 3 + lw1;
    let lh1 = dec_digits(h1).len() as int;
    let lh2 = dec_digits(h2).len() as int;
    assert forall|j: int| p1 + 1 <= j < p1 + 1 + lh1 implies is_digit(#[trigger] bytes[j]) by {
        assert(bytes.subrange(p1 + 1, p1 + 1 + lh1)[j - (p1 + 1)] == bytes[j]);
    }
    lemma_digit_run_of(bytes, p1 + 1, p1 + 1 + lh1);
    assert forall|j: int| p1 + 1 <= j < p1 + 1 + lh2 implies is_digit(#[trigger] bytes[j]) by {
        assert(bytes.subrange(p1 + 1, p1 + 1 + lh2)[j - (p1 + 1)] == bytes[j]);
    }
    lemma_digit_run_of(bytes, p1 + 1, p1 + 1 + lh2);
    assert(lh1 == lh2);
    assert(dec_digits(h1) == dec_digits(h2));
    assert(h1 == h2);
    let p2 = p1 + 1 + lh1;
    let ld1 = dec_digits(d1).len() as int;
    let ld2 = dec_digits(d2).len() as int;
    assert forall|j: int| p2 + 1 <= j < p2 + 1 + ld1 implies is_digit(#[trigger] bytes[j]) by {
        assert(bytes.subrange(p2 + 1, p2 + 1 + ld1)[j - (p2 + 1)] == bytes[j]);
    }
    lemma_digit_run_of(bytes, p2 + 1, p2 + 1 + ld1);
    assert forall|j: int| p2 + 1 <= j < p2 + 1 + ld2 implies is_digit(#[trigger] bytes[j]) by {
        assert(bytes.subrange(p2 + 1, p2 + 1 + ld2)[j - (p2 + 1)] == bytes[j]);
    }
    lemma_digit_run_of(bytes, p2 + 1, p2 + 1 + ld2);
    assert(ld1 == ld2);
    assert(dec_digits(d1) == dec_digits(d2));
    assert(d1 == d2);
    let p3 = p2 + 1 + ld1;
    assert(pixel_bytes(px1) == bytes.subrange(p3 + 1, bytes.len() as int));
    assert(pixel_bytes(px2) == bytes.subrange(p3 + 1, bytes.len() as int));
    lemma_pixel_bytes_injective(px1, px2);
}

/// How a canonical encoding parses: the magic leads, each decimal field
/// is exactly the maximal digit run at its position with a space after
/// it, and the channel bytes fill the rest.
proof fn lemma_encode_parse(bytes: Seq<u8>, w: usize, h: usize, d: usize, px: Seq<Pixel>)
    requires
        w >= 1,
        h >= 1,
        px.len() == w as int * h as int,
        bytes == encode_bytes(w as nat, h as nat, d as nat, px),
    ensures
        bytes.len() >= 3,
        bytes[0] == 80,
        bytes[1] == 54,
        bytes[2] == 32,
        ({
            let p1 = digit_run_end(bytes, 3);
            let p2 = digit_run_end(bytes, p1 + 1);
            let p3 = digit_run_end(bytes, p2 + 1);
            &&& bytes.subrange(3, p1) == dec_digits(w as nat)
            &&& p1 < bytes.len() && bytes[p1] == 32
            &&& bytes.subrange(p1 + 1, p2) == dec_digits(h as nat)
            &&& p2 < bytes.len() && bytes[p2] == 32
            &&& bytes.subrange(p2 + 1, p3) == dec_digits(d as nat)
            &&& p3 < bytes.len() && bytes[p3] == 32
            &&& bytes.len() - (p3 + 1) == 3 * px.len()
            &&& bytes.subrange(p3 + 1, bytes.len() as int) == pixel_bytes(px)
        }),
{
    lemma_encode_layout(w as nat, h as nat, d as nat, px);
    lemma_dec_digits(w as nat);
    lemma_dec_digits(h as nat);
    lemma_dec_digits(d as nat);
    lemma_pixel_bytes_len(px);
    let lw = dec_digits(w as nat).len() as int;
    let lh = dec_digits(h as nat).len() as int;
    let ld = dec_digits(d as nat).len() as int;
    assert forall|j: int| 3 <= j < 3 + lw implies is_digit(#[trigger] bytes[j]) by {
        assert(bytes.subrange(3, 3 + lw)[j - 3] == bytes[j]);
    }
    lemma_digit_run_of(bytes, 3, 3 + lw);
    let p1 = 3 + lw;
    assert forall|j: int| p1 + 1 <= j < p1 + 1 + lh implies is_digit(#[trigger] bytes[j]) by {
        assert(bytes.subrange(p1 + 1, p1 + 1 + lh)[j - (p1 + 1)] == bytes[j]);
    }
    lemma_digit_run_of(bytes, p1 + 1, p1 + 1 + lh);
    let p2 = p1 + 1 + lh;
    assert forall|j: int| p2 + 1 <= j < p2 + 1 + ld implies is_digit(#[trigger] bytes[j]) by {
        assert(bytes.subrange(p2 + 1, p2 + 1 + ld)[j - (p2 + 1)] == bytes[j]);
    }
    lemma_digit_run_of(bytes, p2 + 1, p2 + 1 + ld);
}

/// Whether some valid buffer contents encode to exactly these bytes.
pub open spec fn is_encoding(bytes: Seq<u8>) -> bool {
    exists|w: usize, h: usize, d: usize, px: Seq<Pixel>|
        w >= 1 && h >= 1 && w as int * h as int <= usize::MAX && px.len() == w as int
            * h as int && bytes == #[trigger] encode_bytes(w as nat, h as nat, d as nat, px)
}

/// The buffer contents behind an encoding, as `is_encoding` promises
/// them.
proof fn encoding_witness(bytes: Seq<u8>) -> (t: (usize, usize, usize, Seq<Pixel>))
    requires
        is_encoding(bytes),
    ensures
        t.0 >= 1,
        t.1 >= 1,
        t.0 as int * t.1 as int <= usize::MAX,
        t.3.len() == t.0 as int * t.1 as int,
        bytes == encode_bytes(t.0 as nat, t.1 as nat, t.2 as nat, t.3),
{
    choose|w: usize, h: usize, d: usize, px: Seq<Pixel>|
        w >= 1 && h >= 1 && w as int * h as int <= usize::MAX && px.len() == w as int
            * h as int && bytes == #[trigger] encode_bytes(w as nat, h as nat, d as nat, px)
}

/// Read an encoding back into a buffer. Exactly the byte sequences that
/// `encode` produces from some well-formed buffer are accepted, and the
/// buffer that comes back encodes to the given bytes again.
pub fn decode(bytes: &Vec<u8>) -> (r: Option<Image>)
    ensures
        match r {
            Some(img) => {
                &&& img.wf()
                &&& bytes@ == encode_bytes(
                    img.width() as nat,
                    img.height() as nat,
                    img.depth() as nat,
                    img.pixels(),
                )
            },
            None => !is_encoding(bytes@),
        },
{
    let len = bytes.len();
    if len < 3 || bytes[0] != 80 || bytes[1] != 54 || bytes[2] != 32 {
        proof {
            if is_encoding(bytes@) {
                let (w2, h2, d2, px2) = encoding_witness(bytes@);
                lemma_encode_parse(bytes@, w2, h2, d2, px2);
            }
        }
        return None;
    }
    let wr = parse_nat(bytes, 3);
    if wr.is_none() {
        proof {
            if is_encoding(bytes@) {
                let (w2, h2, d2, px2) = encoding_witness(bytes@);
                lemma_encode_parse(bytes@, w2, h2, d2, px2);
            }
        }
        return None;
    }
    let (w, p1) = wr.unwrap();
    if w == 0 || p1 >= len || bytes[p1] != 32 {
        proof {
            if is_encoding(bytes@) {
                let (w2, h2, d2, px2) = encoding_witness(bytes@);
                lemma_encode_parse(bytes@, w2, h2, d2, px2);
                lemma_dec_digits(w as nat);
                lemma_dec_digits(w2 as nat);
            }
        }
        return None;
    }
    let hr = parse_nat(bytes, p1 + 1);
    if hr.is_none() {
        proof {
            if is_encoding(bytes@) {
                let (w2, h2, d2, px2) = encoding_witness(bytes@);
                lemma_encode_parse(bytes@, w2, h2, d2, px2);
            }
        }
        return None;
    }
    let (h, p2) = hr.unwrap();
    if h == 0 || p2 >= len || bytes[p2] != 32 {
        proof {
            if is_encoding(bytes@) {
                let (w2, h2, d2, px2) = encoding_witness(bytes@);
                lemma_encode_parse(bytes@, w2, h2, d2, px2);
                lemma_dec_digits(h as nat);
                lemma_dec_digits(h2 as nat);
            }
        }
        return None;
    }
    let dr = parse_nat(bytes, p2 + 1);
    if dr.is_none() {
        proof {
            if is_encoding(bytes@) {
                let (w2, h2, d2, px2) = encoding_witness(bytes@);
                lemma_encode_parse(bytes@, w2, h2, d2, px2);
            }
        }
        return None;
    }
    let (d, p3) = dr.unwrap();
    if p3 >= len || bytes[p3] != 32 || w > usize::MAX / h {
        proof {
            if is_encoding(bytes@) {
                let (w2, h2, d2, px2) = encoding_witness(bytes@);
                lemma_encode_parse(bytes@, w2, h2, d2, px2);
                lemma_dec_digits(w as nat);
                lemma_dec_digits(w2 as nat);
                lemma_dec_digits(h as nat);
                lemma_dec_digits(h2 as nat);
                assert(w == w2 && h == h2);
                assert(w <= usize::MAX / h) by (nonlinear_arith)
                    requires
                        w as int * h as int <= usize::MAX,
                        h >= 1,
                        usize::MAX / h == usize::MAX as int / h as int,
                ;
            }
        }
        return None;
    }
    let pos = p3 + 1;
    proof {
        assert(w as int * h as int <= usize::MAX) by (nonlinear_arith)
            requires
                1 <= h,
                0 <= w,
                w <= usize::MAX as int / h as int,
        ;
    }
    let npx = w * h;
    let rem = len - pos;
    if rem / 3 != npx || rem % 3 != 0 {
        proof {
            if is_encoding(bytes@) {
                let (w2, h2, d2, px2) = encoding_witness(bytes@);
                lemma_encode_parse(bytes@, w2, h2, d2, px2);
                lemma_dec_digits(w as nat);
                lemma_dec_digits(w2 as nat);
                lemma_dec_digits(h as nat);
                lemma_dec_digits(h2 as nat);
                lemma_dec_digits(d as nat);
                lemma_dec_digits(d2 as nat);
                assert(w == w2 && h == h2 && d == d2);
                assert(rem == 3 * (w as int * h as int));
            }
        }
        return None;
    }
    proof {
        assert(rem == 3 * npx);
    }
    let mut data: Vec<Pixel> = Vec::new();
    let mut j: usize = 0;
    while j < npx
        invariant
            j <= npx,
            data@.len() == j,
            len == bytes@.len(),
            pos + 3 * npx == len,
            pixel_bytes(data@) == bytes@.subrange(pos as int, pos as int + 3 * (j as int)),
        decreases npx - j,
    {
        let base = pos + 3 * j;
        let pr = bytes[base];
        let pg = bytes[base + 1];
        let pb = bytes[base + 2];
        let ghost prev = data@;
        data.push(Pixel { r: pr, g: pg, b: pb });
        j = j + 1;
        proof {
            let cur = data@;
            assert(cur.drop_last() =~= prev);
            assert(pixel_bytes(cur) == pixel_bytes(prev) + seq![
                cur.last().r,
                cur.last().g,
                cur.last().b,
            ]);
            assert(bytes@.subrange(pos as int, pos as int + 3 * (j as int)) =~= bytes@
                .subrange(pos as int, pos as int + 3 * (j as int) - 3) + seq![
                bytes@[base as int],
                bytes@[base as int + 1],
                bytes@[base as int + 2],
            ]);
        }
    }
    let img = Image::from_parts(w, h, d, data);
    proof {
        assert(bytes@.subrange(pos as int, len as int) == pixel_bytes(img.pixels()));
        assert(bytes@.subrange(0, 3) =~= seq![80u8, 54u8, 32u8]);
        assert(bytes@.subrange(3, p1 as int) == dec_digits(w as nat));
        assert(bytes@.subrange(p1 as int + 1, p2 as int) == dec_digits(h as nat));
        assert(bytes@.subrange(p2 as int + 1, p3 as int) == dec_digits(d as nat));
        assert(bytes@ =~= seq![80u8, 54u8, 32u8] + dec_digits(w as nat) + seq![32u8]
            + dec_digits(h as nat) + seq![32u8] + dec_digits(d as nat) + seq![32u8]
            + pixel_bytes(img.pixels()));
        assert(encode_bytes(w as nat, h as nat, d as nat, img.pixels()) =~= seq![
            80u8,
            54u8,
            32u8,
        ] + dec_digits(w as nat) + seq![32u8] + dec_digits(h as nat) + seq![32u8]
            + dec_digits(d as nat) + seq![32u8] + pixel_bytes(img.pixels()));
    }
    Some(img)
}

impl Image {
    /// The textual header for this buffer: magic, width, height and
    /// channel maximum in decimal, whitespace separated, ending in the
    /// single separator byte.
    pub fn header(&self) -> (r: Vec<u8>)
        ensures
            r@ == header_bytes(
                self.width() as nat,
                self.height() as nat,
                self.depth() as nat,
            ),
    {
        let mut out: Vec<u8> = Vec::new();
        out.push(80);
        out.push(54);
        out.push(32);
        push_dec(&mut out, self.width());
        out.push(32);
        push_dec(&mut out, self.height());
        out.push(32);
        push_dec(&mut out, self.depth());
        out.push(32);
        proof {
            assert(out@ =~= header_bytes(
                self.width() as nat,
                self.height() as nat,
                self.depth() as nat,
            ));
        }
        out
    }

    /// The full encoding of this buffer: the header followed by three
    /// channel bytes per pixel in row-major order.
    pub fn encode(&self) -> (r: Vec<u8>)
        requires
            self.wf(),
        ensures
            r@ == encode_bytes(
                self.width() as nat,
                self.height() as nat,
                self.depth() as nat,
                self.pixels(),
            ),
    {
        let mut out = self.header();
        let ghost head = out@;
        let n: usize = self.pixel_count();
        let mut i: usize = 0;
        while i < n
            invariant
                i <= n,
                n == self.pixels().len(),
                self.wf(),
                head == header_bytes(
                    self.width() as nat,
                    self.height() as nat,
                    self.depth() as nat,
                ),
                out@ == head + pixel_bytes(self.pixels().take(i as int)),
            decreases n - i,
        {
            let p = self.pixel_at_index(i);
            out.push(p.r);
            out.push(p.g);
            out.push(p.b);
            i = i + 1;
            proof {
                let cur = self.pixels().take(i as int);
                assert(cur.drop_last() =~= self.pixels().take(i - 1));
                assert(cur.last() == self.pixels()[i - 1]);
                assert(out@ =~= head + pixel_bytes(cur));
            }
        }
        proof {
            assert(self.pixels().take(n as int) =~= self.pixels());
        }
        out
    }
}

} // verus!
