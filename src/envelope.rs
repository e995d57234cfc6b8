//! The exchange envelope: `DSC`, the payload length in base 31, the
//! compressed bytes as base-62 numerals of four bytes each, and a checksum
//! digit.

use vstd::prelude::*;
use crate::digits::{
    spec_char, spec_digit, all_digits, digits_value, fixed_digits, pow62, read_number,
    write_number, digit_value,
    digit_char, lemma_fixed_digits_value, lemma_digit_char,
};
use crate::error::Error;

verus! {

/// The digits of a length before its last one: base 31, most significant
/// first, with no leading zero.
pub open spec fn lead_digits(m: nat) -> Seq<u8>
    decreases m,
{
    if m < 31 {
        seq![spec_char(m)]
    } else {
        lead_digits(m / 31).push(spec_char(m % 31))
    }
}

/// A length in base 31; its last digit is marked by adding 31.
pub open spec fn length_digits(n: nat) -> Seq<u8> {
    if n < 31 {
        seq![spec_char(n + 31)]
    } else {
        lead_digits(n / 31).push(spec_char(n % 31 + 31))
    }
}

/// `256^r`.
pub open spec fn pow256(r: nat) -> nat
    decreases r,
{
    if r == 0 {
        1
    } else {
        256 * pow256((r - 1) as nat)
    }
}

/// The little-endian number of some bytes.
pub open spec fn chunk_value(b: Seq<u8>) -> nat
    decreases b.len(),
{
    if b.len() == 0 {
        0
    } else {
        b[0] as nat + 256 * chunk_value(b.drop_first())
    }
}

/// The `r` little-endian bytes of `v`.
pub open spec fn le_bytes(v: nat, r: nat) -> Seq<u8>
    decreases r,
{
    if r == 0 {
        Seq::empty()
    } else {
        seq![(v % 256) as u8] + le_bytes(v / 256, (r - 1) as nat)
    }
}

/// How many digits a chunk of `r` bytes takes.
pub open spec fn chunk_width(r: nat) -> nat {
    if r == 1 {
        2
    } else if r == 2 {
        3
    } else if r == 3 {
        5
    } else {
        6
    }
}

/// The digits of the compressed bytes: six per chunk of four bytes, and
/// a shorter numeral for a last chunk of fewer.
pub open spec fn body_digits(b: Seq<u8>) -> Seq<u8>
    decreases b.len(),
{
    if b.len() == 0 {
        Seq::empty()
    } else if b.len() <= 4 {
        fixed_digits(chunk_value(b), chunk_width(b.len()))
    } else {
        fixed_digits(chunk_value(b.take(4)), 6) + body_digits(b.skip(4))
    }
}

/// The sum of the chunks' numbers.
pub open spec fn chunk_sum(b: Seq<u8>) -> nat
    decreases b.len(),
{
    if b.len() == 0 {
        0
    } else if b.len() <= 4 {
        chunk_value(b)
    } else {
        chunk_value(b.take(4)) + chunk_sum(b.skip(4))
    }
}

/// The checksum digit: the chunk sum, wrapped to 32 bits, modulo 62.
pub open spec fn checksum(b: Seq<u8>) -> nat {
    (chunk_sum(b) % 0x1_0000_0000) % 62
}

pub open spec fn magic() -> Seq<u8> {
    seq![68u8, 83u8, 67u8]
}

/// The envelope of `b`, a compressed payload of length `n`.
pub open spec fn spec_envelope(n: nat, b: Seq<u8>) -> Seq<u8> {
    magic() + length_digits(n) + body_digits(b) + seq![spec_char(checksum(b))]
}

pub proof fn lemma_chunk_le(v: nat, r: nat)
    requires
        v < pow256(r),
    ensures
        chunk_value(le_bytes(v, r)) == v,
        le_bytes(v, r).len() == r,
    decreases r,
{
    if r > 0 {
        let t = le_bytes(v / 256, (r - 1) as nat);
        assert(v / 256 < pow256((r - 1) as nat)) by (nonlinear_arith)
            requires v < 256 * pow256((r - 1) as nat);
        lemma_chunk_le(v / 256, (r - 1) as nat);
        assert(le_bytes(v, r).drop_first() =~= t);
        assert(v == v % 256 + 256 * (v / 256)) by (nonlinear_arith);
    }
}

/// Appending a chunk to whole chunks appends its numeral and its number.
pub proof fn lemma_body_append(b: Seq<u8>, w: Seq<u8>)
    requires
        b.len() % 4 == 0,
        1 <= w.len() <= 4,
    ensures
        body_digits(b + w) == body_digits(b) + fixed_digits(chunk_value(w), chunk_width(w.len())),
        chunk_sum(b + w) == chunk_sum(b) + chunk_value(w),
    decreases b.len(),
{
    if b.len() == 0 {
        assert(b + w =~= w);
        assert(body_digits(b) + fixed_digits(chunk_value(w), chunk_width(w.len()))
            =~= fixed_digits(chunk_value(w), chunk_width(w.len())));
    } else {
        let bw = b + w;
        assert(bw.take(4) =~= b.take(4));
        assert(bw.skip(4) =~= b.skip(4) + w);
        lemma_body_append(b.skip(4), w);
        if b.len() == 4 {
            assert(b.skip(4) =~= Seq::<u8>::empty());
            assert(b.take(4) =~= b);
            assert(body_digits(b.skip(4)) =~= Seq::<u8>::empty());
            assert(body_digits(b) =~= fixed_digits(chunk_value(b.take(4)), 6) + body_digits(b.skip(4)));
        }
        assert(body_digits(bw) =~= body_digits(b) + fixed_digits(chunk_value(w), chunk_width(w.len())));
    }
}

proof fn lemma_digits_concat(a: Seq<u8>, b: Seq<u8>)
    requires
        all_digits(a),
        all_digits(b),
    ensures
        all_digits(a + b),
{
    assert forall|i: int| 0 <= i < (a + b).len() implies #[trigger] spec_digit((a + b)[i]) is Some by {
        if i < a.len() {
            assert((a + b)[i] == a[i]);
        } else {
            assert((a + b)[i] == b[i - a.len()]);
        }
    }
}

proof fn lemma_fixed_all_digits(v: nat, w: nat)
    ensures
        all_digits(fixed_digits(v, w)),
    decreases w,
{
    if w > 0 {
        lemma_fixed_all_digits(v / 62, (w - 1) as nat);
        crate::digits::lemma_char_digit(v % 62);
        lemma_digits_concat(fixed_digits(v / 62, (w - 1) as nat), seq![spec_char(v % 62)]);
        assert(fixed_digits(v / 62, (w - 1) as nat) + seq![spec_char(v % 62)] =~= fixed_digits(v, w));
    }
}

proof fn lemma_lead_all_digits(m: nat)
    ensures
        all_digits(lead_digits(m)),
    decreases m,
{
    crate::digits::lemma_char_digit(m % 31);
    if m >= 31 {
        lemma_lead_all_digits(m / 31);
        lemma_digits_concat(lead_digits(m / 31), seq![spec_char(m % 31)]);
        assert(lead_digits(m / 31) + seq![spec_char(m % 31)] =~= lead_digits(m));
    } else {
        crate::digits::lemma_char_digit(m);
    }
}

proof fn lemma_body_all_digits(b: Seq<u8>)
    ensures
        all_digits(body_digits(b)),
    decreases b.len(),
{
    if b.len() > 4 {
        lemma_fixed_all_digits(chunk_value(b.take(4)), 6);
        lemma_body_all_digits(b.skip(4));
        lemma_digits_concat(fixed_digits(chunk_value(b.take(4)), 6), body_digits(b.skip(4)));
    } else if b.len() > 0 {
        lemma_fixed_all_digits(chunk_value(b), chunk_width(b.len()));
    }
}

/// After the magic, an envelope holds alphabet bytes only.
pub proof fn lemma_envelope_all_digits(n: nat, b: Seq<u8>)
    ensures
        all_digits(spec_envelope(n, b).skip(3)),
{
    let e = spec_envelope(n, b);
    crate::digits::lemma_char_digit(checksum(b));
    crate::digits::lemma_char_digit(n % 31 + 31);
    if n >= 31 {
        lemma_lead_all_digits(n / 31);
        lemma_digits_concat(lead_digits(n / 31), seq![spec_char(n % 31 + 31)]);
    } else {
        crate::digits::lemma_char_digit(n + 31);
    }
    lemma_body_all_digits(b);
    lemma_digits_concat(length_digits(n), body_digits(b));
    lemma_digits_concat(length_digits(n) + body_digits(b), seq![spec_char(checksum(b))]);
    assert(e.skip(3) =~= length_digits(n) + body_digits(b) + seq![spec_char(checksum(b))]);
}

/// A numeral written at a width that holds it reads back as the number.
proof fn lemma_fixed_value(v: nat, w: nat)
    requires
        v < pow62(w),
    ensures
        digits_value(fixed_digits(v, w)) == v,
        fixed_digits(v, w).len() == w,
    decreases w,
{
    if w > 0 {
        assert(v / 62 < pow62((w - 1) as nat)) by (nonlinear_arith)
            requires v < 62 * pow62((w - 1) as nat);
        lemma_fixed_value(v / 62, (w - 1) as nat);
        let f = fixed_digits(v, w);
        assert(f.drop_last() =~= fixed_digits(v / 62, (w - 1) as nat));
        crate::digits::lemma_char_digit(v % 62);
        assert(v == (v / 62) * 62 + v % 62) by (nonlinear_arith);
    } else {
        assert(v == 0) by {
            assert(pow62(0) == 1);
        }
    }
}

/// The bytes of a chunk's number are the chunk.
proof fn lemma_le_chunk(w: Seq<u8>)
    ensures
        le_bytes(chunk_value(w), w.len()) == w,
        chunk_value(w) < pow256(w.len()),
    decreases w.len(),
{
    if w.len() > 0 {
        let rest = w.drop_first();
        lemma_le_chunk(rest);
        let c = chunk_value(w);
        let cr = chunk_value(rest);
        assert(c % 256 == w[0] as nat && c / 256 == cr) by (nonlinear_arith)
            requires c == w[0] as nat + 256 * cr, w[0] < 256;
        assert(c < 256 * pow256(rest.len())) by (nonlinear_arith)
            requires c == w[0] as nat + 256 * cr, w[0] < 256, cr < pow256(rest.len());
        assert(le_bytes(c, w.len()) =~= w);
    }
}

/// The numerals of whole chunks followed by those of more bytes.
proof fn lemma_body_concat(p: Seq<u8>, q: Seq<u8>)
    requires
        p.len() % 4 == 0,
    ensures
        body_digits(p + q) == body_digits(p) + body_digits(q),
        chunk_sum(p + q) == chunk_sum(p) + chunk_sum(q),
    decreases p.len(),
{
    if p.len() == 0 {
        assert(p + q =~= q);
        assert(body_digits(p) + body_digits(q) =~= body_digits(q));
    } else {
        let pq = p + q;
        assert(pq.take(4) =~= p.take(4));
        assert(pq.skip(4) =~= p.skip(4) + q);
        lemma_body_concat(p.skip(4), q);
        if p.len() == 4 {
            assert(p.skip(4) =~= Seq::<u8>::empty());
            assert(p.take(4) =~= p);
            assert(body_digits(p.skip(4)) =~= Seq::<u8>::empty());
            assert(body_digits(p) =~= fixed_digits(chunk_value(p.take(4)), 6) + body_digits(p.skip(4)));
            if q.len() == 0 {
                assert(pq =~= p);
                assert(body_digits(p) + body_digits(q) =~= body_digits(p));
            }
        }
        if q.len() > 0 || p.len() > 4 {
            assert(body_digits(pq) =~= body_digits(p) + body_digits(q));
        } else {
            assert(pq =~= p);
            assert(body_digits(p) + body_digits(q) =~= body_digits(p));
        }
    }
}

/// Whole chunks take six digits each.
proof fn lemma_body_whole_len(p: Seq<u8>)
    requires
        p.len() % 4 == 0,
    ensures
        body_digits(p).len() == 6 * (p.len() / 4),
    decreases p.len(),
{
    if p.len() > 0 {
        lemma_fixed_all_len(chunk_value(p.take(4)), 6);
        if p.len() > 4 {
            lemma_body_whole_len(p.skip(4));
            assert((p.len() - 4) / 4 + 1 == p.len() / 4);
        } else {
            assert(p.take(4) =~= p);
        }
    }
}

proof fn lemma_fixed_all_len(v: nat, w: nat)
    ensures
        fixed_digits(v, w).len() == w,
    decreases w,
{
    if w > 0 {
        lemma_fixed_all_len(v / 62, (w - 1) as nat);
    }
}

/// Where the numerals of `b` stand: whole chunks of four bytes first, six
/// digits each, then the last chunk of one to four bytes.
proof fn lemma_body_split(b: Seq<u8>)
    requires
        b.len() > 0,
    ensures
        ({
            let q = (b.len() - 1) / 4;
            let r = b.len() - 4 * q;
            &&& 1 <= r <= 4
            &&& body_digits(b) == body_digits(b.take(4 * q)) + fixed_digits(
                chunk_value(b.skip(4 * q)),
                chunk_width(r as nat),
            )
            &&& body_digits(b.take(4 * q)).len() == 6 * q
            &&& body_digits(b).len() == 6 * q + chunk_width(r as nat)
        }),
{
    let q = (b.len() - 1) / 4;
    let t = b.skip(4 * q);
    assert(b =~= b.take(4 * q) + t);
    lemma_body_concat(b.take(4 * q), t);
    lemma_body_whole_len(b.take(4 * q));
    lemma_fixed_all_len(chunk_value(t), chunk_width(t.len()));
}

/// The numeral of the whole chunk at index `i`.
proof fn lemma_body_chunk_at(b: Seq<u8>, i: int)
    requires
        0 <= i,
        4 * i + 4 <= b.len(),
    ensures
        6 * i + 6 <= body_digits(b).len(),
        body_digits(b).subrange(6 * i, 6 * i + 6) == fixed_digits(
            chunk_value(b.subrange(4 * i, 4 * i + 4)),
            6,
        ),
{
    let p = b.take(4 * i);
    let t = b.skip(4 * i);
    assert(b =~= p + t);
    lemma_body_concat(p, t);
    lemma_body_whole_len(p);
    let w = b.subrange(4 * i, 4 * i + 4);
    assert(t.take(4) =~= w);
    lemma_fixed_all_len(chunk_value(w), 6);
    if t.len() > 4 {
        assert(body_digits(t) == fixed_digits(chunk_value(t.take(4)), 6) + body_digits(t.skip(4)));
    } else {
        assert(t =~= w);
    }
    assert(body_digits(b).subrange(6 * i, 6 * i + 6) =~= fixed_digits(chunk_value(w), 6));
}

/// Appends the `r` little-endian bytes of `v`.
fn push_le(v: u64, r: usize, out: &mut Vec<u8>)
    ensures
        final(out)@ == old(out)@ + le_bytes(v as nat, r as nat),
    decreases r,
{
    if r > 0 {
        out.push((v % 256) as u8);
        push_le(v / 256, r - 1, out);
        proof {
            assert(seq![(v % 256) as u8] + le_bytes((v / 256) as nat, (r - 1) as nat)
                == le_bytes(v as nat, r as nat));
        }
    }
}

/// A digit that is not the last of a length: below 31.
pub open spec fn is_lead_digit(c: u8) -> bool {
    spec_digit(c) is Some && spec_digit(c)->Some_0 < 31
}

/// The number that base-31 digits write, most significant first.
pub open spec fn value31(s: Seq<u8>) -> nat
    decreases s.len(),
{
    if s.len() == 0 {
        0
    } else {
        value31(s.drop_last()) * 31 + match spec_digit(s.last()) {
            Some(d) => d as nat,
            None => 0,
        }
    }
}

proof fn lemma_lead_shape(m: nat)
    requires
        m >= 1,
    ensures
        lead_digits(m).len() >= 1,
        value31(lead_digits(m)) == m,
        forall|j: int| 0 <= j < lead_digits(m).len() ==> is_lead_digit(#[trigger] lead_digits(m)[j]),
        spec_digit(lead_digits(m)[0]) != Some(0u8),
        forall|j: int| 0 <= j <= lead_digits(m).len() ==> #[trigger] value31(lead_digits(m).take(j)) <= m,
    decreases m,
{
    let l = lead_digits(m);
    crate::digits::lemma_char_digit(m % 31);
    if m < 31 {
        crate::digits::lemma_char_digit(m);
        assert(l.drop_last() =~= Seq::<u8>::empty());
        assert(value31(Seq::<u8>::empty()) == 0);
        assert(value31(l) == m);
        assert forall|j: int| 0 <= j <= l.len() implies #[trigger] value31(l.take(j)) <= m by {
            if j == 0 {
                assert(l.take(0) =~= Seq::<u8>::empty());
            } else {
                assert(l.take(1) =~= l);
            }
        }
    } else {
        let h = lead_digits(m / 31);
        lemma_lead_shape(m / 31);
        assert(l.drop_last() =~= h);
        assert(m == (m / 31) * 31 + m % 31) by (nonlinear_arith);
        assert forall|j: int| 0 <= j < l.len() implies is_lead_digit(#[trigger] l[j]) by {
            if j < h.len() {
                assert(l[j] == h[j]);
            }
        }
        assert(l[0] == h[0]);
        assert forall|j: int| 0 <= j <= l.len() implies #[trigger] value31(l.take(j)) <= m by {
            if j < l.len() {
                assert(l.take(j) =~= h.take(j));
                assert(value31(h.take(j)) <= m / 31);
            } else {
                assert(l.take(j) =~= l);
            }
        }
    }
}

proof fn lemma_length_shape(n: nat)
    ensures
        length_digits(n).len() >= 1,
        spec_digit(length_digits(n).last()) == Some((n % 31 + 31) as u8),
        forall|j: int| 0 <= j < length_digits(n).len() - 1 ==> is_lead_digit(#[trigger] length_digits(n)[j]),
        length_digits(n).len() > 1 ==> n >= 31 && spec_digit(length_digits(n)[0]) != Some(0u8),
        forall|j: int| 0 <= j < length_digits(n).len() ==> #[trigger] value31(length_digits(n).take(j))
            <= n / 31,
        value31(length_digits(n).take(length_digits(n).len() - 1)) == n / 31,
{
    let l = length_digits(n);
    crate::digits::lemma_char_digit(n % 31 + 31);
    if n < 31 {
        assert(l.take(0) =~= Seq::<u8>::empty());
        assert(n % 31 == n);
    } else {
        let h = lead_digits(n / 31);
        lemma_lead_shape(n / 31);
        assert(l.take(l.len() - 1) =~= h);
        assert forall|j: int| 0 <= j < l.len() - 1 implies is_lead_digit(#[trigger] l[j]) by {
            assert(l[j] == h[j]);
        }
        assert(l[0] == h[0]);
        assert forall|j: int| 0 <= j < l.len() implies #[trigger] value31(l.take(j)) <= n / 31 by {
            assert(l.take(j) =~= h.take(j));
        }
    }
}

/// Reads the magic and the length that follows; returns the length and
/// where the body starts. When the input starts with the magic and the
/// digits of `expect`, that is what it returns.
fn decode_length(data: &[u8], Ghost(expect): Ghost<Option<nat>>) -> (r: Result<(u32, usize), Error>)
    requires
        expect matches Some(ne) ==> ne <= u32::MAX && data@.len() > 3 + length_digits(ne).len()
            && data@.take(3) == magic()
            && data@.subrange(3, 3 + length_digits(ne).len() as int) == length_digits(ne),
    ensures
        r matches Ok((n, p)) ==> 3 < p <= data@.len() && data@.take(3) == magic()
            && data@.subrange(3, p as int) == length_digits(n as nat),
        data@.len() < 3 || data@.take(3) != magic() ==> r is Err,
        expect matches Some(ne) ==> r matches Ok((n, p)) && n == ne && p == 3 + length_digits(ne).len(),
{
    let len = data.len();
    let ghost l = match expect {
        Some(ne) => length_digits(ne),
        None => Seq::<u8>::empty(),
    };
    proof {
        if let Some(ne) = expect {
            lemma_length_shape(ne);
        }
    }
    if len < 3 || data[0] != 68u8 || data[1] != 83u8 || data[2] != 67u8 {
        proof {
            if len >= 3 && data@.take(3) == magic() {
                assert(data@.take(3)[0] == 68u8);
                assert(data@.take(3)[1] == 83u8);
                assert(data@.take(3)[2] == 67u8);
            }
        }
        return Err(Error::from_reason("exchange string should start with the magic"));
    }
    let mut pos: usize = 3;
    let mut n: u64 = 0;
    let total: u64;
    loop
        invariant_except_break
            pos == 3 ==> n == 0,
            pos > 3 ==> n >= 1 && data@.subrange(3, pos as int) == lead_digits(n as nat),
            n == value31(data@.subrange(3, pos as int)),
            expect is Some ==> pos - 3 < l.len(),
        invariant
            len == data@.len(),
            3 <= pos <= len,
            n < 0x1_0000_0000,
            expect matches Some(ne) ==> ne <= u32::MAX && len > 3 + l.len() && l == length_digits(ne)
                && data@.subrange(3, 3 + l.len() as int) == l,
            expect matches Some(ne) ==> l.len() >= 1
                && spec_digit(l.last()) == Some((ne % 31 + 31) as u8)
                && (forall|j: int| 0 <= j < l.len() - 1 ==> is_lead_digit(#[trigger] l[j]))
                && (l.len() > 1 ==> ne >= 31 && spec_digit(l[0]) != Some(0u8))
                && (forall|j: int| 0 <= j < l.len() ==> #[trigger] value31(l.take(j)) <= ne / 31)
                && value31(l.take(l.len() - 1)) == ne / 31,
        ensures
            4 <= pos <= len,
            total <= u32::MAX,
            data@.subrange(3, pos as int) == length_digits(total as nat),
            expect matches Some(ne) ==> total == ne && pos == 3 + l.len(),
        decreases len - pos,
    {
        let ghost k = pos - 3;
        proof {
            if expect is Some {
                assert(data@[pos as int] == l[k]) by {
                    assert(data@.subrange(3, 3 + l.len() as int)[k] == data@[pos as int]);
                }
                assert(data@.subrange(3, pos as int) =~= l.take(k)) by {
                    assert forall|j: int| 0 <= j < k implies data@.subrange(3, pos as int)[j] == l.take(k)[j] by {
                        assert(data@.subrange(3, 3 + l.len() as int)[j] == data@[3 + j]);
                    }
                }
            }
        }
        if pos >= len {
            return Err(Error::from_reason("exchange string should hold its length"));
        }
        let d = match digit_value(data[pos]) {
            Some(d) => d,
            None => { return Err(Error::from_reason("exchange string should use base 62 digits")); },
        };
        proof { lemma_digit_char(data@[pos as int]); }
        assert(data@.subrange(3, pos + 1) =~= data@.subrange(3, pos as int).push(data@[pos as int]));
        assert(data@.subrange(3, pos + 1).drop_last() =~= data@.subrange(3, pos as int));
        if d >= 31 {
            let e = (d - 31) as u64;
            let t = n * 31 + e;
            if t > u32::MAX as u64 {
                return Err(Error::from_reason("exchange length should fit in 32 bits"));
            }
            proof {
                if pos > 3 {
                    assert(t / 31 == n && t % 31 == e) by (nonlinear_arith)
                        requires t == n * 31 + e, e < 31;
                    assert(t >= 31) by (nonlinear_arith)
                        requires t == n * 31 + e, n >= 1;
                } else {
                    assert(data@.subrange(3, pos as int) =~= Seq::<u8>::empty());
                }
                assert(spec_char((e + 31) as nat) == data@[pos as int]);
            }
            total = t;
            pos = pos + 1;
            break;
        }
        if pos == 3 && d == 0 {
            return Err(Error::from_reason("exchange length should have no leading zero"));
        }
        let t = n * 31 + d as u64;
        if t >= 0x1_0000_0000u64 {
            return Err(Error::from_reason("exchange length should fit in 32 bits"));
        }
        proof {
            if pos > 3 {
                assert(t / 31 == n && t % 31 == d) by (nonlinear_arith)
                    requires t == n * 31 + d, d < 31;
                assert(t >= 31) by (nonlinear_arith)
                    requires t == n * 31 + d, n >= 1;
            } else {
                assert(data@.subrange(3, pos as int) =~= Seq::<u8>::empty());
            }
        }
        n = t;
        pos = pos + 1;
    }
    proof {
        assert(data@.take(3) =~= magic()) by {
            assert(data@.take(3)[0] == 68u8);
        }
    }
    Ok((total as u32, pos))
}

/// The sum wrapped to 32 bits gains a chunk's number by a wrapping add.
proof fn lemma_wrapped_sum(a: nat, v: nat, s: u32)
    requires
        v < 0x1_0000_0000,
        s as nat == a % 0x1_0000_0000,
    ensures
        s.wrapping_add(v as u32) as nat == (a + v) % 0x1_0000_0000,
{
    let m: int = 0x1_0000_0000;
    vstd::arithmetic::div_mod::lemma_add_mod_noop(a as int, v as int, m);
    vstd::arithmetic::div_mod::lemma_small_mod(v, m as nat);
    if s + v >= m {
        vstd::arithmetic::div_mod::lemma_small_mod((s + v - m) as nat, m as nat);
        assert((s + v) % m == (s + v - m) % m) by {
            vstd::arithmetic::div_mod::lemma_mod_sub_multiples_vanish((s + v) as int, m);
        }
    } else {
        vstd::arithmetic::div_mod::lemma_small_mod((s + v) as nat, m as nat);
    }
}

/// Reads the numeral of `width` digits at `start`, a chunk of `nbytes`
/// bytes, and appends the chunk to `bytes` and its number to `sum`.
fn append_chunk(
    data: &[u8],
    body_start: usize,
    start: usize,
    width: usize,
    nbytes: usize,
    bytes: &mut Vec<u8>,
    sum: &mut u32,
    Ghost(expect): Ghost<Option<Seq<u8>>>,
) -> (r: Result<(), Error>)
    requires
        expect matches Some(w) ==> w.len() == nbytes && data@.subrange(start as int, start + width)
            == fixed_digits(chunk_value(w), width as nat),
        body_start <= start,
        start + width <= data@.len(),
        data@.len() <= usize::MAX,
        width == chunk_width(nbytes as nat),
        1 <= nbytes <= 4,
        old(bytes)@.len() % 4 == 0,
        data@.subrange(body_start as int, start as int) == body_digits(old(bytes)@),
        *old(sum) as nat == chunk_sum(old(bytes)@) % 0x1_0000_0000,
    ensures
        r is Ok ==> final(bytes)@.len() == old(bytes)@.len() + nbytes
            && data@.subrange(body_start as int, start + width) == body_digits(final(bytes)@)
            && *final(sum) as nat == chunk_sum(final(bytes)@) % 0x1_0000_0000,
        expect matches Some(w) ==> r is Ok && final(bytes)@ == old(bytes)@ + w,
{
    proof {
        if let Some(w) = expect {
            lemma_fixed_all_digits(chunk_value(w), width as nat);
            lemma_le_chunk(w);
            lemma_pow256_values();
            crate::digits::lemma_pow62_six();
            assert(pow62(5) == 916132832);
            lemma_fixed_value(chunk_value(w), width as nat);
        }
    }
    let v = match read_number(data, start, width) {
        Some(v) => v,
        None => { return Err(Error::from_reason("exchange string should use base 62 digits")); },
    };
    let bound: u64 = if nbytes == 1 {
        256
    } else if nbytes == 2 {
        65536
    } else if nbytes == 3 {
        16777216
    } else {
        0x1_0000_0000
    };
    if v >= bound {
        return Err(Error::from_reason("exchange chunk should fit in its bytes"));
    }
    let ghost old_bytes = bytes@;
    push_le(v, nbytes, bytes);
    proof {
        let c = data@.subrange(start as int, start + width);
        lemma_fixed_digits_value(c);
        assert(pow256(0) == 1);
        assert(pow256(1) == 256);
        assert(pow256(2) == 65536);
        assert(pow256(3) == 16777216);
        assert(pow256(4) == 0x1_0000_0000);
        lemma_chunk_le(v as nat, nbytes as nat);
        lemma_body_append(old_bytes, le_bytes(v as nat, nbytes as nat));
        assert(data@.subrange(body_start as int, start + width) =~= data@.subrange(
            body_start as int,
            start as int,
        ) + c);
        lemma_wrapped_sum(chunk_sum(old_bytes), v as nat, *sum);
    }
    *sum = sum.wrapping_add(v as u32);
    Ok(())
}

/// Reads the body from `body_start` and checks the last digit against it.
#[verifier::rlimit(50)]
fn decode_body(data: &[u8], body_start: usize, Ghost(expect): Ghost<Option<Seq<u8>>>) -> (r: Result<Vec<u8>, Error>)
    requires
        body_start <= data@.len(),
        expect matches Some(b) ==> b.len() > 0 && data@.len() == body_start + body_digits(b).len() + 1
            && data@.subrange(body_start as int, data@.len() - 1) == body_digits(b)
            && data@[data@.len() - 1] == spec_char(checksum(b)),
    ensures
        r matches Ok(b) ==> b@.len() > 0 && data@.len() > body_start
            && data@.subrange(body_start as int, data@.len() - 1) == body_digits(b@)
            && data@[data@.len() - 1] == spec_char(checksum(b@)),
        expect matches Some(b) ==> r matches Ok(v) && v@ == b,
{
    let len = data.len();
    let ghost q: int = match expect {
        Some(b) => (b.len() - 1) / 4,
        None => 0,
    };
    proof {
        if let Some(b) = expect {
            lemma_body_split(b);
        }
    }
    if len - body_start < 1 {
        return Err(Error::from_reason("exchange string should end with a checksum"));
    }
    let body_len = len - body_start - 1;
    let full = body_len / 6;
    let rest = body_len % 6;
    let tail_bytes: usize = if rest == 0 {
        0
    } else if rest == 2 {
        1
    } else if rest == 3 {
        2
    } else if rest == 5 {
        3
    } else {
        return Err(Error::from_reason("exchange body should have a valid length"));
    };
    let mut bytes: Vec<u8> = Vec::new();
    let mut sum: u32 = 0;
    let mut i: usize = 0;
    assert(data@.subrange(body_start as int, body_start as int) =~= Seq::<u8>::empty());
    while i < full
        invariant
            len == data@.len(),
            body_start + body_len + 1 == len,
            full * 6 + rest == body_len,
            i <= full,
            bytes@.len() == 4 * i,
            data@.subrange(body_start as int, body_start + 6 * i) == body_digits(bytes@),
            sum as nat == chunk_sum(bytes@) % 0x1_0000_0000,
            expect matches Some(b) ==> bytes@ == b.take(4 * i as int) && 4 * full <= b.len()
                && data@.subrange(body_start as int, len - 1) == body_digits(b),
        decreases full - i,
    {
        let ghost w: Option<Seq<u8>> = match expect {
            Some(b) => Some(b.subrange(4 * i as int, 4 * i + 4)),
            None => None,
        };
        proof {
            if let Some(b) = expect {
                lemma_body_chunk_at(b, i as int);
                assert(data@.subrange(body_start + 6 * i, body_start + 6 * i + 6) =~= data@.subrange(
                    body_start as int,
                    len - 1,
                ).subrange(6 * i as int, 6 * i + 6));
            }
        }
        match append_chunk(data, body_start, body_start + 6 * i, 6, 4, &mut bytes, &mut sum, Ghost(w)) {
            Ok(()) => {},
            Err(e) => { return Err(e); },
        }
        proof {
            if let Some(b) = expect {
                assert(b.take(4 * i + 4) =~= b.take(4 * i as int) + b.subrange(4 * i as int, 4 * i + 4));
            }
        }
        i = i + 1;
    }
    let ghost tw: Option<Seq<u8>> = match expect {
        Some(b) => Some(b.skip(4 * full as int)),
        None => None,
    };
    if tail_bytes > 0 {
        proof {
            if let Some(b) = expect {
                let r = b.len() - 4 * q;
                if r == 4 {
                    assert(body_len == 6 * q + 6);
                    assert(rest == 0);
                }
                assert(full == q && rest == chunk_width(r as nat) && tail_bytes == r);
                assert(data@.subrange(body_start as int, len - 1).subrange(6 * q, 6 * q + rest)
                    =~= fixed_digits(chunk_value(b.skip(4 * q)), chunk_width(r as nat)));
                assert(data@.subrange(body_start + 6 * full, body_start + 6 * full + rest) =~= data@.subrange(
                    body_start as int,
                    len - 1,
                ).subrange(6 * full as int, 6 * full + rest));
            }
        }
        match append_chunk(data, body_start, body_start + 6 * full, rest, tail_bytes, &mut bytes, &mut sum, Ghost(tw)) {
            Ok(()) => {},
            Err(e) => { return Err(e); },
        }
    }
    proof {
        if let Some(b) = expect {
            assert(bytes@ =~= b);
        }
    }
    if bytes.len() == 0 {
        return Err(Error::from_reason("exchange body should not be empty"));
    }
    let check = digit_value(data[len - 1]);
    let expected = (sum % 62) as u8;
    match check {
        Some(c) if c == expected => {},
        _ => { return Err(Error::from_reason("exchange checksum should match")); },
    }
    proof {
        lemma_digit_char(data@[len - 1]);
    }
    Ok(bytes)
}

/// Splits an envelope into the payload length and the compressed bytes.
/// It succeeds exactly on the envelopes of non-empty compressed bytes, and
/// returns the one length and bytes whose envelope the input is; it refuses an
/// input without the `DSC` magic or with a byte outside the alphabet.
pub fn decode_envelope(data: &[u8]) -> (r: Result<(u32, Vec<u8>), Error>)
    ensures
        r matches Ok((n, b)) ==> data@ == spec_envelope(n as nat, b@) && b@.len() > 0,
        (exists|n: nat, b: Seq<u8>| #[trigger] is_envelope_of(data@, n, b)) ==> r is Ok,
        forall|n: nat, b: Seq<u8>| #[trigger] is_envelope_of(data@, n, b)
            ==> (r matches Ok((m, d)) && m == n && d@ == b),
        data@.len() < 3 || data@.take(3) != magic() ==> r is Err,
        data@.len() >= 3 && !all_digits(data@.skip(3)) ==> r is Err,
{
    let ghost expect: Option<(nat, Seq<u8>)> = if exists|n: nat, b: Seq<u8>| #[trigger] is_envelope_of(data@, n, b) {
        let (n, b) = choose|n: nat, b: Seq<u8>| #[trigger] is_envelope_of(data@, n, b);
        Some((n, b))
    } else {
        None
    };
    let ghost en: Option<nat> = match expect {
        Some((n, _)) => Some(n),
        None => None,
    };
    let ghost eb: Option<Seq<u8>> = match expect {
        Some((_, b)) => Some(b),
        None => None,
    };
    proof {
        if let Some((n, b)) = expect {
            let l = length_digits(n);
            let e = spec_envelope(n, b);
            assert(e.take(3) =~= magic());
            assert(e.subrange(3, 3 + l.len() as int) =~= l);
        }
    }
    let (n, body_start) = match decode_length(data, Ghost(en)) {
        Ok(x) => x,
        Err(e) => { return Err(e); },
    };
    proof {
        if let Some((n, b)) = expect {
            let l = length_digits(n);
            let e = spec_envelope(n, b);
            assert(e.subrange(body_start as int, e.len() - 1) =~= body_digits(b));
        }
    }
    let bytes = match decode_body(data, body_start, Ghost(eb)) {
        Ok(b) => b,
        Err(e) => { return Err(e); },
    };
    proof {
        let len = data@.len();
        assert(data@ =~= data@.take(3) + data@.subrange(3, body_start as int) + data@.subrange(
            body_start as int,
            len - 1,
        ) + seq![data@[len - 1]]);
        lemma_envelope_all_digits(n as nat, bytes@);
        assert forall|m: nat, d: Seq<u8>| #[trigger] is_envelope_of(data@, m, d)
            implies n == m && bytes@ == d by {
            lemma_envelope_injective(n as nat, bytes@, m, d);
        }
    }
    Ok((n, bytes))
}

/// `data` is the envelope of non-empty bytes `b` with a length `n` that
/// fits in 32 bits.
pub open spec fn is_envelope_of(data: Seq<u8>, n: nat, b: Seq<u8>) -> bool {
    n <= u32::MAX && b.len() > 0 && data == spec_envelope(n, b)
}

/// Appends the lead digits of `m`.
fn write_lead(m: u64, out: &mut Vec<u8>)
    requires
        m >= 1,
    ensures
        final(out)@ == old(out)@ + lead_digits(m as nat),
    decreases m,
{
    if m >= 31 {
        write_lead(m / 31, out);
    }
    out.push(digit_char((m % 31) as u8));
    proof {
        if m >= 31 {
            assert(m / 31 >= 1);
        }
    }
}

/// Appends the length `n` in base 31.
fn write_length(n: u32, out: &mut Vec<u8>)
    ensures
        final(out)@ == old(out)@ + length_digits(n as nat),
{
    let n = n as u64;
    if n >= 31 {
        write_lead(n / 31, out);
    }
    out.push(digit_char((n % 31 + 31) as u8));
}

/// The little-endian number of `b[start .. start + r]`.
fn chunk_number(b: &[u8], start: usize, r: usize) -> (v: u64)
    requires
        start + r <= b@.len(),
        start + r <= usize::MAX,
        r <= 4,
    ensures
        v == chunk_value(b@.subrange(start as int, start + r)),
        v < pow256(r as nat),
    decreases r,
{
    if r == 0 {
        0
    } else {
        let rest = chunk_number(b, start + 1, r - 1);
        proof {
            assert(b@.subrange(start as int, start + r).drop_first() =~= b@.subrange(
                start + 1,
                start + r,
            ));
            assert(pow256(r as nat) == 256 * pow256((r - 1) as nat));
            assert(pow256(3) == 16777216) by {
                assert(pow256(0) == 1);
                assert(pow256(1) == 256);
                assert(pow256(2) == 65536);
            }
            if r - 1 <= 3 {
                assert(pow256((r - 1) as nat) <= 16777216) by {
                    assert(pow256(0) == 1);
                    assert(pow256(1) == 256);
                    assert(pow256(2) == 65536);
                }
            }
            assert(b[start as int] + 256 * rest < 256 * pow256((r - 1) as nat)) by (nonlinear_arith)
                requires rest < pow256((r - 1) as nat), b[start as int] < 256;
        }
        b[start] as u64 + 256 * rest
    }
}

/// `pow256` at the widths of a chunk.
proof fn lemma_pow256_values()
    ensures
        pow256(0) == 1,
        pow256(1) == 256,
        pow256(2) == 65536,
        pow256(3) == 16777216,
        pow256(4) == 0x1_0000_0000,
{
    assert(pow256(0) == 1);
    assert(pow256(1) == 256);
    assert(pow256(2) == 65536);
    assert(pow256(3) == 16777216);
}

/// Appends the numerals of the first `full` whole chunks of `b`; returns
/// their sum wrapped to 32 bits.
fn write_chunks(b: &[u8], full: usize, out: &mut Vec<u8>) -> (sum: u32)
    requires
        full * 4 <= b@.len(),
        b@.len() <= usize::MAX,
    ensures
        final(out)@ == old(out)@ + body_digits(b@.take(4 * full as int)),
        sum as nat == chunk_sum(b@.take(4 * full as int)) % 0x1_0000_0000,
{
    let ghost head = out@;
    let mut sum: u32 = 0;
    let mut i: usize = 0;
    assert(b@.take(0) =~= Seq::<u8>::empty());
    assert(out@ =~= head + body_digits(b@.take(0)));
    proof { lemma_pow256_values(); }
    while i < full
        invariant
            full * 4 <= b@.len(),
            b@.len() <= usize::MAX,
            i <= full,
            out@ == head + body_digits(b@.take(4 * i as int)),
            sum as nat == chunk_sum(b@.take(4 * i as int)) % 0x1_0000_0000,
            pow256(4) == 0x1_0000_0000,
        decreases full - i,
    {
        let v = chunk_number(b, 4 * i, 4);
        proof {
            let w = b@.subrange(4 * i as int, 4 * i + 4);
            assert(b@.take(4 * i + 4) =~= b@.take(4 * i as int) + w);
            lemma_body_append(b@.take(4 * i as int), w);
            lemma_wrapped_sum(chunk_sum(b@.take(4 * i as int)), v as nat, sum);
        }
        write_number(v, 6, out);
        sum = sum.wrapping_add(v as u32);
        i = i + 1;
        proof {
            assert(out@ =~= head + body_digits(b@.take(4 * i as int)));
        }
    }
    sum
}

/// Appends the numeral of the last chunk `b[4 * full ..]`, of one to four
/// bytes; returns the sum with its number added.
fn write_last_chunk(b: &[u8], full: usize, sum: u32, out: &mut Vec<u8>) -> (r: u32)
    requires
        full * 4 < b@.len() <= full * 4 + 4,
        b@.len() <= usize::MAX,
        sum as nat == chunk_sum(b@.take(4 * full as int)) % 0x1_0000_0000,
    ensures
        final(out)@ == old(out)@ + fixed_digits(
            chunk_value(b@.subrange(4 * full as int, b@.len() as int)),
            chunk_width((b@.len() - 4 * full) as nat),
        ),
        body_digits(b@) == body_digits(b@.take(4 * full as int)) + fixed_digits(
            chunk_value(b@.subrange(4 * full as int, b@.len() as int)),
            chunk_width((b@.len() - 4 * full) as nat),
        ),
        r as nat == chunk_sum(b@) % 0x1_0000_0000,
{
    let len = b.len();
    let r = len - 4 * full;
    let v = chunk_number(b, 4 * full, r);
    let width: usize = if r == 1 {
        2
    } else if r == 2 {
        3
    } else if r == 3 {
        5
    } else {
        6
    };
    proof {
        let w = b@.subrange(4 * full as int, len as int);
        assert(b@ =~= b@.take(4 * full as int) + w);
        lemma_body_append(b@.take(4 * full as int), w);
        lemma_pow256_values();
        lemma_wrapped_sum(chunk_sum(b@.take(4 * full as int)), v as nat, sum);
    }
    write_number(v, width, out);
    sum.wrapping_add(v as u32)
}

/// Writes the envelope of the compressed bytes `b` of a payload of length `n`.
pub fn encode_envelope(n: u32, b: &[u8]) -> (r: Vec<u8>)
    ensures
        r@ == spec_envelope(n as nat, b@),
{
    let mut out: Vec<u8> = Vec::new();
    out.push(68u8);
    out.push(83u8);
    out.push(67u8);
    write_length(n, &mut out);
    let ghost head = out@;
    assert(head =~= magic() + length_digits(n as nat));
    let len = b.len();
    let full = if len % 4 == 0 && len > 0 { len / 4 - 1 } else { len / 4 };
    let mut sum = write_chunks(b, full, &mut out);
    if len > 4 * full {
        sum = write_last_chunk(b, full, sum, &mut out);
    } else {
        assert(b@.take(4 * full as int) =~= b@);
    }
    assert(out@ =~= head + body_digits(b@));
    out.push(digit_char((sum % 62) as u8));
    proof {
        assert(out@ =~= spec_envelope(n as nat, b@));
    }
    out
}

/// The numerals of non-empty bytes take at least two digits, and at
/// least eight when there are more than four bytes.
proof fn lemma_body_min_len(b: Seq<u8>)
    requires
        b.len() > 0,
    ensures
        body_digits(b).len() >= 2,
        b.len() > 4 ==> body_digits(b).len() >= 8,
        b.len() <= 4 ==> body_digits(b).len() == chunk_width(b.len()),
    decreases b.len(),
{
    if b.len() > 4 {
        lemma_fixed_all_len(chunk_value(b.take(4)), 6);
        lemma_body_min_len(b.skip(4));
    } else {
        lemma_fixed_all_len(chunk_value(b), chunk_width(b.len()));
    }
}

/// A chunk's number fits the numeral that its width gives.
proof fn lemma_chunk_fits(w: Seq<u8>)
    requires
        1 <= w.len() <= 4,
    ensures
        chunk_value(w) < pow62(chunk_width(w.len())),
        digits_value(fixed_digits(chunk_value(w), chunk_width(w.len()))) == chunk_value(w),
        le_bytes(chunk_value(w), w.len()) == w,
{
    lemma_le_chunk(w);
    lemma_pow256_values();
    crate::digits::lemma_pow62_six();
    lemma_fixed_value(chunk_value(w), chunk_width(w.len()));
}

/// Different non-empty bytes have different numerals.
pub proof fn lemma_body_injective(b1: Seq<u8>, b2: Seq<u8>)
    requires
        b1.len() > 0,
        b2.len() > 0,
        body_digits(b1) == body_digits(b2),
    ensures
        b1 == b2,
    decreases b1.len(),
{
    lemma_body_min_len(b1);
    lemma_body_min_len(b2);
    if b1.len() > 4 && b2.len() > 4 {
        let t1 = b1.take(4);
        let t2 = b2.take(4);
        let d = body_digits(b1);
        lemma_fixed_all_len(chunk_value(t1), 6);
        lemma_fixed_all_len(chunk_value(t2), 6);
        assert(d.take(6) =~= fixed_digits(chunk_value(t1), 6));
        assert(d.take(6) =~= fixed_digits(chunk_value(t2), 6));
        assert(d.skip(6) =~= body_digits(b1.skip(4)));
        assert(d.skip(6) =~= body_digits(b2.skip(4)));
        lemma_chunk_fits(t1);
        lemma_chunk_fits(t2);
        assert(t1 == t2);
        lemma_body_injective(b1.skip(4), b2.skip(4));
        assert(b1 =~= t1 + b1.skip(4));
        assert(b2 =~= t2 + b2.skip(4));
    } else if b1.len() <= 4 && b2.len() <= 4 {
        lemma_chunk_fits(b1);
        lemma_chunk_fits(b2);
        assert(chunk_width(b1.len()) == chunk_width(b2.len()));
        assert(b1.len() == b2.len());
    }
}

/// Lengths mark their own end: two lengths whose digits both start `s`
/// are one.
proof fn lemma_length_injective(n1: nat, n2: nat, s: Seq<u8>)
    requires
        length_digits(n1).len() <= s.len(),
        length_digits(n2).len() <= s.len(),
        s.take(length_digits(n1).len() as int) == length_digits(n1),
        s.take(length_digits(n2).len() as int) == length_digits(n2),
    ensures
        n1 == n2,
{
    let l1 = length_digits(n1);
    let l2 = length_digits(n2);
    lemma_length_shape(n1);
    lemma_length_shape(n2);
    if l1.len() < l2.len() {
        assert(s[l1.len() - 1] == l1.last());
        assert(s[l1.len() - 1] == l2[l1.len() - 1]);
        assert(is_lead_digit(l2[l1.len() - 1]));
    } else if l2.len() < l1.len() {
        assert(s[l2.len() - 1] == l2.last());
        assert(s[l2.len() - 1] == l1[l2.len() - 1]);
        assert(is_lead_digit(l1[l2.len() - 1]));
    } else {
        assert(l1 == l2);
        assert(n1 == (n1 / 31) * 31 + n1 % 31);
        assert(n2 == (n2 / 31) * 31 + n2 % 31);
    }
}

/// An envelope determines its length and its bytes.
pub proof fn lemma_envelope_injective(n1: nat, b1: Seq<u8>, n2: nat, b2: Seq<u8>)
    requires
        b1.len() > 0,
        b2.len() > 0,
        spec_envelope(n1, b1) == spec_envelope(n2, b2),
    ensures
        n1 == n2,
        b1 == b2,
{
    let e = spec_envelope(n1, b1);
    let s = e.skip(3);
    let l1 = length_digits(n1);
    let l2 = length_digits(n2);
    assert(s =~= l1 + body_digits(b1) + seq![spec_char(checksum(b1))]);
    assert(s =~= l2 + body_digits(b2) + seq![spec_char(checksum(b2))]);
    assert(s.take(l1.len() as int) =~= l1);
    assert(s.take(l2.len() as int) =~= l2);
    lemma_length_injective(n1, n2, s);
    let r = s.skip(l1.len() as int);
    assert(r =~= body_digits(b1) + seq![spec_char(checksum(b1))]);
    assert(r =~= body_digits(b2) + seq![spec_char(checksum(b2))]);
    assert(r.drop_last() =~= body_digits(b1));
    assert(r.drop_last() =~= body_digits(b2));
    lemma_body_injective(b1, b2);
}

/// Writing the envelope of non-empty bytes and reading it back gives the
/// same length and bytes: the string is an envelope of them, and of
/// nothing else.
pub proof fn lemma_envelope_round_trip(n: u32, b: Seq<u8>)
    requires
        b.len() > 0,
    ensures
        is_envelope_of(spec_envelope(n as nat, b), n as nat, b),
        forall|m: nat, d: Seq<u8>| #[trigger] is_envelope_of(spec_envelope(n as nat, b), m, d)
            ==> m == n && d == b,
{
    assert forall|m: nat, d: Seq<u8>| #[trigger] is_envelope_of(spec_envelope(n as nat, b), m, d)
        implies m == n && d == b by {
        lemma_envelope_injective(n as nat, b, m, d);
    }
}

} // verus!
