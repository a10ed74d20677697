//! Properties that relate the encoder, the probe and the decoder.
use crate::frame::{lemma_map_insert_after, lemma_map_insert_ascending};
use crate::wire::{
    all_digits, crlf, decimal_value, decoding, digits_value, encode_frame, encode_frames, encode_pairs,
    find_crlf, in_i64, is_marker, key_lt, nested_count, int_text, is_digit, is_float_text, is_line_marker, keys_ascending, line,
    map_insert, minus_one, nat_text, no_crlf, parse, parse_items, parse_line, parse_pairs, probe,
    probe_items, Fault, FrameView, CR, COLON, COMMA, DOLLAR, HASH, LF, LOWER_F, LOWER_T, MINUS,
    PERCENT, PLUS, STAR, TILDE, UNDERSCORE,
};
use vstd::prelude::*;
use vstd::utf8::valid_utf8;

verus! {

/// A text that can stand on one line: valid UTF-8 with no CR LF pair.
pub open spec fn line_text(t: Seq<u8>) -> bool {
    valid_utf8(t) && no_crlf(t)
}

/// A frame whose canonical bytes decode back to it: texts fit on a line,
/// numbers and counts fit the wire's 64-bit decimals, and map keys are
/// line texts in ascending order.
pub open spec fn frame_wf(v: FrameView) -> bool
    decreases v,
{
    match v {
        FrameView::Simple(t) => line_text(t),
        FrameView::Error(t) => line_text(t),
        FrameView::Integer(n) => in_i64(n),
        FrameView::Bulk(b) => b.len() <= i64::MAX,
        FrameView::Array(xs) => xs.len() <= i64::MAX && forall|i: int| 0 <= i < xs.len() ==> frame_wf(#[trigger] xs[i]),
        FrameView::SetFrame(xs) => xs.len() <= i64::MAX && forall|i: int| 0 <= i < xs.len() ==> frame_wf(#[trigger] xs[i]),
        FrameView::Double(t) => line_text(t) && is_float_text(t),
        FrameView::MapFrame(ps) => ps.len() <= i64::MAX && keys_ascending(ps) && forall|i: int|
            0 <= i < ps.len() ==> line_text(#[trigger] ps[i].0) && frame_wf(ps[i].1),
        _ => true,
    }
}

proof fn lemma_nat_text(n: nat)
    ensures
        all_digits(nat_text(n)),
        nat_text(n).len() >= 1,
        digits_value(nat_text(n)) == n,
    decreases n,
{
    let t = nat_text(n);
    if n >= 10 {
        lemma_nat_text(n / 10);
        let u = nat_text(n / 10);
        assert(t.subrange(0, t.len() - 1) =~= u);
        assert(t[t.len() - 1] == (48 + n % 10) as u8);
        assert(n == (n / 10) * 10 + n % 10);
        assert(digits_value(t) == digits_value(t.subrange(0, t.len() - 1)) * 10 + (t[t.len() - 1] - 48));
        assert forall|i: int| 0 <= i < t.len() implies is_digit(#[trigger] t[i]) by {
            if i < t.len() - 1 {
                assert(t[i] == u[i]);
            }
        }
    } else {
        assert(t.len() == 1);
        assert(t.subrange(0, t.len() - 1) =~= Seq::<u8>::empty());
        assert(t[0] == (48 + n) as u8);
        assert(digits_value(Seq::<u8>::empty()) == 0);
        assert(digits_value(t) == digits_value(t.subrange(0, t.len() - 1)) * 10 + (t[t.len() - 1] - 48));
    }
}

proof fn lemma_digits_no_crlf(t: Seq<u8>)
    requires
        all_digits(t),
    ensures
        no_crlf(t),
{
    assert forall|i: int| 0 <= i < t.len() - 1 implies !(#[trigger] t[i] == CR && t[i + 1] == LF) by {
        assert(is_digit(t[i]));
    }
}

proof fn lemma_decimal_nat(n: nat)
    requires
        n <= i64::MAX,
    ensures
        decimal_value(nat_text(n)) == Some(n as int),
        no_crlf(nat_text(n)),
{
    lemma_nat_text(n);
    lemma_digits_no_crlf(nat_text(n));
    assert(is_digit(nat_text(n)[0]));
}

proof fn lemma_decimal_int(n: int)
    requires
        in_i64(n),
    ensures
        decimal_value(int_text(n)) == Some(n),
        no_crlf(int_text(n)),
{
    if n < 0 {
        let m = (-n) as nat;
        lemma_nat_text(m);
        let t = int_text(n);
        assert(t.subrange(1, t.len() as int) =~= nat_text(m));
        assert forall|i: int| 0 <= i < t.len() - 1 implies !(#[trigger] t[i] == CR && t[i + 1] == LF) by {
            assert(is_digit(t[i + 1]));
        }
    } else {
        lemma_decimal_nat(n as nat);
    }
}

proof fn lemma_minus_one()
    ensures
        decimal_value(minus_one()) == Some(-1int),
        no_crlf(minus_one()),
{
    let t = minus_one();
    let d = t.subrange(1, 2);
    assert(d =~= seq![49u8]);
    assert(d.len() == 1 && d[0] == 49);
    assert(d.subrange(0, d.len() - 1) =~= Seq::<u8>::empty());
    assert(digits_value(Seq::<u8>::empty()) == 0);
    assert(digits_value(d) == digits_value(d.subrange(0, d.len() - 1)) * 10 + (d[d.len() - 1] - 48));
    assert(all_digits(d));
    assert(digits_value(d) == 1);
}

proof fn lemma_find_crlf_first(s: Seq<u8>, q: int, e: int)
    requires
        0 <= q <= e,
        e + 1 < s.len(),
        s[e] == CR,
        s[e + 1] == LF,
        forall|j: int| q <= j < e ==> !(#[trigger] s[j] == CR && s[j + 1] == LF),
    ensures
        find_crlf(s, q) == Some(e),
    decreases e - q,
{
    if q < e {
        lemma_find_crlf_first(s, q + 1, e);
    }
}

/// Where a line `line(m, t)` stands at `p`, its parts can be read back.
proof fn lemma_line_at(s: Seq<u8>, p: int, m: u8, t: Seq<u8>)
    requires
        0 <= p,
        p + t.len() + 3 <= s.len(),
        s.subrange(p, p + t.len() + 3) == line(m, t),
        no_crlf(t),
    ensures
        s[p] == m,
        find_crlf(s, p + 1) == Some(p + 1 + t.len()),
        s.subrange(p + 1, p + 1 + t.len()) == t,
{
    let l = line(m, t);
    let e = p + 1 + t.len();
    assert(s[p] == l[0]);
    assert(s[e] == l[t.len() + 1int]);
    assert(s[e + 1] == l[t.len() + 2int]);
    assert(s.subrange(p + 1, e) =~= t) by {
        assert forall|j: int| 0 <= j < t.len() implies s.subrange(p + 1, e)[j] == t[j] by {
            assert(s[p + 1 + j] == l[j + 1]);
        }
    }
    assert forall|j: int| p + 1 <= j < e implies !(#[trigger] s[j] == CR && s[j + 1] == LF) by {
        assert(s[j] == t[j - p - 1]);
        if j + 1 < e {
            assert(s[j + 1] == t[j + 1 - p - 1]);
        }
    }
    lemma_find_crlf_first(s, p + 1, e);
}

proof fn lemma_encode_frames_front(xs: Seq<FrameView>)
    requires
        xs.len() > 0,
    ensures
        encode_frames(xs) == encode_frame(xs[0]) + encode_frames(xs.subrange(1, xs.len() as int)),
    decreases xs.len(),
{
    if xs.len() == 1 {
        assert(xs.subrange(0, xs.len() - 1) =~= Seq::<FrameView>::empty());
        assert(xs.subrange(1, 1) =~= Seq::<FrameView>::empty());
        assert(encode_frames(Seq::<FrameView>::empty()) == Seq::<u8>::empty());
        assert(encode_frames(xs) == encode_frames(xs.subrange(0, xs.len() - 1)) + encode_frame(xs[xs.len() - 1]));
        assert(encode_frames(xs) =~= encode_frame(xs[0]));
    } else {
        let init = xs.subrange(0, xs.len() - 1);
        lemma_encode_frames_front(init);
        let tail = xs.subrange(1, xs.len() as int);
        assert(init.subrange(1, init.len() as int) =~= tail.subrange(0, tail.len() - 1));
        assert(tail[tail.len() - 1] == xs[xs.len() - 1]);
        assert(encode_frames(xs) =~= encode_frame(xs[0]) + encode_frames(tail));
    }
}

proof fn lemma_encode_pairs_front(ps: Seq<(Seq<u8>, FrameView)>)
    requires
        ps.len() > 0,
    ensures
        encode_pairs(ps) == line(PLUS, ps[0].0) + encode_frame(ps[0].1) + encode_pairs(ps.subrange(1, ps.len() as int)),
    decreases ps.len(),
{
    if ps.len() == 1 {
        assert(ps.subrange(0, ps.len() - 1) =~= Seq::<(Seq<u8>, FrameView)>::empty());
        assert(ps.subrange(1, 1) =~= Seq::<(Seq<u8>, FrameView)>::empty());
        assert(encode_pairs(Seq::<(Seq<u8>, FrameView)>::empty()) == Seq::<u8>::empty());
        assert(encode_pairs(ps) == encode_pairs(ps.subrange(0, ps.len() - 1)) + line(PLUS, ps[ps.len() - 1].0) + encode_frame(ps[ps.len() - 1].1));
        assert(encode_pairs(ps) =~= line(PLUS, ps[0].0) + encode_frame(ps[0].1));
    } else {
        let init = ps.subrange(0, ps.len() - 1);
        lemma_encode_pairs_front(init);
        let tail = ps.subrange(1, ps.len() as int);
        assert(init.subrange(1, init.len() as int) =~= tail.subrange(0, tail.len() - 1));
        assert(tail[tail.len() - 1] == ps[ps.len() - 1]);
        assert(encode_pairs(ps) =~= line(PLUS, ps[0].0) + encode_frame(ps[0].1) + encode_pairs(tail));
    }
}

/// Splits `s[p..p + a.len() + b.len()] == a + b` in two.
proof fn lemma_split_at(s: Seq<u8>, p: int, a: Seq<u8>, b: Seq<u8>)
    requires
        0 <= p,
        p + a.len() + b.len() <= s.len(),
        s.subrange(p, p + a.len() + b.len()) == a + b,
    ensures
        s.subrange(p, p + a.len()) == a,
        s.subrange(p + a.len(), p + a.len() + b.len()) == b,
{
    let w = a + b;
    assert forall|j: int| 0 <= j < a.len() implies s.subrange(p, p + a.len())[j] == a[j] by {
        assert(s[p + j] == w[j]);
    }
    assert forall|j: int| 0 <= j < b.len() implies s.subrange(p + a.len(), p + a.len() + b.len())[j] == b[j] by {
        assert(s[p + a.len() + j] == w[a.len() + j]);
    }
    assert(s.subrange(p, p + a.len()) =~= a);
    assert(s.subrange(p + a.len(), p + a.len() + b.len()) =~= b);
}

/// A line frame whose text stands at `p` parses back.
proof fn lemma_parse_line_encoded(s: Seq<u8>, p: int, v: FrameView)
    requires
        0 <= p,
        frame_wf(v),
        !(v is Bulk || v is NullBulk || v is Array || v is NullArray || v is MapFrame || v is SetFrame),
        p + encode_frame(v).len() <= s.len(),
        s.subrange(p, p + encode_frame(v).len()) == encode_frame(v),
    ensures
        parse(s, p) == Ok::<(FrameView, int), Fault>((v, p + encode_frame(v).len())),
{
    let (m, t) = match v {
        FrameView::Simple(t) => (PLUS, t),
        FrameView::Error(t) => (MINUS, t),
        FrameView::Integer(n) => (COLON, int_text(n)),
        FrameView::Null => (UNDERSCORE, Seq::<u8>::empty()),
        FrameView::Boolean(b) => (HASH, seq![if b { LOWER_T } else { LOWER_F }]),
        FrameView::Double(t) => (COMMA, t),
        _ => (PLUS, Seq::<u8>::empty()),
    };
    assert(encode_frame(v) == line(m, t));
    if let FrameView::Integer(n) = v {
        lemma_decimal_int(n);
    }
    assert(no_crlf(t));
    lemma_line_at(s, p, m, t);
    assert(is_line_marker(m));
    assert(parse_line(m, t) == Ok::<FrameView, Fault>(v));
}

proof fn lemma_parse_bulk_encoded(s: Seq<u8>, p: int, b: Seq<u8>)
    requires
        0 <= p,
        b.len() <= i64::MAX,
        p + encode_frame(FrameView::Bulk(b)).len() <= s.len(),
        s.subrange(p, p + encode_frame(FrameView::Bulk(b)).len()) == encode_frame(FrameView::Bulk(b)),
    ensures
        parse(s, p) == Ok::<(FrameView, int), Fault>((FrameView::Bulk(b), p + encode_frame(FrameView::Bulk(b)).len())),
{
    let h = nat_text(b.len());
    lemma_decimal_nat(b.len());
    assert(line(DOLLAR, h) + b + crlf() == line(DOLLAR, h) + (b + crlf()));
    lemma_split_at(s, p, line(DOLLAR, h), b + crlf());
    lemma_line_at(s, p, DOLLAR, h);
    let i = p + 1 + h.len();
    lemma_split_at(s, i + 2, b, crlf());
    assert(s[i + 2 + b.len()] == s.subrange(i + 2 + b.len(), i + 4 + b.len())[0]);
    assert(s[i + 3 + b.len()] == s.subrange(i + 2 + b.len(), i + 4 + b.len())[1]);
}

/// The canonical bytes of a well-formed frame, standing at `p`, parse back
/// to that frame and end where those bytes end.
#[verifier::rlimit(60)]
pub proof fn lemma_parse_encoded(s: Seq<u8>, p: int, v: FrameView)
    requires
        0 <= p,
        frame_wf(v),
        p + encode_frame(v).len() <= s.len(),
        s.subrange(p, p + encode_frame(v).len()) == encode_frame(v),
    ensures
        parse(s, p) == Ok::<(FrameView, int), Fault>((v, p + encode_frame(v).len())),
    decreases v,
{
    let l = encode_frame(v).len();
    match v {
        FrameView::Bulk(b) => {
            lemma_parse_bulk_encoded(s, p, b);
        },
        FrameView::NullBulk => {
            lemma_minus_one();
            lemma_line_at(s, p, DOLLAR, minus_one());
        },
        FrameView::NullArray => {
            lemma_minus_one();
            lemma_line_at(s, p, STAR, minus_one());
        },
        FrameView::Array(xs) => {
            let h = nat_text(xs.len());
            lemma_decimal_nat(xs.len());
            lemma_split_at(s, p, line(STAR, h), encode_frames(xs));
            lemma_line_at(s, p, STAR, h);
            let i = p + 1 + h.len();
            lemma_parse_items_encoded(s, i + 2, xs, Seq::empty());
            assert(Seq::<FrameView>::empty() + xs =~= xs);
        },
        FrameView::SetFrame(xs) => {
            let h = nat_text(xs.len());
            lemma_decimal_nat(xs.len());
            lemma_split_at(s, p, line(TILDE, h), encode_frames(xs));
            lemma_line_at(s, p, TILDE, h);
            let i = p + 1 + h.len();
            lemma_parse_items_encoded(s, i + 2, xs, Seq::empty());
            assert(Seq::<FrameView>::empty() + xs =~= xs);
        },
        FrameView::MapFrame(ps) => {
            let h = nat_text(ps.len());
            lemma_decimal_nat(ps.len());
            lemma_split_at(s, p, line(PERCENT, h), encode_pairs(ps));
            lemma_line_at(s, p, PERCENT, h);
            let i = p + 1 + h.len();
            assert(Seq::<(Seq<u8>, FrameView)>::empty() + ps =~= ps);
            lemma_parse_pairs_encoded(s, i + 2, ps, Seq::empty());
        },
        _ => {
            lemma_parse_line_encoded(s, p, v);
        },
    }
}

pub proof fn lemma_parse_items_encoded(s: Seq<u8>, q: int, xs: Seq<FrameView>, acc: Seq<FrameView>)
    requires
        0 <= q,
        forall|i: int| 0 <= i < xs.len() ==> frame_wf(#[trigger] xs[i]),
        q + encode_frames(xs).len() <= s.len(),
        s.subrange(q, q + encode_frames(xs).len()) == encode_frames(xs),
    ensures
        parse_items(s, q, xs.len() as int, acc) == Ok::<(Seq<FrameView>, int), Fault>((acc + xs, q + encode_frames(xs).len())),
    decreases xs,
{
    if xs.len() == 0 {
        assert(acc + xs =~= acc);
    } else {
        let tail = xs.subrange(1, xs.len() as int);
        lemma_encode_frames_front(xs);
        lemma_split_at(s, q, encode_frame(xs[0]), encode_frames(tail));
        lemma_parse_encoded(s, q, xs[0]);
        let e = q + encode_frame(xs[0]).len();
        assert(encode_frame(xs[0]).len() > 0) by {
            reveal_with_fuel(encode_frame, 1);
        }
        assert forall|i: int| 0 <= i < tail.len() implies frame_wf(#[trigger] tail[i]) by {
            assert(tail[i] == xs[i + 1]);
        }
        lemma_parse_items_encoded(s, e, tail, acc.push(xs[0]));
        assert(acc.push(xs[0]) + tail =~= acc + xs);
    }
}

pub proof fn lemma_parse_pairs_encoded(
    s: Seq<u8>,
    q: int,
    ps: Seq<(Seq<u8>, FrameView)>,
    acc: Seq<(Seq<u8>, FrameView)>,
)
    requires
        0 <= q,
        keys_ascending(acc + ps),
        forall|i: int| 0 <= i < ps.len() ==> line_text(#[trigger] ps[i].0) && frame_wf(ps[i].1),
        q + encode_pairs(ps).len() <= s.len(),
        s.subrange(q, q + encode_pairs(ps).len()) == encode_pairs(ps),
    ensures
        parse_pairs(s, q, ps.len() as int, acc) == Ok::<(Seq<(Seq<u8>, FrameView)>, int), Fault>((acc + ps, q + encode_pairs(ps).len())),
    decreases ps,
{
    if ps.len() == 0 {
        assert(acc + ps =~= acc);
    } else {
        let tail = ps.subrange(1, ps.len() as int);
        let (k, v) = ps[0];
        lemma_encode_pairs_front(ps);
        let kl = line(PLUS, k);
        assert(kl + encode_frame(v) + encode_pairs(tail) == kl + (encode_frame(v) + encode_pairs(tail)));
        lemma_split_at(s, q, kl, encode_frame(v) + encode_pairs(tail));
        assert(encode_frame(FrameView::Simple(k)) == kl);
        assert(line_text(ps[0].0) && frame_wf(ps[0].1));
        lemma_parse_line_encoded(s, q, FrameView::Simple(k));
        let q1 = q + kl.len();
        lemma_split_at(s, q1, encode_frame(v), encode_pairs(tail));
        lemma_parse_encoded(s, q1, v);
        let q2 = q1 + encode_frame(v).len();
        assert(encode_frame(v).len() > 0) by {
            reveal_with_fuel(encode_frame, 1);
        }
        let all = acc + ps;
        assert forall|j: int| 0 <= j < acc.len() implies key_lt(#[trigger] acc[j].0, k) by {
            assert(all[j] == acc[j] && all[acc.len() as int] == ps[0]);
        }
        lemma_map_insert_after(acc, k, v, acc.len() as int);
        assert(acc.subrange(0, acc.len() as int) =~= acc);
        assert(acc.subrange(acc.len() as int, acc.len() as int) =~= Seq::<(Seq<u8>, FrameView)>::empty());
        assert(map_insert(acc, k, v) =~= acc.push((k, v)));
        assert(acc.push((k, v)) + tail =~= all);
        assert forall|i: int| 0 <= i < tail.len() implies line_text(#[trigger] tail[i].0) && frame_wf(tail[i].1) by {
            assert(tail[i] == ps[i + 1]);
        }
        lemma_parse_pairs_encoded(s, q2, tail, acc.push((k, v)));
    }
}

/// Where a frame parses, the probe finds it whole and ending at the same
/// place.
pub proof fn lemma_parse_probe(s: Seq<u8>, p: int)
    ensures
        parse(s, p) matches Ok((_, e)) ==> probe(s, p) == Ok::<int, Fault>(e),
    decreases s.len() - p, 0int,
{
    if 0 <= p < s.len() {
        if let Some(i) = find_crlf(s, p + 1) {
            crate::wire::lemma_find_crlf_bounds(s, p + 1);
            if p < i + 2 <= s.len() {
                let n = decimal_value(s.subrange(p + 1, i))->0;
                lemma_items_probe(s, i + 2, n, Seq::empty());
                lemma_pairs_probe(s, i + 2, n, Seq::empty());
            }
        }
    }
}

proof fn lemma_items_probe(s: Seq<u8>, p: int, n: int, acc: Seq<FrameView>)
    ensures
        parse_items(s, p, n, acc) matches Ok((_, e)) ==> probe_items(s, p, n) == Ok::<int, Fault>(e),
    decreases s.len() - p, n + 1,
{
    if n > 0 {
        lemma_parse_probe(s, p);
        if let Ok((v, q)) = parse(s, p) {
            if p < q <= s.len() {
                lemma_items_probe(s, q, n - 1, acc.push(v));
            }
        }
    }
}

proof fn lemma_pairs_probe(s: Seq<u8>, p: int, n: int, acc: Seq<(Seq<u8>, FrameView)>)
    ensures
        parse_pairs(s, p, n, acc) matches Ok((_, e)) ==> probe_items(s, p, 2 * n) == Ok::<int, Fault>(e),
    decreases s.len() - p, n + 1,
{
    if n > 0 {
        lemma_parse_probe(s, p);
        if let Ok((kv, q)) = parse(s, p) {
            if let FrameView::Simple(k) = kv {
                if p < q <= s.len() {
                    lemma_parse_probe(s, q);
                    if let Ok((v, r)) = parse(s, q) {
                        if q < r <= s.len() {
                            lemma_pairs_probe(s, r, n - 1, map_insert(acc, k, v));
                            assert(probe_items(s, q, 2 * n - 1) == probe_items(s, r, 2 * n - 2));
                            assert(2 * (n - 1) == 2 * n - 2);
                        }
                    }
                }
            }
        }
    }
}

/// Round trip: decoding a buffer that starts with the canonical bytes of a
/// well-formed frame gives back that frame and takes exactly those bytes;
/// whatever follows them is left for the next call.
pub proof fn round_trip(v: FrameView, rest: Seq<u8>)
    requires
        frame_wf(v),
    ensures
        decoding(encode_frame(v) + rest) == Ok::<(FrameView, int), Fault>((v, encode_frame(v).len() as int)),
{
    let s = encode_frame(v) + rest;
    assert(s.subrange(0, encode_frame(v).len() as int) =~= encode_frame(v));
    lemma_parse_encoded(s, 0, v);
    lemma_parse_probe(s, 0);
}

/// A bulk string header whose length is not a decimal number, or is a
/// negative number other than -1, is rejected as an invalid length, by the
/// probe and so by the decoder, never cut short.
pub proof fn bulk_length_rejected(s: Seq<u8>)
    requires
        s.len() > 0,
        s[0] == DOLLAR,
        find_crlf(s, 1) is Some,
        ({
            let h = s.subrange(1, find_crlf(s, 1)->0);
            decimal_value(h) is None || decimal_value(h)->0 < -1
        }),
    ensures
        probe(s, 0) == Err::<int, Fault>(Fault::InvalidFrameLength(s.subrange(1, find_crlf(s, 1)->0))),
        decoding(s) == Err::<(FrameView, int), Fault>(Fault::InvalidFrameLength(s.subrange(1, find_crlf(s, 1)->0))),
{
}

proof fn lemma_insert_cons(x: (Seq<u8>, FrameView), ys: Seq<(Seq<u8>, FrameView)>, k: Seq<u8>, v: FrameView)
    ensures
        map_insert(seq![x] + ys, k, v) == (if x.0 == k {
            seq![(k, v)] + ys
        } else if key_lt(k, x.0) {
            seq![(k, v)] + (seq![x] + ys)
        } else {
            seq![x] + map_insert(ys, k, v)
        }),
{
    let l = seq![x] + ys;
    assert(l[0] == x);
    assert(l.subrange(1, l.len() as int) =~= ys);
}

/// Two insertions of different keys into a key-ordered map commute, so a
/// map's contents, and its encoding, do not depend on the order in which
/// its keys were inserted.
pub proof fn map_insert_commutes(
    ps: Seq<(Seq<u8>, FrameView)>,
    a: Seq<u8>,
    va: FrameView,
    b: Seq<u8>,
    vb: FrameView,
)
    requires
        keys_ascending(ps),
        a != b,
    ensures
        map_insert(map_insert(ps, a, va), b, vb) == map_insert(map_insert(ps, b, vb), a, va),
    decreases ps.len(),
{
    crate::frame::lemma_key_lt_total(a, b);
    crate::frame::lemma_key_lt_irreflexive(a);
    crate::frame::lemma_key_lt_irreflexive(b);
    if key_lt(a, b) && key_lt(b, a) {
        crate::frame::lemma_key_lt_trans(a, b, a);
    }
    let e = Seq::<(Seq<u8>, FrameView)>::empty();
    if ps.len() == 0 {
        assert(seq![(a, va)] =~= seq![(a, va)] + e);
        assert(seq![(b, vb)] =~= seq![(b, vb)] + e);
        lemma_insert_cons((a, va), e, b, vb);
        lemma_insert_cons((b, vb), e, a, va);
    } else {
        let x = ps[0];
        let c = x.0;
        let t = ps.subrange(1, ps.len() as int);
        assert(ps =~= seq![x] + t);
        assert(keys_ascending(t)) by {
            assert forall|i: int, j: int| 0 <= i < j < t.len() implies key_lt(#[trigger] t[i].0, #[trigger] t[j].0) by {
                assert(t[i] == ps[i + 1] && t[j] == ps[j + 1]);
            }
        }
        crate::frame::lemma_key_lt_total(a, c);
        crate::frame::lemma_key_lt_total(b, c);
        crate::frame::lemma_key_lt_irreflexive(c);
        if key_lt(a, c) && key_lt(c, b) {
            crate::frame::lemma_key_lt_trans(a, c, b);
        }
        if key_lt(b, c) && key_lt(c, a) {
            crate::frame::lemma_key_lt_trans(b, c, a);
        }
        if key_lt(a, c) && key_lt(c, a) {
            crate::frame::lemma_key_lt_trans(a, c, a);
        }
        if key_lt(b, c) && key_lt(c, b) {
            crate::frame::lemma_key_lt_trans(b, c, b);
        }
        lemma_insert_cons(x, t, a, va);
        lemma_insert_cons(x, t, b, vb);
        lemma_insert_cons((a, va), t, b, vb);
        lemma_insert_cons((b, vb), t, a, va);
        lemma_insert_cons((a, va), seq![x] + t, b, vb);
        lemma_insert_cons((b, vb), seq![x] + t, a, va);
        lemma_insert_cons(x, map_insert(t, a, va), b, vb);
        lemma_insert_cons(x, map_insert(t, b, vb), a, va);
        if !key_lt(a, c) && a != c && !key_lt(b, c) && b != c {
            map_insert_commutes(t, a, va, b, vb);
        }
    }
}

/// Inserting keeps a map's keys in strictly ascending order, so the
/// encoding of a map built by insertions lists its pairs by ascending key.
pub proof fn map_keys_stay_ascending(ps: Seq<(Seq<u8>, FrameView)>, k: Seq<u8>, v: FrameView)
    requires
        keys_ascending(ps),
    ensures
        keys_ascending(map_insert(ps, k, v)),
        encode_frame(FrameView::MapFrame(map_insert(ps, k, v)))
            == line(PERCENT, nat_text(map_insert(ps, k, v).len())) + encode_pairs(map_insert(ps, k, v)),
{
    lemma_map_insert_ascending(ps, k, v);
}


/// The frames that a map's pairs are sent as: each key as a simple string,
/// then its value.
pub open spec fn pair_frames(ps: Seq<(Seq<u8>, FrameView)>) -> Seq<FrameView>
    decreases ps.len(),
{
    if ps.len() == 0 {
        Seq::empty()
    } else {
        let last = ps[ps.len() - 1];
        pair_frames(ps.subrange(0, ps.len() - 1)).push(FrameView::Simple(last.0)).push(last.1)
    }
}

proof fn lemma_pair_frames(ps: Seq<(Seq<u8>, FrameView)>)
    ensures
        pair_frames(ps).len() == 2 * ps.len(),
        forall|i: int| 0 <= i < ps.len() ==> #[trigger] pair_frames(ps)[2 * i] == FrameView::Simple(ps[i].0)
            && pair_frames(ps)[2 * i + 1] == ps[i].1,
        encode_frames(pair_frames(ps)) == encode_pairs(ps),
    decreases ps.len(),
{
    if ps.len() > 0 {
        let init = ps.subrange(0, ps.len() - 1);
        let last = ps[ps.len() - 1];
        lemma_pair_frames(init);
        let a = pair_frames(init).push(FrameView::Simple(last.0));
        let b = a.push(last.1);
        assert(b.subrange(0, b.len() - 1) =~= a);
        assert(a.subrange(0, a.len() - 1) =~= pair_frames(init));
        assert(encode_frame(FrameView::Simple(last.0)) == line(PLUS, last.0));
        assert(encode_frames(b) == encode_frames(a) + encode_frame(last.1));
        assert(encode_frames(a) == encode_frames(pair_frames(init)) + encode_frame(FrameView::Simple(last.0)));
        assert(encode_pairs(ps) == encode_pairs(init) + line(PLUS, last.0) + encode_frame(last.1));
        assert(encode_frames(b) =~= encode_pairs(ps));
        assert forall|i: int| 0 <= i < ps.len() implies #[trigger] pair_frames(ps)[2 * i] == FrameView::Simple(ps[i].0)
            && pair_frames(ps)[2 * i + 1] == ps[i].1 by {
            if i < ps.len() - 1 {
                assert(init[i] == ps[i]);
            }
        }
    }
}

proof fn lemma_find_crlf_none(s: Seq<u8>, q: int)
    requires
        0 <= q,
        forall|j: int| q <= j < s.len() - 1 ==> !(#[trigger] s[j] == CR && s[j + 1] == LF),
    ensures
        find_crlf(s, q) is None,
    decreases s.len() - q,
{
    if q + 1 < s.len() {
        lemma_find_crlf_none(s, q + 1);
    }
}

/// The bytes from `p` on are the first bytes of `w`, and fewer than all.
pub open spec fn cut_short(s: Seq<u8>, p: int, w: Seq<u8>) -> bool {
    &&& 0 <= p <= s.len()
    &&& s.len() - p < w.len()
    &&& forall|j: int| 0 <= j < s.len() - p ==> #[trigger] s[p + j] == w[j]
}

/// A line cut short before its CR LF is complete leaves the probe waiting.
proof fn lemma_line_partial(s: Seq<u8>, p: int, m: u8, t: Seq<u8>)
    requires
        cut_short(s, p, line(m, t)),
        no_crlf(t),
        is_marker(m),
    ensures
        probe(s, p) == Err::<int, Fault>(Fault::NotComplete),
{
    let l = line(m, t);
    if p < s.len() {
        assert(s[p + 0] == l[0]);
        assert forall|j: int| p + 1 <= j < s.len() - 1 implies !(#[trigger] s[j] == CR && s[j + 1] == LF) by {
            assert(s[p + (j - p)] == l[j - p]);
            assert(s[p + (j + 1 - p)] == l[j + 1 - p]);
            let k = j - p;
            assert(1 <= k <= t.len());
            assert(l[k] == t[k - 1]);
            if k < t.len() {
                assert(l[k + 1] == t[k]);
            } else {
                assert(l[k + 1] == CR);
            }
        }
        lemma_find_crlf_none(s, p + 1);
    }
}

/// The whole of `a`, then a part of `b`: the bytes of `a` are all there.
proof fn lemma_cut_split(s: Seq<u8>, p: int, a: Seq<u8>, b: Seq<u8>)
    requires
        cut_short(s, p, a + b),
        s.len() - p >= a.len(),
    ensures
        s.subrange(p, p + a.len()) == a,
        cut_short(s, p + a.len(), b),
{
    let w = a + b;
    assert forall|j: int| 0 <= j < a.len() implies s.subrange(p, p + a.len())[j] == a[j] by {
        assert(s[p + j] == w[j]);
    }
    assert(s.subrange(p, p + a.len()) =~= a);
    assert forall|j: int| 0 <= j < s.len() - (p + a.len()) implies #[trigger] s[p + a.len() + j] == b[j] by {
        assert(s[p + (a.len() + j)] == w[a.len() + j]);
    }
}

/// A cut-short part of a line starts like the line.
proof fn lemma_cut_prefix(s: Seq<u8>, p: int, a: Seq<u8>, b: Seq<u8>)
    requires
        cut_short(s, p, a + b),
        s.len() - p < a.len(),
    ensures
        cut_short(s, p, a),
{
    let w = a + b;
    assert forall|j: int| 0 <= j < s.len() - p implies #[trigger] s[p + j] == a[j] by {
        assert(s[p + j] == w[j]);
    }
}

/// The first bytes of a well-formed frame's canonical bytes, fewer than
/// all, leave the probe waiting for more.
#[verifier::rlimit(60)]
proof fn lemma_probe_partial(s: Seq<u8>, p: int, v: FrameView)
    requires
        frame_wf(v),
        cut_short(s, p, encode_frame(v)),
    ensures
        probe(s, p) == Err::<int, Fault>(Fault::NotComplete),
    decreases encode_frame(v).len(), 0int,
{
    match v {
        FrameView::Bulk(b) => {
            let h = nat_text(b.len());
            lemma_decimal_nat(b.len());
            assert(encode_frame(v) == line(DOLLAR, h) + (b + crlf()));
            if s.len() - p < line(DOLLAR, h).len() {
                lemma_cut_prefix(s, p, line(DOLLAR, h), b + crlf());
                lemma_line_partial(s, p, DOLLAR, h);
            } else {
                lemma_cut_split(s, p, line(DOLLAR, h), b + crlf());
                lemma_line_at(s, p, DOLLAR, h);
            }
        },
        FrameView::NullBulk => {
            lemma_minus_one();
            lemma_line_partial(s, p, DOLLAR, minus_one());
        },
        FrameView::NullArray => {
            lemma_minus_one();
            lemma_line_partial(s, p, STAR, minus_one());
        },
        FrameView::Array(xs) => {
            assert(encode_frame(v) == line(STAR, nat_text(xs.len())) + encode_frames(xs));
            lemma_aggregate_partial(s, p, STAR, xs);
        },
        FrameView::SetFrame(xs) => {
            assert(encode_frame(v) == line(TILDE, nat_text(xs.len())) + encode_frames(xs));
            lemma_aggregate_partial(s, p, TILDE, xs);
        },
        FrameView::MapFrame(ps) => {
            let h = nat_text(ps.len());
            lemma_decimal_nat(ps.len());
            lemma_pair_frames(ps);
            let xs = pair_frames(ps);
            assert(encode_frame(v) == line(PERCENT, h) + encode_frames(xs));
            if s.len() - p < line(PERCENT, h).len() {
                lemma_cut_prefix(s, p, line(PERCENT, h), encode_frames(xs));
                lemma_line_partial(s, p, PERCENT, h);
            } else {
                lemma_cut_split(s, p, line(PERCENT, h), encode_frames(xs));
                lemma_line_at(s, p, PERCENT, h);
                assert forall|i: int| 0 <= i < xs.len() implies frame_wf(#[trigger] xs[i]) by {
                    let k = i / 2;
                    if i % 2 == 0 {
                        assert(xs[2 * k] == FrameView::Simple(ps[k].0));
                    } else {
                        assert(xs[2 * k + 1] == ps[k].1);
                    }
                }
                lemma_items_partial(s, p + line(PERCENT, h).len(), xs);
                assert(nested_count(PERCENT, ps.len() as int) == xs.len());
            }
        },
        _ => {
            let (m, t) = match v {
                FrameView::Simple(t) => (PLUS, t),
                FrameView::Error(t) => (MINUS, t),
                FrameView::Integer(n) => (COLON, int_text(n)),
                FrameView::Null => (UNDERSCORE, Seq::<u8>::empty()),
                FrameView::Boolean(b) => (HASH, seq![if b { LOWER_T } else { LOWER_F }]),
                FrameView::Double(t) => (COMMA, t),
                _ => (PLUS, Seq::<u8>::empty()),
            };
            assert(encode_frame(v) == line(m, t));
            if let FrameView::Integer(n) = v {
                lemma_decimal_int(n);
            }
            if let FrameView::Boolean(b) = v {
                assert(no_crlf(t)) by {
                    assert(t.len() == 1);
                }
            }
            lemma_line_partial(s, p, m, t);
        },
    }
}

proof fn lemma_aggregate_partial(s: Seq<u8>, p: int, m: u8, xs: Seq<FrameView>)
    requires
        m == STAR || m == TILDE,
        xs.len() <= i64::MAX,
        forall|i: int| 0 <= i < xs.len() ==> frame_wf(#[trigger] xs[i]),
        cut_short(s, p, line(m, nat_text(xs.len())) + encode_frames(xs)),
    ensures
        probe(s, p) == Err::<int, Fault>(Fault::NotComplete),
    decreases encode_frames(xs).len(), 2int,
{
    let h = nat_text(xs.len());
    lemma_decimal_nat(xs.len());
    if s.len() - p < line(m, h).len() {
        lemma_cut_prefix(s, p, line(m, h), encode_frames(xs));
        lemma_line_partial(s, p, m, h);
    } else {
        lemma_cut_split(s, p, line(m, h), encode_frames(xs));
        lemma_line_at(s, p, m, h);
        lemma_items_partial(s, p + line(m, h).len(), xs);
    }
}

proof fn lemma_items_partial(s: Seq<u8>, q: int, xs: Seq<FrameView>)
    requires
        forall|i: int| 0 <= i < xs.len() ==> frame_wf(#[trigger] xs[i]),
        cut_short(s, q, encode_frames(xs)),
    ensures
        probe_items(s, q, xs.len() as int) == Err::<int, Fault>(Fault::NotComplete),
    decreases encode_frames(xs).len(), 1int,
{
    if xs.len() == 0 {
        assert(encode_frames(xs).len() == 0);
    } else {
        let x = xs[0];
        let tail = xs.subrange(1, xs.len() as int);
        lemma_encode_frames_front(xs);
        assert(frame_wf(x));
        if s.len() - q < encode_frame(x).len() {
            lemma_cut_prefix(s, q, encode_frame(x), encode_frames(tail));
            lemma_probe_partial(s, q, x);
        } else {
            lemma_cut_split(s, q, encode_frame(x), encode_frames(tail));
            lemma_parse_encoded(s, q, x);
            lemma_parse_probe(s, q);
            assert(encode_frame(x).len() > 0) by {
                reveal_with_fuel(encode_frame, 1);
            }
            assert forall|i: int| 0 <= i < tail.len() implies frame_wf(#[trigger] tail[i]) by {
                assert(tail[i] == xs[i + 1]);
            }
            lemma_items_partial(s, q + encode_frame(x).len(), tail);
        }
    }
}

/// A strict prefix of a well-formed frame's canonical bytes is never taken
/// for a frame: the probe, and so the decoder, report that more bytes are
/// needed. Once the rest arrives, `round_trip` gives the frame back.
pub proof fn partial_frame_incomplete(v: FrameView, j: int)
    requires
        frame_wf(v),
        0 <= j < encode_frame(v).len(),
    ensures
        probe(encode_frame(v).subrange(0, j), 0) == Err::<int, Fault>(Fault::NotComplete),
        decoding(encode_frame(v).subrange(0, j)) == Err::<(FrameView, int), Fault>(Fault::NotComplete),
{
    let s = encode_frame(v).subrange(0, j);
    assert forall|i: int| 0 <= i < s.len() - 0 implies #[trigger] s[0 + i] == encode_frame(v)[i] by {}
    lemma_probe_partial(s, 0, v);
}

} // verus!
