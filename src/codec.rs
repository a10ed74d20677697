//! Encoding frames to bytes, probing a buffer for a whole frame, decoding one.
use crate::decimal::{parse_decimal, push_int, push_nat};
use crate::buffer::{buffer_bytes, buffer_slice, buffer_split_to};
use crate::decimal::float_ok;
use crate::frame::{
    frames_view, lemma_frames_view, lemma_pairs_view, pairs_view, text_bytes, BulkString,
    RespArray, RespDouble, RespError, RespFrame, RespMap, RespNull, RespNullArray, RespNullBulkString,
    RespSet, SimpleError, SimpleString,
};
use crate::wire::{
    crlf, decimal_value, decoding, keys_ascending, lemma_find_crlf_bounds, map_insert, parse,
    parse_items, parse_line, parse_pairs, wrap_items, wrap_pairs, Fault, FrameView, encode_frame, encode_frames, encode_pairs, find_crlf,
    is_line_marker, is_marker, line, nested_count, probe, probe_items, CR, COLON, COMMA,
    DOLLAR, HASH, LF, LOWER_F, LOWER_T, MINUS, PERCENT, PLUS, STAR, TILDE, UNDERSCORE,
};
use vstd::prelude::*;
use vstd::slice::{slice_subrange, slice_to_vec};
use vstd::utf8::{encode_utf8, valid_utf8};
use bytes::BytesMut;

verus! {

/// Appends all of `b`.
fn push_bytes(out: &mut Vec<u8>, b: &[u8])
    ensures
        final(out)@ == old(out)@ + b@,
{
    let mut i: usize = 0;
    while i < b.len()
        invariant
            i <= b@.len(),
            out@ == old(out)@ + b@.subrange(0, i as int),
        decreases b.len() - i,
    {
        out.push(b[i]);
        i = i + 1;
        assert(out@ =~= old(out)@ + b@.subrange(0, i as int));
    }
    assert(b@.subrange(0, i as int) =~= b@);
}

/// Appends the UTF-8 bytes of `s`.
fn push_text(out: &mut Vec<u8>, s: &String)
    ensures
        final(out)@ == old(out)@ + text_bytes(*s),
{
    let b = s.as_str().as_bytes();
    push_bytes(out, b);
}

fn push_crlf(out: &mut Vec<u8>)
    ensures
        final(out)@ == old(out)@ + crlf(),
{
    out.push(CR);
    out.push(LF);
    assert(out@ =~= old(out)@ + crlf());
}

/// Appends `m`, the decimal text of `n`, CR LF.
fn push_count_line(out: &mut Vec<u8>, m: u8, n: usize)
    ensures
        final(out)@ == old(out)@ + line(m, crate::wire::nat_text(n as nat)),
{
    out.push(m);
    push_nat(out, n as u64);
    push_crlf(out);
    assert(out@ =~= old(out)@ + line(m, crate::wire::nat_text(n as nat)));
}

/// Appends the canonical bytes of `f`.
pub fn encode_into(f: &RespFrame, out: &mut Vec<u8>)
    ensures
        final(out)@ == old(out)@ + encode_frame(f@),
    decreases f,
{
    let ghost start = out@;
    match f {
        RespFrame::SimpleString(s) => {
            out.push(PLUS);
            push_text(out, &s.0);
            push_crlf(out);
            assert(out@ =~= start + encode_frame(f@));
        },
        RespFrame::Error(s) => {
            out.push(MINUS);
            push_text(out, &s.0);
            push_crlf(out);
            assert(out@ =~= start + encode_frame(f@));
        },
        RespFrame::Integer(n) => {
            out.push(COLON);
            push_int(out, *n);
            push_crlf(out);
            assert(out@ =~= start + encode_frame(f@));
        },
        RespFrame::BulkString(b) => {
            push_count_line(out, DOLLAR, b.0.len());
            push_bytes(out, b.0.as_slice());
            push_crlf(out);
            assert(out@ =~= start + encode_frame(f@));
        },
        RespFrame::NullBulkString(_) => {
            out.push(DOLLAR);
            out.push(MINUS);
            out.push(49);
            push_crlf(out);
            assert(out@ =~= start + encode_frame(f@));
        },
        RespFrame::NullArray(_) => {
            out.push(STAR);
            out.push(MINUS);
            out.push(49);
            push_crlf(out);
            assert(out@ =~= start + encode_frame(f@));
        },
        RespFrame::Null(_) => {
            out.push(UNDERSCORE);
            push_crlf(out);
            assert(out@ =~= start + encode_frame(f@));
        },
        RespFrame::Boolean(b) => {
            out.push(HASH);
            out.push(if *b { LOWER_T } else { LOWER_F });
            push_crlf(out);
            assert(out@ =~= start + encode_frame(f@));
        },
        RespFrame::Double(d) => {
            out.push(COMMA);
            push_text(out, &d.0);
            push_crlf(out);
            assert(out@ =~= start + encode_frame(f@));
        },
        RespFrame::Array(a) => {
            push_count_line(out, STAR, a.0.len());
            encode_all(&a.0, out);
            proof {
                lemma_frames_view(a.0@);
            }
            assert(out@ =~= start + encode_frame(f@));
        },
        RespFrame::SetFrame(a) => {
            push_count_line(out, TILDE, a.0.len());
            encode_all(&a.0, out);
            proof {
                lemma_frames_view(a.0@);
            }
            assert(out@ =~= start + encode_frame(f@));
        },
        RespFrame::MapFrame(m) => {
            let ps = &m.0;
            push_count_line(out, PERCENT, ps.len());
            let ghost mid = out@;
            let mut i: usize = 0;
            while i < ps.len()
                invariant
                    i <= ps@.len(),
                    *f == RespFrame::MapFrame(*m),
                    *ps == m.0,
                    out@ == mid + encode_pairs(pairs_view(ps@.subrange(0, i as int))),
                decreases ps.len() - i,
            {
                let (k, v) = &ps[i];
                assert(decreases_to!(f => v)) by {
                    assert(decreases_to!(*f => (*f)->MapFrame_0));
                    assert(decreases_to!(*m => m.0));
                    assert(decreases_to!(m.0 => m.0[i as int]));
                    assert(decreases_to!(m.0[i as int] => m.0[i as int].1));
                };
                out.push(PLUS);
                push_text(out, k);
                push_crlf(out);
                encode_into(v, out);
                proof {
                    let pre = ps@.subrange(0, i as int);
                    let next = ps@.subrange(0, i + 1);
                    assert(next.subrange(0, i as int) =~= pre);
                    let pv = pairs_view(next);
                    assert(pv.subrange(0, pv.len() - 1) =~= pairs_view(pre));
                }
                i = i + 1;
                assert(out@ =~= mid + encode_pairs(pairs_view(ps@.subrange(0, i as int))));
            }
            assert(ps@.subrange(0, i as int) =~= ps@);
            proof {
                lemma_pairs_view(ps@);
            }
            assert(out@ =~= start + encode_frame(f@));
        },
    }
}

/// Appends the canonical bytes of each frame in turn.
fn encode_all(xs: &Vec<RespFrame>, out: &mut Vec<u8>)
    ensures
        final(out)@ == old(out)@ + encode_frames(frames_view(xs@)),
    decreases xs,
{
    let mut i: usize = 0;
    while i < xs.len()
        invariant
            i <= xs@.len(),
            out@ == old(out)@ + encode_frames(frames_view(xs@.subrange(0, i as int))),
        decreases xs.len() - i,
    {
        assert(decreases_to!(xs => xs[i as int]));
        encode_into(&xs[i], out);
        proof {
            let pre = xs@.subrange(0, i as int);
            let next = xs@.subrange(0, i + 1);
            assert(next.subrange(0, i as int) =~= pre);
            let fv = frames_view(next);
            assert(fv.subrange(0, fv.len() - 1) =~= frames_view(pre));
        }
        i = i + 1;
        assert(out@ =~= old(out)@ + encode_frames(frames_view(xs@.subrange(0, i as int))));
    }
    assert(xs@.subrange(0, i as int) =~= xs@);
}

/// The canonical bytes of a frame.
pub fn encode_frame_bytes(f: &RespFrame) -> (r: Vec<u8>)
    ensures
        r@ == encode_frame(f@),
{
    let mut out: Vec<u8> = Vec::new();
    encode_into(f, &mut out);
    assert(out@ =~= encode_frame(f@));
    out
}

/// Where the first CR LF pair at or after `p` starts.
fn find_crlf_at(s: &[u8], p: usize) -> (r: Option<usize>)
    ensures
        r matches Some(i) ==> find_crlf(s@, p as int) == Some(i as int),
        r is None ==> find_crlf(s@, p as int) is None,
{
    let mut i: usize = p;
    while i < s.len() && i + 1 < s.len()
        invariant
            p <= i,
            find_crlf(s@, p as int) == find_crlf(s@, i as int),
        decreases s.len() - i,
    {
        if s[i] == CR && s[i + 1] == LF {
            return Some(i);
        }
        i = i + 1;
    }
    None
}

fn line_marker(m: u8) -> (r: bool)
    ensures
        r == is_line_marker(m),
{
    m == PLUS || m == MINUS || m == COLON || m == UNDERSCORE || m == HASH || m == COMMA
}

fn any_marker(m: u8) -> (r: bool)
    ensures
        r == is_marker(m),
{
    line_marker(m) || m == DOLLAR || m == STAR || m == PERCENT || m == TILDE
}

/// A copy of `s[a..b]`.
fn copy_range(s: &[u8], a: usize, b: usize) -> (r: Vec<u8>)
    requires
        a <= b <= s@.len(),
    ensures
        r@ == s@.subrange(a as int, b as int),
{
    slice_to_vec(slice_subrange(s, a, b))
}

/// `r` reports the same end, or the same fault, as `q`.
pub open spec fn same_end(r: Result<usize, RespError>, q: Result<int, Fault>) -> bool {
    match r {
        Ok(e) => q == Ok::<int, Fault>(e as int),
        Err(x) => q == Err::<int, Fault>(x@),
    }
}

/// Where the frame that starts at `p` ends, when all of it is in `s`;
/// `NotComplete` when more bytes are needed. Reads `s` only.
pub fn probe_at(s: &[u8], p: usize) -> (r: Result<usize, RespError>)
    ensures
        same_end(r, probe(s@, p as int)),
    decreases s.len() - p,
{
    if p >= s.len() {
        return Err(RespError::NotComplete);
    }
    let m = s[p];
    if !any_marker(m) {
        return Err(RespError::InvalidFrameType(m));
    }
    let i = match find_crlf_at(s, p + 1) {
        None => {
            return Err(RespError::NotComplete);
        },
        Some(i) => i,
    };
    proof {
        lemma_find_crlf_bounds(s@, p + 1);
    }
    if line_marker(m) {
        return Ok(i + 2);
    }
    let n = match parse_decimal(s, p + 1, i) {
        None => {
            return Err(RespError::InvalidFrameLength(copy_range(s, p + 1, i)));
        },
        Some(n) => n,
    };
    if n == -1 {
        return Ok(i + 2);
    }
    if n < 0 {
        return Err(RespError::InvalidFrameLength(copy_range(s, p + 1, i)));
    }
    if m == DOLLAR {
        if s.len() - i >= 4 && (n as u64) <= ((s.len() - i - 4) as u64) {
            return Ok(i + 4 + n as usize);
        } else {
            return Err(RespError::NotComplete);
        }
    }
    let count: u64 = if m == PERCENT { 2 * (n as u64) } else { n as u64 };
    let mut q: usize = i + 2;
    let mut k: u64 = 0;
    while k < count
        invariant
            p < q <= s@.len(),
            k <= count,
            probe(s@, p as int) == probe_items(s@, q as int, count - k),
        decreases count - k,
    {
        let e = match probe_at(s, q) {
            Err(x) => {
                return Err(x);
            },
            Ok(e) => e,
        };
        proof {
            lemma_probe_end(s@, q as int);
        }
        q = e;
        k = k + 1;
    }
    Ok(q)
}

/// Relies on `std::str::from_utf8`: it succeeds exactly on valid UTF-8,
/// and then hands back a `str` over those very bytes.
#[verifier::external_body]
fn utf8_str(b: &[u8]) -> (r: Option<&str>)
    ensures
        r is Some <==> valid_utf8(b@),
        r matches Some(t) ==> encode_utf8(t@) == b@,
{
    std::str::from_utf8(b).ok()
}

/// `r` is the same frame and end, or the same fault, as `q`.
pub open spec fn same_parse(r: Result<(RespFrame, usize), RespError>, q: Result<(FrameView, int), Fault>) -> bool {
    match r {
        Ok((f, e)) => q == Ok::<(FrameView, int), Fault>((f@, e as int)),
        Err(x) => q == Err::<(FrameView, int), Fault>(x@),
    }
}

/// The frame of one line, whose marker is `m` and payload `s[a..b]`.
fn parse_line_at(s: &[u8], m: u8, a: usize, b: usize) -> (r: Result<RespFrame, RespError>)
    requires
        is_line_marker(m),
        a <= b <= s@.len(),
    ensures
        r matches Ok(f) ==> parse_line(m, s@.subrange(a as int, b as int)) == Ok::<FrameView, Fault>(f@),
        r matches Err(x) ==> parse_line(m, s@.subrange(a as int, b as int)) == Err::<FrameView, Fault>(x@),
{
    let ghost t = s@.subrange(a as int, b as int);
    if m == UNDERSCORE {
        return if a == b { Ok(RespFrame::Null(RespNull)) } else { Err(RespError::InvalidFrame(copy_range(s, a, b))) };
    }
    if m == HASH {
        if b - a == 1 {
            assert(t =~= seq![s@[a as int]]);
        } else {
            assert(t != seq![LOWER_T] && t != seq![LOWER_F]) by {
                assert(seq![LOWER_T].len() == 1 && seq![LOWER_F].len() == 1);
            }
        }
        if b - a == 1 && s[a] == LOWER_T {
            return Ok(RespFrame::Boolean(true));
        } else if b - a == 1 && s[a] == LOWER_F {
            return Ok(RespFrame::Boolean(false));
        } else {
            if b - a == 1 {
                assert(t != seq![LOWER_T] && t != seq![LOWER_F]) by {
                    assert(seq![LOWER_T][0] == LOWER_T && seq![LOWER_F][0] == LOWER_F);
                }
            }
            return Err(RespError::InvalidFrame(copy_range(s, a, b)));
        }
    }
    if m == COLON {
        return match parse_decimal(s, a, b) {
            Some(n) => Ok(RespFrame::Integer(n)),
            None => if utf8_str(slice_subrange(s, a, b)).is_some() {
                Err(RespError::ParseIntError(copy_range(s, a, b)))
            } else {
                Err(RespError::Utf8Error(copy_range(s, a, b)))
            },
        };
    }
    let text = match utf8_str(slice_subrange(s, a, b)) {
        None => {
            return Err(RespError::Utf8Error(copy_range(s, a, b)));
        },
        Some(text) => text,
    };
    if m == PLUS {
        Ok(RespFrame::SimpleString(SimpleString(text.to_owned())))
    } else if m == MINUS {
        Ok(RespFrame::Error(SimpleError(text.to_owned())))
    } else if float_ok(s, a, b) {
        Ok(RespFrame::Double(RespDouble(text.to_owned())))
    } else {
        Err(RespError::ParseFloatError(copy_range(s, a, b)))
    }
}

/// The frame that starts at `p`, and where it ends.
pub fn parse_at(s: &[u8], p: usize) -> (r: Result<(RespFrame, usize), RespError>)
    ensures
        same_parse(r, parse(s@, p as int)),
    decreases s.len() - p,
{
    if p >= s.len() {
        return Err(RespError::NotComplete);
    }
    let m = s[p];
    if !any_marker(m) {
        return Err(RespError::InvalidFrameType(m));
    }
    let i = match find_crlf_at(s, p + 1) {
        None => {
            return Err(RespError::NotComplete);
        },
        Some(i) => i,
    };
    proof {
        lemma_find_crlf_bounds(s@, p + 1);
    }
    if line_marker(m) {
        return match parse_line_at(s, m, p + 1, i) {
            Ok(f) => Ok((f, i + 2)),
            Err(x) => Err(x),
        };
    }
    let n = match parse_decimal(s, p + 1, i) {
        None => {
            return Err(RespError::InvalidFrameLength(copy_range(s, p + 1, i)));
        },
        Some(n) => n,
    };
    if n == -1 {
        let f = if m == DOLLAR {
            RespFrame::NullBulkString(RespNullBulkString)
        } else if m == STAR {
            RespFrame::NullArray(RespNullArray)
        } else {
            RespFrame::Null(RespNull)
        };
        return Ok((f, i + 2));
    }
    if n < 0 {
        return Err(RespError::InvalidFrameLength(copy_range(s, p + 1, i)));
    }
    if m == DOLLAR {
        if s.len() - i >= 4 && (n as u64) <= ((s.len() - i - 4) as u64) {
            let len = n as usize;
            if s[i + 2 + len] == CR && s[i + 3 + len] == LF {
                let body = copy_range(s, i + 2, i + 2 + len);
                return Ok((RespFrame::BulkString(BulkString(body)), i + 4 + len));
            } else {
                return Err(RespError::InvalidFrame(copy_range(s, i + 2 + len, i + 4 + len)));
            }
        } else {
            return Err(RespError::NotComplete);
        }
    }
    let count = n as u64;
    let mut q: usize = i + 2;
    let mut k: u64 = 0;
    if m == PERCENT {
        let mut map = RespMap::new();
        while k < count
            invariant
                p < q <= s@.len(),
                k <= count,
                keys_ascending(map@),
                parse(s@, p as int) == wrap_pairs(parse_pairs(s@, q as int, count - k, map@)),
            decreases count - k,
        {
            let (kf, q1) = match parse_at(s, q) {
                Err(x) => {
                    return Err(x);
                },
                Ok(r) => r,
            };
            let key = match kf {
                RespFrame::SimpleString(key) => key,
                _ => {
                    return Err(RespError::InvalidFrameType(s[q]));
                },
            };
            proof {
                lemma_parse_end(s@, q as int);
            }
            let (v, q2) = match parse_at(s, q1) {
                Err(x) => {
                    return Err(x);
                },
                Ok(r) => r,
            };
            proof {
                lemma_parse_end(s@, q1 as int);
            }
            map.insert(key.0, v);
            q = q2;
            k = k + 1;
        }
        Ok((RespFrame::MapFrame(map), q))
    } else {
        let mut xs: Vec<RespFrame> = Vec::new();
        assert(frames_view(xs@) =~= Seq::<FrameView>::empty());
        while k < count
            invariant
                p < q <= s@.len(),
                k <= count,
                m == STAR || m == TILDE,
                parse(s@, p as int) == wrap_items(m, parse_items(s@, q as int, count - k, frames_view(xs@))),
            decreases count - k,
        {
            let (f, e) = match parse_at(s, q) {
                Err(x) => {
                    return Err(x);
                },
                Ok(r) => r,
            };
            proof {
                lemma_parse_end(s@, q as int);
            }
            let ghost before = xs@;
            xs.push(f);
            assert(xs@.subrange(0, xs@.len() - 1) =~= before);
            q = e;
            k = k + 1;
        }
        if m == STAR {
            Ok((RespFrame::Array(RespArray(xs)), q))
        } else {
            Ok((RespFrame::SetFrame(RespSet(xs)), q))
        }
    }
}

pub proof fn lemma_parse_items_end(s: Seq<u8>, p: int, n: int, acc: Seq<FrameView>)
    requires
        0 <= p <= s.len(),
    ensures
        parse_items(s, p, n, acc) matches Ok((_, e)) ==> p <= e <= s.len(),
    decreases s.len() - p, n + 1,
{
    if n > 0 {
        if let Ok((v, q)) = parse(s, p) {
            if p < q <= s.len() {
                lemma_parse_items_end(s, q, n - 1, acc.push(v));
            }
        }
    }
}

pub proof fn lemma_parse_pairs_end(s: Seq<u8>, p: int, n: int, acc: Seq<(Seq<u8>, FrameView)>)
    requires
        0 <= p <= s.len(),
    ensures
        parse_pairs(s, p, n, acc) matches Ok((_, e)) ==> p <= e <= s.len(),
    decreases s.len() - p, n + 1,
{
    if n > 0 {
        if let Ok((kv, q)) = parse(s, p) {
            if let FrameView::Simple(k) = kv {
                if p < q <= s.len() {
                    if let Ok((v, r)) = parse(s, q) {
                        if q < r <= s.len() {
                            lemma_parse_pairs_end(s, r, n - 1, map_insert(acc, k, v));
                        }
                    }
                }
            }
        }
    }
}

/// A frame that parses ends after its start and within the bytes.
pub proof fn lemma_parse_end(s: Seq<u8>, p: int)
    ensures
        parse(s, p) matches Ok((_, e)) ==> p < e <= s.len(),
{
    lemma_find_crlf_bounds(s, p + 1);
    if 0 <= p < s.len() {
        if let Some(i) = find_crlf(s, p + 1) {
            if p < i + 2 <= s.len() {
                lemma_parse_items_end(s, i + 2, decimal_value(s.subrange(p + 1, i))->0, Seq::empty());
                lemma_parse_pairs_end(s, i + 2, decimal_value(s.subrange(p + 1, i))->0, Seq::empty());
            }
        }
    }
}

pub proof fn lemma_probe_items_end(s: Seq<u8>, p: int, n: int)
    requires
        0 <= p <= s.len(),
    ensures
        probe_items(s, p, n) matches Ok(e) ==> p <= e <= s.len(),
    decreases s.len() - p, n + 1,
{
    if n > 0 {
        if let Ok(q) = probe(s, p) {
            if p < q <= s.len() {
                lemma_probe_items_end(s, q, n - 1);
            }
        }
    }
}

/// A frame that the probe finds whole ends after its start and within the
/// bytes.
pub proof fn lemma_probe_end(s: Seq<u8>, p: int)
    ensures
        probe(s, p) matches Ok(e) ==> p < e <= s.len(),
{
    lemma_find_crlf_bounds(s, p + 1);
    if 0 <= p < s.len() {
        if let Some(i) = find_crlf(s, p + 1) {
            if p < i + 2 <= s.len() {
                let n = decimal_value(s.subrange(p + 1, i))->0;
                lemma_probe_items_end(s, i + 2, nested_count(s[p], n));
            }
        }
    }
}

/// What decoding a buffer that held `input` did: the frame it gave and the
/// bytes left after it, or the fault and the buffer as it was.
pub open spec fn decoded(input: Seq<u8>, r: Result<RespFrame, RespError>, rest: Seq<u8>) -> bool {
    match decoding(input) {
        Ok((v, e)) => r matches Ok(f) && f@ == v && rest == input.subrange(e, input.len() as int),
        Err(x) => r matches Err(y) && y@ == x && rest == input,
    }
}

/// Takes one whole frame off the front of `buf`. The buffer is probed
/// first: when the frame is not all there, or is framed wrongly, the buffer
/// is left as it was.
pub fn decode_frame(buf: &mut BytesMut) -> (r: Result<RespFrame, RespError>)
    ensures
        decoded(buffer_bytes(*old(buf)), r, buffer_bytes(*final(buf))),
{
    let s = buffer_slice(buf);
    if let Err(x) = probe_at(s, 0) {
        return Err(x);
    }
    match parse_at(s, 0) {
        Err(x) => Err(x),
        Ok((f, e)) => {
            proof {
                lemma_parse_end(s@, 0);
            }
            let _taken = buffer_split_to(buf, e);
            Ok(f)
        },
    }
}

/// A value that has a canonical wire form.
pub trait RespEncode: Sized {
    /// The bytes that `encode` gives.
    spec fn wire_bytes(&self) -> Seq<u8>;

    fn encode(self) -> (r: Vec<u8>)
        ensures
            r@ == self.wire_bytes(),
    ;
}

/// A value that can be taken off the front of a byte buffer.
pub trait RespDecode: Sized {
    /// What `decode` does with a buffer that held `input`: its result `r`,
    /// and `rest`, what the buffer then holds.
    spec fn decodes(input: Seq<u8>, r: Result<Self, RespError>, rest: Seq<u8>) -> bool;

    /// What `expect_length` says of `input`.
    spec fn expects(input: Seq<u8>, r: Result<usize, RespError>) -> bool;

    fn decode(buf: &mut BytesMut) -> (r: Result<Self, RespError>)
        ensures
            Self::decodes(buffer_bytes(*old(buf)), r, buffer_bytes(*final(buf))),
    ;

    fn expect_length(buf: &[u8]) -> (r: Result<usize, RespError>)
        ensures
            Self::expects(buf@, r),
    ;
}

impl RespEncode for RespFrame {
    open spec fn wire_bytes(&self) -> Seq<u8> {
        encode_frame(self@)
    }

    fn encode(self) -> (r: Vec<u8>) {
        encode_frame_bytes(&self)
    }
}

impl RespEncode for SimpleString {
    open spec fn wire_bytes(&self) -> Seq<u8> {
        encode_frame(RespFrame::SimpleString(*self)@)
    }

    fn encode(self) -> (r: Vec<u8>) {
        encode_frame_bytes(&RespFrame::SimpleString(self))
    }
}

impl RespEncode for SimpleError {
    open spec fn wire_bytes(&self) -> Seq<u8> {
        encode_frame(RespFrame::Error(*self)@)
    }

    fn encode(self) -> (r: Vec<u8>) {
        encode_frame_bytes(&RespFrame::Error(self))
    }
}

impl RespEncode for BulkString {
    open spec fn wire_bytes(&self) -> Seq<u8> {
        encode_frame(RespFrame::BulkString(*self)@)
    }

    fn encode(self) -> (r: Vec<u8>) {
        encode_frame_bytes(&RespFrame::BulkString(self))
    }
}

impl RespEncode for RespArray {
    open spec fn wire_bytes(&self) -> Seq<u8> {
        encode_frame(RespFrame::Array(*self)@)
    }

    fn encode(self) -> (r: Vec<u8>) {
        encode_frame_bytes(&RespFrame::Array(self))
    }
}

impl RespEncode for RespMap {
    open spec fn wire_bytes(&self) -> Seq<u8> {
        encode_frame(RespFrame::MapFrame(*self)@)
    }

    fn encode(self) -> (r: Vec<u8>) {
        encode_frame_bytes(&RespFrame::MapFrame(self))
    }
}

impl RespEncode for RespSet {
    open spec fn wire_bytes(&self) -> Seq<u8> {
        encode_frame(RespFrame::SetFrame(*self)@)
    }

    fn encode(self) -> (r: Vec<u8>) {
        encode_frame_bytes(&RespFrame::SetFrame(self))
    }
}

impl RespDecode for RespFrame {
    open spec fn decodes(input: Seq<u8>, r: Result<RespFrame, RespError>, rest: Seq<u8>) -> bool {
        decoded(input, r, rest)
    }

    open spec fn expects(input: Seq<u8>, r: Result<usize, RespError>) -> bool {
        same_end(r, probe(input, 0))
    }

    fn decode(buf: &mut BytesMut) -> (r: Result<RespFrame, RespError>) {
        decode_frame(buf)
    }

    fn expect_length(buf: &[u8]) -> (r: Result<usize, RespError>) {
        probe_at(buf, 0)
    }
}

/// Whether `input` starts with a marker other than `+`.
pub open spec fn other_marker(input: Seq<u8>) -> bool {
    input.len() > 0 && input[0] != PLUS
}

impl RespDecode for SimpleString {
    open spec fn decodes(input: Seq<u8>, r: Result<SimpleString, RespError>, rest: Seq<u8>) -> bool {
        if other_marker(input) {
            r == Err::<SimpleString, RespError>(RespError::InvalidFrameType(input[0])) && rest == input
        } else {
            decoded(
                input,
                match r {
                    Ok(s) => Ok(RespFrame::SimpleString(s)),
                    Err(x) => Err(x),
                },
                rest,
            )
        }
    }

    open spec fn expects(input: Seq<u8>, r: Result<usize, RespError>) -> bool {
        if other_marker(input) {
            r == Err::<usize, RespError>(RespError::InvalidFrameType(input[0]))
        } else {
            same_end(r, probe(input, 0))
        }
    }

    fn decode(buf: &mut BytesMut) -> (r: Result<SimpleString, RespError>) {
        let s = buffer_slice(buf);
        if s.len() > 0 && s[0] != PLUS {
            return Err(RespError::InvalidFrameType(s[0]));
        }
        match decode_frame(buf) {
            Ok(RespFrame::SimpleString(x)) => Ok(x),
            Ok(f) => {
                proof {
                    let input = buffer_bytes(*old(buf));
                    lemma_find_crlf_bounds(input, 1);
                    assert(input[0] == PLUS);
                    assert(f@ is Simple);
                }
                Err(RespError::NotComplete)
            },
            Err(x) => Err(x),
        }
    }

    fn expect_length(buf: &[u8]) -> (r: Result<usize, RespError>) {
        if buf.len() > 0 && buf[0] != PLUS {
            return Err(RespError::InvalidFrameType(buf[0]));
        }
        probe_at(buf, 0)
    }
}

} // verus!
