//! The wire grammar, as spec functions over byte sequences.
use vstd::prelude::*;
use vstd::utf8::valid_utf8;

verus! {

pub const CR: u8 = 13;
pub const LF: u8 = 10;
pub const MINUS: u8 = 45;
pub const PLUS: u8 = 43;
pub const COLON: u8 = 58;
pub const DOLLAR: u8 = 36;
pub const STAR: u8 = 42;
pub const UNDERSCORE: u8 = 95;
pub const HASH: u8 = 35;
pub const COMMA: u8 = 44;
pub const PERCENT: u8 = 37;
pub const TILDE: u8 = 126;
pub const LOWER_T: u8 = 116;
pub const LOWER_F: u8 = 102;

/// The abstract value of a frame. Texts are held as their UTF-8 bytes.
pub enum FrameView {
    Simple(Seq<u8>),
    Error(Seq<u8>),
    Integer(int),
    Bulk(Seq<u8>),
    NullBulk,
    Array(Seq<FrameView>),
    NullArray,
    Null,
    Boolean(bool),
    Double(Seq<u8>),
    MapFrame(Seq<(Seq<u8>, FrameView)>),
    SetFrame(Seq<FrameView>),
}

/// Why a buffer yields no frame.
pub enum Fault {
    InvalidFrame(Seq<u8>),
    InvalidFrameType(u8),
    InvalidFrameLength(Seq<u8>),
    NotComplete,
    ParseInt(Seq<u8>),
    Utf8(Seq<u8>),
    ParseFloat(Seq<u8>),
}

/// Decimal digit byte.
pub open spec fn is_digit(b: u8) -> bool {
    48 <= b <= 57
}

pub open spec fn all_digits(t: Seq<u8>) -> bool {
    forall|i: int| 0 <= i < t.len() ==> is_digit(#[trigger] t[i])
}

/// Value of a run of decimal digits, most significant first.
pub open spec fn digits_value(t: Seq<u8>) -> int
    decreases t.len(),
{
    if t.len() == 0 {
        0
    } else {
        digits_value(t.subrange(0, t.len() - 1)) * 10 + (t[t.len() - 1] - 48)
    }
}

/// The decimal text of a non-negative number.
pub open spec fn nat_text(n: nat) -> Seq<u8>
    decreases n,
{
    if n < 10 {
        seq![(48 + n) as u8]
    } else {
        nat_text(n / 10).push((48 + n % 10) as u8)
    }
}

/// The decimal text of an integer: a `-` for negative values, then the digits.
pub open spec fn int_text(n: int) -> Seq<u8> {
    if n < 0 {
        seq![MINUS] + nat_text((-n) as nat)
    } else {
        nat_text(n as nat)
    }
}

pub open spec fn in_i64(n: int) -> bool {
    i64::MIN <= n <= i64::MAX
}

/// A signed decimal integer: an optional `+` or `-`, then at least one digit,
/// with a value that fits in 64 signed bits.
pub open spec fn decimal_value(t: Seq<u8>) -> Option<int> {
    let neg = t.len() > 0 && t[0] == MINUS;
    let signed = t.len() > 0 && (t[0] == MINUS || t[0] == PLUS);
    let d = if signed { t.subrange(1, t.len() as int) } else { t };
    let v = if neg { -digits_value(d) } else { digits_value(d) };
    if d.len() > 0 && all_digits(d) && in_i64(v) {
        Some(v)
    } else {
        None
    }
}

/// Index of the first CR LF pair that starts at or after `p`.
pub open spec fn find_crlf(s: Seq<u8>, p: int) -> Option<int>
    decreases s.len() - p,
{
    if p < 0 || p + 1 >= s.len() {
        None
    } else if s[p] == CR && s[p + 1] == LF {
        Some(p)
    } else {
        find_crlf(s, p + 1)
    }
}

pub open spec fn crlf() -> Seq<u8> {
    seq![CR, LF]
}

pub const DOT: u8 = 46;

pub open spec fn is_exp_mark(b: u8) -> bool {
    b == 101 || b == 69
}

pub open spec fn drop_sign(t: Seq<u8>) -> Seq<u8> {
    if t.len() > 0 && (t[0] == PLUS || t[0] == MINUS) { t.subrange(1, t.len() as int) } else { t }
}

/// Digits with at most one `.` among them, and at least one digit.
pub open spec fn is_mantissa(m: Seq<u8>) -> bool {
    &&& forall|i: int| 0 <= i < m.len() ==> is_digit(#[trigger] m[i]) || m[i] == DOT
    &&& forall|i: int, j: int| 0 <= i < m.len() && 0 <= j < m.len() && #[trigger] m[i] == DOT && #[trigger] m[j] == DOT ==> i == j
    &&& exists|i: int| 0 <= i < m.len() && is_digit(#[trigger] m[i])
}

pub open spec fn ascii_lower(b: u8) -> u8 {
    if 65 <= b <= 90 { (b + 32) as u8 } else { b }
}

pub open spec fn lower_all(u: Seq<u8>) -> Seq<u8> {
    u.map_values(|b: u8| ascii_lower(b))
}

/// `inf`, `infinity` or `nan`, in any case.
pub open spec fn is_float_word(u: Seq<u8>) -> bool {
    let l = lower_all(u);
    l == seq![105u8, 110, 102] || l == seq![105u8, 110, 102, 105, 110, 105, 116, 121] || l == seq![110u8, 97, 110]
}

/// The decimal text of a floating-point number: an optional sign, then a
/// word for infinity or not-a-number, or a mantissa with an optional
/// exponent (`e` or `E`, an optional sign, digits).
pub open spec fn is_float_text(t: Seq<u8>) -> bool {
    let u = drop_sign(t);
    ||| is_float_word(u)
    ||| is_mantissa(u)
    ||| exists|k: int| 0 <= k < u.len() && is_exp_mark(#[trigger] u[k]) && is_mantissa(u.subrange(0, k))
        && ({ let e = drop_sign(u.subrange(k + 1, u.len() as int)); e.len() > 0 && all_digits(e) })
}

/// A text that holds no CR LF pair.
pub open spec fn no_crlf(t: Seq<u8>) -> bool {
    forall|i: int| 0 <= i < t.len() - 1 ==> !(#[trigger] t[i] == CR && t[i + 1] == LF)
}

/// Lexicographic order on byte strings, the order of `String`'s `Ord`.
pub open spec fn key_lt(a: Seq<u8>, b: Seq<u8>) -> bool
    decreases a.len(),
{
    if a.len() == 0 {
        b.len() > 0
    } else if b.len() == 0 {
        false
    } else if a[0] != b[0] {
        a[0] < b[0]
    } else {
        key_lt(a.subrange(1, a.len() as int), b.subrange(1, b.len() as int))
    }
}

pub open spec fn keys_ascending(ps: Seq<(Seq<u8>, FrameView)>) -> bool {
    forall|i: int, j: int| 0 <= i < j < ps.len() ==> key_lt(#[trigger] ps[i].0, #[trigger] ps[j].0)
}

/// Puts `(k, v)` in its place in a key-ordered sequence of pairs, replacing
/// the pair that holds `k`, if any.
pub open spec fn map_insert(ps: Seq<(Seq<u8>, FrameView)>, k: Seq<u8>, v: FrameView) -> Seq<(Seq<u8>, FrameView)>
    decreases ps.len(),
{
    if ps.len() == 0 {
        seq![(k, v)]
    } else if ps[0].0 == k {
        seq![(k, v)] + ps.subrange(1, ps.len() as int)
    } else if key_lt(k, ps[0].0) {
        seq![(k, v)] + ps
    } else {
        seq![ps[0]] + map_insert(ps.subrange(1, ps.len() as int), k, v)
    }
}

/// One line of the wire format: a marker byte, a payload, CR LF.
pub open spec fn line(m: u8, t: Seq<u8>) -> Seq<u8> {
    seq![m] + t + crlf()
}

pub open spec fn minus_one() -> Seq<u8> {
    seq![MINUS, 49u8]
}

/// The canonical wire bytes of a frame.
pub open spec fn encode_frame(v: FrameView) -> Seq<u8>
    decreases v,
{
    match v {
        FrameView::Simple(t) => line(PLUS, t),
        FrameView::Error(t) => line(MINUS, t),
        FrameView::Integer(n) => line(COLON, int_text(n)),
        FrameView::Bulk(b) => line(DOLLAR, nat_text(b.len())) + b + crlf(),
        FrameView::NullBulk => line(DOLLAR, minus_one()),
        FrameView::Array(xs) => line(STAR, nat_text(xs.len())) + encode_frames(xs),
        FrameView::NullArray => line(STAR, minus_one()),
        FrameView::Null => line(UNDERSCORE, Seq::empty()),
        FrameView::Boolean(b) => line(HASH, seq![if b { LOWER_T } else { LOWER_F }]),
        FrameView::Double(t) => line(COMMA, t),
        FrameView::MapFrame(ps) => line(PERCENT, nat_text(ps.len())) + encode_pairs(ps),
        FrameView::SetFrame(xs) => line(TILDE, nat_text(xs.len())) + encode_frames(xs),
    }
}

/// The encodings of a sequence of frames, one after the other.
pub open spec fn encode_frames(xs: Seq<FrameView>) -> Seq<u8>
    decreases xs,
{
    if xs.len() == 0 {
        Seq::empty()
    } else {
        encode_frames(xs.subrange(0, xs.len() - 1)) + encode_frame(xs[xs.len() - 1])
    }
}

/// Each pair as its key, a simple string, then its value.
pub open spec fn encode_pairs(ps: Seq<(Seq<u8>, FrameView)>) -> Seq<u8>
    decreases ps,
{
    if ps.len() == 0 {
        Seq::empty()
    } else {
        let last = ps[ps.len() - 1];
        encode_pairs(ps.subrange(0, ps.len() - 1)) + line(PLUS, last.0) + encode_frame(last.1)
    }
}

pub open spec fn is_line_marker(m: u8) -> bool {
    m == PLUS || m == MINUS || m == COLON || m == UNDERSCORE || m == HASH || m == COMMA
}

pub open spec fn is_aggregate_marker(m: u8) -> bool {
    m == STAR || m == PERCENT || m == TILDE
}

pub open spec fn is_marker(m: u8) -> bool {
    is_line_marker(m) || m == DOLLAR || is_aggregate_marker(m)
}

/// How many nested frames an aggregate of `n` entries holds.
pub open spec fn nested_count(m: u8, n: int) -> int {
    if m == PERCENT { 2 * n } else { n }
}

/// Where the frame that starts at `p` ends, when all of it is in `s`.
pub open spec fn probe(s: Seq<u8>, p: int) -> Result<int, Fault>
    decreases s.len() - p, 0int,
{
    if p < 0 || p >= s.len() {
        Err(Fault::NotComplete)
    } else if !is_marker(s[p]) {
        Err(Fault::InvalidFrameType(s[p]))
    } else {
        match find_crlf(s, p + 1) {
            None => Err(Fault::NotComplete),
            Some(i) => {
                let m = s[p];
                let h = s.subrange(p + 1, i);
                if is_line_marker(m) {
                    Ok(i + 2)
                } else {
                    match decimal_value(h) {
                        None => Err(Fault::InvalidFrameLength(h)),
                        Some(n) => if n == -1 {
                            Ok(i + 2)
                        } else if n < 0 {
                            Err(Fault::InvalidFrameLength(h))
                        } else if m == DOLLAR {
                            if i + 4 + n <= s.len() {
                                Ok(i + 4 + n)
                            } else {
                                Err(Fault::NotComplete)
                            }
                        } else if p < i + 2 <= s.len() {
                            probe_items(s, i + 2, nested_count(m, n))
                        } else {
                            Err(Fault::NotComplete)
                        },
                    }
                }
            },
        }
    }
}

/// Where `n` frames in a row, starting at `p`, end.
pub open spec fn probe_items(s: Seq<u8>, p: int, n: int) -> Result<int, Fault>
    decreases s.len() - p, n + 1,
{
    if n <= 0 {
        Ok(p)
    } else {
        match probe(s, p) {
            Err(f) => Err(f),
            Ok(q) => if p < q <= s.len() {
                probe_items(s, q, n - 1)
            } else {
                Err(Fault::NotComplete)
            },
        }
    }
}

/// The frame of one line, from its marker and its payload.
pub open spec fn parse_line(m: u8, t: Seq<u8>) -> Result<FrameView, Fault> {
    if m == UNDERSCORE {
        if t.len() == 0 { Ok(FrameView::Null) } else { Err(Fault::InvalidFrame(t)) }
    } else if m == HASH {
        if t == seq![LOWER_T] {
            Ok(FrameView::Boolean(true))
        } else if t == seq![LOWER_F] {
            Ok(FrameView::Boolean(false))
        } else {
            Err(Fault::InvalidFrame(t))
        }
    } else if m == COLON {
        match decimal_value(t) {
            Some(n) => Ok(FrameView::Integer(n)),
            None => if valid_utf8(t) { Err(Fault::ParseInt(t)) } else { Err(Fault::Utf8(t)) },
        }
    } else if !valid_utf8(t) {
        Err(Fault::Utf8(t))
    } else if m == PLUS {
        Ok(FrameView::Simple(t))
    } else if m == MINUS {
        Ok(FrameView::Error(t))
    } else {
        if is_float_text(t) { Ok(FrameView::Double(t)) } else { Err(Fault::ParseFloat(t)) }
    }
}

/// An array (marker `*`) or a set of the parsed frames.
pub open spec fn wrap_items(m: u8, r: Result<(Seq<FrameView>, int), Fault>) -> Result<(FrameView, int), Fault> {
    match r {
        Ok((xs, e)) => Ok((if m == STAR { FrameView::Array(xs) } else { FrameView::SetFrame(xs) }, e)),
        Err(f) => Err(f),
    }
}

/// A map of the parsed pairs.
pub open spec fn wrap_pairs(r: Result<(Seq<(Seq<u8>, FrameView)>, int), Fault>) -> Result<(FrameView, int), Fault> {
    match r {
        Ok((ps, e)) => Ok((FrameView::MapFrame(ps), e)),
        Err(f) => Err(f),
    }
}

/// The frame that starts at `p`, and where it ends.
pub open spec fn parse(s: Seq<u8>, p: int) -> Result<(FrameView, int), Fault>
    decreases s.len() - p, 0int,
{
    if p < 0 || p >= s.len() {
        Err(Fault::NotComplete)
    } else if !is_marker(s[p]) {
        Err(Fault::InvalidFrameType(s[p]))
    } else {
        match find_crlf(s, p + 1) {
            None => Err(Fault::NotComplete),
            Some(i) => {
                let m = s[p];
                let h = s.subrange(p + 1, i);
                if is_line_marker(m) {
                    match parse_line(m, h) {
                        Ok(v) => Ok((v, i + 2)),
                        Err(f) => Err(f),
                    }
                } else {
                    match decimal_value(h) {
                        None => Err(Fault::InvalidFrameLength(h)),
                        Some(n) => if n == -1 {
                            Ok((if m == DOLLAR { FrameView::NullBulk } else if m == STAR { FrameView::NullArray } else { FrameView::Null }, i + 2))
                        } else if n < 0 {
                            Err(Fault::InvalidFrameLength(h))
                        } else if m == DOLLAR {
                            if i + 4 + n <= s.len() {
                                if s[i + 2 + n] == CR && s[i + 3 + n] == LF {
                                    Ok((FrameView::Bulk(s.subrange(i + 2, i + 2 + n)), i + 4 + n))
                                } else {
                                    Err(Fault::InvalidFrame(s.subrange(i + 2 + n, i + 4 + n)))
                                }
                            } else {
                                Err(Fault::NotComplete)
                            }
                        } else if p < i + 2 <= s.len() {
                            if m == PERCENT {
                                wrap_pairs(parse_pairs(s, i + 2, n, Seq::empty()))
                            } else {
                                wrap_items(m, parse_items(s, i + 2, n, Seq::empty()))
                            }
                        } else {
                            Err(Fault::NotComplete)
                        },
                    }
                }
            },
        }
    }
}

/// `n` more frames in a row from `p`, after those in `acc`.
pub open spec fn parse_items(s: Seq<u8>, p: int, n: int, acc: Seq<FrameView>) -> Result<(Seq<FrameView>, int), Fault>
    decreases s.len() - p, n + 1,
{
    if n <= 0 {
        Ok((acc, p))
    } else {
        match parse(s, p) {
            Err(f) => Err(f),
            Ok((v, q)) => if p < q <= s.len() {
                parse_items(s, q, n - 1, acc.push(v))
            } else {
                Err(Fault::NotComplete)
            },
        }
    }
}

/// `n` more key and value pairs from `p`, put into `acc` by key.
pub open spec fn parse_pairs(s: Seq<u8>, p: int, n: int, acc: Seq<(Seq<u8>, FrameView)>) -> Result<(Seq<(Seq<u8>, FrameView)>, int), Fault>
    decreases s.len() - p, n + 1,
{
    if n <= 0 {
        Ok((acc, p))
    } else {
        match parse(s, p) {
            Err(f) => Err(f),
            Ok((kv, q)) => match kv {
                FrameView::Simple(k) => if p < q <= s.len() {
                    match parse(s, q) {
                        Err(f) => Err(f),
                        Ok((v, r)) => if q < r <= s.len() {
                            parse_pairs(s, r, n - 1, map_insert(acc, k, v))
                        } else {
                            Err(Fault::NotComplete)
                        },
                    }
                } else {
                    Err(Fault::NotComplete)
                },
                _ => Err(Fault::InvalidFrameType(s[p])),
            },
        }
    }
}

/// What decoding a buffer that holds `s` gives: the frame and how many bytes
/// it took, when the whole of it is there.
pub open spec fn decoding(s: Seq<u8>) -> Result<(FrameView, int), Fault> {
    match probe(s, 0) {
        Err(f) => Err(f),
        Ok(_) => parse(s, 0),
    }
}

pub proof fn lemma_find_crlf_bounds(s: Seq<u8>, p: int)
    ensures
        find_crlf(s, p) matches Some(i) ==> p <= i && i + 1 < s.len() && s[i] == CR && s[i + 1] == LF,
        find_crlf(s, p) is None ==> forall|i: int| p <= i < s.len() - 1 && p >= 0 ==> !(#[trigger] s[i] == CR && s[i + 1] == LF),
        find_crlf(s, p) matches Some(i) ==> forall|j: int| p <= j < i ==> !(#[trigger] s[j] == CR && s[j + 1] == LF),
    decreases s.len() - p,
{
    if p < 0 || p + 1 >= s.len() {
    } else if s[p] == CR && s[p + 1] == LF {
    } else {
        lemma_find_crlf_bounds(s, p + 1);
    }
}

} // verus!
