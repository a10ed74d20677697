//! The frame value model.
use crate::wire::{key_lt, keys_ascending, map_insert, FrameView, Fault};
use vstd::prelude::*;
use vstd::utf8::encode_utf8;

verus! {

/// The UTF-8 bytes of a text.
pub open spec fn text_bytes(s: String) -> Seq<u8> {
    encode_utf8(s@)
}

/// A line of text, sent as `+text\r\n`.
#[derive(Debug, Clone, PartialEq)]
pub struct SimpleString(pub String);

/// An error message, sent as `-text\r\n`.
#[derive(Debug, Clone, PartialEq)]
pub struct SimpleError(pub String);

/// Raw bytes with an explicit length, sent as `$len\r\nbytes\r\n`.
#[derive(Debug, Clone, PartialEq)]
pub struct BulkString(pub Vec<u8>);

/// The explicit null, `_\r\n`.
#[derive(Debug, Clone, PartialEq)]
pub struct RespNull;

/// An ordered sequence of frames.
#[derive(Debug, PartialEq)]
pub struct RespArray(pub Vec<RespFrame>);

/// The null array, `*-1\r\n`.
#[derive(Debug, Clone, PartialEq)]
pub struct RespNullArray;

/// The null bulk string, `$-1\r\n`.
#[derive(Debug, Clone, PartialEq)]
pub struct RespNullBulkString;

/// A double, held as its decimal text.
#[derive(Debug, Clone, PartialEq)]
pub struct RespDouble(pub String);

/// Text keys to frames. `new` and `insert` keep the keys in ascending
/// order, each key once.
#[derive(Debug, PartialEq)]
pub struct RespMap(pub Vec<(String, RespFrame)>);

/// A sequence of frames framed like an array; duplicates are kept.
#[derive(Debug, PartialEq)]
pub struct RespSet(pub Vec<RespFrame>);

/// One protocol value, tagged by its kind.
#[derive(Debug, PartialEq)]
pub enum RespFrame {
    SimpleString(SimpleString),
    Error(SimpleError),
    Integer(i64),
    BulkString(BulkString),
    NullBulkString(RespNullBulkString),
    Array(RespArray),
    NullArray(RespNullArray),
    Null(RespNull),
    Boolean(bool),
    Double(RespDouble),
    MapFrame(RespMap),
    SetFrame(RespSet),
}

/// Why decoding gave no frame; each carries the offending bytes.
#[derive(Debug, Clone, PartialEq)]
pub enum RespError {
    InvalidFrame(Vec<u8>),
    InvalidFrameType(u8),
    InvalidFrameLength(Vec<u8>),
    NotComplete,
    ParseIntError(Vec<u8>),
    Utf8Error(Vec<u8>),
    ParseFloatError(Vec<u8>),
}

impl View for RespError {
    type V = Fault;

    open spec fn view(&self) -> Fault {
        match self {
            RespError::InvalidFrame(b) => Fault::InvalidFrame(b@),
            RespError::InvalidFrameType(m) => Fault::InvalidFrameType(*m),
            RespError::InvalidFrameLength(b) => Fault::InvalidFrameLength(b@),
            RespError::NotComplete => Fault::NotComplete,
            RespError::ParseIntError(b) => Fault::ParseInt(b@),
            RespError::Utf8Error(b) => Fault::Utf8(b@),
            RespError::ParseFloatError(b) => Fault::ParseFloat(b@),
        }
    }
}

pub open spec fn frame_view(f: RespFrame) -> FrameView
    decreases f,
{
    match f {
        RespFrame::SimpleString(s) => FrameView::Simple(text_bytes(s.0)),
        RespFrame::Error(s) => FrameView::Error(text_bytes(s.0)),
        RespFrame::Integer(n) => FrameView::Integer(n as int),
        RespFrame::BulkString(b) => FrameView::Bulk(b.0@),
        RespFrame::NullBulkString(_) => FrameView::NullBulk,
        RespFrame::Array(a) => FrameView::Array(frames_view(a.0@)),
        RespFrame::NullArray(_) => FrameView::NullArray,
        RespFrame::Null(_) => FrameView::Null,
        RespFrame::Boolean(b) => FrameView::Boolean(b),
        RespFrame::Double(d) => FrameView::Double(text_bytes(d.0)),
        RespFrame::MapFrame(m) => FrameView::MapFrame(pairs_view(m.0@)),
        RespFrame::SetFrame(a) => FrameView::SetFrame(frames_view(a.0@)),
    }
}

pub open spec fn frames_view(xs: Seq<RespFrame>) -> Seq<FrameView>
    decreases xs,
{
    if xs.len() == 0 {
        Seq::empty()
    } else {
        frames_view(xs.subrange(0, xs.len() - 1)).push(frame_view(xs[xs.len() - 1]))
    }
}

pub open spec fn pairs_view(ps: Seq<(String, RespFrame)>) -> Seq<(Seq<u8>, FrameView)>
    decreases ps,
{
    if ps.len() == 0 {
        Seq::empty()
    } else {
        let last = ps[ps.len() - 1];
        pairs_view(ps.subrange(0, ps.len() - 1)).push((text_bytes(last.0), frame_view(last.1)))
    }
}

impl View for RespMap {
    type V = Seq<(Seq<u8>, FrameView)>;

    open spec fn view(&self) -> Seq<(Seq<u8>, FrameView)> {
        pairs_view(self.0@)
    }
}

pub proof fn lemma_frames_view(xs: Seq<RespFrame>)
    ensures
        frames_view(xs).len() == xs.len(),
        forall|j: int| 0 <= j < xs.len() ==> #[trigger] frames_view(xs)[j] == frame_view(xs[j]),
    decreases xs.len(),
{
    if xs.len() > 0 {
        let u = xs.subrange(0, xs.len() - 1);
        lemma_frames_view(u);
        assert forall|j: int| 0 <= j < xs.len() implies #[trigger] frames_view(xs)[j] == frame_view(xs[j]) by {
            if j < xs.len() - 1 {
                assert(u[j] == xs[j]);
            }
        }
    }
}

pub proof fn lemma_pairs_view(ps: Seq<(String, RespFrame)>)
    ensures
        pairs_view(ps).len() == ps.len(),
        forall|j: int| 0 <= j < ps.len() ==> #[trigger] pairs_view(ps)[j] == (text_bytes(ps[j].0), frame_view(ps[j].1)),
    decreases ps.len(),
{
    if ps.len() > 0 {
        let u = ps.subrange(0, ps.len() - 1);
        lemma_pairs_view(u);
        assert forall|j: int| 0 <= j < ps.len() implies #[trigger] pairs_view(ps)[j] == (text_bytes(ps[j].0), frame_view(ps[j].1)) by {
            if j < ps.len() - 1 {
                assert(u[j] == ps[j]);
            }
        }
    }
}

pub proof fn lemma_key_lt_irreflexive(a: Seq<u8>)
    ensures
        !key_lt(a, a),
    decreases a.len(),
{
    if a.len() > 0 {
        lemma_key_lt_irreflexive(a.subrange(1, a.len() as int));
    }
}

pub proof fn lemma_key_lt_trans(a: Seq<u8>, b: Seq<u8>, c: Seq<u8>)
    requires
        key_lt(a, b),
        key_lt(b, c),
    ensures
        key_lt(a, c),
    decreases a.len(),
{
    if a.len() > 0 && b.len() > 0 && c.len() > 0 && a[0] == b[0] && b[0] == c[0] {
        lemma_key_lt_trans(a.subrange(1, a.len() as int), b.subrange(1, b.len() as int), c.subrange(1, c.len() as int));
    }
}

pub proof fn lemma_key_lt_total(a: Seq<u8>, b: Seq<u8>)
    ensures
        a == b || key_lt(a, b) || key_lt(b, a),
    decreases a.len(),
{
    if a.len() > 0 && b.len() > 0 && a[0] == b[0] {
        let a1 = a.subrange(1, a.len() as int);
        let b1 = b.subrange(1, b.len() as int);
        lemma_key_lt_total(a1, b1);
        if a1 == b1 {
            assert(a =~= seq![a[0]] + a1);
            assert(b =~= seq![b[0]] + b1);
        }
    } else if a.len() == 0 && b.len() == 0 {
        assert(a =~= b);
    }
}

/// Compares two byte strings: negative, zero or positive as `a` sorts
/// before, equal to, or after `b`.
pub fn compare_keys(a: &[u8], b: &[u8]) -> (r: i8)
    ensures
        (r < 0) == key_lt(a@, b@),
        (r == 0) == (a@ == b@),
        (r > 0) == key_lt(b@, a@),
{
    let mut j: usize = 0;
    assert(a@.subrange(0, a@.len() as int) =~= a@);
    assert(b@.subrange(0, b@.len() as int) =~= b@);
    while j < a.len() && j < b.len()
        invariant
            j <= a@.len(),
            j <= b@.len(),
            a@.subrange(0, j as int) == b@.subrange(0, j as int),
            key_lt(a@, b@) == key_lt(a@.subrange(j as int, a@.len() as int), b@.subrange(j as int, b@.len() as int)),
            key_lt(b@, a@) == key_lt(b@.subrange(j as int, b@.len() as int), a@.subrange(j as int, a@.len() as int)),
        decreases a.len() - j,
    {
        let ghost x = a@.subrange(j as int, a@.len() as int);
        let ghost y = b@.subrange(j as int, b@.len() as int);
        assert(x[0] == a@[j as int] && y[0] == b@[j as int]);
        if a[j] != b[j] {
            assert(a@[j as int] != b@[j as int]);
            return if a[j] < b[j] { -1 } else { 1 };
        }
        assert(x.subrange(1, x.len() as int) =~= a@.subrange(j + 1, a@.len() as int));
        assert(y.subrange(1, y.len() as int) =~= b@.subrange(j + 1, b@.len() as int));
        assert(a@.subrange(0, j + 1) =~= a@.subrange(0, j as int).push(a@[j as int]));
        assert(b@.subrange(0, j + 1) =~= b@.subrange(0, j as int).push(b@[j as int]));
        j = j + 1;
    }
    if j == a.len() && j == b.len() {
        assert(a@ =~= a@.subrange(0, j as int));
        assert(b@ =~= b@.subrange(0, j as int));
        0
    } else if j == a.len() {
        -1
    } else {
        1
    }
}

pub proof fn lemma_map_insert_keys(ps: Seq<(Seq<u8>, FrameView)>, k: Seq<u8>, v: FrameView)
    ensures
        forall|j: int| 0 <= j < map_insert(ps, k, v).len() ==> #[trigger] map_insert(ps, k, v)[j].0 == k
            || exists|i: int| 0 <= i < ps.len() && ps[i].0 == map_insert(ps, k, v)[j].0,
    decreases ps.len(),
{
    let r = map_insert(ps, k, v);
    if ps.len() > 0 {
        let t = ps.subrange(1, ps.len() as int);
        lemma_map_insert_keys(t, k, v);
        assert forall|j: int| 0 <= j < r.len() implies #[trigger] r[j].0 == k || exists|i: int| 0 <= i < ps.len() && ps[i].0 == r[j].0 by {
            if ps[0].0 == k {
                if j > 0 {
                    assert(ps[j].0 == r[j].0);
                }
            } else if key_lt(k, ps[0].0) {
                if j > 0 {
                    assert(ps[j - 1].0 == r[j].0);
                }
            } else {
                if j == 0 {
                    assert(ps[0].0 == r[j].0);
                } else {
                    let m = map_insert(t, k, v);
                    assert(r[j] == m[j - 1]);
                    if m[j - 1].0 != k {
                        let i = choose|i: int| 0 <= i < t.len() && t[i].0 == m[j - 1].0;
                        assert(ps[i + 1].0 == r[j].0);
                    }
                }
            }
        }
    }
}

/// Inserting into a key-ordered sequence of pairs keeps it key-ordered.
pub proof fn lemma_map_insert_ascending(ps: Seq<(Seq<u8>, FrameView)>, k: Seq<u8>, v: FrameView)
    requires
        keys_ascending(ps),
    ensures
        keys_ascending(map_insert(ps, k, v)),
    decreases ps.len(),
{
    let r = map_insert(ps, k, v);
    if ps.len() > 0 {
        let t = ps.subrange(1, ps.len() as int);
        assert(keys_ascending(t)) by {
            assert forall|i: int, j: int| 0 <= i < j < t.len() implies key_lt(#[trigger] t[i].0, #[trigger] t[j].0) by {
                assert(t[i] == ps[i + 1] && t[j] == ps[j + 1]);
            }
        }
        if ps[0].0 == k {
            assert forall|i: int, j: int| 0 <= i < j < r.len() implies key_lt(#[trigger] r[i].0, #[trigger] r[j].0) by {
                assert(r[j] == ps[j]);
                if i > 0 {
                    assert(r[i] == ps[i]);
                }
            }
        } else if key_lt(k, ps[0].0) {
            assert forall|i: int, j: int| 0 <= i < j < r.len() implies key_lt(#[trigger] r[i].0, #[trigger] r[j].0) by {
                assert(r[j] == ps[j - 1]);
                if i > 0 {
                    assert(r[i] == ps[i - 1]);
                } else if j > 1 {
                    lemma_key_lt_trans(k, ps[0].0, ps[j - 1].0);
                }
            }
        } else {
            lemma_key_lt_total(k, ps[0].0);
            lemma_map_insert_ascending(t, k, v);
            lemma_map_insert_keys(t, k, v);
            let m = map_insert(t, k, v);
            assert forall|i: int, j: int| 0 <= i < j < r.len() implies key_lt(#[trigger] r[i].0, #[trigger] r[j].0) by {
                assert(r[j] == m[j - 1]);
                if i > 0 {
                    assert(r[i] == m[i - 1]);
                } else {
                    assert(r[0] == ps[0]);
                    if m[j - 1].0 != k {
                        let x = choose|x: int| 0 <= x < t.len() && t[x].0 == m[j - 1].0;
                        assert(t[x] == ps[x + 1]);
                    }
                }
            }
        }
    }
}

/// When every key before `i` sorts before `k`, inserting leaves those pairs
/// in front as they are.
pub proof fn lemma_map_insert_after(ps: Seq<(Seq<u8>, FrameView)>, k: Seq<u8>, v: FrameView, i: int)
    requires
        0 <= i <= ps.len(),
        forall|j: int| 0 <= j < i ==> key_lt(#[trigger] ps[j].0, k),
    ensures
        map_insert(ps, k, v) == ps.subrange(0, i) + map_insert(ps.subrange(i, ps.len() as int), k, v),
    decreases i,
{
    if i == 0 {
        assert(ps.subrange(0, ps.len() as int) =~= ps);
        assert(ps.subrange(0, 0) + map_insert(ps, k, v) =~= map_insert(ps, k, v));
    } else {
        let t = ps.subrange(1, ps.len() as int);
        lemma_key_lt_irreflexive(k);
        if key_lt(k, ps[0].0) {
            lemma_key_lt_trans(k, ps[0].0, k);
        }
        assert forall|j: int| 0 <= j < i - 1 implies key_lt(#[trigger] t[j].0, k) by {
            assert(t[j] == ps[j + 1]);
        }
        lemma_map_insert_after(t, k, v, i - 1);
        assert(t.subrange(i - 1, t.len() as int) =~= ps.subrange(i, ps.len() as int));
        assert(seq![ps[0]] + t.subrange(0, i - 1) =~= ps.subrange(0, i));
        assert(map_insert(ps, k, v) =~= ps.subrange(0, i) + map_insert(ps.subrange(i, ps.len() as int), k, v));
    }
}

impl RespMap {
    /// An empty map.
    pub fn new() -> (r: RespMap)
        ensures
            r@ == Seq::<(Seq<u8>, FrameView)>::empty(),
    {
        RespMap(Vec::new())
    }

    /// Sets the value of `k`, in its place by key order; the value that `k`
    /// had, if any, is replaced.
    pub fn insert(&mut self, k: String, v: RespFrame)
        requires
            keys_ascending(old(self)@),
        ensures
            final(self)@ == map_insert(old(self)@, text_bytes(k), v@),
            keys_ascending(final(self)@),
    {
        let ghost kb = text_bytes(k);
        let ghost vv = v@;
        let ghost ps = old(self)@;
        proof {
            lemma_pairs_view(self.0@);
            lemma_map_insert_ascending(ps, kb, vv);
        }
        let mut i: usize = 0;
        while i < self.0.len()
            invariant
                i <= self.0@.len(),
                *self == *old(self),
                ps == self@,
                kb == text_bytes(k),
                vv == v@,
                keys_ascending(map_insert(ps, kb, vv)),
                pairs_view(self.0@).len() == self.0@.len(),
                forall|j: int| 0 <= j < self.0@.len() ==> #[trigger] pairs_view(self.0@)[j] == (text_bytes(self.0@[j].0), frame_view(self.0@[j].1)),
                forall|j: int| 0 <= j < i ==> key_lt(#[trigger] ps[j].0, kb),
            decreases self.0.len() - i,
        {
            let c = compare_keys(self.0[i].0.as_str().as_bytes(), k.as_str().as_bytes());
            if c >= 0 {
                proof {
                    lemma_map_insert_after(ps, kb, vv, i as int);
                }
                let ghost rest = ps.subrange(i as int, ps.len() as int);
                if c == 0 {
                    self.0.remove(i);
                    self.0.insert(i, (k, v));
                    proof {
                        assert(rest[0] == ps[i as int]);
                        assert(rest.subrange(1, rest.len() as int) =~= ps.subrange(i + 1, ps.len() as int));
                        lemma_pairs_view(self.0@);
                        assert(self@ =~= map_insert(ps, kb, vv));
                    }
                } else {
                    self.0.insert(i, (k, v));
                    proof {
                        assert(rest[0] == ps[i as int]);
                        lemma_pairs_view(self.0@);
                        assert(self@ =~= map_insert(ps, kb, vv));
                    }
                }
                return;
            }
            i = i + 1;
        }
        proof {
            lemma_map_insert_after(ps, kb, vv, i as int);
            assert(ps.subrange(i as int, ps.len() as int) =~= Seq::<(Seq<u8>, FrameView)>::empty());
        }
        self.0.push((k, v));
        proof {
            lemma_pairs_view(self.0@);
            assert(self@ =~= map_insert(ps, kb, vv));
        }
    }
}

impl View for RespFrame {
    type V = FrameView;

    open spec fn view(&self) -> FrameView {
        frame_view(*self)
    }
}

impl SimpleString {
    pub fn new(s: String) -> (r: SimpleString)
        ensures
            r.0 == s,
    {
        SimpleString(s)
    }

    pub fn as_str(&self) -> (r: &str)
        ensures
            r@ == self.0@,
    {
        self.0.as_str()
    }
}

impl SimpleError {
    pub fn new(s: String) -> (r: SimpleError)
        ensures
            r.0 == s,
    {
        SimpleError(s)
    }

    pub fn as_str(&self) -> (r: &str)
        ensures
            r@ == self.0@,
    {
        self.0.as_str()
    }
}

impl BulkString {
    pub fn new(b: Vec<u8>) -> (r: BulkString)
        ensures
            r.0 == b,
    {
        BulkString(b)
    }

    pub fn as_slice(&self) -> (r: &[u8])
        ensures
            r@ == self.0@,
    {
        self.0.as_slice()
    }
}

impl RespArray {
    pub fn new(xs: Vec<RespFrame>) -> (r: RespArray)
        ensures
            r.0 == xs,
    {
        RespArray(xs)
    }
}

impl RespSet {
    /// A set of the given frames, in their order; duplicates are kept.
    pub fn new(xs: Vec<RespFrame>) -> (r: RespSet)
        ensures
            r.0 == xs,
    {
        RespSet(xs)
    }
}

impl RespDouble {
    /// A double from its decimal text; the text is checked when decoded.
    pub fn new(s: String) -> (r: RespDouble)
        ensures
            r.0 == s,
    {
        RespDouble(s)
    }
}

impl Default for RespMap {
    fn default() -> (r: RespMap)
        ensures
            r@ == Seq::<(Seq<u8>, FrameView)>::empty(),
    {
        RespMap::new()
    }
}

impl From<SimpleString> for RespFrame {
    fn from(v: SimpleString) -> (r: RespFrame) {
        RespFrame::SimpleString(v)
    }
}

impl vstd::std_specs::convert::FromSpecImpl<SimpleString> for RespFrame {
    open spec fn obeys_from_spec() -> bool {
        true
    }

    open spec fn from_spec(v: SimpleString) -> RespFrame {
        RespFrame::SimpleString(v)
    }
}

impl From<SimpleError> for RespFrame {
    fn from(v: SimpleError) -> (r: RespFrame) {
        RespFrame::Error(v)
    }
}

impl vstd::std_specs::convert::FromSpecImpl<SimpleError> for RespFrame {
    open spec fn obeys_from_spec() -> bool {
        true
    }

    open spec fn from_spec(v: SimpleError) -> RespFrame {
        RespFrame::Error(v)
    }
}

impl From<BulkString> for RespFrame {
    fn from(v: BulkString) -> (r: RespFrame) {
        RespFrame::BulkString(v)
    }
}

impl vstd::std_specs::convert::FromSpecImpl<BulkString> for RespFrame {
    open spec fn obeys_from_spec() -> bool {
        true
    }

    open spec fn from_spec(v: BulkString) -> RespFrame {
        RespFrame::BulkString(v)
    }
}

impl From<RespArray> for RespFrame {
    fn from(v: RespArray) -> (r: RespFrame) {
        RespFrame::Array(v)
    }
}

impl vstd::std_specs::convert::FromSpecImpl<RespArray> for RespFrame {
    open spec fn obeys_from_spec() -> bool {
        true
    }

    open spec fn from_spec(v: RespArray) -> RespFrame {
        RespFrame::Array(v)
    }
}

impl From<RespMap> for RespFrame {
    fn from(v: RespMap) -> (r: RespFrame) {
        RespFrame::MapFrame(v)
    }
}

impl vstd::std_specs::convert::FromSpecImpl<RespMap> for RespFrame {
    open spec fn obeys_from_spec() -> bool {
        true
    }

    open spec fn from_spec(v: RespMap) -> RespFrame {
        RespFrame::MapFrame(v)
    }
}

impl From<RespSet> for RespFrame {
    fn from(v: RespSet) -> (r: RespFrame) {
        RespFrame::SetFrame(v)
    }
}

impl vstd::std_specs::convert::FromSpecImpl<RespSet> for RespFrame {
    open spec fn obeys_from_spec() -> bool {
        true
    }

    open spec fn from_spec(v: RespSet) -> RespFrame {
        RespFrame::SetFrame(v)
    }
}

impl From<RespNull> for RespFrame {
    fn from(v: RespNull) -> (r: RespFrame) {
        RespFrame::Null(v)
    }
}

impl vstd::std_specs::convert::FromSpecImpl<RespNull> for RespFrame {
    open spec fn obeys_from_spec() -> bool {
        true
    }

    open spec fn from_spec(v: RespNull) -> RespFrame {
        RespFrame::Null(v)
    }
}

impl From<RespNullArray> for RespFrame {
    fn from(v: RespNullArray) -> (r: RespFrame) {
        RespFrame::NullArray(v)
    }
}

impl vstd::std_specs::convert::FromSpecImpl<RespNullArray> for RespFrame {
    open spec fn obeys_from_spec() -> bool {
        true
    }

    open spec fn from_spec(v: RespNullArray) -> RespFrame {
        RespFrame::NullArray(v)
    }
}

impl From<RespNullBulkString> for RespFrame {
    fn from(v: RespNullBulkString) -> (r: RespFrame) {
        RespFrame::NullBulkString(v)
    }
}

impl vstd::std_specs::convert::FromSpecImpl<RespNullBulkString> for RespFrame {
    open spec fn obeys_from_spec() -> bool {
        true
    }

    open spec fn from_spec(v: RespNullBulkString) -> RespFrame {
        RespFrame::NullBulkString(v)
    }
}

impl From<RespDouble> for RespFrame {
    fn from(v: RespDouble) -> (r: RespFrame) {
        RespFrame::Double(v)
    }
}

impl vstd::std_specs::convert::FromSpecImpl<RespDouble> for RespFrame {
    open spec fn obeys_from_spec() -> bool {
        true
    }

    open spec fn from_spec(v: RespDouble) -> RespFrame {
        RespFrame::Double(v)
    }
}

impl From<Vec<u8>> for BulkString {
    fn from(b: Vec<u8>) -> (r: BulkString) {
        BulkString(b)
    }
}

impl vstd::std_specs::convert::FromSpecImpl<Vec<u8>> for BulkString {
    open spec fn obeys_from_spec() -> bool {
        true
    }

    open spec fn from_spec(b: Vec<u8>) -> BulkString {
        BulkString(b)
    }
}

impl From<Vec<u8>> for RespFrame {
    fn from(b: Vec<u8>) -> (r: RespFrame) {
        RespFrame::BulkString(BulkString(b))
    }
}

impl vstd::std_specs::convert::FromSpecImpl<Vec<u8>> for RespFrame {
    open spec fn obeys_from_spec() -> bool {
        true
    }

    open spec fn from_spec(b: Vec<u8>) -> RespFrame {
        RespFrame::BulkString(BulkString(b))
    }
}

} // verus!
