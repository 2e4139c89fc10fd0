//! RESP frame model: the frame sum type, its mathematical model, frame
//! well-formedness, and the error taxonomy shared by the codec.
mod decode;
mod digits;
mod encode;
mod laws;

pub use decode::calc_total_length;
pub use decode::extract_fixed_data;
pub use decode::extract_simple_frame_data;
pub use decode::find_crlf;
pub use decode::frame_len;
pub use decode::frame_step;
pub use decode::parse_length;
pub use encode::enc_model;
pub use laws::lemma_expect_length;
pub use laws::lemma_pipeline;
pub use laws::lemma_prefix_incomplete;
pub use laws::lemma_round_trip;

use vstd::prelude::*;
use vstd::string::StrSliceExecFns;
use vstd::string::StringSliceAdditionalSpecFns;

use crate::buf::buf_bytes;
use bytes::BytesMut;

verus! {

pub const CR: u8 = 13;

pub const LF: u8 = 10;

/// The mathematical value of one RESP frame.
pub enum FrameModel {
    Simple(Seq<u8>),
    Error(Seq<u8>),
    Int(int),
    Bulk(Seq<u8>),
    NullBulk,
    Arr(Seq<FrameModel>),
    NullArr,
    Null,
    Bool(bool),
    Dbl(Seq<u8>),
    Dict(Seq<(Seq<u8>, FrameModel)>),
    SetOf(Seq<FrameModel>),
}

/// True when the two-byte sequence CR LF occurs somewhere in `s`.
pub open spec fn has_crlf(s: Seq<u8>) -> bool {
    exists|i: int| 0 <= i && i + 1 < s.len() && #[trigger] s[i] == CR && s[i + 1] == LF
}

/// Strict lexicographic order on byte sequences.
pub open spec fn lex_lt(a: Seq<u8>, b: Seq<u8>) -> bool
    decreases a.len(),
{
    if b.len() == 0 {
        false
    } else if a.len() == 0 {
        true
    } else if a[0] < b[0] {
        true
    } else if a[0] > b[0] {
        false
    } else {
        lex_lt(a.drop_first(), b.drop_first())
    }
}

/// Insertion into a key-sorted entry sequence: a smaller key goes in
/// front, an equal key is replaced, a larger key moves past the head.
pub open spec fn map_insert(
    es: Seq<(Seq<u8>, FrameModel)>,
    k: Seq<u8>,
    v: FrameModel,
) -> Seq<(Seq<u8>, FrameModel)>
    decreases es.len(),
{
    if es.len() == 0 {
        seq![(k, v)]
    } else if lex_lt(k, es[0].0) {
        seq![(k, v)] + es
    } else if k == es[0].0 {
        seq![(k, v)] + es.drop_first()
    } else {
        seq![es[0]] + map_insert(es.drop_first(), k, v)
    }
}

/// The value stored under key `k`, scanning from the front.
pub open spec fn entries_lookup(es: Seq<(Seq<u8>, FrameModel)>, k: Seq<u8>) -> Option<FrameModel>
    decreases es.len(),
{
    if es.len() == 0 {
        None
    } else if es[0].0 == k {
        Some(es[0].1)
    } else {
        entries_lookup(es.drop_first(), k)
    }
}

/// Entries strictly ascending by key.
pub open spec fn entries_sorted(es: Seq<(Seq<u8>, FrameModel)>) -> bool {
    forall|i: int| 0 <= i && i + 1 < es.len() ==> lex_lt(#[trigger] es[i].0, es[i + 1].0)
}

pub proof fn lemma_lex_total(a: Seq<u8>, b: Seq<u8>)
    ensures
        lex_lt(a, b) || lex_lt(b, a) || a == b,
    decreases a.len(),
{
    if a.len() > 0 && b.len() > 0 && a[0] == b[0] {
        lemma_lex_total(a.drop_first(), b.drop_first());
        if a.drop_first() == b.drop_first() {
            assert forall|i: int| 0 <= i < a.len() implies a[i] == b[i] by {
                if i >= 1 {
                    assert(a.drop_first()[i - 1] == a[i]);
                    assert(b.drop_first()[i - 1] == b[i]);
                }
            }
            assert(a =~= b);
        }
    }
}

/// Looking up the key just inserted finds the new value.
pub proof fn lemma_insert_found(es: Seq<(Seq<u8>, FrameModel)>, k: Seq<u8>, v: FrameModel)
    ensures
        entries_lookup(map_insert(es, k, v), k) == Some(v),
    decreases es.len(),
{
    if es.len() == 0 {
    } else if lex_lt(k, es[0].0) {
        assert(map_insert(es, k, v)[0] == (k, v));
    } else if k == es[0].0 {
        assert(map_insert(es, k, v)[0] == (k, v));
    } else {
        lemma_insert_found(es.drop_first(), k, v);
        assert(map_insert(es, k, v)[0] == es[0]);
        assert(map_insert(es, k, v).drop_first() =~= map_insert(es.drop_first(), k, v));
    }
}

/// Looking up any other key is unchanged by an insertion.
pub proof fn lemma_insert_other(
    es: Seq<(Seq<u8>, FrameModel)>,
    k: Seq<u8>,
    v: FrameModel,
    k2: Seq<u8>,
)
    requires
        k2 != k,
    ensures
        entries_lookup(map_insert(es, k, v), k2) == entries_lookup(es, k2),
    decreases es.len(),
{
    if es.len() == 0 {
        assert(map_insert(es, k, v)[0] == (k, v));
        assert(map_insert(es, k, v).drop_first() =~= es);
    } else if lex_lt(k, es[0].0) {
        assert(map_insert(es, k, v)[0] == (k, v));
        assert(map_insert(es, k, v).drop_first() =~= es);
    } else if k == es[0].0 {
        assert(map_insert(es, k, v)[0] == (k, v));
        assert(map_insert(es, k, v).drop_first() =~= es.drop_first());
        assert(es[0].0 == k);
    } else {
        lemma_insert_other(es.drop_first(), k, v, k2);
        assert(map_insert(es, k, v)[0] == es[0]);
        assert(map_insert(es, k, v).drop_first() =~= map_insert(es.drop_first(), k, v));
    }
}

/// Insertion keeps the entries strictly ascending by key.
pub proof fn lemma_insert_sorted(es: Seq<(Seq<u8>, FrameModel)>, k: Seq<u8>, v: FrameModel)
    requires
        entries_sorted(es),
    ensures
        entries_sorted(map_insert(es, k, v)),
    decreases es.len(),
{
    let r = map_insert(es, k, v);
    if es.len() == 0 {
    } else if lex_lt(k, es[0].0) {
        assert forall|i: int| 0 <= i && i + 1 < r.len() implies lex_lt(
            #[trigger] r[i].0,
            r[i + 1].0,
        ) by {
            if i >= 1 {
                assert(r[i] == es[i - 1] && r[i + 1] == es[i]);
            }
        }
    } else if k == es[0].0 {
        assert forall|i: int| 0 <= i && i + 1 < r.len() implies lex_lt(
            #[trigger] r[i].0,
            r[i + 1].0,
        ) by {
            if i >= 1 {
                assert(r[i] == es[i] && r[i + 1] == es[i + 1]);
            } else {
                assert(r[0].0 == es[0].0 && r[1] == es[1]);
            }
        }
    } else {
        assert(forall|i: int|
            0 <= i && i + 1 < es.drop_first().len() ==> lex_lt(
                #[trigger] es.drop_first()[i].0,
                es.drop_first()[i + 1].0,
            ));
        lemma_insert_sorted(es.drop_first(), k, v);
        let rec = map_insert(es.drop_first(), k, v);
        lemma_lex_total(k, es[0].0);
        assert(lex_lt(es[0].0, k));
        assert(rec.len() >= 1);
        assert(lex_lt(es[0].0, rec[0].0)) by {
            if es.drop_first().len() == 0 {
                assert(rec[0] == (k, v));
            } else if lex_lt(k, es.drop_first()[0].0) {
                assert(rec[0] == (k, v));
            } else if k == es.drop_first()[0].0 {
                assert(rec[0] == (k, v));
            } else {
                assert(rec[0] == es.drop_first()[0]);
                assert(lex_lt(es[0].0, es[1].0));
            }
        }
        assert forall|i: int| 0 <= i && i + 1 < r.len() implies lex_lt(
            #[trigger] r[i].0,
            r[i + 1].0,
        ) by {
            if i == 0 {
                assert(r[0] == es[0] && r[1] == rec[0]);
            } else {
                assert(r[i] == rec[i - 1] && r[i + 1] == rec[i]);
            }
        }
    }
}

pub proof fn lemma_lex_asym(a: Seq<u8>, b: Seq<u8>)
    requires
        lex_lt(a, b),
    ensures
        !lex_lt(b, a),
        a != b,
    decreases a.len(),
{
    if a.len() > 0 && b.len() > 0 && a[0] == b[0] {
        lemma_lex_asym(a.drop_first(), b.drop_first());
        assert(a != b) by {
            if a == b {
                assert(a.drop_first() =~= b.drop_first());
            }
        }
    }
}

/// Dropping a common prefix does not change the lexicographic order.
pub proof fn lemma_lex_skip(a: Seq<u8>, b: Seq<u8>, i: int)
    requires
        0 <= i <= a.len(),
        i <= b.len(),
        forall|j: int| 0 <= j < i ==> a[j] == b[j],
    ensures
        lex_lt(a, b) == lex_lt(a.skip(i), b.skip(i)),
    decreases i,
{
    if i > 0 {
        assert(a[0] == b[0]);
        assert(a.drop_first().skip(i - 1) =~= a.skip(i));
        assert(b.drop_first().skip(i - 1) =~= b.skip(i));
        assert(forall|j: int| 0 <= j < i - 1 ==> a.drop_first()[j] == b.drop_first()[j]);
        lemma_lex_skip(a.drop_first(), b.drop_first(), i - 1);
    } else {
        assert(a.skip(0) =~= a);
        assert(b.skip(0) =~= b);
    }
}

/// Index of the end of the run of ASCII digits that starts at `i`.
pub open spec fn digit_run_end(s: Seq<u8>, i: int) -> int
    decreases s.len() - i when 0 <= i <= s.len()
{
    if i < s.len() && 48 <= s[i] <= 57 {
        digit_run_end(s, i + 1)
    } else {
        i
    }
}

/// The text form of a RESP double: an optional sign, an integral digit run,
/// an optional fraction, and an optional exponent.
pub open spec fn is_double_text(s: Seq<u8>) -> bool {
    let n = s.len() as int;
    let i0: int = if n > 0 && (s[0] == 43 || s[0] == 45) {
        1
    } else {
        0
    };
    let i1 = digit_run_end(s, i0);
    if i1 == i0 {
        false
    } else if i1 < n && s[i1] == 46 {
        let i2 = digit_run_end(s, i1 + 1);
        if i2 == i1 + 1 {
            false
        } else {
            double_exp_ok(s, i2)
        }
    } else {
        double_exp_ok(s, i1)
    }
}

/// After the mantissa ends at `i`, either the text ends or an exponent
/// (`e` or `E`, an optional sign, then digits) runs to the end.
pub open spec fn double_exp_ok(s: Seq<u8>, i: int) -> bool {
    let n = s.len() as int;
    if i == n {
        true
    } else if s[i] == 101 || s[i] == 69 {
        let j: int = if i + 1 < n && (s[i + 1] == 43 || s[i + 1] == 45) {
            i + 2
        } else {
            i + 1
        };
        let k = digit_run_end(s, j);
        j <= n && k > j && k == n
    } else {
        false
    }
}

/// A well-formed frame: one whose encoding decodes back to itself.
/// Simple payloads must not contain CRLF, doubles must match the double
/// grammar, integers must fit `i64`, counts must fit `usize`, and map keys
/// must be strictly ascending.
pub open spec fn wf_model(m: FrameModel) -> bool
    decreases m,
{
    match m {
        FrameModel::Simple(s) => !has_crlf(s),
        FrameModel::Error(s) => !has_crlf(s),
        FrameModel::Int(n) => i64::MIN <= n <= i64::MAX,
        FrameModel::Bulk(s) => s.len() <= usize::MAX,
        FrameModel::NullBulk => true,
        FrameModel::Arr(es) => es.len() <= usize::MAX && (forall|i: int|
            0 <= i < es.len() ==> wf_model(#[trigger] es[i])),
        FrameModel::NullArr => true,
        FrameModel::Null => true,
        FrameModel::Bool(_) => true,
        FrameModel::Dbl(s) => is_double_text(s),
        FrameModel::Dict(es) => {
            &&& es.len() <= usize::MAX
            &&& forall|i: int| 0 <= i < es.len() ==> !has_crlf((#[trigger] es[i]).0)
            &&& forall|i: int| 0 <= i < es.len() ==> wf_model((#[trigger] es[i]).1)
            &&& forall|i: int|
                0 <= i && i + 1 < es.len() ==> lex_lt(#[trigger] es[i].0, es[i + 1].0)
        },
        FrameModel::SetOf(es) => es.len() <= usize::MAX && (forall|i: int|
            0 <= i < es.len() ==> wf_model(#[trigger] es[i])),
    }
}

/// Errors of the codec. `NotComplete` asks the caller for more bytes;
/// every other variant is fatal for the connection.
#[derive(Debug, PartialEq, Eq)]
pub enum RespError {
    InvalidFrame(String),
    InvalidFrameType(String),
    InvalidFrameLength(isize),
    NotComplete,
    ParseIntError,
    Utf8Error,
    ParseFloatError,
}

/// The kind of a fatal decode error, with diagnostic payloads stripped.
pub enum ErrKind {
    BadType,
    BadFrame,
    BadLen,
    BadInt,
    BadFloat,
}

pub open spec fn err_is(e: RespError, k: ErrKind) -> bool {
    match k {
        ErrKind::BadType => e is InvalidFrameType,
        ErrKind::BadFrame => e is InvalidFrame,
        ErrKind::BadLen => e is InvalidFrameLength,
        ErrKind::BadInt => e is ParseIntError,
        ErrKind::BadFloat => e is ParseFloatError,
    }
}

/// Outcome of decoding one value from the front of a byte sequence.
pub enum Step<T> {
    Done { v: T, used: int },
    More,
    Fail { k: ErrKind },
}

/// Outcome of measuring one frame at the front of a byte sequence.
pub enum LenStep {
    Len { n: int },
    More,
    Fail { k: ErrKind },
}

#[derive(Debug, PartialEq, Eq)]
pub struct SimpleString(pub Vec<u8>);

#[derive(Debug, PartialEq, Eq)]
pub struct SimpleError(pub Vec<u8>);

#[derive(Debug, PartialEq, Eq)]
pub struct BulkString(pub Vec<u8>);

#[derive(Debug, PartialEq, Eq)]
pub struct RespNull;

#[derive(Debug, PartialEq)]
pub struct RespArray(pub Vec<RespFrame>);

#[derive(Debug, PartialEq, Eq)]
pub struct RespNullArray;

#[derive(Debug, PartialEq, Eq)]
pub struct RespNullBulkString;

/// A RESP double, kept as its canonical wire text.
#[derive(Debug, PartialEq, Eq)]
pub struct Double(pub Vec<u8>);

#[derive(Debug, PartialEq)]
pub struct RespMap(pub Vec<(SimpleString, RespFrame)>);

#[derive(Debug, PartialEq)]
pub struct RespSet(pub Vec<RespFrame>);

/// One RESP frame. The map and set variants are named `Dict` and `SetOf`
/// so that no item shares a name with the specification library's types.
#[derive(Debug, PartialEq)]
pub enum RespFrame {
    SimpleString(SimpleString),
    Error(SimpleError),
    Integer(i64),
    BulkString(BulkString),
    NullBulkString(RespNullBulkString),
    Array(RespArray),
    NullArray(RespNullArray),
    Null(RespNull),
    Boolean(bool),
    Double(Double),
    Dict(RespMap),
    SetOf(RespSet),
}

pub open spec fn frames_model(s: Seq<RespFrame>) -> Seq<FrameModel>
    decreases s,
{
    if s.len() == 0 {
        Seq::empty()
    } else {
        frames_model(s.drop_last()).push(frame_model(s.last()))
    }
}

pub open spec fn entries_model(s: Seq<(SimpleString, RespFrame)>) -> Seq<(Seq<u8>, FrameModel)>
    decreases s,
{
    if s.len() == 0 {
        Seq::empty()
    } else {
        entries_model(s.drop_last()).push((s.last().0@, frame_model(s.last().1)))
    }
}

pub open spec fn frame_model(f: RespFrame) -> FrameModel
    decreases f,
{
    match f {
        RespFrame::SimpleString(s) => FrameModel::Simple(s.0@),
        RespFrame::Error(s) => FrameModel::Error(s.0@),
        RespFrame::Integer(n) => FrameModel::Int(n as int),
        RespFrame::BulkString(s) => FrameModel::Bulk(s.0@),
        RespFrame::NullBulkString(_) => FrameModel::NullBulk,
        RespFrame::Array(a) => FrameModel::Arr(frames_model(a.0@)),
        RespFrame::NullArray(_) => FrameModel::NullArr,
        RespFrame::Null(_) => FrameModel::Null,
        RespFrame::Boolean(b) => FrameModel::Bool(b),
        RespFrame::Double(d) => FrameModel::Dbl(d.0@),
        RespFrame::Dict(m) => FrameModel::Dict(entries_model(m.0@)),
        RespFrame::SetOf(s) => FrameModel::SetOf(frames_model(s.0@)),
    }
}

impl View for SimpleString {
    type V = Seq<u8>;

    open spec fn view(&self) -> Seq<u8> {
        self.0@
    }
}

impl View for SimpleError {
    type V = Seq<u8>;

    open spec fn view(&self) -> Seq<u8> {
        self.0@
    }
}

impl View for BulkString {
    type V = Seq<u8>;

    open spec fn view(&self) -> Seq<u8> {
        self.0@
    }
}

impl View for Double {
    type V = Seq<u8>;

    open spec fn view(&self) -> Seq<u8> {
        self.0@
    }
}

impl View for RespNull {
    type V = ();

    open spec fn view(&self) -> () {
        ()
    }
}

impl View for RespNullArray {
    type V = ();

    open spec fn view(&self) -> () {
        ()
    }
}

impl View for RespNullBulkString {
    type V = ();

    open spec fn view(&self) -> () {
        ()
    }
}

impl View for RespArray {
    type V = Seq<FrameModel>;

    open spec fn view(&self) -> Seq<FrameModel> {
        frames_model(self.0@)
    }
}

impl View for RespSet {
    type V = Seq<FrameModel>;

    open spec fn view(&self) -> Seq<FrameModel> {
        frames_model(self.0@)
    }
}

impl View for RespMap {
    type V = Seq<(Seq<u8>, FrameModel)>;

    open spec fn view(&self) -> Seq<(Seq<u8>, FrameModel)> {
        entries_model(self.0@)
    }
}

impl View for RespFrame {
    type V = FrameModel;

    open spec fn view(&self) -> FrameModel {
        frame_model(*self)
    }
}

impl SimpleString {
    pub fn new(s: &str) -> (r: SimpleString)
        ensures
            r@ == s.spec_bytes(),
    {
        SimpleString(s.as_bytes_vec())
    }
}

impl SimpleError {
    pub fn new(s: &str) -> (r: SimpleError)
        ensures
            r@ == s.spec_bytes(),
    {
        SimpleError(s.as_bytes_vec())
    }
}

impl BulkString {
    pub fn new(s: &[u8]) -> (r: BulkString)
        ensures
            r@ == s@,
    {
        BulkString(vstd::slice::slice_to_vec(s))
    }
}

impl Double {
    pub fn new(s: &str) -> (r: Double)
        ensures
            r@ == s.spec_bytes(),
    {
        Double(s.as_bytes_vec())
    }
}

impl RespArray {
    pub fn new(s: Vec<RespFrame>) -> (r: RespArray)
        ensures
            r@ == frames_model(s@),
    {
        RespArray(s)
    }
}

impl RespSet {
    pub fn new(s: Vec<RespFrame>) -> (r: RespSet)
        ensures
            r@ == frames_model(s@),
    {
        RespSet(s)
    }
}

pub proof fn lemma_frames_model_push(s: Seq<RespFrame>, x: RespFrame)
    ensures
        frames_model(s.push(x)) == frames_model(s).push(frame_model(x)),
{
    assert(s.push(x).drop_last() =~= s);
    assert(s.push(x).last() == x);
}

pub proof fn lemma_entries_model_push(
    s: Seq<(SimpleString, RespFrame)>,
    x: (SimpleString, RespFrame),
)
    ensures
        entries_model(s.push(x)) == entries_model(s).push((x.0@, frame_model(x.1))),
{
    assert(s.push(x).drop_last() =~= s);
    assert(s.push(x).last() == x);
}

/// The model of a front part of the entry vector is the front part of the
/// model.
pub proof fn lemma_entries_model_take(s: Seq<(SimpleString, RespFrame)>, i: int)
    requires
        0 <= i <= s.len(),
    ensures
        entries_model(s.take(i)) == entries_model(s).take(i),
{
    lemma_entries_model(s);
    lemma_entries_model(s.take(i));
    assert forall|j: int| 0 <= j < i implies entries_model(s.take(i))[j] == entries_model(s).take(
        i,
    )[j] by {
        assert(s.take(i)[j] == s[j]);
        assert(entries_model(s).take(i)[j] == entries_model(s)[j]);
    }
    assert(entries_model(s.take(i)) =~= entries_model(s).take(i));
}

pub proof fn lemma_entries_model_skip(s: Seq<(SimpleString, RespFrame)>, i: int)
    requires
        0 <= i <= s.len(),
    ensures
        entries_model(s.skip(i)) == entries_model(s).skip(i),
{
    lemma_entries_model(s);
    lemma_entries_model(s.skip(i));
    assert forall|j: int| 0 <= j < s.len() - i implies entries_model(s.skip(i))[j] == entries_model(
        s,
    ).skip(i)[j] by {
        assert(s.skip(i)[j] == s[j + i]);
        assert(entries_model(s).skip(i)[j] == entries_model(s)[j + i]);
    }
    assert(entries_model(s.skip(i)) =~= entries_model(s).skip(i));
}

impl Default for RespMap {
    fn default() -> (r: RespMap)
        ensures
            r@ == Seq::<(Seq<u8>, FrameModel)>::empty(),
    {
        RespMap::new()
    }
}

impl RespMap {
    pub fn new() -> (r: RespMap)
        ensures
            r@ == Seq::<(Seq<u8>, FrameModel)>::empty(),
    {
        RespMap(Vec::new())
    }

    /// Inserts `key → value`, keeping entries sorted ascending by key and
    /// replacing the value of a key already present.
    pub fn insert(&mut self, key: SimpleString, value: RespFrame)
        ensures
            entries_model(final(self).0@) == map_insert(
                entries_model(old(self).0@),
                key.0@,
                frame_model(value),
            ),
    {
        let ghost es = entries_model(old(self).0@);
        let ghost kb = key.0@;
        let ghost vm = frame_model(value);
        let n = self.0.len();
        let mut i: usize = 0;
        proof {
            lemma_entries_model(self.0@);
            assert(es.take(0) =~= Seq::<(Seq<u8>, FrameModel)>::empty());
            assert(es.skip(0) =~= es);
            assert(es.take(0) + map_insert(es.skip(0), kb, vm) =~= map_insert(es, kb, vm));
        }
        while i < n
            invariant
                self.0@ == old(self).0@,
                n == self.0@.len(),
                es == entries_model(self.0@),
                es.len() == n,
                forall|j: int|
                    0 <= j < n ==> es[j] == ((#[trigger] self.0@[j]).0@, frame_model(self.0@[j].1)),
                0 <= i <= n,
                kb == key.0@,
                vm == frame_model(value),
                map_insert(es, kb, vm) == es.take(i as int) + map_insert(es.skip(i as int), kb, vm),
            decreases n - i,
        {
            let c = lex_cmp(key.0.as_slice(), self.0[i].0.0.as_slice());
            proof {
                assert(es.skip(i as int)[0] == es[i as int]);
            }
            if c < 0 {
                let ghost pre = self.0@;
                self.0.insert(i, (key, value));
                proof {
                    assert(lex_lt(kb, es[i as int].0));
                    assert(map_insert(es.skip(i as int), kb, vm) == seq![(kb, vm)] + es.skip(
                        i as int,
                    ));
                    lemma_entries_model_insert(pre, i as int, (key, value));
                    assert(entries_model(self.0@) =~= es.take(i as int) + (seq![(kb, vm)] + es.skip(
                        i as int,
                    )));
                    assert(entries_model(self.0@) == map_insert(es, kb, vm));
                }
                return ;
            } else if c == 0 {
                let ghost pre = self.0@;
                let _ = self.0.remove(i);
                self.0.insert(i, (key, value));
                proof {
                    assert(kb == es[i as int].0);
                    assert(map_insert(es.skip(i as int), kb, vm) == seq![(kb, vm)] + es.skip(
                        i as int,
                    ).drop_first());
                    lemma_entries_model_remove(pre, i as int);
                    lemma_entries_model_insert(pre.remove(i as int), i as int, (key, value));
                    assert(entries_model(self.0@) == es.remove(i as int).insert(
                        i as int,
                        (kb, vm),
                    ));
                    assert(es.remove(i as int).insert(i as int, (kb, vm)) =~= es.take(i as int) + (
                    seq![(kb, vm)] + es.skip(i as int).drop_first()));
                    assert(entries_model(self.0@) == map_insert(es, kb, vm));
                }
                return ;
            } else {
                proof {
                    let tail = es.skip(i as int);
                    assert(lex_lt(es[i as int].0, kb));
                    lemma_lex_asym(es[i as int].0, kb);
                    assert(map_insert(tail, kb, vm) == seq![tail[0]] + map_insert(
                        tail.drop_first(),
                        kb,
                        vm,
                    ));
                    assert(tail.drop_first() =~= es.skip(i + 1));
                    assert(es.take(i as int) + (seq![tail[0]] + map_insert(es.skip(i + 1), kb, vm))
                        =~= es.take(i + 1) + map_insert(es.skip(i + 1), kb, vm));
                }
                i = i + 1;
            }
        }
        let ghost pre = self.0@;
        self.0.push((key, value));
        proof {
            assert(es.skip(n as int) =~= Seq::<(Seq<u8>, FrameModel)>::empty());
            lemma_entries_model_push(pre, (key, value));
            assert(es.take(n as int) =~= es);
            assert(entries_model(self.0@) =~= es.take(n as int) + map_insert(
                es.skip(n as int),
                kb,
                vm,
            ));
        }
    }
}

impl RespMap {
    /// The value stored under `key`, if any.
    pub fn get(&self, key: &[u8]) -> (r: Option<&RespFrame>)
        ensures
            match r {
                Some(f) => entries_lookup(self@, key@) == Some(frame_model(*f)),
                None => entries_lookup(self@, key@) is None,
            },
    {
        let ghost es = entries_model(self.0@);
        let n = self.0.len();
        let mut i: usize = 0;
        proof {
            lemma_entries_model(self.0@);
            assert(es.skip(0) =~= es);
        }
        while i < n
            invariant
                n == self.0@.len(),
                0 <= i <= n,
                es == entries_model(self.0@),
                es.len() == n,
                forall|j: int|
                    0 <= j < n ==> es[j] == ((#[trigger] self.0@[j]).0@, frame_model(self.0@[j].1)),
                entries_lookup(es, key@) == entries_lookup(es.skip(i as int), key@),
            decreases n - i,
        {
            let c = lex_cmp(key, self.0[i].0.0.as_slice());
            proof {
                assert(es.skip(i as int)[0] == es[i as int]);
            }
            if c == 0 {
                return Some(&self.0[i].1);
            }
            proof {
                assert(es.skip(i as int).drop_first() =~= es.skip(i + 1));
            }
            i = i + 1;
        }
        proof {
            assert(es.skip(n as int) =~= Seq::<(Seq<u8>, FrameModel)>::empty());
        }
        None
    }
}

pub proof fn lemma_entries_model_concat(
    s1: Seq<(SimpleString, RespFrame)>,
    s2: Seq<(SimpleString, RespFrame)>,
)
    ensures
        entries_model(s1 + s2) == entries_model(s1) + entries_model(s2),
    decreases s2.len(),
{
    if s2.len() == 0 {
        assert(s1 + s2 =~= s1);
        assert(entries_model(s1) + entries_model(s2) =~= entries_model(s1));
    } else {
        assert(s1 + s2 =~= (s1 + s2.drop_last()).push(s2.last()));
        lemma_entries_model_concat(s1, s2.drop_last());
        lemma_entries_model_push(s1 + s2.drop_last(), s2.last());
        assert(entries_model(s2) == entries_model(s2.drop_last()).push((
            s2.last().0@,
            frame_model(s2.last().1),
        )));
        assert((entries_model(s1) + entries_model(s2.drop_last())).push((
            s2.last().0@,
            frame_model(s2.last().1),
        )) =~= entries_model(s1) + entries_model(s2));
    }
}

/// Inserting one pair into the entry vector inserts its model at the same
/// position.
pub proof fn lemma_entries_model_insert(
    s: Seq<(SimpleString, RespFrame)>,
    i: int,
    x: (SimpleString, RespFrame),
)
    requires
        0 <= i <= s.len(),
    ensures
        entries_model(s.insert(i, x)) == entries_model(s).insert(i, (x.0@, frame_model(x.1))),
{
    assert(s.insert(i, x) =~= (s.take(i) + seq![x]) + s.skip(i));
    lemma_entries_model_concat(s.take(i) + seq![x], s.skip(i));
    lemma_entries_model_concat(s.take(i), seq![x]);
    assert(seq![x].drop_last() =~= Seq::<(SimpleString, RespFrame)>::empty());
    assert(entries_model(seq![x]) == entries_model(Seq::<(SimpleString, RespFrame)>::empty()).push(
        (x.0@, frame_model(x.1)),
    ));
    lemma_entries_model_take(s, i);
    lemma_entries_model_skip(s, i);
    lemma_entries_model(s);
    assert(((entries_model(s).take(i) + (Seq::<(Seq<u8>, FrameModel)>::empty().push((
        x.0@,
        frame_model(x.1),
    )))) + entries_model(s).skip(i)) =~= entries_model(s).insert(i, (x.0@, frame_model(x.1))));
}

/// Removing one pair from the entry vector removes its model at the same
/// position.
pub proof fn lemma_entries_model_remove(s: Seq<(SimpleString, RespFrame)>, i: int)
    requires
        0 <= i < s.len(),
    ensures
        entries_model(s.remove(i)) == entries_model(s).remove(i),
{
    assert(s.remove(i) =~= s.take(i) + s.skip(i + 1));
    lemma_entries_model_concat(s.take(i), s.skip(i + 1));
    lemma_entries_model_take(s, i);
    lemma_entries_model_skip(s, i + 1);
    assert(entries_model(s).take(i) + entries_model(s).skip(i + 1) =~= entries_model(s).remove(i));
}


/// A deep copy of a frame, with the same model.
pub fn clone_frame(f: &RespFrame) -> (r: RespFrame)
    ensures
        frame_model(r) == frame_model(*f),
    decreases *f,
{
    match f {
        RespFrame::SimpleString(s) => RespFrame::SimpleString(
            SimpleString(vstd::slice::slice_to_vec(s.0.as_slice())),
        ),
        RespFrame::Error(s) => RespFrame::Error(
            SimpleError(vstd::slice::slice_to_vec(s.0.as_slice())),
        ),
        RespFrame::Integer(n) => RespFrame::Integer(*n),
        RespFrame::BulkString(s) => RespFrame::BulkString(
            BulkString(vstd::slice::slice_to_vec(s.0.as_slice())),
        ),
        RespFrame::NullBulkString(_) => RespFrame::NullBulkString(RespNullBulkString),
        RespFrame::NullArray(_) => RespFrame::NullArray(RespNullArray),
        RespFrame::Null(_) => RespFrame::Null(RespNull),
        RespFrame::Boolean(b) => RespFrame::Boolean(*b),
        RespFrame::Double(d) => RespFrame::Double(Double(vstd::slice::slice_to_vec(d.0.as_slice()))),
        RespFrame::Array(a) => RespFrame::Array(RespArray(clone_frames(&a.0))),
        RespFrame::SetOf(s) => RespFrame::SetOf(RespSet(clone_frames(&s.0))),
        RespFrame::Dict(m) => {
            let mut out: Vec<(SimpleString, RespFrame)> = Vec::new();
            let n = m.0.len();
            let mut i: usize = 0;
            proof {
                lemma_entries_model(m.0@);
                assert(entries_model(out@) =~= entries_model(m.0@).take(0));
            }
            while i < n
                invariant
                    *f == RespFrame::Dict(*m),
                    n == m.0@.len(),
                    0 <= i <= n,
                    entries_model(m.0@).len() == n,
                    forall|j: int|
                        0 <= j < n ==> entries_model(m.0@)[j] == ((#[trigger] m.0@[j]).0@,
                        frame_model(m.0@[j].1)),
                    entries_model(out@) == entries_model(m.0@).take(i as int),
                decreases n - i,
            {
                let pair = &m.0[i];
                let k = SimpleString(vstd::slice::slice_to_vec(pair.0.0.as_slice()));
                proof {
                    assert(decreases_to!(*f => f->Dict_0));
                    assert(decreases_to!(*m => m.0));
                    assert(decreases_to!(m.0 => m.0@));
                    assert(decreases_to!(m.0@ => m.0@[i as int]));
                    assert(decreases_to!(m.0@[i as int] => m.0@[i as int].1));
                }
                let v = clone_frame(&pair.1);
                let ghost pre = out@;
                out.push((k, v));
                proof {
                    lemma_entries_model_push(pre, (k, v));
                    assert(entries_model(m.0@).take(i + 1) =~= entries_model(m.0@).take(
                        i as int,
                    ).push(entries_model(m.0@)[i as int]));
                }
                i = i + 1;
            }
            proof {
                assert(entries_model(m.0@).take(n as int) =~= entries_model(m.0@));
            }
            RespFrame::Dict(RespMap(out))
        },
    }
}

/// A deep copy of a frame vector, with the same models.
pub fn clone_frames(v: &Vec<RespFrame>) -> (r: Vec<RespFrame>)
    ensures
        frames_model(r@) == frames_model(v@),
    decreases *v,
{
    let mut out: Vec<RespFrame> = Vec::new();
    let n = v.len();
    let mut i: usize = 0;
    proof {
        lemma_frames_model(v@);
        assert(frames_model(out@) =~= frames_model(v@).take(0));
    }
    while i < n
        invariant
            n == v@.len(),
            0 <= i <= n,
            frames_model(v@).len() == n,
            forall|j: int| 0 <= j < n ==> frames_model(v@)[j] == frame_model(#[trigger] v@[j]),
            frames_model(out@) == frames_model(v@).take(i as int),
        decreases n - i,
    {
        proof {
            assert(decreases_to!(*v => v@));
            assert(decreases_to!(v@ => v@[i as int]));
        }
        let c = clone_frame(&v[i]);
        let ghost pre = out@;
        out.push(c);
        proof {
            lemma_frames_model_push(pre, c);
            assert(frames_model(v@).take(i + 1) =~= frames_model(v@).take(i as int).push(
                frames_model(v@)[i as int],
            ));
        }
        i = i + 1;
    }
    proof {
        assert(frames_model(v@).take(n as int) =~= frames_model(v@));
    }
    out
}

impl Clone for RespFrame {
    fn clone(&self) -> (r: Self)
        ensures
            r@ == self@,
    {
        clone_frame(self)
    }
}

impl Clone for SimpleString {
    fn clone(&self) -> (r: Self)
        ensures
            r@ == self@,
    {
        SimpleString(vstd::slice::slice_to_vec(self.0.as_slice()))
    }
}

impl Clone for SimpleError {
    fn clone(&self) -> (r: Self)
        ensures
            r@ == self@,
    {
        SimpleError(vstd::slice::slice_to_vec(self.0.as_slice()))
    }
}

impl Clone for BulkString {
    fn clone(&self) -> (r: Self)
        ensures
            r@ == self@,
    {
        BulkString(vstd::slice::slice_to_vec(self.0.as_slice()))
    }
}

impl Clone for Double {
    fn clone(&self) -> (r: Self)
        ensures
            r@ == self@,
    {
        Double(vstd::slice::slice_to_vec(self.0.as_slice()))
    }
}

impl From<SimpleString> for RespFrame {
    fn from(v: SimpleString) -> (r: RespFrame) {
        RespFrame::SimpleString(v)
    }
}

impl vstd::std_specs::convert::FromSpecImpl<SimpleString> for RespFrame {
    open spec fn obeys_from_spec() -> bool {
        true
    }

    open spec fn from_spec(v: SimpleString) -> RespFrame {
        RespFrame::SimpleString(v)
    }
}

impl From<SimpleError> for RespFrame {
    fn from(v: SimpleError) -> (r: RespFrame) {
        RespFrame::Error(v)
    }
}

impl vstd::std_specs::convert::FromSpecImpl<SimpleError> for RespFrame {
    open spec fn obeys_from_spec() -> bool {
        true
    }

    open spec fn from_spec(v: SimpleError) -> RespFrame {
        RespFrame::Error(v)
    }
}

impl From<BulkString> for RespFrame {
    fn from(v: BulkString) -> (r: RespFrame) {
        RespFrame::BulkString(v)
    }
}

impl vstd::std_specs::convert::FromSpecImpl<BulkString> for RespFrame {
    open spec fn obeys_from_spec() -> bool {
        true
    }

    open spec fn from_spec(v: BulkString) -> RespFrame {
        RespFrame::BulkString(v)
    }
}

impl From<i64> for RespFrame {
    fn from(v: i64) -> (r: RespFrame) {
        RespFrame::Integer(v)
    }
}

impl vstd::std_specs::convert::FromSpecImpl<i64> for RespFrame {
    open spec fn obeys_from_spec() -> bool {
        true
    }

    open spec fn from_spec(v: i64) -> RespFrame {
        RespFrame::Integer(v)
    }
}

impl From<RespArray> for RespFrame {
    fn from(v: RespArray) -> (r: RespFrame) {
        RespFrame::Array(v)
    }
}

impl vstd::std_specs::convert::FromSpecImpl<RespArray> for RespFrame {
    open spec fn obeys_from_spec() -> bool {
        true
    }

    open spec fn from_spec(v: RespArray) -> RespFrame {
        RespFrame::Array(v)
    }
}

impl From<RespMap> for RespFrame {
    fn from(v: RespMap) -> (r: RespFrame) {
        RespFrame::Dict(v)
    }
}

impl vstd::std_specs::convert::FromSpecImpl<RespMap> for RespFrame {
    open spec fn obeys_from_spec() -> bool {
        true
    }

    open spec fn from_spec(v: RespMap) -> RespFrame {
        RespFrame::Dict(v)
    }
}

impl From<RespSet> for RespFrame {
    fn from(v: RespSet) -> (r: RespFrame) {
        RespFrame::SetOf(v)
    }
}

impl vstd::std_specs::convert::FromSpecImpl<RespSet> for RespFrame {
    open spec fn obeys_from_spec() -> bool {
        true
    }

    open spec fn from_spec(v: RespSet) -> RespFrame {
        RespFrame::SetOf(v)
    }
}

impl From<&str> for SimpleString {
    fn from(s: &str) -> (r: SimpleString) {
        SimpleString::new(s)
    }
}

impl vstd::std_specs::convert::FromSpecImpl<&str> for SimpleString {
    open spec fn obeys_from_spec() -> bool {
        false
    }

    open spec fn from_spec(v: &str) -> SimpleString {
        arbitrary()
    }
}

impl vstd::std_specs::convert::FromSpecImpl<&str> for SimpleError {
    open spec fn obeys_from_spec() -> bool {
        false
    }

    open spec fn from_spec(v: &str) -> SimpleError {
        arbitrary()
    }
}

impl vstd::std_specs::convert::FromSpecImpl<&str> for BulkString {
    open spec fn obeys_from_spec() -> bool {
        false
    }

    open spec fn from_spec(v: &str) -> BulkString {
        arbitrary()
    }
}

impl vstd::std_specs::convert::FromSpecImpl<&str> for RespFrame {
    open spec fn obeys_from_spec() -> bool {
        false
    }

    open spec fn from_spec(v: &str) -> RespFrame {
        arbitrary()
    }
}

impl vstd::std_specs::convert::FromSpecImpl<&[u8]> for BulkString {
    open spec fn obeys_from_spec() -> bool {
        false
    }

    open spec fn from_spec(v: &[u8]) -> BulkString {
        arbitrary()
    }
}

impl vstd::std_specs::convert::FromSpecImpl<&[u8]> for RespFrame {
    open spec fn obeys_from_spec() -> bool {
        false
    }

    open spec fn from_spec(v: &[u8]) -> RespFrame {
        arbitrary()
    }
}

impl<const N: usize> From<&[u8; N]> for BulkString {
    fn from(s: &[u8; N]) -> (r: BulkString) {
        BulkString(vstd::slice::slice_to_vec(s.as_slice()))
    }
}

impl<const N: usize> vstd::std_specs::convert::FromSpecImpl<&[u8; N]> for BulkString {
    open spec fn obeys_from_spec() -> bool {
        false
    }

    open spec fn from_spec(v: &[u8; N]) -> BulkString {
        arbitrary()
    }
}

impl<const N: usize> From<&[u8; N]> for RespFrame {
    fn from(s: &[u8; N]) -> (r: RespFrame) {
        RespFrame::BulkString(BulkString(vstd::slice::slice_to_vec(s.as_slice())))
    }
}

impl<const N: usize> vstd::std_specs::convert::FromSpecImpl<&[u8; N]> for RespFrame {
    open spec fn obeys_from_spec() -> bool {
        false
    }

    open spec fn from_spec(v: &[u8; N]) -> RespFrame {
        arbitrary()
    }
}

impl From<&str> for SimpleError {
    fn from(s: &str) -> (r: SimpleError) {
        SimpleError::new(s)
    }
}

impl From<&str> for BulkString {
    fn from(s: &str) -> (r: BulkString) {
        BulkString(s.as_bytes_vec())
    }
}

impl From<&str> for RespFrame {
    fn from(s: &str) -> (r: RespFrame) {
        RespFrame::SimpleString(SimpleString::new(s))
    }
}

impl From<&[u8]> for BulkString {
    fn from(s: &[u8]) -> (r: BulkString) {
        BulkString::new(s)
    }
}

impl From<&[u8]> for RespFrame {
    fn from(s: &[u8]) -> (r: RespFrame) {
        RespFrame::BulkString(BulkString::new(s))
    }
}

/// A frame serializes itself to its wire bytes.
pub trait RespEncode: Sized {
    /// The wire bytes this value encodes to.
    spec fn enc_bytes(&self) -> Seq<u8>;

    fn encode(self) -> (r: Vec<u8>)
        ensures
            r@ == self.enc_bytes(),
    ;
}

/// Three-way lexicographic comparison of byte slices: negative when
/// `a` sorts before `b`, zero when equal, positive when after.
pub fn lex_cmp(a: &[u8], b: &[u8]) -> (r: i32)
    ensures
        (r < 0) <==> lex_lt(a@, b@),
        (r == 0) <==> a@ == b@,
        (r > 0) <==> lex_lt(b@, a@),
{
    let mut i: usize = 0;
    loop
        invariant
            i <= a@.len(),
            i <= b@.len(),
            forall|j: int| 0 <= j < i ==> a@[j] == b@[j],
        decreases a@.len() - i,
    {
        if i < a.len() && i < b.len() {
            let x = a[i];
            let y = b[i];
            if x < y {
                proof {
                    lemma_lex_skip(a@, b@, i as int);
                    lemma_lex_skip(b@, a@, i as int);
                    assert(a@[i as int] != b@[i as int]);
                }
                return -1;
            }
            if x > y {
                proof {
                    lemma_lex_skip(a@, b@, i as int);
                    lemma_lex_skip(b@, a@, i as int);
                    assert(a@[i as int] != b@[i as int]);
                }
                return 1;
            }
            i = i + 1;
        } else if i < b.len() {
            proof {
                lemma_lex_skip(a@, b@, i as int);
                lemma_lex_skip(b@, a@, i as int);
                assert(a@.skip(i as int) =~= Seq::<u8>::empty());
                assert(a@.len() != b@.len());
            }
            return -1;
        } else if i < a.len() {
            proof {
                lemma_lex_skip(a@, b@, i as int);
                lemma_lex_skip(b@, a@, i as int);
                assert(b@.skip(i as int) =~= Seq::<u8>::empty());
                assert(a@.len() != b@.len());
            }
            return 1;
        } else {
            proof {
                assert(a@ =~= b@);
                lemma_lex_skip(a@, b@, i as int);
            }
            return 0;
        }
    }
}

pub proof fn lemma_frames_model(s: Seq<RespFrame>)
    ensures
        frames_model(s).len() == s.len(),
        forall|i: int| 0 <= i < s.len() ==> frames_model(s)[i] == frame_model(#[trigger] s[i]),
    decreases s.len(),
{
    if s.len() > 0 {
        lemma_frames_model(s.drop_last());
        assert forall|i: int| 0 <= i < s.len() implies frames_model(s)[i] == frame_model(
            #[trigger] s[i],
        ) by {
            if i < s.len() - 1 {
                assert(s.drop_last()[i] == s[i]);
                assert(frames_model(s)[i] == frames_model(s.drop_last())[i]);
            } else {
                assert(frames_model(s)[i] == frame_model(s.last()));
            }
        }
    }
}

pub proof fn lemma_entries_model(s: Seq<(SimpleString, RespFrame)>)
    ensures
        entries_model(s).len() == s.len(),
        forall|i: int|
            0 <= i < s.len() ==> entries_model(s)[i] == ((#[trigger] s[i]).0@, frame_model(s[i].1)),
    decreases s.len(),
{
    if s.len() > 0 {
        lemma_entries_model(s.drop_last());
        assert forall|i: int| 0 <= i < s.len() implies entries_model(s)[i] == ((#[trigger] s[i]).0@,
        frame_model(s[i].1)) by {
            if i < s.len() - 1 {
                assert(s.drop_last()[i] == s[i]);
                assert(entries_model(s)[i] == entries_model(s.drop_last())[i]);
            } else {
                assert(entries_model(s)[i] == (s.last().0@, frame_model(s.last().1)));
            }
        }
    }
}

pub open spec fn elen_ensures(lm: LenStep, r: Result<usize, RespError>) -> bool {
    match r {
        Ok(n) => lm == (LenStep::Len { n: n as int }),
        Err(e) => if e is NotComplete {
            lm is More || (lm matches LenStep::Len { n } && n > usize::MAX)
        } else {
            lm matches LenStep::Fail { k } && err_is(e, k)
        },
    }
}

/// A value decodes itself from the front of a byte buffer, consuming
/// exactly the bytes of one frame on success and leaving the buffer
/// untouched when more bytes are needed.
pub trait RespDecode: Sized + View {
    /// What decoding finds at the front of `s`.
    spec fn dec_model(s: Seq<u8>) -> Step<Self::V>;

    /// How many bytes one value at the front of `s` spans.
    spec fn len_model(s: Seq<u8>) -> LenStep;

    fn decode(buf: &mut BytesMut) -> (r: Result<Self, RespError>)
        ensures
            match r {
                Ok(v) => Self::dec_model(buf_bytes(*old(buf))) matches Step::Done { v: m, used }
                    && m == v@ && 0 <= used <= buf_bytes(*old(buf)).len() && buf_bytes(
                    *final(buf),
                ) == buf_bytes(*old(buf)).skip(used),
                Err(e) => if e is NotComplete {
                    Self::dec_model(buf_bytes(*old(buf))) is More && buf_bytes(*final(buf))
                        == buf_bytes(*old(buf))
                } else {
                    Self::dec_model(buf_bytes(*old(buf))) matches Step::Fail { k } && err_is(e, k)
                },
            },
    ;

    fn expect_length(buf: &[u8]) -> (r: Result<usize, RespError>)
        ensures
            elen_ensures(Self::len_model(buf@), r),
    ;
}

} // verus!
