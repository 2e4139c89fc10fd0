//! The wire form of each frame variant, as spec functions, and the
//! verified encoder.
use vstd::prelude::*;

use crate::resp::digits::dec_digits;
use crate::resp::digits::format_u64;
use crate::resp::frame_model;
use crate::resp::frames_model;
use crate::resp::entries_model;
use crate::resp::lemma_entries_model;
use crate::resp::lemma_frames_model;
use crate::resp::BulkString;
use crate::resp::Double;
use crate::resp::FrameModel;
use crate::resp::RespArray;
use crate::resp::RespEncode;
use crate::resp::RespFrame;
use crate::resp::RespMap;
use crate::resp::RespNull;
use crate::resp::RespNullArray;
use crate::resp::RespNullBulkString;
use crate::resp::RespSet;
use crate::resp::SimpleError;
use crate::resp::SimpleString;
use crate::resp::CR;
use crate::resp::LF;

verus! {

pub open spec fn crlf() -> Seq<u8> {
    seq![CR, LF]
}

/// The decimal text of a signed integer: a non-negative number gets a
/// leading `+`, a negative one a leading `-`.
pub open spec fn signed_dec(n: int) -> Seq<u8> {
    if n >= 0 {
        seq![43u8] + dec_digits(n as nat)
    } else {
        seq![45u8] + dec_digits((-n) as nat)
    }
}

pub open spec fn enc_simple(s: Seq<u8>) -> Seq<u8> {
    seq![43u8] + s + crlf()
}

pub open spec fn enc_error(s: Seq<u8>) -> Seq<u8> {
    seq![45u8] + s + crlf()
}

pub open spec fn enc_int(n: int) -> Seq<u8> {
    seq![58u8] + signed_dec(n) + crlf()
}

pub open spec fn enc_bulk(s: Seq<u8>) -> Seq<u8> {
    seq![36u8] + dec_digits(s.len()) + crlf() + s + crlf()
}

pub open spec fn enc_bool(b: bool) -> Seq<u8> {
    if b {
        seq![35u8, 116u8] + crlf()
    } else {
        seq![35u8, 102u8] + crlf()
    }
}

pub open spec fn enc_dbl(s: Seq<u8>) -> Seq<u8> {
    seq![44u8] + s + crlf()
}

pub open spec fn enc_frames(es: Seq<FrameModel>) -> Seq<u8>
    decreases es,
{
    if es.len() == 0 {
        Seq::empty()
    } else {
        enc_model(es.first()) + enc_frames(es.drop_first())
    }
}

pub open spec fn enc_entries(es: Seq<(Seq<u8>, FrameModel)>) -> Seq<u8>
    decreases es,
{
    if es.len() == 0 {
        Seq::empty()
    } else {
        enc_simple(es.first().0) + enc_model(es.first().1) + enc_entries(es.drop_first())
    }
}

/// The full encoding of a frame.
pub open spec fn enc_model(m: FrameModel) -> Seq<u8>
    decreases m,
{
    match m {
        FrameModel::Simple(s) => enc_simple(s),
        FrameModel::Error(s) => enc_error(s),
        FrameModel::Int(n) => enc_int(n),
        FrameModel::Bulk(s) => enc_bulk(s),
        FrameModel::NullBulk => seq![36u8, 45u8, 49u8] + crlf(),
        FrameModel::Arr(es) => seq![42u8] + dec_digits(es.len()) + crlf() + enc_frames(es),
        FrameModel::NullArr => seq![42u8, 45u8, 49u8] + crlf(),
        FrameModel::Null => seq![95u8] + crlf(),
        FrameModel::Bool(b) => enc_bool(b),
        FrameModel::Dbl(s) => enc_dbl(s),
        FrameModel::Dict(es) => seq![37u8] + dec_digits(es.len()) + crlf() + enc_entries(es),
        FrameModel::SetOf(es) => seq![126u8] + dec_digits(es.len()) + crlf() + enc_frames(es),
    }
}

pub proof fn lemma_enc_frames_snoc(s: Seq<FrameModel>, x: FrameModel)
    ensures
        enc_frames(s.push(x)) == enc_frames(s) + enc_model(x),
    decreases s.len(),
{
    if s.len() == 0 {
        assert(s.push(x).first() == x);
        assert(s.push(x).drop_first() =~= Seq::<FrameModel>::empty());
        assert(enc_frames(s.push(x)) == enc_model(x) + enc_frames(Seq::<FrameModel>::empty()));
        assert(enc_frames(Seq::<FrameModel>::empty()) == Seq::<u8>::empty());
        assert(enc_model(x) + Seq::<u8>::empty() =~= enc_model(x));
        assert(enc_frames(s) == Seq::<u8>::empty());
        assert(Seq::<u8>::empty() + enc_model(x) =~= enc_model(x));
    } else {
        assert(s.push(x).first() == s.first());
        assert(s.push(x).drop_first() =~= s.drop_first().push(x));
        lemma_enc_frames_snoc(s.drop_first(), x);
        assert(enc_frames(s.push(x)) == enc_model(s.first()) + (enc_frames(s.drop_first())
            + enc_model(x)));
        assert(enc_model(s.first()) + (enc_frames(s.drop_first()) + enc_model(x)) =~= (enc_model(
            s.first(),
        ) + enc_frames(s.drop_first())) + enc_model(x));
    }
}

pub proof fn lemma_enc_entries_snoc(s: Seq<(Seq<u8>, FrameModel)>, x: (Seq<u8>, FrameModel))
    ensures
        enc_entries(s.push(x)) == enc_entries(s) + enc_simple(x.0) + enc_model(x.1),
    decreases s.len(),
{
    if s.len() == 0 {
        assert(s.push(x).first() == x);
        assert(s.push(x).drop_first() =~= Seq::<(Seq<u8>, FrameModel)>::empty());
        assert(enc_entries(s.push(x)) == enc_simple(x.0) + enc_model(x.1) + enc_entries(
            Seq::<(Seq<u8>, FrameModel)>::empty(),
        ));
        assert(enc_entries(Seq::<(Seq<u8>, FrameModel)>::empty()) == Seq::<u8>::empty());
        assert(enc_simple(x.0) + enc_model(x.1) + Seq::<u8>::empty() =~= enc_simple(x.0)
            + enc_model(x.1));
        assert(enc_entries(s) == Seq::<u8>::empty());
        assert(Seq::<u8>::empty() + enc_simple(x.0) + enc_model(x.1) =~= enc_simple(x.0)
            + enc_model(x.1));
    } else {
        assert(s.push(x).first() == s.first());
        assert(s.push(x).drop_first() =~= s.drop_first().push(x));
        lemma_enc_entries_snoc(s.drop_first(), x);
        assert(enc_entries(s.push(x)) == enc_simple(s.first().0) + enc_model(s.first().1)
            + (enc_entries(s.drop_first()) + enc_simple(x.0) + enc_model(x.1)));
        assert(enc_simple(s.first().0) + enc_model(s.first().1) + (enc_entries(s.drop_first())
            + enc_simple(x.0) + enc_model(x.1)) =~= (enc_simple(s.first().0) + enc_model(
            s.first().1,
        ) + enc_entries(s.drop_first())) + enc_simple(x.0) + enc_model(x.1));
    }
}

/// Appends all of `data` to `out`.
pub fn push_all(out: &mut Vec<u8>, data: &[u8])
    ensures
        final(out)@ == old(out)@ + data@,
{
    let mut i: usize = 0;
    proof {
        assert(old(out)@ + data@.take(0) =~= old(out)@);
    }
    while i < data.len()
        invariant
            i <= data@.len(),
            out@ == old(out)@ + data@.take(i as int),
        decreases data@.len() - i,
    {
        out.push(data[i]);
        proof {
            assert(old(out)@ + data@.take(i + 1) =~= (old(out)@ + data@.take(i as int)).push(
                data@[i as int],
            ));
        }
        i = i + 1;
    }
    proof {
        assert(data@.take(data@.len() as int) =~= data@);
    }
}

/// Encodes one frame to its wire bytes.
pub fn encode_frame(f: &RespFrame) -> (r: Vec<u8>)
    ensures
        r@ == enc_model(frame_model(*f)),
    decreases *f,
{
    match f {
        RespFrame::SimpleString(s) => {
            let mut out: Vec<u8> = Vec::new();
            out.push(43);
            push_all(&mut out, s.0.as_slice());
            out.push(CR);
            out.push(LF);
            proof {
                assert(out@ =~= enc_simple(s.0@));
            }
            out
        },
        RespFrame::Error(s) => {
            let mut out: Vec<u8> = Vec::new();
            out.push(45);
            push_all(&mut out, s.0.as_slice());
            out.push(CR);
            out.push(LF);
            proof {
                assert(out@ =~= enc_error(s.0@));
            }
            out
        },
        RespFrame::Integer(n) => {
            let mut out: Vec<u8> = Vec::new();
            out.push(58);
            if *n >= 0 {
                out.push(43);
                let ds = format_u64(*n as u64);
                push_all(&mut out, ds.as_slice());
            } else {
                out.push(45);
                let mag: u64 = ((-(*n + 1)) as u64) + 1;
                proof {
                    assert(mag == -(*n as int));
                }
                let ds = format_u64(mag);
                push_all(&mut out, ds.as_slice());
            }
            out.push(CR);
            out.push(LF);
            proof {
                assert(out@ =~= enc_int(*n as int));
            }
            out
        },
        RespFrame::BulkString(s) => {
            let mut out: Vec<u8> = Vec::new();
            out.push(36);
            let ds = format_u64(s.0.len() as u64);
            push_all(&mut out, ds.as_slice());
            out.push(CR);
            out.push(LF);
            push_all(&mut out, s.0.as_slice());
            out.push(CR);
            out.push(LF);
            proof {
                assert(out@ =~= enc_bulk(s.0@));
            }
            out
        },
        RespFrame::NullBulkString(_) => {
            let mut out: Vec<u8> = Vec::new();
            out.push(36);
            out.push(45);
            out.push(49);
            out.push(CR);
            out.push(LF);
            proof {
                assert(out@ =~= seq![36u8, 45u8, 49u8] + crlf());
            }
            out
        },
        RespFrame::Array(a) => {
            let mut out: Vec<u8> = Vec::new();
            out.push(42);
            let ds = format_u64(a.0.len() as u64);
            push_all(&mut out, ds.as_slice());
            out.push(CR);
            out.push(LF);
            let ghost es = frames_model(a.0@);
            let ghost header = seq![42u8] + dec_digits(a.0@.len() as nat) + crlf();
            proof {
                lemma_frames_model(a.0@);
                assert(out@ =~= header + enc_frames(es.take(0)));
            }
            let n = a.0.len();
            let mut i: usize = 0;
            while i < n
                invariant
                    *f == RespFrame::Array(*a),
                    n == a.0@.len(),
                    es == frames_model(a.0@),
                    es.len() == n,
                    forall|j: int| 0 <= j < n ==> es[j] == frame_model(#[trigger] a.0@[j]),
                    0 <= i <= n,
                    out@ == header + enc_frames(es.take(i as int)),
                decreases n - i,
            {
                proof {
                    assert(*f == RespFrame::Array(*a));
                    assert(decreases_to!(*f => f->Array_0));
                    assert(decreases_to!(*a => a.0));
                    assert(decreases_to!(a.0 => a.0@));
                    assert(decreases_to!(a.0@ => a.0@[i as int]));
                }
                let child = encode_frame(&a.0[i]);
                push_all(&mut out, child.as_slice());
                proof {
                    assert(es.take(i + 1) =~= es.take(i as int).push(es[i as int]));
                    lemma_enc_frames_snoc(es.take(i as int), es[i as int]);
                    assert(out@ =~= header + enc_frames(es.take(i + 1)));
                }
                i = i + 1;
            }
            proof {
                assert(es.take(n as int) =~= es);
            }
            out
        },
        RespFrame::NullArray(_) => {
            let mut out: Vec<u8> = Vec::new();
            out.push(42);
            out.push(45);
            out.push(49);
            out.push(CR);
            out.push(LF);
            proof {
                assert(out@ =~= seq![42u8, 45u8, 49u8] + crlf());
            }
            out
        },
        RespFrame::Null(_) => {
            let mut out: Vec<u8> = Vec::new();
            out.push(95);
            out.push(CR);
            out.push(LF);
            proof {
                assert(out@ =~= seq![95u8] + crlf());
            }
            out
        },
        RespFrame::Boolean(b) => {
            let mut out: Vec<u8> = Vec::new();
            out.push(35);
            if *b {
                out.push(116);
            } else {
                out.push(102);
            }
            out.push(CR);
            out.push(LF);
            proof {
                assert(out@ =~= enc_bool(*b));
            }
            out
        },
        RespFrame::Double(d) => {
            let mut out: Vec<u8> = Vec::new();
            out.push(44);
            push_all(&mut out, d.0.as_slice());
            out.push(CR);
            out.push(LF);
            proof {
                assert(out@ =~= enc_dbl(d.0@));
            }
            out
        },
        RespFrame::Dict(m) => {
            let mut out: Vec<u8> = Vec::new();
            out.push(37);
            let ds = format_u64(m.0.len() as u64);
            push_all(&mut out, ds.as_slice());
            out.push(CR);
            out.push(LF);
            let ghost es = entries_model(m.0@);
            let ghost header = seq![37u8] + dec_digits(m.0@.len() as nat) + crlf();
            proof {
                lemma_entries_model(m.0@);
                assert(out@ =~= header + enc_entries(es.take(0)));
            }
            let n = m.0.len();
            let mut i: usize = 0;
            while i < n
                invariant
                    *f == RespFrame::Dict(*m),
                    n == m.0@.len(),
                    es == entries_model(m.0@),
                    es.len() == n,
                    forall|j: int|
                        0 <= j < n ==> es[j] == ((#[trigger] m.0@[j]).0@, frame_model(m.0@[j].1)),
                    0 <= i <= n,
                    out@ == header + enc_entries(es.take(i as int)),
                decreases n - i,
            {
                let pair = &m.0[i];
                out.push(43);
                push_all(&mut out, pair.0.0.as_slice());
                out.push(CR);
                out.push(LF);
                proof {
                    assert(*f == RespFrame::Dict(*m));
                    assert(decreases_to!(*f => f->Dict_0));
                    assert(decreases_to!(*m => m.0));
                    assert(decreases_to!(m.0 => m.0@));
                    assert(decreases_to!(m.0@ => m.0@[i as int]));
                    assert(decreases_to!(m.0@[i as int] => m.0@[i as int].1));
                }
                let child = encode_frame(&pair.1);
                push_all(&mut out, child.as_slice());
                proof {
                    assert(es.take(i + 1) =~= es.take(i as int).push(es[i as int]));
                    lemma_enc_entries_snoc(es.take(i as int), es[i as int]);
                    assert(out@ =~= header + enc_entries(es.take(i + 1)));
                }
                i = i + 1;
            }
            proof {
                assert(es.take(n as int) =~= es);
            }
            out
        },
        RespFrame::SetOf(s) => {
            let mut out: Vec<u8> = Vec::new();
            out.push(126);
            let ds = format_u64(s.0.len() as u64);
            push_all(&mut out, ds.as_slice());
            out.push(CR);
            out.push(LF);
            let ghost es = frames_model(s.0@);
            let ghost header = seq![126u8] + dec_digits(s.0@.len() as nat) + crlf();
            proof {
                lemma_frames_model(s.0@);
                assert(out@ =~= header + enc_frames(es.take(0)));
            }
            let n = s.0.len();
            let mut i: usize = 0;
            while i < n
                invariant
                    *f == RespFrame::SetOf(*s),
                    n == s.0@.len(),
                    es == frames_model(s.0@),
                    es.len() == n,
                    forall|j: int| 0 <= j < n ==> es[j] == frame_model(#[trigger] s.0@[j]),
                    0 <= i <= n,
                    out@ == header + enc_frames(es.take(i as int)),
                decreases n - i,
            {
                proof {
                    assert(*f == RespFrame::SetOf(*s));
                    assert(decreases_to!(*f => f->SetOf_0));
                    assert(decreases_to!(*s => s.0));
                    assert(decreases_to!(s.0 => s.0@));
                    assert(decreases_to!(s.0@ => s.0@[i as int]));
                }
                let child = encode_frame(&s.0[i]);
                push_all(&mut out, child.as_slice());
                proof {
                    assert(es.take(i + 1) =~= es.take(i as int).push(es[i as int]));
                    lemma_enc_frames_snoc(es.take(i as int), es[i as int]);
                    assert(out@ =~= header + enc_frames(es.take(i + 1)));
                }
                i = i + 1;
            }
            proof {
                assert(es.take(n as int) =~= es);
            }
            out
        },
    }
}

impl RespEncode for RespFrame {
    open spec fn enc_bytes(&self) -> Seq<u8> {
        enc_model(frame_model(*self))
    }

    fn encode(self) -> (r: Vec<u8>) {
        encode_frame(&self)
    }
}

impl RespEncode for SimpleString {
    open spec fn enc_bytes(&self) -> Seq<u8> {
        enc_simple(self@)
    }

    fn encode(self) -> (r: Vec<u8>) {
        encode_frame(&RespFrame::SimpleString(self))
    }
}

impl RespEncode for SimpleError {
    open spec fn enc_bytes(&self) -> Seq<u8> {
        enc_error(self@)
    }

    fn encode(self) -> (r: Vec<u8>) {
        encode_frame(&RespFrame::Error(self))
    }
}

impl RespEncode for i64 {
    open spec fn enc_bytes(&self) -> Seq<u8> {
        enc_int(*self as int)
    }

    fn encode(self) -> (r: Vec<u8>) {
        encode_frame(&RespFrame::Integer(self))
    }
}

impl RespEncode for BulkString {
    open spec fn enc_bytes(&self) -> Seq<u8> {
        enc_bulk(self@)
    }

    fn encode(self) -> (r: Vec<u8>) {
        encode_frame(&RespFrame::BulkString(self))
    }
}

impl RespEncode for RespNullBulkString {
    open spec fn enc_bytes(&self) -> Seq<u8> {
        seq![36u8, 45u8, 49u8] + crlf()
    }

    fn encode(self) -> (r: Vec<u8>) {
        encode_frame(&RespFrame::NullBulkString(self))
    }
}

impl RespEncode for RespArray {
    open spec fn enc_bytes(&self) -> Seq<u8> {
        enc_model(FrameModel::Arr(self@))
    }

    fn encode(self) -> (r: Vec<u8>) {
        encode_frame(&RespFrame::Array(self))
    }
}

impl RespEncode for RespNullArray {
    open spec fn enc_bytes(&self) -> Seq<u8> {
        seq![42u8, 45u8, 49u8] + crlf()
    }

    fn encode(self) -> (r: Vec<u8>) {
        encode_frame(&RespFrame::NullArray(self))
    }
}

impl RespEncode for RespNull {
    open spec fn enc_bytes(&self) -> Seq<u8> {
        seq![95u8] + crlf()
    }

    fn encode(self) -> (r: Vec<u8>) {
        encode_frame(&RespFrame::Null(self))
    }
}

impl RespEncode for bool {
    open spec fn enc_bytes(&self) -> Seq<u8> {
        enc_bool(*self)
    }

    fn encode(self) -> (r: Vec<u8>) {
        encode_frame(&RespFrame::Boolean(self))
    }
}

impl RespEncode for Double {
    open spec fn enc_bytes(&self) -> Seq<u8> {
        enc_dbl(self@)
    }

    fn encode(self) -> (r: Vec<u8>) {
        encode_frame(&RespFrame::Double(self))
    }
}

impl RespEncode for RespMap {
    open spec fn enc_bytes(&self) -> Seq<u8> {
        enc_model(FrameModel::Dict(self@))
    }

    fn encode(self) -> (r: Vec<u8>) {
        encode_frame(&RespFrame::Dict(self))
    }
}

impl RespEncode for RespSet {
    open spec fn enc_bytes(&self) -> Seq<u8> {
        enc_model(FrameModel::SetOf(self@))
    }

    fn encode(self) -> (r: Vec<u8>) {
        encode_frame(&RespFrame::SetOf(self))
    }
}

} // verus!
