//! The incremental decoder: spec parse functions that mirror the wire
//! grammar byte for byte, and the verified decoding functions.
use vstd::prelude::*;
use vstd::string::StringExecFns;

use crate::buf::buf_advance;
use crate::buf::buf_bytes;
use crate::buf::buf_slice;
use crate::resp::digits::dec_val;
use crate::resp::digits::is_digits;
use crate::resp::digits::digits_in_range;
use crate::resp::digits::parse_i64_text;
use crate::resp::digits::parse_u64;
use crate::resp::digits::spec_i64;
use crate::resp::frame_model;
use crate::resp::frames_model;
use crate::resp::entries_model;
use crate::resp::is_double_text;
use crate::resp::map_insert;
use crate::resp::BulkString;
use crate::resp::Double;
use crate::resp::ErrKind;
use crate::resp::FrameModel;
use crate::resp::LenStep;
use crate::resp::RespArray;
use crate::resp::RespDecode;
use crate::resp::RespError;
use crate::resp::RespFrame;
use crate::resp::RespMap;
use crate::resp::RespNull;
use crate::resp::RespNullArray;
use crate::resp::RespNullBulkString;
use crate::resp::RespSet;
use crate::resp::SimpleError;
use crate::resp::SimpleString;
use crate::resp::Step;
use crate::resp::CR;
use crate::resp::LF;
use bytes::BytesMut;

verus! {

/// True when the two-byte terminator CR LF stands at index `i` of `buf`.
pub open spec fn crlf_at(buf: Seq<u8>, i: int) -> bool {
    &&& 0 <= i
    &&& i + 1 < buf.len()
    &&& buf[i] == CR
    &&& buf[i + 1] == LF
}

pub open spec fn first_crlf_from(s: Seq<u8>, i: int) -> Option<int>
    decreases s.len() - i when i >= 0
{
    if i + 1 >= s.len() {
        None
    } else if s[i] == CR && s[i + 1] == LF {
        Some(i)
    } else {
        first_crlf_from(s, i + 1)
    }
}

/// The position of the first CRLF at or after index 1: index 0 holds the
/// frame's prefix byte and is never searched.
pub open spec fn first_crlf(s: Seq<u8>) -> Option<int> {
    first_crlf_from(s, 1)
}

pub proof fn lemma_first_crlf_from(s: Seq<u8>, i: int)
    requires
        i >= 0,
    ensures
        match first_crlf_from(s, i) {
            Some(e) => i <= e && crlf_at(s, e) && forall|j: int| i <= j < e ==> !crlf_at(s, j),
            None => forall|j: int| j >= i ==> !crlf_at(s, j),
        },
    decreases s.len() - i,
{
    if i + 1 >= s.len() {
    } else if s[i] == CR && s[i + 1] == LF {
    } else {
        lemma_first_crlf_from(s, i + 1);
    }
}

/// Reading one line frame `p<payload>CRLF` from the front of `s`.
pub open spec fn line_step(s: Seq<u8>, p: u8) -> Step<Seq<u8>> {
    if s.len() < 3 {
        Step::More
    } else if s[0] != p {
        Step::Fail { k: ErrKind::BadType }
    } else {
        match first_crlf(s) {
            None => Step::More,
            Some(end) => Step::Done { v: s.subrange(1, end), used: end + 2 },
        }
    }
}

/// Reading a fixed literal from the front of `s`: a strict prefix of the
/// literal asks for more bytes, anything else that is not the literal is a
/// type mismatch.
pub open spec fn fixed_step(s: Seq<u8>, lit: Seq<u8>) -> Step<()> {
    if s.len() >= lit.len() {
        if s.take(lit.len() as int) == lit {
            Step::Done { v: (), used: lit.len() as int }
        } else {
            Step::Fail { k: ErrKind::BadType }
        }
    } else {
        if s == lit.take(s.len() as int) {
            Step::More
        } else {
            Step::Fail { k: ErrKind::BadType }
        }
    }
}

pub open spec fn lit_null() -> Seq<u8> {
    seq![95u8, CR, LF]
}

pub open spec fn lit_null_array() -> Seq<u8> {
    seq![42u8, 45u8, 49u8, CR, LF]
}

pub open spec fn lit_null_bulk() -> Seq<u8> {
    seq![36u8, 45u8, 49u8, CR, LF]
}

pub open spec fn lit_true() -> Seq<u8> {
    seq![35u8, 116u8, CR, LF]
}

pub open spec fn lit_false() -> Seq<u8> {
    seq![35u8, 102u8, CR, LF]
}

/// Reading a boolean frame: `#t CRLF` or `#f CRLF`, trying `t` first.
pub open spec fn bool_step(s: Seq<u8>) -> Step<bool> {
    match fixed_step(s, lit_true()) {
        Step::Done { used, .. } => Step::Done { v: true, used },
        Step::More => Step::More,
        Step::Fail { .. } => match fixed_step(s, lit_false()) {
            Step::Done { used, .. } => Step::Done { v: false, used },
            Step::More => Step::More,
            Step::Fail { k } => Step::Fail { k },
        },
    }
}

/// Reading a signed integer frame `:[+|-]<digits>CRLF`.
pub open spec fn int_step(s: Seq<u8>) -> Step<i64> {
    match line_step(s, 58) {
        Step::Done { v: t, used } => match spec_i64(t) {
            Some(n) => Step::Done { v: n as i64, used },
            None => Step::Fail { k: ErrKind::BadInt },
        },
        Step::More => Step::More,
        Step::Fail { k } => Step::Fail { k },
    }
}

/// Reading a double frame `,<text>CRLF` whose text matches the double
/// grammar; the text itself is the value.
pub open spec fn dbl_step(s: Seq<u8>) -> Step<Seq<u8>> {
    match line_step(s, 44) {
        Step::Done { v: t, used } => if is_double_text(t) {
            Step::Done { v: t, used }
        } else {
            Step::Fail { k: ErrKind::BadFloat }
        },
        Step::More => Step::More,
        Step::Fail { k } => Step::Fail { k },
    }
}

/// Reading a length header `p<count>CRLF`: the count is a non-negative
/// decimal that fits `usize`; a negative count is a length error.
pub open spec fn length_step(s: Seq<u8>, p: u8) -> Step<int> {
    match line_step(s, p) {
        Step::Done { v: t, used } => {
            if t.len() >= 1 && t[0] == 45 && is_digits(t.drop_first()) {
                Step::Fail { k: ErrKind::BadLen }
            } else {
                let u = if t.len() >= 1 && t[0] == 43 {
                    t.drop_first()
                } else {
                    t
                };
                if is_digits(u) {
                    if dec_val(u) <= usize::MAX {
                        Step::Done { v: dec_val(u), used }
                    } else {
                        Step::Fail { k: ErrKind::BadInt }
                    }
                } else {
                    Step::Fail { k: ErrKind::BadInt }
                }
            }
        },
        Step::More => Step::More,
        Step::Fail { k } => Step::Fail { k },
    }
}

/// Reading a bulk string `$<n>CRLF<n bytes>CRLF`: the header must parse and
/// `n + 2` further bytes must be present past the header.
pub open spec fn bulk_step(s: Seq<u8>) -> Step<Seq<u8>> {
    match length_step(s, 36) {
        Step::Done { v: n, used: h } => if s.len() < h + n + 2 {
            Step::More
        } else {
            Step::Done { v: s.subrange(h, h + n), used: h + n + 2 }
        },
        Step::More => Step::More,
        Step::Fail { k } => Step::Fail { k },
    }
}

/// Reading `n` frames one after another from the front of `s`.
pub open spec fn seq_step(s: Seq<u8>, n: int) -> Step<Seq<FrameModel>>
    decreases s.len(), 4int,
{
    if n <= 0 {
        Step::Done { v: Seq::empty(), used: 0 }
    } else {
        match frame_step(s) {
            Step::Done { v: m, used: u } => if !(1 <= u <= s.len()) {
                Step::Fail { k: ErrKind::BadFrame }
            } else {
                match seq_step(s.skip(u), n - 1) {
                    Step::Done { v: es, used: u2 } => Step::Done {
                        v: seq![m] + es,
                        used: u + u2,
                    },
                    Step::More => Step::More,
                    Step::Fail { k } => Step::Fail { k },
                }
            },
            Step::More => Step::More,
            Step::Fail { k } => Step::Fail { k },
        }
    }
}

/// Reading `n` key/value pairs: each key is a simple string, each value any
/// frame; pairs are folded into a sorted map, the last write to a key
/// winning.
pub open spec fn pair_step(s: Seq<u8>, n: int, acc: Seq<(Seq<u8>, FrameModel)>) -> Step<
    Seq<(Seq<u8>, FrameModel)>,
>
    decreases s.len(), 4int,
{
    if n <= 0 {
        Step::Done { v: acc, used: 0 }
    } else {
        match line_step(s, 43) {
            Step::Done { v: key, used: ku } => if !(1 <= ku <= s.len()) {
                Step::Fail { k: ErrKind::BadFrame }
            } else {
                match frame_step(s.skip(ku)) {
                    Step::Done { v: m, used: vu } => if !(1 <= vu <= s.len() - ku) {
                        Step::Fail { k: ErrKind::BadFrame }
                    } else {
                        match pair_step(s.skip(ku + vu), n - 1, map_insert(acc, key, m)) {
                            Step::Done { v: es, used: u2 } => Step::Done {
                                v: es,
                                used: ku + vu + u2,
                            },
                            Step::More => Step::More,
                            Step::Fail { k } => Step::Fail { k },
                        }
                    },
                    Step::More => Step::More,
                    Step::Fail { k } => Step::Fail { k },
                }
            },
            Step::More => Step::More,
            Step::Fail { k } => Step::Fail { k },
        }
    }
}

/// Reading a length-prefixed run of frames (`*` or `~`): the total span is
/// measured first, as the decoder does, and only then are children read.
pub open spec fn run_body_step(s: Seq<u8>, p: u8) -> Step<Seq<FrameModel>>
    decreases s.len(), 1int,
{
    match length_step(s, p) {
        Step::Done { v: n, used: h } => if !(1 <= h <= s.len()) {
            Step::Fail { k: ErrKind::BadFrame }
        } else {
            match comp_len(s.skip(h), n) {
                LenStep::Len { .. } => match seq_step(s.skip(h), n) {
                    Step::Done { v: es, used: u } => Step::Done { v: es, used: h + u },
                    Step::More => Step::More,
                    Step::Fail { k } => Step::Fail { k },
                },
                LenStep::More => Step::More,
                LenStep::Fail { k } => Step::Fail { k },
            }
        },
        Step::More => Step::More,
        Step::Fail { k } => Step::Fail { k },
    }
}

/// Reading an array body `*<n>CRLF` followed by `n` frames.
pub open spec fn arr_step(s: Seq<u8>) -> Step<Seq<FrameModel>>
    decreases s.len(), 2int,
{
    run_body_step(s, 42)
}

/// Reading a set body `~<n>CRLF` followed by `n` frames.
pub open spec fn set_step(s: Seq<u8>) -> Step<Seq<FrameModel>>
    decreases s.len(), 2int,
{
    run_body_step(s, 126)
}

/// Reading a map body `%<n>CRLF` followed by `n` key/value pairs.
pub open spec fn dict_step(s: Seq<u8>) -> Step<Seq<(Seq<u8>, FrameModel)>>
    decreases s.len(), 1int,
{
    match length_step(s, 37) {
        Step::Done { v: n, used: h } => if !(1 <= h <= s.len()) {
            Step::Fail { k: ErrKind::BadFrame }
        } else {
            match pair_len(s.skip(h), n) {
                LenStep::Len { .. } => match pair_step(s.skip(h), n, Seq::empty()) {
                    Step::Done { v: es, used: u } => Step::Done { v: es, used: h + u },
                    Step::More => Step::More,
                    Step::Fail { k } => Step::Fail { k },
                },
                LenStep::More => Step::More,
                LenStep::Fail { k } => Step::Fail { k },
            }
        },
        Step::More => Step::More,
        Step::Fail { k } => Step::Fail { k },
    }
}

/// Reading one frame from the front of `s`: dispatch on the first byte,
/// with the two fixed null forms tried before the length-prefixed forms.
pub open spec fn frame_step(s: Seq<u8>) -> Step<FrameModel>
    decreases s.len(), 3int,
{
    if s.len() == 0 {
        Step::More
    } else {
        let p = s[0];
        if p == 43 {
            match line_step(s, 43) {
                Step::Done { v, used } => Step::Done { v: FrameModel::Simple(v), used },
                Step::More => Step::More,
                Step::Fail { k } => Step::Fail { k },
            }
        } else if p == 45 {
            match line_step(s, 45) {
                Step::Done { v, used } => Step::Done { v: FrameModel::Error(v), used },
                Step::More => Step::More,
                Step::Fail { k } => Step::Fail { k },
            }
        } else if p == 58 {
            match int_step(s) {
                Step::Done { v, used } => Step::Done { v: FrameModel::Int(v as int), used },
                Step::More => Step::More,
                Step::Fail { k } => Step::Fail { k },
            }
        } else if p == 36 {
            match fixed_step(s, lit_null_bulk()) {
                Step::Done { used, .. } => Step::Done { v: FrameModel::NullBulk, used },
                Step::More => Step::More,
                Step::Fail { .. } => match bulk_step(s) {
                    Step::Done { v, used } => Step::Done { v: FrameModel::Bulk(v), used },
                    Step::More => Step::More,
                    Step::Fail { k } => Step::Fail { k },
                },
            }
        } else if p == 42 {
            match fixed_step(s, lit_null_array()) {
                Step::Done { used, .. } => Step::Done { v: FrameModel::NullArr, used },
                Step::More => Step::More,
                Step::Fail { .. } => match arr_step(s) {
                    Step::Done { v, used } => Step::Done { v: FrameModel::Arr(v), used },
                    Step::More => Step::More,
                    Step::Fail { k } => Step::Fail { k },
                },
            }
        } else if p == 95 {
            match fixed_step(s, lit_null()) {
                Step::Done { used, .. } => Step::Done { v: FrameModel::Null, used },
                Step::More => Step::More,
                Step::Fail { k } => Step::Fail { k },
            }
        } else if p == 35 {
            match bool_step(s) {
                Step::Done { v, used } => Step::Done { v: FrameModel::Bool(v), used },
                Step::More => Step::More,
                Step::Fail { k } => Step::Fail { k },
            }
        } else if p == 44 {
            match dbl_step(s) {
                Step::Done { v, used } => Step::Done { v: FrameModel::Dbl(v), used },
                Step::More => Step::More,
                Step::Fail { k } => Step::Fail { k },
            }
        } else if p == 37 {
            match dict_step(s) {
                Step::Done { v, used } => Step::Done { v: FrameModel::Dict(v), used },
                Step::More => Step::More,
                Step::Fail { k } => Step::Fail { k },
            }
        } else if p == 126 {
            match set_step(s) {
                Step::Done { v, used } => Step::Done { v: FrameModel::SetOf(v), used },
                Step::More => Step::More,
                Step::Fail { k } => Step::Fail { k },
            }
        } else {
            Step::Fail { k: ErrKind::BadType }
        }
    }
}

/// How many bytes one line frame at the front of `s` spans.
pub open spec fn line_len(s: Seq<u8>, p: u8) -> LenStep {
    match line_step(s, p) {
        Step::Done { used, .. } => LenStep::Len { n: used },
        Step::More => LenStep::More,
        Step::Fail { k } => LenStep::Fail { k },
    }
}

/// How many bytes one bulk string at the front of `s` spans: header, body
/// and both terminators.
pub open spec fn bulk_len(s: Seq<u8>) -> LenStep {
    match length_step(s, 36) {
        Step::Done { v: n, used: h } => LenStep::Len { n: h + n + 2 },
        Step::More => LenStep::More,
        Step::Fail { k } => LenStep::Fail { k },
    }
}

/// The summed span of `n` frames at the front of `s`. A frame that would
/// run past the end of `s` asks for more bytes.
pub open spec fn comp_len(s: Seq<u8>, n: int) -> LenStep
    decreases s.len(), 3int,
{
    if n <= 0 {
        LenStep::Len { n: 0 }
    } else {
        match frame_len(s) {
            LenStep::Len { n: e } => if !(1 <= e <= s.len()) {
                LenStep::More
            } else {
                match comp_len(s.skip(e), n - 1) {
                    LenStep::Len { n: t } => LenStep::Len { n: e + t },
                    LenStep::More => LenStep::More,
                    LenStep::Fail { k } => LenStep::Fail { k },
                }
            },
            LenStep::More => LenStep::More,
            LenStep::Fail { k } => LenStep::Fail { k },
        }
    }
}

/// The summed span of `n` key/value pairs at the front of `s`.
pub open spec fn pair_len(s: Seq<u8>, n: int) -> LenStep
    decreases s.len(), 3int,
{
    if n <= 0 {
        LenStep::Len { n: 0 }
    } else {
        match line_len(s, 43) {
            LenStep::Len { n: ke } => if !(1 <= ke <= s.len()) {
                LenStep::More
            } else {
                match frame_len(s.skip(ke)) {
                    LenStep::Len { n: ve } => if !(1 <= ve <= s.len() - ke) {
                        LenStep::More
                    } else {
                        match pair_len(s.skip(ke + ve), n - 1) {
                            LenStep::Len { n: t } => LenStep::Len { n: ke + ve + t },
                            LenStep::More => LenStep::More,
                            LenStep::Fail { k } => LenStep::Fail { k },
                        }
                    },
                    LenStep::More => LenStep::More,
                    LenStep::Fail { k } => LenStep::Fail { k },
                }
            },
            LenStep::More => LenStep::More,
            LenStep::Fail { k } => LenStep::Fail { k },
        }
    }
}

/// The span of a length-prefixed composite (`*`, `~` or `%`) at the front
/// of `s`: header plus children.
pub open spec fn comp_frame_len(s: Seq<u8>, p: u8) -> LenStep
    decreases s.len(), 1int,
{
    match length_step(s, p) {
        Step::Done { v: n, used: h } => if !(1 <= h <= s.len()) {
            LenStep::More
        } else if p == 37 {
            match pair_len(s.skip(h), n) {
                LenStep::Len { n: t } => LenStep::Len { n: h + t },
                LenStep::More => LenStep::More,
                LenStep::Fail { k } => LenStep::Fail { k },
            }
        } else {
            match comp_len(s.skip(h), n) {
                LenStep::Len { n: t } => LenStep::Len { n: h + t },
                LenStep::More => LenStep::More,
                LenStep::Fail { k } => LenStep::Fail { k },
            }
        },
        Step::More => LenStep::More,
        Step::Fail { k } => LenStep::Fail { k },
    }
}

/// How many bytes one frame at the front of `s` spans: an unknown or
/// missing first byte cannot be answered yet.
pub open spec fn frame_len(s: Seq<u8>) -> LenStep
    decreases s.len(), 2int,
{
    if s.len() == 0 {
        LenStep::More
    } else {
        let p = s[0];
        if p == 43 || p == 45 || p == 58 || p == 44 {
            line_len(s, p)
        } else if p == 36 {
            match fixed_step(s, lit_null_bulk()) {
                Step::Done { .. } => LenStep::Len { n: 5 },
                Step::More => LenStep::More,
                Step::Fail { .. } => bulk_len(s),
            }
        } else if p == 42 {
            match fixed_step(s, lit_null_array()) {
                Step::Done { .. } => LenStep::Len { n: 5 },
                Step::More => LenStep::More,
                Step::Fail { .. } => comp_frame_len(s, 42),
            }
        } else if p == 95 {
            LenStep::Len { n: 3 }
        } else if p == 35 {
            LenStep::Len { n: 4 }
        } else if p == 37 {
            comp_frame_len(s, 37)
        } else if p == 126 {
            comp_frame_len(s, 126)
        } else {
            LenStep::More
        }
    }
}

pub proof fn lemma_line_used(s: Seq<u8>, p: u8)
    ensures
        line_step(s, p) matches Step::Done { used, .. } ==> 3 <= used <= s.len(),
{
    if s.len() >= 3 && s[0] == p {
        lemma_first_crlf_from(s, 1);
    }
}

pub proof fn lemma_length_step(s: Seq<u8>, p: u8)
    ensures
        length_step(s, p) matches Step::Done { v: n, used: h } ==> 3 <= h <= s.len() && 0 <= n,
{
    lemma_line_used(s, p);
    match line_step(s, p) {
        Step::Done { v: t, used } => {
            let u = if t.len() >= 1 && t[0] == 43 {
                t.drop_first()
            } else {
                t
            };
            if is_digits(u) {
                crate::resp::digits::lemma_dec_val_nonneg(u);
            }
        },
        _ => {},
    }
}

pub proof fn lemma_frame_step_used(s: Seq<u8>)
    ensures
        frame_step(s) matches Step::Done { used, .. } ==> 3 <= used <= s.len(),
    decreases s.len(), 3int,
{
    if s.len() == 0 {
    } else {
        let p = s[0];
        if p == 43 || p == 45 || p == 58 || p == 44 {
            lemma_line_used(s, p);
        } else if p == 36 {
            match fixed_step(s, lit_null_bulk()) {
                Step::Done { .. } => {},
                Step::More => {},
                Step::Fail { .. } => {
                    lemma_length_step(s, 36);
                },
            }
        } else if p == 42 {
            lemma_run_body_used(s, 42);
        } else if p == 37 {
            lemma_length_step(s, 37);
            match length_step(s, 37) {
                Step::Done { v: n, used: h } => {
                    if 1 <= h <= s.len() {
                        lemma_pair_step_used(s.skip(h), n, Seq::empty());
                    }
                },
                _ => {},
            }
        } else if p == 126 {
            lemma_run_body_used(s, 126);
        } else {
        }
    }
}

pub proof fn lemma_run_body_used(s: Seq<u8>, p: u8)
    ensures
        run_body_step(s, p) matches Step::Done { used, .. } ==> 3 <= used <= s.len(),
    decreases s.len(), 2int,
{
    lemma_length_step(s, p);
    match length_step(s, p) {
        Step::Done { v: n, used: h } => {
            if 1 <= h <= s.len() {
                lemma_seq_step_used(s.skip(h), n);
            }
        },
        _ => {},
    }
}

pub proof fn lemma_seq_step_used(s: Seq<u8>, n: int)
    ensures
        seq_step(s, n) matches Step::Done { used, .. } ==> 0 <= used <= s.len(),
    decreases s.len(), 4int,
{
    if n <= 0 {
    } else {
        match frame_step(s) {
            Step::Done { v: m, used: u } => {
                if 1 <= u <= s.len() {
                    lemma_seq_step_used(s.skip(u), n - 1);
                }
            },
            _ => {},
        }
    }
}

pub proof fn lemma_pair_step_used(s: Seq<u8>, n: int, acc: Seq<(Seq<u8>, FrameModel)>)
    ensures
        pair_step(s, n, acc) matches Step::Done { used, .. } ==> 0 <= used <= s.len(),
    decreases s.len(), 4int,
{
    if n <= 0 {
    } else {
        match line_step(s, 43) {
            Step::Done { v: key, used: ku } => {
                if 1 <= ku <= s.len() {
                    match frame_step(s.skip(ku)) {
                        Step::Done { v: m, used: vu } => {
                            if 1 <= vu <= s.len() - ku {
                                assert(s.skip(ku).skip(vu) =~= s.skip(ku + vu));
                                lemma_pair_step_used(s.skip(ku + vu), n - 1, map_insert(acc, key, m));
                            }
                        },
                        _ => {},
                    }
                }
            },
            _ => {},
        }
    }
}

/// When the length predicate can measure one frame and the buffer holds
/// that many bytes, the parser does not ask for more: it reads exactly
/// that span or fails outright.
pub proof fn lemma_agree(s: Seq<u8>)
    ensures
        frame_len(s) matches LenStep::Len { n: e } ==> e > s.len() || ((frame_step(
            s,
        ) matches Step::Done { used, .. } && used == e) || frame_step(s) is Fail),
    decreases s.len(), 3int,
{
    if s.len() == 0 {
    } else {
        let p = s[0];
        if p == 43 || p == 45 || p == 58 || p == 44 {
        } else if p == 36 {
            match fixed_step(s, lit_null_bulk()) {
                Step::Done { .. } => {},
                Step::More => {},
                Step::Fail { .. } => {
                    lemma_length_step(s, 36);
                },
            }
        } else if p == 42 || p == 126 {
            match fixed_step(s, lit_null_array()) {
                Step::Done { .. } => {},
                Step::More => {},
                Step::Fail { .. } => {},
            }
            lemma_agree_run(s, p);
        } else if p == 37 {
            lemma_length_step(s, 37);
            match length_step(s, 37) {
                Step::Done { v: n, used: h } => {
                    if 1 <= h <= s.len() {
                        lemma_agree_pair(s.skip(h), n, Seq::empty());
                    }
                },
                _ => {},
            }
        } else {
        }
    }
}

pub proof fn lemma_agree_run(s: Seq<u8>, p: u8)
    ensures
        comp_frame_len(s, p) matches LenStep::Len { n: e } ==> p == 37 || ((run_body_step(
            s,
            p,
        ) matches Step::Done { used, .. } && used == e) || run_body_step(s, p) is Fail),
    decreases s.len(), 2int,
{
    lemma_length_step(s, p);
    match length_step(s, p) {
        Step::Done { v: n, used: h } => {
            if 1 <= h <= s.len() {
                lemma_agree_comp(s.skip(h), n);
            }
        },
        _ => {},
    }
}

pub proof fn lemma_agree_comp(s: Seq<u8>, n: int)
    ensures
        comp_len(s, n) matches LenStep::Len { n: t } ==> 0 <= t <= s.len() && ((seq_step(
            s,
            n,
        ) matches Step::Done { used, .. } && used == t) || seq_step(s, n) is Fail),
    decreases s.len(), 4int,
{
    if n <= 0 {
    } else {
        match frame_len(s) {
            LenStep::Len { n: e } => {
                if 1 <= e <= s.len() {
                    lemma_agree(s);
                    lemma_frame_step_used(s);
                    lemma_agree_comp(s.skip(e), n - 1);
                }
            },
            _ => {},
        }
    }
}

pub proof fn lemma_agree_pair(s: Seq<u8>, n: int, acc: Seq<(Seq<u8>, FrameModel)>)
    ensures
        pair_len(s, n) matches LenStep::Len { n: t } ==> 0 <= t <= s.len() && ((pair_step(
            s,
            n,
            acc,
        ) matches Step::Done { used, .. } && used == t) || pair_step(s, n, acc) is Fail),
    decreases s.len(), 4int,
{
    if n <= 0 {
    } else {
        lemma_line_used(s, 43);
        match line_step(s, 43) {
            Step::Done { v: key, used: ku } => {
                if 1 <= ku <= s.len() {
                    match frame_len(s.skip(ku)) {
                        LenStep::Len { n: ve } => {
                            if 1 <= ve <= s.len() - ku {
                                lemma_agree(s.skip(ku));
                                lemma_frame_step_used(s.skip(ku));
                                lemma_agree_pair(s.skip(ku + ve), n - 1, acc);
                                match frame_step(s.skip(ku)) {
                                    Step::Done { v: m, used: vu } => {
                                        assert(s.skip(ku).skip(vu) =~= s.skip(ku + vu));
                                        lemma_agree_pair(
                                            s.skip(ku + vu),
                                            n - 1,
                                            map_insert(acc, key, m),
                                        );
                                    },
                                    _ => {},
                                }
                            }
                        },
                        _ => {},
                    }
                }
            },
            _ => {},
        }
    }
}

/// Position of the `n`th CRLF at or after index `i`, counting upward.
pub open spec fn nth_crlf_from(s: Seq<u8>, i: int, n: int) -> Option<int>
    decreases s.len() - i when i >= 0
{
    if i + 1 >= s.len() {
        None
    } else if s[i] == CR && s[i + 1] == LF {
        if n == 1 {
            Some(i)
        } else {
            nth_crlf_from(s, i + 1, n - 1)
        }
    } else {
        nth_crlf_from(s, i + 1, n)
    }
}

/// There is no zeroth CRLF: a non-positive ordinal never finds one.
pub proof fn lemma_nth_nonpos(s: Seq<u8>, i: int, n: int)
    requires
        i >= 0,
        n <= 0,
    ensures
        nth_crlf_from(s, i, n) is None,
    decreases s.len() - i,
{
    if i + 1 >= s.len() {
    } else if s[i] == CR && s[i + 1] == LF {
        lemma_nth_nonpos(s, i + 1, n - 1);
    } else {
        lemma_nth_nonpos(s, i + 1, n);
    }
}

/// Asking for the first CRLF is the same through either spelling.
pub proof fn lemma_nth_is_first(s: Seq<u8>, i: int)
    requires
        i >= 0,
    ensures
        nth_crlf_from(s, i, 1) == first_crlf_from(s, i),
    decreases s.len() - i,
{
    if i + 1 >= s.len() {
    } else if s[i] == CR && s[i + 1] == LF {
    } else {
        lemma_nth_is_first(s, i + 1);
    }
}

/// Index of the `nth` CRLF in `buf`, searching forward from index 1.
pub fn find_crlf(buf: &[u8], nth: usize) -> (r: Option<usize>)
    ensures
        match r {
            Some(i) => nth_crlf_from(buf@, 1, nth as int) == Some(i as int),
            None => nth_crlf_from(buf@, 1, nth as int) is None,
        },
{
    if buf.len() < 2 {
        return None;
    }
    if nth == 0 {
        proof {
            lemma_nth_nonpos(buf@, 1, 0);
        }
        return None;
    }
    let mut count: usize = 0;
    let mut i: usize = 1;
    while i < buf.len() - 1
        invariant
            1 <= i,
            count < nth,
            buf@.len() >= 2,
            nth_crlf_from(buf@, 1, nth as int) == nth_crlf_from(buf@, i as int, nth - count),
        decreases buf@.len() - i,
    {
        if buf[i] == CR && buf[i + 1] == LF {
            count = count + 1;
            if count == nth {
                return Some(i);
            }
        }
        i = i + 1;
    }
    None
}

/// Verifies the prefix byte and finds the line's CRLF terminator,
/// returning its index.
pub fn extract_simple_frame_data(buf: &[u8], prefix: u8) -> (r: Result<usize, RespError>)
    ensures
        match r {
            Ok(end) => {
                &&& line_step(buf@, prefix) == (Step::<Seq<u8>>::Done {
                    v: buf@.subrange(1, end as int),
                    used: end + 2,
                })
                &&& first_crlf(buf@) == Some(end as int)
                &&& 1 <= end
                &&& end + 2 <= buf@.len() <= usize::MAX
                &&& buf@[0] == prefix
            },
            Err(e) => if e is NotComplete {
                line_step(buf@, prefix) is More
            } else {
                e is InvalidFrameType && line_step(buf@, prefix) is Fail
            },
        },
{
    if buf.len() < 3 {
        return Err(RespError::NotComplete);
    }
    if buf[0] != prefix {
        return Err(RespError::InvalidFrameType(String::from_str("unexpected frame prefix")));
    }
    proof {
        lemma_nth_is_first(buf@, 1);
    }
    match find_crlf(buf, 1) {
        None => Err(RespError::NotComplete),
        Some(end) => {
            proof {
                lemma_first_crlf_from(buf@, 1);
                assert(crlf_at(buf@, end as int));
            }
            Ok(end)
        },
    }
}

/// Parses the count between the prefix byte and the first CRLF, returning
/// the CRLF index and the count.
pub fn parse_length(buf: &[u8], prefix: u8) -> (r: Result<(usize, usize), RespError>)
    ensures
        match r {
            Ok((end, n)) => {
                &&& length_step(buf@, prefix) == (Step::<int>::Done { v: n as int, used: end + 2 })
                &&& first_crlf(buf@) == Some(end as int)
                &&& 1 <= end
                &&& end + 2 <= buf@.len() <= usize::MAX
            },
            Err(e) => if e is NotComplete {
                length_step(buf@, prefix) is More
            } else {
                length_step(buf@, prefix) matches Step::Fail { k } && crate::resp::err_is(e, k)
            },
        },
{
    let end = match extract_simple_frame_data(buf, prefix) {
        Ok(end) => end,
        Err(e) => {
            return Err(e);
        },
    };
    let ghost t = buf@.subrange(1, end as int);
    // a negative count is a length error, not a number error
    if end >= 2 && buf[1] == 45 {
        proof {
            assert(t.drop_first() =~= buf@.subrange(2, end as int));
        }
        if digits_in_range(buf, 2, end) {
            return Err(RespError::InvalidFrameLength(-1));
        }
        // fall through: `-` followed by text that is not all digits
    }
    proof {
        if t.len() >= 1 && t[0] == 45 {
            assert(buf@[1] == 45);
        }
    }
    let from: usize = if end >= 2 && buf[1] == 43 {
        2
    } else {
        1
    };
    proof {
        if t.len() >= 1 && t[0] == 43 {
            assert(t.drop_first() =~= buf@.subrange(2, end as int));
        } else {
            assert(t =~= buf@.subrange(from as int, end as int));
        }
    }
    match parse_u64(buf, from, end) {
        None => Err(RespError::ParseIntError),
        Some(v) => {
            if v <= usize::MAX as u64 {
                Ok((end, v as usize))
            } else {
                Err(RespError::ParseIntError)
            }
        },
    }
}

/// Verifies that the buffer starts with the given fixed literal and
/// discards it; a strict prefix of the literal asks for more bytes.
pub fn extract_fixed_data(buf: &mut BytesMut, expect: &[u8], expect_type: &str) -> (r: Result<
    (),
    RespError,
>)
    ensures
        match r {
            Ok(()) => fixed_step(buf_bytes(*old(buf)), expect@) == (Step::<()>::Done {
                v: (),
                used: expect@.len() as int,
            }) && buf_bytes(*final(buf)) == buf_bytes(*old(buf)).skip(expect@.len() as int),
            Err(e) => buf_bytes(*final(buf)) == buf_bytes(*old(buf)) && (if e is NotComplete {
                fixed_step(buf_bytes(*old(buf)), expect@) is More
            } else {
                e is InvalidFrameType && fixed_step(buf_bytes(*old(buf)), expect@) is Fail
            }),
        },
{
    let s = buf_slice(buf);
    let n = if s.len() < expect.len() {
        s.len()
    } else {
        expect.len()
    };
    let mut i: usize = 0;
    while i < n
        invariant
            n <= s@.len(),
            n <= expect@.len(),
            s@ == buf_bytes(*buf),
            forall|j: int| 0 <= j < i ==> s@[j] == expect@[j],
            0 <= i <= n,
        decreases n - i,
    {
        if s[i] != expect[i] {
            return Err(
                RespError::InvalidFrameType(String::from_str(expect_type)),
            );
        }
        i = i + 1;
    }
    if s.len() < expect.len() {
        proof {
            assert(s@ =~= expect@.take(s@.len() as int));
        }
        return Err(RespError::NotComplete);
    }
    proof {
        assert(s@.take(expect@.len() as int) =~= expect@);
    }
    buf_advance(buf, expect.len());
    Ok(())
}

/// Index of the end of the digit run starting at `i`, as an executable
/// scan.
fn run_end(t: &[u8], i: usize) -> (r: usize)
    requires
        i <= t@.len(),
    ensures
        r == crate::resp::digit_run_end(t@, i as int),
        i <= r <= t@.len(),
{
    let mut j = i;
    while j < t.len() && t[j] >= 48 && t[j] <= 57
        invariant
            i <= j <= t@.len(),
            crate::resp::digit_run_end(t@, i as int) == crate::resp::digit_run_end(t@, j as int),
        decreases t@.len() - j,
    {
        j = j + 1;
    }
    j
}

/// Whether `t` matches the double grammar.
fn double_text_ok(t: &[u8]) -> (r: bool)
    ensures
        r == is_double_text(t@),
{
    let n = t.len();
    let i0: usize = if n > 0 && (t[0] == 43 || t[0] == 45) {
        1
    } else {
        0
    };
    let i1 = run_end(t, i0);
    if i1 == i0 {
        return false;
    }
    let i2: usize;
    if i1 < n && t[i1] == 46 {
        let j = run_end(t, i1 + 1);
        if j == i1 + 1 {
            return false;
        }
        i2 = j;
    } else {
        i2 = i1;
    }
    if i2 == n {
        return true;
    }
    let b = t[i2];
    if b == 101 || b == 69 {
        let j: usize = if i2 + 1 < n && (t[i2 + 1] == 43 || t[i2 + 1] == 45) {
            i2 + 2
        } else {
            i2 + 1
        };
        let k = run_end(t, j);
        k > j && k == n
    } else {
        false
    }
}

impl RespDecode for SimpleString {
    open spec fn dec_model(s: Seq<u8>) -> Step<Seq<u8>> {
        line_step(s, 43)
    }

    open spec fn len_model(s: Seq<u8>) -> LenStep {
        line_len(s, 43)
    }

    fn decode(buf: &mut BytesMut) -> (r: Result<Self, RespError>) {
        let end: usize;
        let data: Vec<u8>;
        {
            let s = buf_slice(buf);
            end = match extract_simple_frame_data(s, 43) {
                Ok(e) => e,
                Err(e) => {
                    return Err(e);
                },
            };
            data = vstd::slice::slice_to_vec(vstd::slice::slice_subrange(s, 1, end));
        }
        buf_advance(buf, end + 2);
        Ok(SimpleString(data))
    }

    fn expect_length(buf: &[u8]) -> (r: Result<usize, RespError>) {
        match extract_simple_frame_data(buf, 43) {
            Ok(end) => Ok(end + 2),
            Err(e) => Err(e),
        }
    }
}

impl RespDecode for SimpleError {
    open spec fn dec_model(s: Seq<u8>) -> Step<Seq<u8>> {
        line_step(s, 45)
    }

    open spec fn len_model(s: Seq<u8>) -> LenStep {
        line_len(s, 45)
    }

    fn decode(buf: &mut BytesMut) -> (r: Result<Self, RespError>) {
        let end: usize;
        let data: Vec<u8>;
        {
            let s = buf_slice(buf);
            end = match extract_simple_frame_data(s, 45) {
                Ok(e) => e,
                Err(e) => {
                    return Err(e);
                },
            };
            data = vstd::slice::slice_to_vec(vstd::slice::slice_subrange(s, 1, end));
        }
        buf_advance(buf, end + 2);
        Ok(SimpleError(data))
    }

    fn expect_length(buf: &[u8]) -> (r: Result<usize, RespError>) {
        match extract_simple_frame_data(buf, 45) {
            Ok(end) => Ok(end + 2),
            Err(e) => Err(e),
        }
    }
}

impl RespDecode for i64 {
    open spec fn dec_model(s: Seq<u8>) -> Step<i64> {
        int_step(s)
    }

    open spec fn len_model(s: Seq<u8>) -> LenStep {
        line_len(s, 58)
    }

    fn decode(buf: &mut BytesMut) -> (r: Result<Self, RespError>) {
        let end: usize;
        let v: i64;
        {
            let s = buf_slice(buf);
            end = match extract_simple_frame_data(s, 58) {
                Ok(e) => e,
                Err(e) => {
                    return Err(e);
                },
            };
            v = match parse_i64_text(s, 1, end) {
                Some(x) => x,
                None => {
                    return Err(RespError::ParseIntError);
                },
            };
        }
        buf_advance(buf, end + 2);
        Ok(v)
    }

    fn expect_length(buf: &[u8]) -> (r: Result<usize, RespError>) {
        match extract_simple_frame_data(buf, 58) {
            Ok(end) => Ok(end + 2),
            Err(e) => Err(e),
        }
    }
}

impl RespDecode for Double {
    open spec fn dec_model(s: Seq<u8>) -> Step<Seq<u8>> {
        dbl_step(s)
    }

    open spec fn len_model(s: Seq<u8>) -> LenStep {
        line_len(s, 44)
    }

    fn decode(buf: &mut BytesMut) -> (r: Result<Self, RespError>) {
        let end: usize;
        let data: Vec<u8>;
        {
            let s = buf_slice(buf);
            end = match extract_simple_frame_data(s, 44) {
                Ok(e) => e,
                Err(e) => {
                    return Err(e);
                },
            };
            let t = vstd::slice::slice_subrange(s, 1, end);
            if !double_text_ok(t) {
                return Err(RespError::ParseFloatError);
            }
            data = vstd::slice::slice_to_vec(t);
        }
        buf_advance(buf, end + 2);
        Ok(Double(data))
    }

    fn expect_length(buf: &[u8]) -> (r: Result<usize, RespError>) {
        match extract_simple_frame_data(buf, 44) {
            Ok(end) => Ok(end + 2),
            Err(e) => Err(e),
        }
    }
}

impl RespDecode for RespNull {
    open spec fn dec_model(s: Seq<u8>) -> Step<()> {
        fixed_step(s, lit_null())
    }

    open spec fn len_model(s: Seq<u8>) -> LenStep {
        LenStep::Len { n: 3 }
    }

    fn decode(buf: &mut BytesMut) -> (r: Result<Self, RespError>) {
        let lit: Vec<u8> = vec![95u8, CR, LF];
        proof {
            assert(lit@ =~= lit_null());
        }
        match extract_fixed_data(buf, lit.as_slice(), "Null") {
            Ok(()) => Ok(RespNull),
            Err(e) => Err(e),
        }
    }

    fn expect_length(buf: &[u8]) -> (r: Result<usize, RespError>) {
        Ok(3)
    }
}

impl RespDecode for RespNullArray {
    open spec fn dec_model(s: Seq<u8>) -> Step<()> {
        fixed_step(s, lit_null_array())
    }

    open spec fn len_model(s: Seq<u8>) -> LenStep {
        LenStep::Len { n: 5 }
    }

    fn decode(buf: &mut BytesMut) -> (r: Result<Self, RespError>) {
        let lit: Vec<u8> = vec![42u8, 45u8, 49u8, CR, LF];
        proof {
            assert(lit@ =~= lit_null_array());
        }
        match extract_fixed_data(buf, lit.as_slice(), "NullArray") {
            Ok(()) => Ok(RespNullArray),
            Err(e) => Err(e),
        }
    }

    fn expect_length(buf: &[u8]) -> (r: Result<usize, RespError>) {
        Ok(5)
    }
}

impl RespDecode for RespNullBulkString {
    open spec fn dec_model(s: Seq<u8>) -> Step<()> {
        fixed_step(s, lit_null_bulk())
    }

    open spec fn len_model(s: Seq<u8>) -> LenStep {
        LenStep::Len { n: 5 }
    }

    fn decode(buf: &mut BytesMut) -> (r: Result<Self, RespError>) {
        let lit: Vec<u8> = vec![36u8, 45u8, 49u8, CR, LF];
        proof {
            assert(lit@ =~= lit_null_bulk());
        }
        match extract_fixed_data(buf, lit.as_slice(), "NullBulkString") {
            Ok(()) => Ok(RespNullBulkString),
            Err(e) => Err(e),
        }
    }

    fn expect_length(buf: &[u8]) -> (r: Result<usize, RespError>) {
        Ok(5)
    }
}

impl RespDecode for bool {
    open spec fn dec_model(s: Seq<u8>) -> Step<bool> {
        bool_step(s)
    }

    open spec fn len_model(s: Seq<u8>) -> LenStep {
        LenStep::Len { n: 4 }
    }

    fn decode(buf: &mut BytesMut) -> (r: Result<Self, RespError>) {
        let t: Vec<u8> = vec![35u8, 116u8, CR, LF];
        proof {
            assert(t@ =~= lit_true());
        }
        match extract_fixed_data(buf, t.as_slice(), "Bool") {
            Ok(()) => Ok(true),
            Err(RespError::NotComplete) => Err(RespError::NotComplete),
            Err(_) => {
                let f: Vec<u8> = vec![35u8, 102u8, CR, LF];
                proof {
                    assert(f@ =~= lit_false());
                }
                match extract_fixed_data(buf, f.as_slice(), "Bool") {
                    Ok(()) => Ok(false),
                    Err(e) => Err(e),
                }
            },
        }
    }

    fn expect_length(buf: &[u8]) -> (r: Result<usize, RespError>) {
        Ok(4)
    }
}

impl RespDecode for BulkString {
    open spec fn dec_model(s: Seq<u8>) -> Step<Seq<u8>> {
        bulk_step(s)
    }

    open spec fn len_model(s: Seq<u8>) -> LenStep {
        bulk_len(s)
    }

    fn decode(buf: &mut BytesMut) -> (r: Result<Self, RespError>) {
        let h: usize;
        let n: usize;
        let data: Vec<u8>;
        {
            let s = buf_slice(buf);
            let (end, len) = match parse_length(s, 36) {
                Ok(p) => p,
                Err(e) => {
                    return Err(e);
                },
            };
            h = end + 2;
            let rem = s.len() - h;
            if rem < 2 || rem - 2 < len {
                return Err(RespError::NotComplete);
            }
            n = len;
            data = vstd::slice::slice_to_vec(vstd::slice::slice_subrange(s, h, h + n));
        }
        buf_advance(buf, h + n + 2);
        Ok(BulkString(data))
    }

    fn expect_length(buf: &[u8]) -> (r: Result<usize, RespError>) {
        let (end, len) = match parse_length(buf, 36) {
            Ok(p) => p,
            Err(e) => {
                return Err(e);
            },
        };
        let total = match (end + 2).checked_add(len) {
            Some(t) => t.checked_add(2),
            None => None,
        };
        match total {
            Some(t) => Ok(t),
            None => Err(RespError::NotComplete),
        }
    }
}

/// Classifies the front of `s` against a fixed literal without consuming
/// anything: 0 when the literal is present, 1 when `s` is a strict prefix
/// of it, 2 on a mismatch.
fn fixed_probe(s: &[u8], lit: &[u8]) -> (r: u8)
    ensures
        (r == 0) <==> fixed_step(s@, lit@) is Done,
        (r == 1) <==> fixed_step(s@, lit@) is More,
        (r == 2) <==> fixed_step(s@, lit@) is Fail,
{
    let n = if s.len() < lit.len() {
        s.len()
    } else {
        lit.len()
    };
    let mut i: usize = 0;
    while i < n
        invariant
            n <= s@.len(),
            n <= lit@.len(),
            n == if s@.len() < lit@.len() {
                s@.len()
            } else {
                lit@.len()
            },
            forall|j: int| 0 <= j < i ==> s@[j] == lit@[j],
            0 <= i <= n,
        decreases n - i,
    {
        if s[i] != lit[i] {
            proof {
                if s@.len() >= lit@.len() {
                    assert(s@.take(lit@.len() as int)[i as int] == s@[i as int]);
                } else {
                    assert(lit@.take(s@.len() as int)[i as int] == lit@[i as int]);
                }
            }
            return 2;
        }
        i = i + 1;
    }
    if s.len() < lit.len() {
        proof {
            assert(s@ =~= lit@.take(s@.len() as int));
        }
        1
    } else {
        proof {
            assert(s@.take(lit@.len() as int) =~= lit@);
        }
        0
    }
}

/// The summed span of the children of a length-prefixed composite, after
/// its header: the walk the length predicate makes over the buffer.
pub fn calc_total_length(buf: &[u8], end: usize, len: usize, prefix: u8) -> (r: Result<
    usize,
    RespError,
>)
    requires
        prefix == 42 || prefix == 126 || prefix == 37,
        length_step(buf@, prefix) == (Step::<int>::Done { v: len as int, used: end + 2 }),
        1 <= end,
        end + 2 <= buf@.len() <= usize::MAX,
    ensures
        crate::resp::elen_ensures(comp_frame_len(buf@, prefix), r),
    decreases buf@.len(), 0int,
{
    let h = end + 2;
    proof {
        lemma_length_step(buf@, prefix);
    }
    let mut total: usize = h;
    let mut left: usize = len;
    if prefix == 37 {
        while left > 0
            invariant
                h <= total <= buf@.len() <= usize::MAX,
                prefix == 37,
                length_step(buf@, prefix) == (Step::<int>::Done { v: len as int, used: h as int }),
                1 <= h,
                comp_frame_len(buf@, prefix) == len_lift(
                    pair_len(buf@.skip(total as int), left as int),
                    total as int,
                ),
            decreases left,
        {
            let ghost cur = buf@.skip(total as int);
            let sub = vstd::slice::slice_subrange(buf, total, buf.len());
            let ke = match extract_simple_frame_data(sub, 43) {
                Ok(e) => e + 2,
                Err(e) => {
                    return Err(e);
                },
            };
            if ke > buf.len() - total {
                return Err(RespError::NotComplete);
            }
            let sub2 = vstd::slice::slice_subrange(buf, total + ke, buf.len());
            proof {
                assert(sub2@ =~= cur.skip(ke as int));
            }
            let ve = match frame_elen(sub2) {
                Ok(e) => e,
                Err(e) => {
                    return Err(e);
                },
            };
            if ve < 1 || ve > buf.len() - total - ke {
                return Err(RespError::NotComplete);
            }
            proof {
                assert(buf@.skip((total + ke + ve) as int) =~= cur.skip(ke + ve));
            }
            total = total + ke + ve;
            left = left - 1;
        }
        proof {
            assert(pair_len(buf@.skip(total as int), 0) == (LenStep::Len { n: 0 }));
        }
        Ok(total)
    } else {
        while left > 0
            invariant
                h <= total <= buf@.len() <= usize::MAX,
                prefix == 42 || prefix == 126,
                length_step(buf@, prefix) == (Step::<int>::Done { v: len as int, used: h as int }),
                1 <= h,
                comp_frame_len(buf@, prefix) == len_lift(
                    comp_len(buf@.skip(total as int), left as int),
                    total as int,
                ),
            decreases left,
        {
            let ghost cur = buf@.skip(total as int);
            let sub = vstd::slice::slice_subrange(buf, total, buf.len());
            let e = match frame_elen(sub) {
                Ok(e) => e,
                Err(e) => {
                    return Err(e);
                },
            };
            if e < 1 || e > buf.len() - total {
                return Err(RespError::NotComplete);
            }
            proof {
                assert(buf@.skip((total + e) as int) =~= cur.skip(e as int));
            }
            total = total + e;
            left = left - 1;
        }
        proof {
            assert(comp_len(buf@.skip(total as int), 0) == (LenStep::Len { n: 0 }));
        }
        Ok(total)
    }
}

/// Lifts a measured child span by the bytes already accounted for.
pub open spec fn len_lift(l: LenStep, d: int) -> LenStep {
    match l {
        LenStep::Len { n } => LenStep::Len { n: n + d },
        LenStep::More => LenStep::More,
        LenStep::Fail { k } => LenStep::Fail { k },
    }
}

/// How many bytes the frame at the front of `s` spans.
pub fn frame_elen(s: &[u8]) -> (r: Result<usize, RespError>)
    ensures
        crate::resp::elen_ensures(frame_len(s@), r),
    decreases s@.len(), 1int,
{
    if s.len() == 0 {
        return Err(RespError::NotComplete);
    }
    let p = s[0];
    if p == 43 || p == 45 || p == 58 || p == 44 {
        match extract_simple_frame_data(s, p) {
            Ok(end) => Ok(end + 2),
            Err(e) => Err(e),
        }
    } else if p == 36 {
        let lit: Vec<u8> = vec![36u8, 45u8, 49u8, CR, LF];
        proof {
            assert(lit@ =~= lit_null_bulk());
        }
        let probe = fixed_probe(s, lit.as_slice());
        if probe == 0 {
            Ok(5)
        } else if probe == 1 {
            Err(RespError::NotComplete)
        } else {
            BulkString::expect_length(s)
        }
    } else if p == 42 {
        let lit: Vec<u8> = vec![42u8, 45u8, 49u8, CR, LF];
        proof {
            assert(lit@ =~= lit_null_array());
        }
        let probe = fixed_probe(s, lit.as_slice());
        if probe == 0 {
            Ok(5)
        } else if probe == 1 {
            Err(RespError::NotComplete)
        } else {
            let (end, n) = match parse_length(s, 42) {
                Ok(p2) => p2,
                Err(e) => {
                    return Err(e);
                },
            };
            calc_total_length(s, end, n, 42)
        }
    } else if p == 95 {
        Ok(3)
    } else if p == 35 {
        Ok(4)
    } else if p == 37 {
        let (end, n) = match parse_length(s, 37) {
            Ok(p2) => p2,
            Err(e) => {
                return Err(e);
            },
        };
        calc_total_length(s, end, n, 37)
    } else if p == 126 {
        let (end, n) = match parse_length(s, 126) {
            Ok(p2) => p2,
            Err(e) => {
                return Err(e);
            },
        };
        calc_total_length(s, end, n, 126)
    } else {
        Err(RespError::NotComplete)
    }
}

/// Decodes a length-prefixed run of frames (`*` or `~`): checks that the
/// whole composite is present, then reads the children.
#[verifier::rlimit(60)]
fn run_decode(buf: &mut BytesMut, prefix: u8) -> (r: Result<Vec<RespFrame>, RespError>)
    requires
        prefix == 42 || prefix == 126,
    ensures
        ({
            let pre = buf_bytes(*old(buf));
            let post = buf_bytes(*final(buf));
            match r {
                Ok(v) => run_body_step(pre, prefix) matches Step::Done { v: m, used } && m
                    == frames_model(v@) && 0 <= used <= pre.len() && post == pre.skip(used),
                Err(e) => if e is NotComplete {
                    run_body_step(pre, prefix) is More && post == pre
                } else {
                    run_body_step(pre, prefix) matches Step::Fail { k } && crate::resp::err_is(
                        e,
                        k,
                    )
                },
            }
        }),
    decreases buf_bytes(*old(buf)).len(), 0int,
{
    let ghost pre = buf_bytes(*buf);
    let count: usize;
    let h: usize;
    {
        let s = buf_slice(buf);
        let (end, cnt) = match parse_length(s, prefix) {
            Ok(p2) => p2,
            Err(e) => {
                return Err(e);
            },
        };
        match calc_total_length(s, end, cnt, prefix) {
            Ok(_) => {},
            Err(e) => {
                proof {
                    lemma_agree_comp(pre.skip(end + 2 as int), cnt as int);
                }
                return Err(e);
            },
        };
        count = cnt;
        h = end + 2;
    }
    let ghost s_h = pre.skip(h as int);
    let ghost target = seq_step(s_h, count as int);
    proof {
        lemma_agree_comp(s_h, count as int);
        assert(target is Done || target is Fail);
    }
    buf_advance(buf, h);
    let mut items: Vec<RespFrame> = Vec::new();
    let mut i: usize = 0;
    proof {
        assert(frames_model(items@) =~= Seq::<FrameModel>::empty());
        assert(buf_bytes(*buf) =~= s_h.skip(0));
    }
    while i < count
        invariant
            0 <= i <= count,
            pre == buf_bytes(*old(buf)),
            prefix == 42 || prefix == 126,
            length_step(pre, prefix) == (Step::<int>::Done { v: count as int, used: h as int }),
            1 <= h <= pre.len(),
            comp_len(s_h, count as int) is Len,
            s_h == pre.skip(h as int),
            target == seq_step(s_h, count as int),
            target is Done || target is Fail,
            buf_bytes(*buf).len() <= s_h.len(),
            buf_bytes(*buf) == s_h.skip(s_h.len() - buf_bytes(*buf).len()),
            frames_model(items@).len() == i,
            match seq_step(buf_bytes(*buf), (count - i) as int) {
                Step::Done { v: es2, used: u2 } => target == (Step::Done {
                    v: frames_model(items@) + es2,
                    used: s_h.len() - buf_bytes(*buf).len() + u2,
                }),
                Step::More => target is More,
                Step::Fail { k } => target == (Step::<Seq<FrameModel>>::Fail { k }),
            },
        decreases count - i,
    {
        let ghost cur = buf_bytes(*buf);
        let ghost consumed = s_h.len() - cur.len();
        match frame_decode(buf) {
            Ok(f) => {
                proof {
                    lemma_frame_step_used(cur);
                    crate::resp::lemma_frames_model_push(items@, f);
                    let u = cur.len() - buf_bytes(*buf).len();
                    assert(frame_step(cur) == (Step::<FrameModel>::Done {
                        v: frame_model(f),
                        used: u as int,
                    }));
                    assert(cur.skip(u as int) == buf_bytes(*buf));
                    assert(s_h.skip(consumed + u) =~= cur.skip(u as int));
                    match seq_step(buf_bytes(*buf), (count - i - 1) as int) {
                        Step::Done { v: es2, used: u2 } => {
                            assert(seq_step(cur, (count - i) as int) == (Step::<
                                Seq<FrameModel>,
                            >::Done { v: seq![frame_model(f)] + es2, used: u + u2 }));
                            assert(frames_model(items@) + (seq![frame_model(f)] + es2)
                                =~= frames_model(items@).push(frame_model(f)) + es2);
                        },
                        Step::More => {},
                        Step::Fail { k } => {},
                    }
                }
                items.push(f);
                i = i + 1;
            },
            Err(e) => {
                if matches!(e, RespError::NotComplete) {
                    proof {
                        assert(seq_step(cur, (count - i) as int) is More);
                        assert(false);
                    }
                    return Err(RespError::NotComplete);
                } else {
                    proof {
                        assert(seq_step(cur, (count - i) as int) is Fail);
                    }
                    return Err(e);
                }
            },
        }
    }
    proof {
        assert(seq_step(buf_bytes(*buf), 0) == (Step::<Seq<FrameModel>>::Done {
            v: Seq::<FrameModel>::empty(),
            used: 0,
        }));
        assert(frames_model(items@) + Seq::<FrameModel>::empty() =~= frames_model(items@));
        assert(run_body_step(pre, prefix) is Done);
    }
    Ok(items)
}

/// Decodes a map body: checks that the whole composite is present, then
/// reads each key/value pair into a sorted map.
#[verifier::rlimit(60)]
fn dict_decode(buf: &mut BytesMut) -> (r: Result<RespMap, RespError>)
    ensures
        ({
            let pre = buf_bytes(*old(buf));
            let post = buf_bytes(*final(buf));
            match r {
                Ok(v) => dict_step(pre) matches Step::Done { v: m, used } && m == entries_model(
                    v.0@,
                ) && 0 <= used <= pre.len() && post == pre.skip(used),
                Err(e) => if e is NotComplete {
                    dict_step(pre) is More && post == pre
                } else {
                    dict_step(pre) matches Step::Fail { k } && crate::resp::err_is(e, k)
                },
            }
        }),
    decreases buf_bytes(*old(buf)).len(), 0int,
{
    let ghost pre = buf_bytes(*buf);
    let count: usize;
    let h: usize;
    {
        let s = buf_slice(buf);
        let (end, cnt) = match parse_length(s, 37) {
            Ok(p2) => p2,
            Err(e) => {
                return Err(e);
            },
        };
        match calc_total_length(s, end, cnt, 37) {
            Ok(_) => {},
            Err(e) => {
                proof {
                    lemma_agree_pair(
                        pre.skip(end + 2 as int),
                        cnt as int,
                        Seq::<(Seq<u8>, FrameModel)>::empty(),
                    );
                }
                return Err(e);
            },
        };
        count = cnt;
        h = end + 2;
    }
    let ghost s_h = pre.skip(h as int);
    let ghost target = pair_step(s_h, count as int, Seq::<(Seq<u8>, FrameModel)>::empty());
    proof {
        lemma_agree_pair(s_h, count as int, Seq::<(Seq<u8>, FrameModel)>::empty());
        assert(target is Done || target is Fail);
    }
    buf_advance(buf, h);
    let mut out = RespMap::new();
    let mut i: usize = 0;
    proof {
        assert(buf_bytes(*buf) =~= s_h.skip(0));
    }
    while i < count
        invariant
            0 <= i <= count,
            pre == buf_bytes(*old(buf)),
            length_step(pre, 37) == (Step::<int>::Done { v: count as int, used: h as int }),
            1 <= h <= pre.len(),
            pair_len(s_h, count as int) is Len,
            s_h == pre.skip(h as int),
            target == pair_step(s_h, count as int, Seq::<(Seq<u8>, FrameModel)>::empty()),
            target is Done || target is Fail,
            buf_bytes(*buf).len() <= s_h.len(),
            buf_bytes(*buf) == s_h.skip(s_h.len() - buf_bytes(*buf).len()),
            match pair_step(buf_bytes(*buf), (count - i) as int, entries_model(out.0@)) {
                Step::Done { v: es2, used: u2 } => target == (Step::Done {
                    v: es2,
                    used: s_h.len() - buf_bytes(*buf).len() + u2,
                }),
                Step::More => target is More,
                Step::Fail { k } => target == (Step::<Seq<(Seq<u8>, FrameModel)>>::Fail { k }),
            },
        decreases count - i,
    {
        let ghost cur = buf_bytes(*buf);
        let ghost consumed = s_h.len() - cur.len();
        let ghost acc0 = entries_model(out.0@);
        let key = match SimpleString::decode(buf) {
            Ok(k) => k,
            Err(e) => {
                if matches!(e, RespError::NotComplete) {
                    proof {
                        assert(pair_step(cur, (count - i) as int, acc0) is More);
                        assert(false);
                    }
                    return Err(RespError::NotComplete);
                } else {
                    proof {
                        assert(pair_step(cur, (count - i) as int, acc0) is Fail);
                    }
                    return Err(e);
                }
            },
        };
        proof {
            lemma_line_used(cur, 43);
        }
        let ghost cur2 = buf_bytes(*buf);
        let ghost ku = cur.len() - cur2.len();
        let value = match frame_decode(buf) {
            Ok(v) => v,
            Err(e) => {
                if matches!(e, RespError::NotComplete) {
                    proof {
                        assert(pair_step(cur, (count - i) as int, acc0) is More);
                        assert(false);
                    }
                    return Err(RespError::NotComplete);
                } else {
                    proof {
                        assert(pair_step(cur, (count - i) as int, acc0) is Fail);
                    }
                    return Err(e);
                }
            },
        };
        proof {
            lemma_frame_step_used(cur2);
            let vu = cur2.len() - buf_bytes(*buf).len();
            assert(cur.skip(ku as int) == cur2);
            assert(cur2.skip(vu as int) == buf_bytes(*buf));
            assert(cur.skip(ku + vu) =~= cur2.skip(vu as int));
            assert(s_h.skip(consumed + ku + vu) =~= cur.skip(ku + vu));
        }
        let ghost kb = key@;
        let ghost vm = frame_model(value);
        out.insert(key, value);
        proof {
            assert(entries_model(out.0@) == map_insert(acc0, kb, vm));
        }
        i = i + 1;
    }
    proof {
        assert(pair_step(buf_bytes(*buf), 0, entries_model(out.0@)) == (Step::<
            Seq<(Seq<u8>, FrameModel)>,
        >::Done { v: entries_model(out.0@), used: 0 }));
        assert(dict_step(pre) is Done);
    }
    Ok(out)
}

/// Decodes one frame: dispatch on the first byte, trying the fixed null
/// forms before the length-prefixed forms.
pub fn frame_decode(buf: &mut BytesMut) -> (r: Result<RespFrame, RespError>)
    ensures
        ({
            let pre = buf_bytes(*old(buf));
            let post = buf_bytes(*final(buf));
            match r {
                Ok(v) => frame_step(pre) matches Step::Done { v: m, used } && m == frame_model(v)
                    && 0 <= used <= pre.len() && post == pre.skip(used),
                Err(e) => if e is NotComplete {
                    frame_step(pre) is More && post == pre
                } else {
                    frame_step(pre) matches Step::Fail { k } && crate::resp::err_is(e, k)
                },
            }
        }),
    decreases buf_bytes(*old(buf)).len(), 1int,
{
    let p: u8;
    {
        let s = buf_slice(buf);
        if s.len() == 0 {
            return Err(RespError::NotComplete);
        }
        p = s[0];
    }
    if p == 43 {
        match SimpleString::decode(buf) {
            Ok(v) => Ok(RespFrame::SimpleString(v)),
            Err(e) => Err(e),
        }
    } else if p == 45 {
        match SimpleError::decode(buf) {
            Ok(v) => Ok(RespFrame::Error(v)),
            Err(e) => Err(e),
        }
    } else if p == 58 {
        match i64::decode(buf) {
            Ok(v) => Ok(RespFrame::Integer(v)),
            Err(e) => Err(e),
        }
    } else if p == 36 {
        let probe: u8;
        {
            let s = buf_slice(buf);
            let lit: Vec<u8> = vec![36u8, 45u8, 49u8, CR, LF];
            proof {
                assert(lit@ =~= lit_null_bulk());
            }
            probe = fixed_probe(s, lit.as_slice());
        }
        if probe == 0 {
            buf_advance(buf, 5);
            Ok(RespFrame::NullBulkString(RespNullBulkString))
        } else if probe == 1 {
            Err(RespError::NotComplete)
        } else {
            match BulkString::decode(buf) {
                Ok(v) => Ok(RespFrame::BulkString(v)),
                Err(e) => Err(e),
            }
        }
    } else if p == 42 {
        let probe: u8;
        {
            let s = buf_slice(buf);
            let lit: Vec<u8> = vec![42u8, 45u8, 49u8, CR, LF];
            proof {
                assert(lit@ =~= lit_null_array());
            }
            probe = fixed_probe(s, lit.as_slice());
        }
        if probe == 0 {
            buf_advance(buf, 5);
            Ok(RespFrame::NullArray(RespNullArray))
        } else if probe == 1 {
            Err(RespError::NotComplete)
        } else {
            match run_decode(buf, 42) {
                Ok(v) => Ok(RespFrame::Array(RespArray(v))),
                Err(e) => Err(e),
            }
        }
    } else if p == 95 {
        match RespNull::decode(buf) {
            Ok(_) => Ok(RespFrame::Null(RespNull)),
            Err(e) => Err(e),
        }
    } else if p == 35 {
        match bool::decode(buf) {
            Ok(v) => Ok(RespFrame::Boolean(v)),
            Err(e) => Err(e),
        }
    } else if p == 44 {
        match Double::decode(buf) {
            Ok(v) => Ok(RespFrame::Double(v)),
            Err(e) => Err(e),
        }
    } else if p == 37 {
        match dict_decode(buf) {
            Ok(v) => Ok(RespFrame::Dict(v)),
            Err(e) => Err(e),
        }
    } else if p == 126 {
        match run_decode(buf, 126) {
            Ok(v) => Ok(RespFrame::SetOf(RespSet(v))),
            Err(e) => Err(e),
        }
    } else {
        Err(RespError::InvalidFrameType(String::from_str("unknown frame prefix")))
    }
}

impl RespDecode for RespArray {
    open spec fn dec_model(s: Seq<u8>) -> Step<Seq<FrameModel>> {
        arr_step(s)
    }

    open spec fn len_model(s: Seq<u8>) -> LenStep {
        comp_frame_len(s, 42)
    }

    fn decode(buf: &mut BytesMut) -> (r: Result<Self, RespError>) {
        match run_decode(buf, 42) {
            Ok(v) => Ok(RespArray(v)),
            Err(e) => Err(e),
        }
    }

    fn expect_length(buf: &[u8]) -> (r: Result<usize, RespError>) {
        let (end, n) = match parse_length(buf, 42) {
            Ok(p2) => p2,
            Err(e) => {
                return Err(e);
            },
        };
        calc_total_length(buf, end, n, 42)
    }
}

impl RespDecode for RespSet {
    open spec fn dec_model(s: Seq<u8>) -> Step<Seq<FrameModel>> {
        set_step(s)
    }

    open spec fn len_model(s: Seq<u8>) -> LenStep {
        comp_frame_len(s, 126)
    }

    fn decode(buf: &mut BytesMut) -> (r: Result<Self, RespError>) {
        match run_decode(buf, 126) {
            Ok(v) => Ok(RespSet(v)),
            Err(e) => Err(e),
        }
    }

    fn expect_length(buf: &[u8]) -> (r: Result<usize, RespError>) {
        let (end, n) = match parse_length(buf, 126) {
            Ok(p2) => p2,
            Err(e) => {
                return Err(e);
            },
        };
        calc_total_length(buf, end, n, 126)
    }
}

impl RespDecode for RespMap {
    open spec fn dec_model(s: Seq<u8>) -> Step<Seq<(Seq<u8>, FrameModel)>> {
        dict_step(s)
    }

    open spec fn len_model(s: Seq<u8>) -> LenStep {
        comp_frame_len(s, 37)
    }

    fn decode(buf: &mut BytesMut) -> (r: Result<Self, RespError>) {
        dict_decode(buf)
    }

    fn expect_length(buf: &[u8]) -> (r: Result<usize, RespError>) {
        let (end, n) = match parse_length(buf, 37) {
            Ok(p2) => p2,
            Err(e) => {
                return Err(e);
            },
        };
        calc_total_length(buf, end, n, 37)
    }
}

impl RespDecode for RespFrame {
    open spec fn dec_model(s: Seq<u8>) -> Step<FrameModel> {
        frame_step(s)
    }

    open spec fn len_model(s: Seq<u8>) -> LenStep {
        frame_len(s)
    }

    fn decode(buf: &mut BytesMut) -> (r: Result<Self, RespError>) {
        frame_decode(buf)
    }

    fn expect_length(buf: &[u8]) -> (r: Result<usize, RespError>) {
        frame_elen(buf)
    }
}

} // verus!
