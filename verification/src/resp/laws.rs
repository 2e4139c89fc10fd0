//! The codec's laws: an encoded well-formed frame decodes back to itself
//! and consumes exactly its encoding; a strict prefix of an encoding is
//! never complete; the length predicate measures an encoding exactly; and
//! back-to-back encodings decode one after the other.
use vstd::prelude::*;

use crate::resp::decode::comp_frame_len;
use crate::resp::decode::comp_len;
use crate::resp::decode::crlf_at;
use crate::resp::decode::dict_step;
use crate::resp::decode::first_crlf;
use crate::resp::decode::fixed_step;
use crate::resp::decode::frame_len;
use crate::resp::decode::frame_step;
use crate::resp::decode::lemma_first_crlf_from;
use crate::resp::decode::length_step;
use crate::resp::decode::line_step;
use crate::resp::decode::lit_false;
use crate::resp::decode::lit_null;
use crate::resp::decode::lit_null_array;
use crate::resp::decode::lit_null_bulk;
use crate::resp::decode::lit_true;
use crate::resp::decode::pair_len;
use crate::resp::decode::pair_step;
use crate::resp::decode::run_body_step;
use crate::resp::decode::seq_step;
use crate::resp::digits::dec_digits;
use crate::resp::digits::lemma_dec_digits_all;
use crate::resp::digits::lemma_dec_val_of_digits;
use crate::resp::digits::spec_i64;
use crate::resp::digit_run_end;
use crate::resp::double_exp_ok;
use crate::resp::encode::crlf;
use crate::resp::encode::enc_entries;
use crate::resp::encode::enc_frames;
use crate::resp::encode::enc_model;
use crate::resp::encode::signed_dec;
use crate::resp::has_crlf;
use crate::resp::is_double_text;
use crate::resp::lemma_lex_asym;
use crate::resp::lex_lt;
use crate::resp::map_insert;
use crate::resp::wf_model;
use crate::resp::FrameModel;
use crate::resp::LenStep;
use crate::resp::Step;
use crate::resp::CR;
use crate::resp::LF;

verus! {

/// A digit run holds no CR byte.
pub proof fn lemma_digits_no_crlf(s: Seq<u8>)
    requires
        forall|i: int| 0 <= i < s.len() ==> 48 <= #[trigger] s[i] <= 57,
    ensures
        !has_crlf(s),
{
}

/// Every byte strictly inside a digit run is a digit.
pub proof fn lemma_digit_run_bytes(s: Seq<u8>, a: int)
    requires
        0 <= a <= s.len(),
    ensures
        forall|j: int| a <= j < digit_run_end(s, a) ==> 48 <= #[trigger] s[j] <= 57,
        a <= digit_run_end(s, a) <= s.len(),
    decreases s.len() - a,
{
    if a < s.len() && 48 <= s[a] <= 57 {
        lemma_digit_run_bytes(s, a + 1);
    }
}

/// The text of a double holds no CR byte, so it holds no CRLF.
pub proof fn lemma_double_no_crlf(s: Seq<u8>)
    requires
        is_double_text(s),
    ensures
        !has_crlf(s),
{
    let n = s.len() as int;
    let i0: int = if n > 0 && (s[0] == 43 || s[0] == 45) {
        1
    } else {
        0
    };
    let i1 = digit_run_end(s, i0);
    lemma_digit_run_bytes(s, i0);
    assert forall|i: int| 0 <= i < s.len() implies #[trigger] s[i] != CR by {
        if i < i0 {
        } else if i < i1 {
        } else {
            let i2: int = if i1 < n && s[i1] == 46 {
                digit_run_end(s, i1 + 1)
            } else {
                i1
            };
            if i1 < n && s[i1] == 46 {
                lemma_digit_run_bytes(s, i1 + 1);
            }
            if i < i2 {
            } else {
                assert(double_exp_ok(s, i2));
                if i == i2 {
                    assert(s[i] == 101 || s[i] == 69);
                } else {
                    let j: int = if i2 + 1 < n && (s[i2 + 1] == 43 || s[i2 + 1] == 45) {
                        i2 + 2
                    } else {
                        i2 + 1
                    };
                    lemma_digit_run_bytes(s, j);
                    if i < j {
                    } else {
                        assert(48 <= s[i] <= 57);
                    }
                }
            }
        }
    }
}

/// Reading a line frame from its own encoding finds the terminator right
/// after the payload.
pub proof fn lemma_line_enc(s: Seq<u8>, p: u8, rest: Seq<u8>)
    requires
        !has_crlf(s),
    ensures
        line_step(seq![p] + s + crlf() + rest, p) == (Step::<Seq<u8>>::Done {
            v: s,
            used: s.len() + 3int,
        }),
        first_crlf(seq![p] + s + crlf() + rest) == Some(1 + s.len() as int),
{
    let t = seq![p] + s + crlf() + rest;
    let e0 = 1 + s.len() as int;
    assert(t[0] == p);
    assert(t[e0] == CR && t[e0 + 1] == LF);
    assert(crlf_at(t, e0));
    assert forall|j: int| 1 <= j < e0 implies !crlf_at(t, j) by {
        if crlf_at(t, j) {
            if j + 1 < e0 {
                assert(s[j - 1] == CR && s[j] == LF);
                assert(has_crlf(s));
            } else {
                assert(t[j + 1] == CR);
            }
        }
    }
    lemma_first_crlf_from(t, 1);
    match first_crlf(t) {
        Some(e) => {
            if e < e0 {
                assert(crlf_at(t, e));
                assert(false);
            }
            if e > e0 {
                assert(!crlf_at(t, e0));
                assert(false);
            }
        },
        None => {
            assert(!crlf_at(t, e0));
            assert(false);
        },
    }
    assert(t.subrange(1, e0) =~= s);
}

/// Reading a length header from its own encoding yields the count back.
pub proof fn lemma_length_enc(n: nat, p: u8, rest: Seq<u8>)
    requires
        n <= usize::MAX,
    ensures
        length_step(seq![p] + dec_digits(n) + crlf() + rest, p) == (Step::<int>::Done {
            v: n as int,
            used: dec_digits(n).len() + 3int,
        }),
{
    let d = dec_digits(n);
    lemma_dec_digits_all(n);
    lemma_digits_no_crlf(d);
    lemma_line_enc(d, p, rest);
    lemma_dec_val_of_digits(n);
    assert(48 <= d[0] <= 57);
}

/// Every encoding is at least three bytes long.
pub proof fn lemma_enc_min(m: FrameModel)
    ensures
        enc_model(m).len() >= 3,
{
    match m {
        FrameModel::Int(n) => {
            lemma_dec_digits_all(
                if n >= 0 {
                    n as nat
                } else {
                    (-n) as nat
                },
            );
        },
        FrameModel::Bulk(s) => {
            lemma_dec_digits_all(s.len());
        },
        FrameModel::Arr(es) => {
            lemma_dec_digits_all(es.len());
        },
        FrameModel::Dict(es) => {
            lemma_dec_digits_all(es.len());
        },
        FrameModel::SetOf(es) => {
            lemma_dec_digits_all(es.len());
        },
        _ => {},
    }
}

/// The length predicate measures an encoded frame exactly, whatever
/// follows it.
#[verifier::rlimit(100)]
pub proof fn lemma_enc_len(m: FrameModel, rest: Seq<u8>)
    requires
        wf_model(m),
    ensures
        frame_len(enc_model(m) + rest) == (LenStep::Len { n: enc_model(m).len() as int }),
    decreases m, 2int,
{
    let t = enc_model(m) + rest;
    match m {
        FrameModel::Simple(s) => {
            assert(t =~= seq![43u8] + s + crlf() + rest);
            lemma_line_enc(s, 43, rest);
        },
        FrameModel::Error(s) => {
            assert(t =~= seq![45u8] + s + crlf() + rest);
            lemma_line_enc(s, 45, rest);
        },
        FrameModel::Int(n) => {
            let sd = signed_dec(n);
            assert(t =~= seq![58u8] + sd + crlf() + rest);
            lemma_dec_digits_all(
                if n >= 0 {
                    n as nat
                } else {
                    (-n) as nat
                },
            );
            assert(!has_crlf(sd)) by {
                assert(forall|i: int|
                    1 <= i < sd.len() ==> 48 <= #[trigger] sd[i] <= 57);
            }
            lemma_line_enc(sd, 58, rest);
        },
        FrameModel::Dbl(s) => {
            assert(t =~= seq![44u8] + s + crlf() + rest);
            lemma_double_no_crlf(s);
            lemma_line_enc(s, 44, rest);
        },
        FrameModel::Bulk(s) => {
            let d = dec_digits(s.len());
            assert(t =~= seq![36u8] + d + crlf() + (s + crlf() + rest));
            lemma_length_enc(s.len(), 36, s + crlf() + rest);
            lemma_dec_digits_all(s.len());
            // the null form is ruled out by the digit at index 1
            assert(t[1] == d[0] && 48 <= d[0] <= 57);
            if t.len() >= 5 {
                assert(t.take(5)[1] == t[1]);
                assert(lit_null_bulk()[1] == 45u8);
                assert(t.take(5) != lit_null_bulk());
            } else {
                assert(lit_null_bulk().take(t.len() as int)[1] == 45u8);
                assert(t != lit_null_bulk().take(t.len() as int));
            }
            assert(fixed_step(t, lit_null_bulk()) is Fail);
        },
        FrameModel::NullBulk => {
            assert(t.take(5) =~= lit_null_bulk());
            assert(fixed_step(t, lit_null_bulk()) is Done);
        },
        FrameModel::NullArr => {
            assert(t.take(5) =~= lit_null_array());
            assert(fixed_step(t, lit_null_array()) is Done);
        },
        FrameModel::Null => {
            assert(t[0] == 95u8);
        },
        FrameModel::Bool(b) => {
            assert(t[0] == 35u8);
        },
        FrameModel::Arr(es) => {
            lemma_run_enc_len(es, rest, 42);
        },
        FrameModel::SetOf(es) => {
            lemma_run_enc_len(es, rest, 126);
        },
        FrameModel::Dict(es) => {
            let d = dec_digits(es.len());
            let body = enc_entries(es);
            assert(t =~= seq![37u8] + d + crlf() + (body + rest));
            lemma_length_enc(es.len(), 37, body + rest);
            let h = d.len() + 3;
            assert(t.skip(h as int) =~= body + rest);
            lemma_enc_len_pairs(es, rest);
            assert(comp_frame_len(t, 37) == (LenStep::Len { n: h + body.len() as int }));
            assert(enc_model(m).len() == h + body.len());
        },
    }
}

/// Shared measurement argument for the `*` and `~` composites.
pub proof fn lemma_run_enc_len(es: Seq<FrameModel>, rest: Seq<u8>, p: u8)
    requires
        p == 42 || p == 126,
        es.len() <= usize::MAX,
        forall|i: int| 0 <= i < es.len() ==> wf_model(#[trigger] es[i]),
    ensures
        frame_len(seq![p] + dec_digits(es.len()) + crlf() + enc_frames(es) + rest) == (LenStep::Len {
            n: 3 + dec_digits(es.len()).len() + enc_frames(es).len() as int,
        }),
    decreases es, 1int,
{
    let d = dec_digits(es.len());
    let body = enc_frames(es);
    let t = seq![p] + d + crlf() + body + rest;
    assert(t =~= seq![p] + d + crlf() + (body + rest));
    lemma_length_enc(es.len(), p, body + rest);
    lemma_dec_digits_all(es.len());
    let h = d.len() + 3;
    assert(t.skip(h as int) =~= body + rest);
    lemma_enc_len_frames(es, rest);
    if p == 42 {
        assert(t[1] == d[0] && 48 <= d[0] <= 57);
        if t.len() >= 5 {
            assert(t.take(5)[1] == t[1]);
            assert(lit_null_array()[1] == 45u8);
            assert(t.take(5) != lit_null_array());
        } else {
            assert(lit_null_array().take(t.len() as int)[1] == 45u8);
            assert(t != lit_null_array().take(t.len() as int));
        }
        assert(fixed_step(t, lit_null_array()) is Fail);
    }
    assert(comp_frame_len(t, p) == (LenStep::Len { n: h + body.len() as int }));
}

/// The children of a composite measure to exactly their encodings, one
/// after another.
pub proof fn lemma_enc_len_frames(es: Seq<FrameModel>, rest: Seq<u8>)
    requires
        forall|i: int| 0 <= i < es.len() ==> wf_model(#[trigger] es[i]),
    ensures
        comp_len(enc_frames(es) + rest, es.len() as int) == (LenStep::Len {
            n: enc_frames(es).len() as int,
        }),
    decreases es, 0int,
{
    if es.len() == 0 {
        assert(enc_frames(es).len() == 0);
    } else {
        let first = es.first();
        let tail = es.drop_first();
        let t = enc_frames(es) + rest;
        assert(t =~= enc_model(first) + (enc_frames(tail) + rest));
        lemma_enc_len(first, enc_frames(tail) + rest);
        lemma_enc_min(first);
        let l1 = enc_model(first).len() as int;
        assert(t.skip(l1) =~= enc_frames(tail) + rest);
        lemma_enc_len_frames(tail, rest);
        assert(enc_frames(es).len() == l1 + enc_frames(tail).len());
    }
}

/// The pairs of a map measure to exactly their encodings.
pub proof fn lemma_enc_len_pairs(es: Seq<(Seq<u8>, FrameModel)>, rest: Seq<u8>)
    requires
        forall|i: int| 0 <= i < es.len() ==> !has_crlf((#[trigger] es[i]).0),
        forall|i: int| 0 <= i < es.len() ==> wf_model((#[trigger] es[i]).1),
    ensures
        pair_len(enc_entries(es) + rest, es.len() as int) == (LenStep::Len {
            n: enc_entries(es).len() as int,
        }),
    decreases es, 0int,
{
    if es.len() == 0 {
        assert(enc_entries(es).len() == 0);
    } else {
        let first = es.first();
        let tail = es.drop_first();
        let t = enc_entries(es) + rest;
        let vrest = enc_model(first.1) + enc_entries(tail) + rest;
        assert(t =~= seq![43u8] + first.0 + crlf() + (enc_model(first.1) + (enc_entries(tail)
            + rest)));
        lemma_line_enc(first.0, 43, enc_model(first.1) + (enc_entries(tail) + rest));
        let ke = first.0.len() + 3;
        assert(t.skip(ke as int) =~= enc_model(first.1) + (enc_entries(tail) + rest));
        lemma_enc_len(first.1, enc_entries(tail) + rest);
        lemma_enc_min(first.1);
        let ve = enc_model(first.1).len() as int;
        assert(t.skip(ke + ve) =~= enc_entries(tail) + rest);
        lemma_enc_len_pairs(tail, rest);
        assert(enc_entries(es).len() == ke + ve + enc_entries(tail).len());
    }
}

pub proof fn lemma_lex_trans(a: Seq<u8>, b: Seq<u8>, c: Seq<u8>)
    requires
        lex_lt(a, b),
        lex_lt(b, c),
    ensures
        lex_lt(a, c),
    decreases a.len(),
{
    if a.len() > 0 && b.len() > 0 && c.len() > 0 && a[0] == b[0] && b[0] == c[0] {
        lemma_lex_trans(a.drop_first(), b.drop_first(), c.drop_first());
    }
}

/// Inserting a key larger than everything present appends it.
pub proof fn lemma_map_insert_append(
    acc: Seq<(Seq<u8>, FrameModel)>,
    k: Seq<u8>,
    v: FrameModel,
)
    requires
        forall|i: int| 0 <= i < acc.len() ==> lex_lt((#[trigger] acc[i]).0, k),
    ensures
        map_insert(acc, k, v) == acc.push((k, v)),
    decreases acc.len(),
{
    if acc.len() == 0 {
        assert(map_insert(acc, k, v) =~= acc.push((k, v)));
    } else {
        lemma_lex_asym(acc[0].0, k);
        lemma_map_insert_append(acc.drop_first(), k, v);
        assert(seq![acc[0]] + acc.drop_first().push((k, v)) =~= acc.push((k, v)));
    }
}

/// In a strictly ascending entry sequence every earlier key sorts before
/// every later key.
pub proof fn lemma_lex_chain(es: Seq<(Seq<u8>, FrameModel)>, i: int, j: int)
    requires
        forall|x: int| 0 <= x && x + 1 < es.len() ==> lex_lt(#[trigger] es[x].0, es[x + 1].0),
        0 <= i < j < es.len(),
    ensures
        lex_lt(es[i].0, es[j].0),
    decreases j - i,
{
    if j == i + 1 {
    } else {
        lemma_lex_chain(es, i, j - 1);
        lemma_lex_trans(es[i].0, es[j - 1].0, es[j].0);
    }
}

/// Parsing an encoded well-formed frame yields it back and consumes
/// exactly its encoding, whatever follows it.
#[verifier::rlimit(100)]
pub proof fn lemma_enc_parse(m: FrameModel, rest: Seq<u8>)
    requires
        wf_model(m),
    ensures
        frame_step(enc_model(m) + rest) == (Step::<FrameModel>::Done {
            v: m,
            used: enc_model(m).len() as int,
        }),
    decreases m, 2int,
{
    let t = enc_model(m) + rest;
    match m {
        FrameModel::Simple(s) => {
            assert(t =~= seq![43u8] + s + crlf() + rest);
            lemma_line_enc(s, 43, rest);
        },
        FrameModel::Error(s) => {
            assert(t =~= seq![45u8] + s + crlf() + rest);
            lemma_line_enc(s, 45, rest);
        },
        FrameModel::Int(n) => {
            let sd = signed_dec(n);
            let mag: nat = if n >= 0 {
                n as nat
            } else {
                (-n) as nat
            };
            lemma_dec_digits_all(mag);
            lemma_dec_val_of_digits(mag);
            assert(t =~= seq![58u8] + sd + crlf() + rest);
            assert(!has_crlf(sd)) by {
                assert(forall|i: int| 1 <= i < sd.len() ==> 48 <= #[trigger] sd[i] <= 57);
            }
            lemma_line_enc(sd, 58, rest);
            assert(sd.drop_first() =~= dec_digits(mag));
            assert(spec_i64(sd) == Some(n));
        },
        FrameModel::Dbl(s) => {
            assert(t =~= seq![44u8] + s + crlf() + rest);
            lemma_double_no_crlf(s);
            lemma_line_enc(s, 44, rest);
        },
        FrameModel::Bulk(s) => {
            let d = dec_digits(s.len());
            assert(t =~= seq![36u8] + d + crlf() + (s + crlf() + rest));
            lemma_length_enc(s.len(), 36, s + crlf() + rest);
            lemma_dec_digits_all(s.len());
            assert(t[1] == d[0] && 48 <= d[0] <= 57);
            if t.len() >= 5 {
                assert(t.take(5)[1] == t[1]);
                assert(t.take(5) != lit_null_bulk());
            } else {
                assert(lit_null_bulk().take(t.len() as int)[1] == 45u8);
                assert(t != lit_null_bulk().take(t.len() as int));
            }
            assert(fixed_step(t, lit_null_bulk()) is Fail);
            let h = d.len() + 3;
            assert(t.len() >= h + s.len() + 2);
            assert(t.subrange(h as int, h + s.len() as int) =~= s);
        },
        FrameModel::NullBulk => {
            assert(t.take(5) =~= lit_null_bulk());
            assert(fixed_step(t, lit_null_bulk()) is Done);
        },
        FrameModel::NullArr => {
            assert(t.take(5) =~= lit_null_array());
            assert(fixed_step(t, lit_null_array()) is Done);
        },
        FrameModel::Null => {
            assert(t.take(3) =~= lit_null());
            assert(fixed_step(t, lit_null()) is Done);
        },
        FrameModel::Bool(b) => {
            if b {
                assert(t.take(4) =~= lit_true());
                assert(fixed_step(t, lit_true()) is Done);
            } else {
                assert(t.take(4) =~= lit_false());
                assert(t[1] == 102u8);
                if t.len() >= 4 {
                    assert(t.take(4)[1] == t[1]);
                    assert(t.take(4) != lit_true());
                }
                assert(fixed_step(t, lit_true()) is Fail);
                assert(fixed_step(t, lit_false()) is Done);
            }
        },
        FrameModel::Arr(es) => {
            lemma_run_enc_parse(es, rest, 42);
        },
        FrameModel::SetOf(es) => {
            lemma_run_enc_parse(es, rest, 126);
        },
        FrameModel::Dict(es) => {
            let d = dec_digits(es.len());
            let body = enc_entries(es);
            assert(t =~= seq![37u8] + d + crlf() + (body + rest));
            lemma_length_enc(es.len(), 37, body + rest);
            let h = d.len() + 3;
            assert(t.skip(h as int) =~= body + rest);
            lemma_enc_len_pairs(es, rest);
            assert forall|i1: int, i2: int|
                0 <= i1 < 0 && 0 <= i2 < es.len() implies lex_lt(
                (Seq::<(Seq<u8>, FrameModel)>::empty()[i1]).0,
                es[i2].0,
            ) by {}
            lemma_enc_parse_pairs(es, rest, Seq::empty());
            assert(Seq::<(Seq<u8>, FrameModel)>::empty() + es =~= es);
            assert(dict_step(t) == (Step::<Seq<(Seq<u8>, FrameModel)>>::Done {
                v: es,
                used: h + body.len() as int,
            }));
        },
    }
}

/// Shared parsing argument for the `*` and `~` composites.
pub proof fn lemma_run_enc_parse(es: Seq<FrameModel>, rest: Seq<u8>, p: u8)
    requires
        p == 42 || p == 126,
        es.len() <= usize::MAX,
        forall|i: int| 0 <= i < es.len() ==> wf_model(#[trigger] es[i]),
    ensures
        ({
            let t = seq![p] + dec_digits(es.len()) + crlf() + enc_frames(es) + rest;
            &&& run_body_step(t, p) == (Step::<Seq<FrameModel>>::Done {
                v: es,
                used: 3 + dec_digits(es.len()).len() + enc_frames(es).len() as int,
            })
            &&& (p == 42 ==> fixed_step(t, lit_null_array()) is Fail)
        }),
    decreases es, 1int,
{
    let d = dec_digits(es.len());
    let body = enc_frames(es);
    let t = seq![p] + d + crlf() + body + rest;
    assert(t =~= seq![p] + d + crlf() + (body + rest));
    lemma_length_enc(es.len(), p, body + rest);
    lemma_dec_digits_all(es.len());
    let h = d.len() + 3;
    assert(t.skip(h as int) =~= body + rest);
    lemma_enc_len_frames(es, rest);
    lemma_enc_parse_frames(es, rest);
    if p == 42 {
        assert(t[1] == d[0] && 48 <= d[0] <= 57);
        if t.len() >= 5 {
            assert(t.take(5)[1] == t[1]);
            assert(t.take(5) != lit_null_array());
        } else {
            assert(lit_null_array().take(t.len() as int)[1] == 45u8);
            assert(t != lit_null_array().take(t.len() as int));
        }
        assert(fixed_step(t, lit_null_array()) is Fail);
    }
}

/// The children of a composite parse back one after another.
pub proof fn lemma_enc_parse_frames(es: Seq<FrameModel>, rest: Seq<u8>)
    requires
        forall|i: int| 0 <= i < es.len() ==> wf_model(#[trigger] es[i]),
    ensures
        seq_step(enc_frames(es) + rest, es.len() as int) == (Step::<Seq<FrameModel>>::Done {
            v: es,
            used: enc_frames(es).len() as int,
        }),
    decreases es, 0int,
{
    if es.len() == 0 {
        assert(enc_frames(es).len() == 0);
        assert(es =~= Seq::<FrameModel>::empty());
    } else {
        let first = es.first();
        let tail = es.drop_first();
        let t = enc_frames(es) + rest;
        assert(t =~= enc_model(first) + (enc_frames(tail) + rest));
        lemma_enc_parse(first, enc_frames(tail) + rest);
        lemma_enc_min(first);
        let l1 = enc_model(first).len() as int;
        assert(t.skip(l1) =~= enc_frames(tail) + rest);
        lemma_enc_parse_frames(tail, rest);
        assert(seq![first] + tail =~= es);
        assert(enc_frames(es).len() == l1 + enc_frames(tail).len());
    }
}

/// The pairs of a map parse back in order; inserting ascending keys into
/// the map accumulator appends them, so the map comes back exactly.
#[verifier::rlimit(100)]
pub proof fn lemma_enc_parse_pairs(
    es: Seq<(Seq<u8>, FrameModel)>,
    rest: Seq<u8>,
    acc: Seq<(Seq<u8>, FrameModel)>,
)
    requires
        forall|i: int| 0 <= i < es.len() ==> !has_crlf((#[trigger] es[i]).0),
        forall|i: int| 0 <= i < es.len() ==> wf_model((#[trigger] es[i]).1),
        forall|x: int| 0 <= x && x + 1 < es.len() ==> lex_lt(#[trigger] es[x].0, es[x + 1].0),
        forall|i1: int, i2: int|
            0 <= i1 < acc.len() && 0 <= i2 < es.len() ==> lex_lt(
                (#[trigger] acc[i1]).0,
                (#[trigger] es[i2]).0,
            ),
    ensures
        pair_step(enc_entries(es) + rest, es.len() as int, acc) == (Step::<
            Seq<(Seq<u8>, FrameModel)>,
        >::Done { v: acc + es, used: enc_entries(es).len() as int }),
    decreases es, 0int,
{
    if es.len() == 0 {
        assert(enc_entries(es).len() == 0);
        assert(acc + es =~= acc);
    } else {
        let first = es.first();
        let tail = es.drop_first();
        let t = enc_entries(es) + rest;
        assert(t =~= seq![43u8] + first.0 + crlf() + (enc_model(first.1) + (enc_entries(tail)
            + rest)));
        lemma_line_enc(first.0, 43, enc_model(first.1) + (enc_entries(tail) + rest));
        let ke = first.0.len() + 3;
        assert(t.skip(ke as int) =~= enc_model(first.1) + (enc_entries(tail) + rest));
        lemma_enc_parse(first.1, enc_entries(tail) + rest);
        lemma_enc_min(first.1);
        let ve = enc_model(first.1).len() as int;
        assert(t.skip(ke + ve) =~= enc_entries(tail) + rest);
        lemma_map_insert_append(acc, first.0, first.1);
        let acc2 = acc.push(first);
        assert(acc2 == map_insert(acc, first.0, first.1));
        assert forall|x: int| 0 <= x && x + 1 < tail.len() implies lex_lt(
            #[trigger] tail[x].0,
            tail[x + 1].0,
        ) by {
            assert(tail[x] == es[x + 1] && tail[x + 1] == es[x + 2]);
        }
        assert forall|i1: int, i2: int|
            0 <= i1 < acc2.len() && 0 <= i2 < tail.len() implies lex_lt(
            (#[trigger] acc2[i1]).0,
            (#[trigger] tail[i2]).0,
        ) by {
            assert(tail[i2] == es[i2 + 1]);
            if i1 < acc.len() {
                assert(acc2[i1] == acc[i1]);
            } else {
                assert(acc2[i1] == first);
                lemma_lex_chain(es, 0, i2 + 1);
            }
        }
        lemma_enc_parse_pairs(tail, rest, acc2);
        assert(acc2 + tail =~= acc + es);
        assert(enc_entries(es).len() == ke + ve + enc_entries(tail).len());
    }
}

/// A strict prefix of a line frame never shows a complete line.
pub proof fn lemma_line_prefix(s: Seq<u8>, p: u8, c: int)
    requires
        !has_crlf(s),
        0 <= c < s.len() + 3,
    ensures
        line_step((seq![p] + s + crlf()).take(c), p) is More,
        first_crlf((seq![p] + s + crlf()).take(c)) is None,
{
    let full = seq![p] + s + crlf();
    let q = full.take(c);
    assert forall|j: int| j >= 1 implies !crlf_at(q, j) by {
        if crlf_at(q, j) {
            assert(q[j] == full[j] && q[j + 1] == full[j + 1]);
            if j + 1 <= s.len() {
                assert(s[j - 1] == CR && s[j] == LF);
                assert(has_crlf(s));
            } else {
                assert(full[j + 1] == CR);
            }
        }
    }
    lemma_first_crlf_from(q, 1);
    match first_crlf(q) {
        Some(e) => {
            assert(crlf_at(q, e));
            assert(false);
        },
        None => {},
    }
}

/// A strict prefix of a fixed literal asks for more bytes.
pub proof fn lemma_fixed_prefix(lit: Seq<u8>, c: int)
    requires
        0 <= c < lit.len(),
    ensures
        fixed_step(lit.take(c), lit) is More,
{
    assert(lit.take(c) =~= lit.take(lit.take(c).len() as int));
}

/// The length predicate on a strict prefix of an encoding either asks for
/// more bytes or reports a span larger than the prefix.
#[verifier::rlimit(100)]
pub proof fn lemma_enc_len_prefix(m: FrameModel, c: int)
    requires
        wf_model(m),
        0 <= c < enc_model(m).len(),
    ensures
        frame_len(enc_model(m).take(c)) is More || (frame_len(enc_model(m).take(c))
            matches LenStep::Len { n: e } && e > c),
    decreases m, 2int,
{
    let full = enc_model(m);
    let q = full.take(c);
    if c == 0 {
    } else {
        match m {
            FrameModel::Simple(s) => {
                assert(q =~= (seq![43u8] + s + crlf()).take(c));
                lemma_line_prefix(s, 43, c);
            },
            FrameModel::Error(s) => {
                assert(q =~= (seq![45u8] + s + crlf()).take(c));
                lemma_line_prefix(s, 45, c);
            },
            FrameModel::Int(n) => {
                let sd = signed_dec(n);
                lemma_dec_digits_all(
                    if n >= 0 {
                        n as nat
                    } else {
                        (-n) as nat
                    },
                );
                assert(!has_crlf(sd)) by {
                    assert(forall|i: int| 1 <= i < sd.len() ==> 48 <= #[trigger] sd[i] <= 57);
                }
                assert(q =~= (seq![58u8] + sd + crlf()).take(c));
                lemma_line_prefix(sd, 58, c);
            },
            FrameModel::Dbl(s) => {
                lemma_double_no_crlf(s);
                assert(q =~= (seq![44u8] + s + crlf()).take(c));
                lemma_line_prefix(s, 44, c);
            },
            FrameModel::Bulk(s) => {
                let d = dec_digits(s.len());
                lemma_dec_digits_all(s.len());
                lemma_digits_no_crlf(d);
                let h = d.len() + 3;
                if c == 1 {
                    assert(q =~= lit_null_bulk().take(1));
                    lemma_fixed_prefix(lit_null_bulk(), 1);
                } else {
                    assert(q[1] == d[0] && 48 <= d[0] <= 57);
                    lemma_null_probe_fails(q, lit_null_bulk());
                    if c <= h - 1 {
                        assert(q =~= (seq![36u8] + d + crlf()).take(c));
                        lemma_line_prefix(d, 36, c);
                    } else {
                        assert(q =~= seq![36u8] + d + crlf() + (s + crlf()).take(c - h));
                        lemma_length_enc(s.len(), 36, (s + crlf()).take(c - h));
                    }
                }
            },
            FrameModel::NullBulk => {
                assert(q =~= lit_null_bulk().take(c));
                lemma_fixed_prefix(lit_null_bulk(), c);
            },
            FrameModel::NullArr => {
                assert(q =~= lit_null_array().take(c));
                lemma_fixed_prefix(lit_null_array(), c);
            },
            FrameModel::Null => {
                assert(q[0] == 95u8);
            },
            FrameModel::Bool(b) => {
                assert(q[0] == 35u8);
            },
            FrameModel::Arr(es) => {
                lemma_run_prefix_len(es, c, 42);
            },
            FrameModel::SetOf(es) => {
                lemma_run_prefix_len(es, c, 126);
            },
            FrameModel::Dict(es) => {
                let d = dec_digits(es.len());
                lemma_dec_digits_all(es.len());
                lemma_digits_no_crlf(d);
                let h = d.len() + 3;
                let body = enc_entries(es);
                if c <= h - 1 {
                    assert(q =~= (seq![37u8] + d + crlf()).take(c));
                    lemma_line_prefix(d, 37, c);
                } else {
                    assert(q =~= seq![37u8] + d + crlf() + body.take(c - h));
                    lemma_length_enc(es.len(), 37, body.take(c - h));
                    assert(q.skip(h as int) =~= body.take(c - h));
                    lemma_pairs_prefix(es, c - h);
                }
            },
        }
    }
}

/// The null-form probe fails on anything whose second byte is a digit.
pub proof fn lemma_null_probe_fails(q: Seq<u8>, lit: Seq<u8>)
    requires
        q.len() >= 2,
        lit.len() >= 2,
        lit[1] == 45,
        48 <= q[1] <= 57,
    ensures
        fixed_step(q, lit) is Fail,
{
    if q.len() >= lit.len() {
        assert(q.take(lit.len() as int)[1] == q[1]);
    } else {
        assert(lit.take(q.len() as int)[1] == lit[1]);
    }
}

/// Length-prefix argument shared by `*` and `~`.
pub proof fn lemma_run_prefix_len(es: Seq<FrameModel>, c: int, p: u8)
    requires
        p == 42 || p == 126,
        es.len() <= usize::MAX,
        forall|i: int| 0 <= i < es.len() ==> wf_model(#[trigger] es[i]),
        0 < c < (seq![p] + dec_digits(es.len()) + crlf() + enc_frames(es)).len(),
    ensures
        ({
            let q = (seq![p] + dec_digits(es.len()) + crlf() + enc_frames(es)).take(c);
            frame_len(q) is More
        }),
    decreases es, 1int,
{
    let d = dec_digits(es.len());
    lemma_dec_digits_all(es.len());
    lemma_digits_no_crlf(d);
    let h = d.len() + 3;
    let body = enc_frames(es);
    let full = seq![p] + d + crlf() + body;
    let q = full.take(c);
    if c == 1 {
        if p == 42 {
            assert(q =~= lit_null_array().take(1));
            lemma_fixed_prefix(lit_null_array(), 1);
        }
    } else {
        assert(q[1] == d[0] && 48 <= d[0] <= 57);
        if p == 42 {
            lemma_null_probe_fails(q, lit_null_array());
        }
        if c <= h - 1 {
            assert(q =~= (seq![p] + d + crlf()).take(c));
            lemma_line_prefix(d, p, c);
        } else {
            assert(q =~= seq![p] + d + crlf() + body.take(c - h));
            lemma_length_enc(es.len(), p, body.take(c - h));
            assert(q.skip(h as int) =~= body.take(c - h));
            lemma_frames_prefix(es, c - h);
        }
    }
}

/// A strict prefix of a run of encoded children never measures complete.
pub proof fn lemma_frames_prefix(es: Seq<FrameModel>, c: int)
    requires
        forall|i: int| 0 <= i < es.len() ==> wf_model(#[trigger] es[i]),
        0 <= c < enc_frames(es).len(),
    ensures
        comp_len(enc_frames(es).take(c), es.len() as int) is More,
    decreases es, 0int,
{
    let first = es.first();
    let tail = es.drop_first();
    let body = enc_frames(es);
    let q = body.take(c);
    let l1 = enc_model(first).len() as int;
    lemma_enc_min(first);
    if c < l1 {
        assert(q =~= enc_model(first).take(c));
        lemma_enc_len_prefix(first, c);
    } else {
        assert(q =~= enc_model(first) + enc_frames(tail).take(c - l1));
        lemma_enc_len(first, enc_frames(tail).take(c - l1));
        assert(q.skip(l1) =~= enc_frames(tail).take(c - l1));
        lemma_frames_prefix(tail, c - l1);
    }
}

/// A strict prefix of a run of encoded pairs never measures complete.
pub proof fn lemma_pairs_prefix(es: Seq<(Seq<u8>, FrameModel)>, c: int)
    requires
        forall|i: int| 0 <= i < es.len() ==> !has_crlf((#[trigger] es[i]).0),
        forall|i: int| 0 <= i < es.len() ==> wf_model((#[trigger] es[i]).1),
        0 <= c < enc_entries(es).len(),
    ensures
        pair_len(enc_entries(es).take(c), es.len() as int) is More,
    decreases es, 0int,
{
    let first = es.first();
    let tail = es.drop_first();
    let body = enc_entries(es);
    let q = body.take(c);
    let ke = first.0.len() + 3;
    let ve = enc_model(first.1).len() as int;
    lemma_enc_min(first.1);
    if c < ke {
        assert(q =~= (seq![43u8] + first.0 + crlf()).take(c));
        lemma_line_prefix(first.0, 43, c);
    } else {
        if c < ke + ve {
            assert(q =~= seq![43u8] + first.0 + crlf() + enc_model(first.1).take(c - ke));
            lemma_line_enc(first.0, 43, enc_model(first.1).take(c - ke));
            assert(q.skip(ke as int) =~= enc_model(first.1).take(c - ke));
            lemma_enc_len_prefix(first.1, c - ke);
        } else {
            assert(q =~= seq![43u8] + first.0 + crlf() + (enc_model(first.1) + enc_entries(
                tail,
            ).take(c - ke - ve)));
            lemma_line_enc(first.0, 43, enc_model(first.1) + enc_entries(tail).take(c - ke - ve));
            assert(q.skip(ke as int) =~= enc_model(first.1) + enc_entries(tail).take(c - ke - ve));
            lemma_enc_len(first.1, enc_entries(tail).take(c - ke - ve));
            assert(q.skip(ke as int).skip(ve) =~= enc_entries(tail).take(c - ke - ve));
            assert(q.skip(ke + ve) =~= enc_entries(tail).take(c - ke - ve));
            lemma_pairs_prefix(tail, c - ke - ve);
        }
    }
}

/// Parsing a strict prefix of an encoding always asks for more bytes.
#[verifier::rlimit(100)]
pub proof fn lemma_enc_prefix(m: FrameModel, c: int)
    requires
        wf_model(m),
        0 <= c < enc_model(m).len(),
    ensures
        frame_step(enc_model(m).take(c)) is More,
    decreases m,
{
    let full = enc_model(m);
    let q = full.take(c);
    if c == 0 {
    } else {
        match m {
            FrameModel::Simple(s) => {
                assert(q =~= (seq![43u8] + s + crlf()).take(c));
                lemma_line_prefix(s, 43, c);
            },
            FrameModel::Error(s) => {
                assert(q =~= (seq![45u8] + s + crlf()).take(c));
                lemma_line_prefix(s, 45, c);
            },
            FrameModel::Int(n) => {
                let sd = signed_dec(n);
                lemma_dec_digits_all(
                    if n >= 0 {
                        n as nat
                    } else {
                        (-n) as nat
                    },
                );
                assert(!has_crlf(sd)) by {
                    assert(forall|i: int| 1 <= i < sd.len() ==> 48 <= #[trigger] sd[i] <= 57);
                }
                assert(q =~= (seq![58u8] + sd + crlf()).take(c));
                lemma_line_prefix(sd, 58, c);
            },
            FrameModel::Dbl(s) => {
                lemma_double_no_crlf(s);
                assert(q =~= (seq![44u8] + s + crlf()).take(c));
                lemma_line_prefix(s, 44, c);
            },
            FrameModel::Bulk(s) => {
                let d = dec_digits(s.len());
                lemma_dec_digits_all(s.len());
                lemma_digits_no_crlf(d);
                let h = d.len() + 3;
                if c == 1 {
                    assert(q =~= lit_null_bulk().take(1));
                    lemma_fixed_prefix(lit_null_bulk(), 1);
                } else {
                    assert(q[1] == d[0] && 48 <= d[0] <= 57);
                    lemma_null_probe_fails(q, lit_null_bulk());
                    if c <= h - 1 {
                        assert(q =~= (seq![36u8] + d + crlf()).take(c));
                        lemma_line_prefix(d, 36, c);
                    } else {
                        assert(q =~= seq![36u8] + d + crlf() + (s + crlf()).take(c - h));
                        lemma_length_enc(s.len(), 36, (s + crlf()).take(c - h));
                        assert(q.len() < h + s.len() + 2);
                    }
                }
            },
            FrameModel::NullBulk => {
                assert(q =~= lit_null_bulk().take(c));
                lemma_fixed_prefix(lit_null_bulk(), c);
            },
            FrameModel::NullArr => {
                assert(q =~= lit_null_array().take(c));
                lemma_fixed_prefix(lit_null_array(), c);
            },
            FrameModel::Null => {
                assert(q =~= lit_null().take(c));
                lemma_fixed_prefix(lit_null(), c);
            },
            FrameModel::Bool(b) => {
                if b {
                    assert(q =~= lit_true().take(c));
                    lemma_fixed_prefix(lit_true(), c);
                } else {
                    assert(q =~= lit_false().take(c));
                    lemma_fixed_prefix(lit_false(), c);
                    if c >= 2 {
                        assert(q[1] == 102u8);
                        if q.len() >= 4 {
                            assert(q.take(4)[1] == q[1]);
                        } else {
                            assert(lit_true().take(q.len() as int)[1] == lit_true()[1]);
                        }
                        assert(fixed_step(q, lit_true()) is Fail);
                    } else {
                        assert(q =~= lit_true().take(c));
                        lemma_fixed_prefix(lit_true(), c);
                    }
                }
            },
            FrameModel::Arr(es) => {
                lemma_run_prefix_step(es, c, 42);
            },
            FrameModel::SetOf(es) => {
                lemma_run_prefix_step(es, c, 126);
            },
            FrameModel::Dict(es) => {
                let d = dec_digits(es.len());
                lemma_dec_digits_all(es.len());
                lemma_digits_no_crlf(d);
                let h = d.len() + 3;
                let body = enc_entries(es);
                if c <= h - 1 {
                    assert(q =~= (seq![37u8] + d + crlf()).take(c));
                    lemma_line_prefix(d, 37, c);
                } else {
                    assert(q =~= seq![37u8] + d + crlf() + body.take(c - h));
                    lemma_length_enc(es.len(), 37, body.take(c - h));
                    assert(q.skip(h as int) =~= body.take(c - h));
                    lemma_pairs_prefix(es, c - h);
                }
            },
        }
    }
}

/// Parse-prefix argument shared by `*` and `~`.
pub proof fn lemma_run_prefix_step(es: Seq<FrameModel>, c: int, p: u8)
    requires
        p == 42 || p == 126,
        es.len() <= usize::MAX,
        forall|i: int| 0 <= i < es.len() ==> wf_model(#[trigger] es[i]),
        0 < c < (seq![p] + dec_digits(es.len()) + crlf() + enc_frames(es)).len(),
    ensures
        ({
            let q = (seq![p] + dec_digits(es.len()) + crlf() + enc_frames(es)).take(c);
            frame_step(q) is More
        }),
    decreases es, 1int,
{
    let d = dec_digits(es.len());
    lemma_dec_digits_all(es.len());
    lemma_digits_no_crlf(d);
    let h = d.len() + 3;
    let body = enc_frames(es);
    let full = seq![p] + d + crlf() + body;
    let q = full.take(c);
    if c == 1 {
        if p == 42 {
            assert(q =~= lit_null_array().take(1));
            lemma_fixed_prefix(lit_null_array(), 1);
        }
    } else {
        assert(q[1] == d[0] && 48 <= d[0] <= 57);
        if p == 42 {
            lemma_null_probe_fails(q, lit_null_array());
        }
        if c <= h - 1 {
            assert(q =~= (seq![p] + d + crlf()).take(c));
            lemma_line_prefix(d, p, c);
        } else {
            assert(q =~= seq![p] + d + crlf() + body.take(c - h));
            lemma_length_enc(es.len(), p, body.take(c - h));
            assert(q.skip(h as int) =~= body.take(c - h));
            lemma_frames_prefix(es, c - h);
        }
    }
}

/// Law: decoding an encoding restores the frame. For every well-formed
/// frame, parsing its wire bytes yields the same frame back and consumes
/// the whole buffer.
pub proof fn lemma_round_trip(m: FrameModel)
    requires
        wf_model(m),
    ensures
        frame_step(enc_model(m)) == (Step::<FrameModel>::Done {
            v: m,
            used: enc_model(m).len() as int,
        }),
{
    lemma_enc_parse(m, Seq::empty());
    assert(enc_model(m) + Seq::<u8>::empty() =~= enc_model(m));
}

/// Law: no strict prefix of an encoding is a complete frame; the parser
/// asks for more bytes and, by its contract, the decoder leaves such a
/// buffer untouched.
pub proof fn lemma_prefix_incomplete(m: FrameModel, c: int)
    requires
        wf_model(m),
        0 <= c < enc_model(m).len(),
    ensures
        frame_step(enc_model(m).take(c)) is More,
{
    lemma_enc_prefix(m, c);
}

/// Law: two encodings back to back decode one after the other: the first
/// parse consumes exactly the first encoding and leaves the second, which
/// then parses on its own.
pub proof fn lemma_pipeline(m1: FrameModel, m2: FrameModel)
    requires
        wf_model(m1),
        wf_model(m2),
    ensures
        frame_step(enc_model(m1) + enc_model(m2)) == (Step::<FrameModel>::Done {
            v: m1,
            used: enc_model(m1).len() as int,
        }),
        (enc_model(m1) + enc_model(m2)).skip(enc_model(m1).len() as int) == enc_model(m2),
        frame_step(enc_model(m2)) == (Step::<FrameModel>::Done {
            v: m2,
            used: enc_model(m2).len() as int,
        }),
{
    lemma_enc_parse(m1, enc_model(m2));
    lemma_round_trip(m2);
    assert((enc_model(m1) + enc_model(m2)).skip(enc_model(m1).len() as int) =~= enc_model(m2));
}

/// Law: the length predicate measures an encoding exactly: for every
/// well-formed frame it reports precisely the encoding's byte count.
pub proof fn lemma_expect_length(m: FrameModel)
    requires
        wf_model(m),
    ensures
        frame_len(enc_model(m)) == (LenStep::Len { n: enc_model(m).len() as int }),
{
    lemma_enc_len(m, Seq::empty());
    assert(enc_model(m) + Seq::<u8>::empty() =~= enc_model(m));
}

} // verus!
