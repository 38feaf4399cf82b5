//! The encoder: writes one tree back out as the token grammar, and the
//! round-trip law tying the encoder to the decoder.
//!
//! Each kind writes itself: scalars as one literal token, an array as
//! its elements between sequence delimiters, an object as its entries —
//! in ascending key order, since that is their storage order — between
//! map delimiters. Encoding into a token vector cannot fail.

use vstd::prelude::*;
use crate::order::lex_lt;
use crate::token::{Token, TokV, DecodeError, toks_view};
use crate::value::{Json, JsonV, wf, entries_sorted, seq_view, lemma_seq_view,
    lemma_entry_insert_at_end};
use crate::decode::{dec_val, dec_elems, dec_entries, dec_fuel, spec_decode_value};

verus! {

/// The token stream that a model tree writes.
pub open spec fn enc(v: JsonV) -> Seq<TokV>
    decreases v,
{
    match v {
        JsonV::Str(s) => seq![TokV::Text(s)],
        JsonV::Int(x) => seq![TokV::I64(x)],
        JsonV::Double(b) => seq![TokV::F64Bits(b)],
        JsonV::Bool(b) => seq![TokV::Bool(b)],
        JsonV::Null => seq![TokV::Absent],
        JsonV::Array(vs) => seq![TokV::SeqStart] + enc_list(vs) + seq![TokV::SeqEnd],
        JsonV::Object(es) => seq![TokV::MapStart] + enc_entries(es) + seq![TokV::MapEnd],
    }
}

/// The token stream of a run of elements, in order.
pub open spec fn enc_list(vs: Seq<JsonV>) -> Seq<TokV>
    decreases vs,
{
    if vs.len() == 0 {
        Seq::empty()
    } else {
        enc(vs[0]) + enc_list(vs.drop_first())
    }
}

/// The token stream of a run of entries, in order: each key as a text
/// token, then the value.
pub open spec fn enc_entries(es: Seq<(Seq<char>, JsonV)>) -> Seq<TokV>
    decreases es,
{
    if es.len() == 0 {
        Seq::empty()
    } else {
        seq![TokV::Text(es[0].0)] + enc(es[0].1) + enc_entries(es.drop_first())
    }
}

/// Every value writes at least one token.
pub proof fn lemma_enc_nonempty(v: JsonV)
    ensures
        enc(v).len() >= 1,
{
}

proof fn lemma_toks_view_push(ts: Seq<Token>, t: Token)
    ensures
        toks_view(ts.push(t)) == toks_view(ts).push(t@),
{
    assert(toks_view(ts.push(t)) =~= toks_view(ts).push(t@));
}

proof fn lemma_enc_list_snoc(s: Seq<JsonV>, k: int)
    requires
        0 <= k < s.len(),
    ensures
        enc_list(s.take(k + 1)) == enc_list(s.take(k)) + enc(s[k]),
    decreases k,
{
    if k == 0 {
        assert(s.take(1) =~= seq![s[0]]);
        assert(s.take(0) =~= Seq::<JsonV>::empty());
        assert(seq![s[0]].drop_first() =~= Seq::<JsonV>::empty());
        assert(enc_list(s.take(k + 1)) =~= enc_list(s.take(k)) + enc(s[k]));
    } else {
        let t = s.drop_first();
        lemma_enc_list_snoc(t, k - 1);
        assert(s.take(k + 1).drop_first() =~= t.take(k));
        assert(s.take(k).drop_first() =~= t.take(k - 1));
        assert(s.take(k + 1)[0] == s[0]);
        assert(s.take(k)[0] == s[0]);
        assert(t[k - 1] == s[k]);
        assert(enc_list(s.take(k + 1)) =~= enc_list(s.take(k)) + enc(s[k]));
    }
}

proof fn lemma_enc_entries_snoc(es: Seq<(Seq<char>, JsonV)>, k: int)
    requires
        0 <= k < es.len(),
    ensures
        enc_entries(es.take(k + 1)) == enc_entries(es.take(k)) + seq![TokV::Text(es[k].0)]
            + enc(es[k].1),
    decreases k,
{
    if k == 0 {
        assert(es.take(1) =~= seq![es[0]]);
        assert(es.take(0) =~= Seq::<(Seq<char>, JsonV)>::empty());
        assert(seq![es[0]].drop_first() =~= Seq::<(Seq<char>, JsonV)>::empty());
        assert(enc_entries(es.take(k + 1)) =~= enc_entries(es.take(k))
            + seq![TokV::Text(es[k].0)] + enc(es[k].1));
    } else {
        let t = es.drop_first();
        lemma_enc_entries_snoc(t, k - 1);
        assert(es.take(k + 1).drop_first() =~= t.take(k));
        assert(es.take(k).drop_first() =~= t.take(k - 1));
        assert(es.take(k + 1)[0] == es[0]);
        assert(es.take(k)[0] == es[0]);
        assert(t[k - 1] == es[k]);
        assert(enc_entries(es.take(k + 1)) =~= enc_entries(es.take(k))
            + seq![TokV::Text(es[k].0)] + enc(es[k].1));
    }
}

/// Writes the tokens of `v` onto the end of `out`. Writing never fails;
/// a fallible sink is the token consumer's concern, not the tree's.
pub fn encode_value(v: &Json, out: &mut Vec<Token>)
    ensures
        toks_view(final(out)@) == toks_view(old(out)@) + enc(v@),
    decreases v@,
{
    let ghost tv0 = toks_view(out@);
    match v {
        Json::Str(s) => {
            let t = Token::Text(s.value.clone());
            let ghost gt = t;
            let ghost before = out@;
            out.push(t);
            proof {
                lemma_toks_view_push(before, gt);
                assert(tv0.push(gt@) =~= tv0 + enc(v@));
            }
        },
        Json::Int(x) => {
            let ghost before = out@;
            out.push(Token::I64(x.value));
            proof {
                lemma_toks_view_push(before, Token::I64(x.value));
                assert(tv0.push(TokV::I64(x.value)) =~= tv0 + enc(v@));
            }
        },
        Json::Double(d) => {
            let ghost before = out@;
            out.push(Token::F64Bits(d.bits));
            proof {
                lemma_toks_view_push(before, Token::F64Bits(d.bits));
                assert(tv0.push(TokV::F64Bits(d.bits)) =~= tv0 + enc(v@));
            }
        },
        Json::Bool(b) => {
            let ghost before = out@;
            out.push(Token::Bool(b.value));
            proof {
                lemma_toks_view_push(before, Token::Bool(b.value));
                assert(tv0.push(TokV::Bool(b.value)) =~= tv0 + enc(v@));
            }
        },
        Json::Null(_) => {
            let ghost before = out@;
            out.push(Token::Absent);
            proof {
                lemma_toks_view_push(before, Token::Absent);
                assert(tv0.push(TokV::Absent) =~= tv0 + enc(v@));
            }
        },
        Json::Array(a) => {
            let ghost sv = seq_view(a.value@);
            let ghost before = out@;
            out.push(Token::SeqStart);
            proof {
                lemma_seq_view(a.value@);
                lemma_toks_view_push(before, Token::SeqStart);
                assert(sv.take(0) =~= Seq::<JsonV>::empty());
                assert(toks_view(out@) =~= tv0 + seq![TokV::SeqStart] + enc_list(sv.take(0)));
            }
            let n = a.value.len();
            let mut k: usize = 0;
            while k < n
                invariant
                    k <= n,
                    n == a.value@.len(),
                    sv == seq_view(a.value@),
                    sv.len() == n,
                    forall|ii: int| 0 <= ii < n ==> #[trigger] sv[ii] == a.value@[ii]@,
                    v@ == JsonV::Array(sv),
                    toks_view(out@) == tv0 + seq![TokV::SeqStart] + enc_list(sv.take(k as int)),
                decreases n - k,
            {
                let ghost pre = toks_view(out@);
                let elem = &a.value[k];
                proof {
                    assert(elem@ == sv[k as int]);
                    assert(decreases_to!(v@ => v@->Array_0));
                    assert(decreases_to!(sv => sv[k as int]));
                }
                encode_value(elem, out);
                proof {
                    lemma_enc_list_snoc(sv, k as int);
                    assert(pre + enc(sv[k as int]) =~= tv0 + seq![TokV::SeqStart]
                        + enc_list(sv.take(k as int + 1)));
                }
                k = k + 1;
            }
            let ghost last = out@;
            out.push(Token::SeqEnd);
            proof {
                lemma_toks_view_push(last, Token::SeqEnd);
                assert(sv.take(n as int) =~= sv);
                assert((tv0 + seq![TokV::SeqStart] + enc_list(sv)).push(TokV::SeqEnd)
                    =~= tv0 + enc(v@));
            }
        },
        Json::Object(o) => {
            let ghost es = o.entries();
            let ghost before = out@;
            out.push(Token::MapStart);
            proof {
                lemma_toks_view_push(before, Token::MapStart);
                assert(es.take(0) =~= Seq::<(Seq<char>, JsonV)>::empty());
                assert(toks_view(out@) =~= tv0 + seq![TokV::MapStart] + enc_entries(es.take(0)));
            }
            let n = o.len();
            let mut k: usize = 0;
            while k < n
                invariant
                    k <= n,
                    n == es.len(),
                    es == o.entries(),
                    v@ == JsonV::Object(es),
                    toks_view(out@) == tv0 + seq![TokV::MapStart] + enc_entries(es.take(k as int)),
                decreases n - k,
            {
                let ghost pre = toks_view(out@);
                let key = o.key_at(k).clone();
                let ghost gkey = key;
                let ghost mid = out@;
                out.push(Token::Text(key));
                let elem = o.value_at(k);
                proof {
                    lemma_toks_view_push(mid, Token::Text(gkey));
                    assert(gkey@ == es[k as int].0);
                    assert(elem@ == es[k as int].1);
                    assert(decreases_to!(v@ => v@->Object_0));
                    assert(decreases_to!(es => es[k as int]));
                    assert(decreases_to!(es[k as int] => es[k as int].1));
                }
                let ghost pre2 = toks_view(out@);
                encode_value(elem, out);
                proof {
                    lemma_enc_entries_snoc(es, k as int);
                    assert(pre2 == pre.push(TokV::Text(es[k as int].0)));
                    assert(pre2 + enc(es[k as int].1) =~= tv0 + seq![TokV::MapStart]
                        + enc_entries(es.take(k as int + 1)));
                }
                k = k + 1;
            }
            let ghost last = out@;
            out.push(Token::MapEnd);
            proof {
                lemma_toks_view_push(last, Token::MapEnd);
                assert(es.take(n as int) =~= es);
                assert((tv0 + seq![TokV::MapStart] + enc_entries(es)).push(TokV::MapEnd)
                    =~= tv0 + enc(v@));
            }
        },
    }
}

/// Writes one tree as a fresh token stream.
pub fn encode(v: &Json) -> (r: Vec<Token>)
    ensures
        toks_view(r@) == enc(v@),
{
    let mut out: Vec<Token> = Vec::new();
    proof {
        assert(toks_view(out@) =~= Seq::<TokV>::empty());
        assert(Seq::<TokV>::empty() + enc(v@) =~= enc(v@));
    }
    encode_value(v, &mut out);
    out
}

proof fn lem_rt_val(toks: Seq<TokV>, i: int, v: JsonV, f: nat)
    requires
        wf(v),
        0 <= i,
        i + enc(v).len() <= toks.len(),
        toks.subrange(i, i + enc(v).len() as int) == enc(v),
        f >= 2 * (toks.len() - i) + 2,
    ensures
        dec_val(toks, i, f) == Some(Ok::<(JsonV, int), DecodeError>((
            v,
            i + enc(v).len() as int,
        ))),
    decreases v, 0int,
{
    lemma_enc_nonempty(v);
    let n = enc(v).len() as int;
    assert(toks[i] == enc(v)[0]) by {
        assert(toks.subrange(i, i + n)[0] == toks[i + 0]);
    }
    match v {
        JsonV::Array(vs) => {
            let el = enc_list(vs);
            assert(enc(v) == seq![TokV::SeqStart] + el + seq![TokV::SeqEnd]);
            assert(toks[i] == TokV::SeqStart);
            assert(toks.subrange(i + 1, i + 1 + el.len() + 1) =~= el + seq![TokV::SeqEnd]) by {
                assert forall|m: int| 0 <= m < el.len() + 1 implies
                    toks.subrange(i + 1, i + 1 + el.len() + 1)[m]
                        == (el + seq![TokV::SeqEnd])[m] by {
                    assert(toks.subrange(i + 1, i + 1 + el.len() + 1)[m] == toks[i + 1 + m]);
                    assert(toks.subrange(i, i + n)[m + 1] == toks[i + (m + 1)]);
                    assert(enc(v)[m + 1] == (el + seq![TokV::SeqEnd])[m]);
                }
            }
            lem_rt_elems(toks, i + 1, Seq::<JsonV>::empty(), vs, (f - 1) as nat);
            assert(Seq::<JsonV>::empty() + vs =~= vs);
        },
        JsonV::Object(es) => {
            let ee = enc_entries(es);
            assert(enc(v) == seq![TokV::MapStart] + ee + seq![TokV::MapEnd]);
            assert(toks[i] == TokV::MapStart);
            assert(toks.subrange(i + 1, i + 1 + ee.len() + 1) =~= ee + seq![TokV::MapEnd]) by {
                assert forall|m: int| 0 <= m < ee.len() + 1 implies
                    toks.subrange(i + 1, i + 1 + ee.len() + 1)[m]
                        == (ee + seq![TokV::MapEnd])[m] by {
                    assert(toks.subrange(i + 1, i + 1 + ee.len() + 1)[m] == toks[i + 1 + m]);
                    assert(toks.subrange(i, i + n)[m + 1] == toks[i + (m + 1)]);
                    assert(enc(v)[m + 1] == (ee + seq![TokV::MapEnd])[m]);
                }
            }
            assert(Seq::<(Seq<char>, JsonV)>::empty() + es =~= es);
            lem_rt_entries(toks, i + 1, Seq::<(Seq<char>, JsonV)>::empty(), es, (f - 1) as nat);
        },
        _ => {
        },
    }
}

proof fn lem_rt_elems(toks: Seq<TokV>, i: int, done: Seq<JsonV>, rest: Seq<JsonV>, f: nat)
    requires
        forall|k: int| 0 <= k < rest.len() ==> wf(#[trigger] rest[k]),
        0 <= i,
        i + enc_list(rest).len() + 1 <= toks.len(),
        toks.subrange(i, i + enc_list(rest).len() + 1) == enc_list(rest) + seq![TokV::SeqEnd],
        f >= 2 * (toks.len() - i) + 3,
    ensures
        dec_elems(toks, i, done, f) == Some(Ok::<(Seq<JsonV>, int), DecodeError>((
            done + rest,
            i + enc_list(rest).len() + 1,
        ))),
    decreases rest, 1int,
{
    let el = enc_list(rest);
    let n = el.len() + 1;
    assert(toks[i] == (el + seq![TokV::SeqEnd])[0]) by {
        assert(toks.subrange(i, i + n as int)[0] == toks[i + 0]);
    }
    if rest.len() == 0 {
        assert(toks[i] == TokV::SeqEnd);
        assert(done + rest =~= done);
    } else {
        let e0 = enc(rest[0]);
        let rest1 = rest.drop_first();
        let el1 = enc_list(rest1);
        assert(el == e0 + el1);
        lemma_enc_nonempty(rest[0]);
        assert forall|m: int| 0 <= m < n implies #[trigger] toks[i + m]
            == (el + seq![TokV::SeqEnd])[m] by {
            assert(toks.subrange(i, i + n as int)[m] == toks[i + m]);
        }
        assert(toks.subrange(i, i + e0.len() as int) =~= e0) by {
            assert forall|m: int| 0 <= m < e0.len() implies
                toks.subrange(i, i + e0.len() as int)[m] == e0[m] by {
                assert(toks.subrange(i, i + e0.len() as int)[m] == toks[i + m]);
                assert((el + seq![TokV::SeqEnd])[m] == e0[m]);
            }
        }
        lem_rt_val(toks, i, rest[0], (f - 1) as nat);
        let j0 = i + e0.len() as int;
        assert(toks.subrange(j0, j0 + el1.len() + 1) =~= el1 + seq![TokV::SeqEnd]) by {
            assert forall|m: int| 0 <= m < el1.len() + 1 implies
                toks.subrange(j0, j0 + el1.len() + 1)[m] == (el1 + seq![TokV::SeqEnd])[m] by {
                assert(toks.subrange(j0, j0 + el1.len() + 1)[m] == toks[j0 + m]);
                assert(toks[i + (e0.len() + m)] == (el + seq![TokV::SeqEnd])[e0.len() + m]);
                assert((el + seq![TokV::SeqEnd])[e0.len() + m] == (el1 + seq![TokV::SeqEnd])[m]);
            }
        }
        assert forall|k: int| 0 <= k < rest1.len() implies wf(#[trigger] rest1[k]) by {
            assert(rest1[k] == rest[k + 1]);
        }
        lem_rt_elems(toks, j0, done.push(rest[0]), rest1, (f - 1) as nat);
        assert(done.push(rest[0]) + rest1 =~= done + rest);
        assert(toks[i] != TokV::SeqEnd) by {
            if toks[i] == TokV::SeqEnd {
                assert(dec_val(toks, i, (f - 1) as nat) == Some(
                    Err::<(JsonV, int), DecodeError>(DecodeError::UnexpectedToken),
                ));
            }
        }
    }
}

proof fn lem_rt_entries(
    toks: Seq<TokV>,
    i: int,
    done: Seq<(Seq<char>, JsonV)>,
    rest: Seq<(Seq<char>, JsonV)>,
    f: nat,
)
    requires
        entries_sorted(done + rest),
        forall|k: int| 0 <= k < rest.len() ==> wf(#[trigger] rest[k].1),
        0 <= i,
        i + enc_entries(rest).len() + 1 <= toks.len(),
        toks.subrange(i, i + enc_entries(rest).len() + 1) == enc_entries(rest)
            + seq![TokV::MapEnd],
        f >= 2 * (toks.len() - i) + 3,
    ensures
        dec_entries(toks, i, done, f) == Some(Ok::<(Seq<(Seq<char>, JsonV)>, int), DecodeError>((
            done + rest,
            i + enc_entries(rest).len() + 1,
        ))),
    decreases rest, 1int,
{
    let ee = enc_entries(rest);
    let n = ee.len() + 1;
    assert(toks[i] == (ee + seq![TokV::MapEnd])[0]) by {
        assert(toks.subrange(i, i + n as int)[0] == toks[i + 0]);
    }
    if rest.len() == 0 {
        assert(toks[i] == TokV::MapEnd);
        assert(done + rest =~= done);
    } else {
        let k0 = rest[0].0;
        let v0 = rest[0].1;
        let e0 = enc(v0);
        let rest1 = rest.drop_first();
        let ee1 = enc_entries(rest1);
        assert(ee == seq![TokV::Text(k0)] + e0 + ee1);
        assert forall|m: int| 0 <= m < n implies #[trigger] toks[i + m]
            == (ee + seq![TokV::MapEnd])[m] by {
            assert(toks.subrange(i, i + n as int)[m] == toks[i + m]);
        }
        assert(toks[i] == TokV::Text(k0));
        assert(toks.subrange(i + 1, i + 1 + e0.len() as int) =~= e0) by {
            assert forall|m: int| 0 <= m < e0.len() implies
                toks.subrange(i + 1, i + 1 + e0.len() as int)[m] == e0[m] by {
                assert(toks.subrange(i + 1, i + 1 + e0.len() as int)[m] == toks[i + 1 + m]);
                assert(toks[i + (1 + m)] == (ee + seq![TokV::MapEnd])[1 + m]);
                assert((ee + seq![TokV::MapEnd])[1 + m] == e0[m]);
            }
        }
        lem_rt_val(toks, i + 1, v0, (f - 1) as nat);
        let j0 = i + 1 + e0.len() as int;
        assert(toks.subrange(j0, j0 + ee1.len() + 1) =~= ee1 + seq![TokV::MapEnd]) by {
            assert forall|m: int| 0 <= m < ee1.len() + 1 implies
                toks.subrange(j0, j0 + ee1.len() + 1)[m] == (ee1 + seq![TokV::MapEnd])[m] by {
                assert(toks.subrange(j0, j0 + ee1.len() + 1)[m] == toks[j0 + m]);
                assert(toks[i + (1 + e0.len() + m)] == (ee + seq![TokV::MapEnd])[1 + e0.len() + m]);
                assert((ee + seq![TokV::MapEnd])[1 + e0.len() + m] == (ee1 + seq![TokV::MapEnd])[m]);
            }
        }
        assert forall|j: int| 0 <= j < done.len() implies lex_lt(#[trigger] done[j].0, k0) by {
            assert((done + rest)[j] == done[j]);
            assert((done + rest)[done.len() as int] == rest[0]);
        }
        lemma_entry_insert_at_end(done, k0, v0);
        let done1 = done.push(rest[0]);
        assert(done1 + rest1 =~= done + rest);
        assert forall|k: int| 0 <= k < rest1.len() implies wf(#[trigger] rest1[k].1) by {
            assert(rest1[k] == rest[k + 1]);
        }
        lem_rt_entries(toks, j0, done1, rest1, (f - 1) as nat);
    }
}

/// The round-trip law: decoding the stream that a well-formed tree
/// writes yields that same tree back and consumes the whole stream.
/// Together with the decoder's own contract — every decoded tree is
/// well-formed — this says that decode, then encode, then decode again
/// gives the first decode's result.
pub proof fn lemma_encode_then_decode(v: JsonV)
    requires
        wf(v),
    ensures
        spec_decode_value(enc(v), 0) == Some(Ok::<(JsonV, int), DecodeError>((
            v,
            enc(v).len() as int,
        ))),
{
    let toks = enc(v);
    assert(toks.subrange(0, enc(v).len() as int) =~= enc(v));
    lem_rt_val(toks, 0, v, dec_fuel(toks, 0));
}

/// Decode, then encode, then decode again: whatever tree `v` a first
/// decode produced, encoding it and decoding the written stream yields
/// the very same tree. Byte-for-byte equality of the two streams is not
/// claimed: the written stream carries object keys in sorted order and
/// in normalized token kinds.
pub proof fn lemma_decode_encode_decode(toks: Seq<TokV>, v: JsonV, j: int)
    requires
        spec_decode_value(toks, 0) == Some(Ok::<(JsonV, int), DecodeError>((v, j))),
    ensures
        spec_decode_value(enc(v), 0) == Some(Ok::<(JsonV, int), DecodeError>((
            v,
            enc(v).len() as int,
        ))),
{
    crate::decode::lemma_decode_wf(toks, 0);
    lemma_encode_then_decode(v);
}

} // verus!
