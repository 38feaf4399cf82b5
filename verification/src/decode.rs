//! The tree decoder: a state machine on token kinds that builds exactly
//! one value from a token stream, recursing for composite values.
//!
//! The model is the fueled relation `dec_val`: fuel only bounds the
//! unrolling depth, and every public result is stated at a fuel that the
//! executable decoder proves sufficient. Decoding is all-or-nothing: an
//! error leaves no partial tree behind.

use vstd::prelude::*;
use crate::token::{Token, TokV, DecodeError, KeyClass, classify_key, toks_view};
use crate::value::{Json, JsonV, Str, Int, Double, Bool, Null, Array, Object, wf, view_json,
    entries_sorted, entry_insert, seq_view, lemma_seq_view, lemma_entry_insert_wf};

verus! {

/// Decodes one value starting at `toks[i]`: the decoded model value and
/// the position just after it, or the error the stream presents at that
/// point. `None` means the fuel ran out; callers always supply enough.
pub open spec fn dec_val(toks: Seq<TokV>, i: int, fuel: nat) -> Option<
    Result<(JsonV, int), DecodeError>,
>
    decreases fuel,
{
    if fuel == 0 {
        None
    } else if !(0 <= i < toks.len()) {
        Some(Err(DecodeError::EndOfInput))
    } else {
        match toks[i] {
            TokV::Bool(b) => Some(Ok((JsonV::Bool(b), i + 1))),
            TokV::I64(x) => Some(Ok((JsonV::Int(x), i + 1))),
            TokV::U64(x) => Some(Ok((JsonV::Int(x as i64), i + 1))),
            TokV::F64Bits(x) => Some(Ok((JsonV::Double(x), i + 1))),
            TokV::Text(s) => Some(Ok((JsonV::Str(s), i + 1))),
            TokV::Absent => Some(Ok((JsonV::Null, i + 1))),
            TokV::Unit => Some(Ok((JsonV::Null, i + 1))),
            TokV::Present => dec_val(toks, i + 1, (fuel - 1) as nat),
            TokV::SeqStart => match dec_elems(toks, i + 1, Seq::<JsonV>::empty(), (fuel - 1) as nat) {
                None => None,
                Some(Err(e)) => Some(Err(e)),
                Some(Ok((vs, j))) => Some(Ok((JsonV::Array(vs), j))),
            },
            TokV::MapStart => match dec_entries(
                toks,
                i + 1,
                Seq::<(Seq<char>, JsonV)>::empty(),
                (fuel - 1) as nat,
            ) {
                None => None,
                Some(Err(e)) => Some(Err(e)),
                Some(Ok((es, j))) => Some(Ok((JsonV::Object(es), j))),
            },
            TokV::SeqEnd => Some(Err(DecodeError::UnexpectedToken)),
            TokV::MapEnd => Some(Err(DecodeError::UnexpectedToken)),
        }
    }
}

/// Decodes sequence elements starting at `toks[i]` until the closing
/// token, appending them to `acc`.
pub open spec fn dec_elems(toks: Seq<TokV>, i: int, acc: Seq<JsonV>, fuel: nat) -> Option<
    Result<(Seq<JsonV>, int), DecodeError>,
>
    decreases fuel,
{
    if fuel == 0 {
        None
    } else if !(0 <= i < toks.len()) {
        Some(Err(DecodeError::EndOfInput))
    } else {
        match toks[i] {
            TokV::SeqEnd => Some(Ok((acc, i + 1))),
            _ => match dec_val(toks, i, (fuel - 1) as nat) {
                None => None,
                Some(Err(e)) => Some(Err(e)),
                Some(Ok((v, j))) => dec_elems(toks, j, acc.push(v), (fuel - 1) as nat),
            },
        }
    }
}

/// Decodes map entries starting at `toks[i]` until the closing token,
/// inserting each into `acc` in sorted key order; a later duplicate key
/// overwrites the earlier value.
pub open spec fn dec_entries(
    toks: Seq<TokV>,
    i: int,
    acc: Seq<(Seq<char>, JsonV)>,
    fuel: nat,
) -> Option<Result<(Seq<(Seq<char>, JsonV)>, int), DecodeError>>
    decreases fuel,
{
    if fuel == 0 {
        None
    } else if !(0 <= i < toks.len()) {
        Some(Err(DecodeError::EndOfInput))
    } else {
        match toks[i] {
            TokV::MapEnd => Some(Ok((acc, i + 1))),
            TokV::Text(k) => match dec_val(toks, i + 1, (fuel - 1) as nat) {
                None => None,
                Some(Err(e)) => Some(Err(e)),
                Some(Ok((v, j))) => dec_entries(toks, j, entry_insert(acc, k, v), (fuel - 1) as nat),
            },
            _ => Some(Err(DecodeError::KeyNotString)),
        }
    }
}

/// Fuel that always suffices to decode one value from position `i`.
pub open spec fn dec_fuel(toks: Seq<TokV>, i: int) -> nat {
    (2 * (toks.len() - i) + 2) as nat
}

/// The decode relation: what decoding one value from `toks[i..]` yields.
pub open spec fn spec_decode_value(toks: Seq<TokV>, i: int) -> Option<
    Result<(JsonV, int), DecodeError>,
> {
    dec_val(toks, i, dec_fuel(toks, i))
}

proof fn lem_dec_val_wf(toks: Seq<TokV>, i: int, fuel: nat)
    ensures
        match dec_val(toks, i, fuel) {
            Some(Ok(p)) => wf(p.0) && i < p.1 <= toks.len(),
            _ => true,
        },
    decreases fuel,
{
    if fuel > 0 && 0 <= i < toks.len() {
        match toks[i] {
            TokV::Present => {
                lem_dec_val_wf(toks, i + 1, (fuel - 1) as nat);
            },
            TokV::SeqStart => {
                lem_dec_elems_wf(toks, i + 1, Seq::<JsonV>::empty(), (fuel - 1) as nat);
            },
            TokV::MapStart => {
                lem_dec_entries_wf(toks, i + 1, Seq::<(Seq<char>, JsonV)>::empty(),
                    (fuel - 1) as nat);
            },
            _ => {
            },
        }
    }
}

proof fn lem_dec_elems_wf(toks: Seq<TokV>, i: int, acc: Seq<JsonV>, fuel: nat)
    requires
        forall|k: int| 0 <= k < acc.len() ==> wf(#[trigger] acc[k]),
    ensures
        match dec_elems(toks, i, acc, fuel) {
            Some(Ok(p)) => (forall|k: int| 0 <= k < p.0.len() ==> wf(#[trigger] p.0[k]))
                && i < p.1 <= toks.len(),
            _ => true,
        },
    decreases fuel,
{
    if fuel > 0 && 0 <= i < toks.len() && toks[i] != TokV::SeqEnd {
        lem_dec_val_wf(toks, i, (fuel - 1) as nat);
        match dec_val(toks, i, (fuel - 1) as nat) {
            Some(Ok(p)) => {
                lem_dec_elems_wf(toks, p.1, acc.push(p.0), (fuel - 1) as nat);
            },
            _ => {
            },
        }
    }
}

proof fn lem_dec_entries_wf(toks: Seq<TokV>, i: int, acc: Seq<(Seq<char>, JsonV)>, fuel: nat)
    requires
        entries_sorted(acc),
        forall|k: int| 0 <= k < acc.len() ==> wf(#[trigger] acc[k].1),
    ensures
        match dec_entries(toks, i, acc, fuel) {
            Some(Ok(p)) => entries_sorted(p.0) && (forall|k: int|
                0 <= k < p.0.len() ==> wf(#[trigger] p.0[k].1)) && i < p.1 <= toks.len(),
            _ => true,
        },
    decreases fuel,
{
    if fuel > 0 && 0 <= i < toks.len() {
        match toks[i] {
            TokV::Text(key) => {
                lem_dec_val_wf(toks, i + 1, (fuel - 1) as nat);
                match dec_val(toks, i + 1, (fuel - 1) as nat) {
                    Some(Ok(p)) => {
                        crate::value::lemma_entry_insert_sorted(acc, key, p.0);
                        lemma_entry_insert_wf(acc, key, p.0);
                        lem_dec_entries_wf(toks, p.1, entry_insert(acc, key, p.0),
                            (fuel - 1) as nat);
                    },
                    _ => {
                    },
                }
            },
            _ => {
            },
        }
    }
}

/// Every tree that the decode relation yields is well-formed: in every
/// object of it the entries stand in strictly ascending key order.
pub proof fn lemma_decode_wf(toks: Seq<TokV>, i: int)
    ensures
        match spec_decode_value(toks, i) {
            Some(Ok(p)) => wf(p.0),
            _ => true,
        },
{
    lem_dec_val_wf(toks, i, dec_fuel(toks, i));
}

/// The result of an executable decode step, as the model sees it.
pub open spec fn lift_val(r: Result<(Json, usize), DecodeError>) -> Option<
    Result<(JsonV, int), DecodeError>,
> {
    match r {
        Ok(p) => Some(Ok((p.0@, p.1 as int))),
        Err(e) => Some(Err(e)),
    }
}

/// The result of an executable element run, as the model sees it.
pub open spec fn lift_items(r: Result<(Vec<Json>, usize), DecodeError>) -> Option<
    Result<(Seq<JsonV>, int), DecodeError>,
> {
    match r {
        Ok(p) => Some(Ok((seq_view(p.0@), p.1 as int))),
        Err(e) => Some(Err(e)),
    }
}

/// The result of an executable entry run, as the model sees it.
pub open spec fn lift_fields(r: Result<(Object, usize), DecodeError>) -> Option<
    Result<(Seq<(Seq<char>, JsonV)>, int), DecodeError>,
> {
    match r {
        Ok(p) => Some(Ok((p.0.entries(), p.1 as int))),
        Err(e) => Some(Err(e)),
    }
}

fn dec_any(toks: &Vec<Token>, i: usize) -> (r: Result<(Json, usize), DecodeError>)
    requires
        i <= toks@.len(),
    ensures
        forall|f: nat| f >= 2 * (toks@.len() - i) + 2
            ==> dec_val(toks_view(toks@), i as int, f) == lift_val(r),
        match r {
            Ok(p) => i < p.1 <= toks@.len() && wf(p.0@),
            Err(_) => true,
        },
    decreases toks@.len() - i, 1int,
{
    let ghost tv = toks_view(toks@);
    if i >= toks.len() {
        return Err(DecodeError::EndOfInput);
    }
    match &toks[i] {
        Token::Bool(b) => Ok((Json::Bool(Bool { value: *b }), i + 1)),
        Token::I64(x) => Ok((Json::Int(Int { value: *x }), i + 1)),
        Token::U64(x) => Ok((Json::Int(Int { value: #[verifier::truncate] (*x as i64) }), i + 1)),
        Token::F64Bits(x) => Ok((Json::Double(Double { bits: *x }), i + 1)),
        Token::Text(s) => Ok((Json::Str(Str { value: s.clone() }), i + 1)),
        Token::Absent => Ok((Json::Null(Null { value: None }), i + 1)),
        Token::Unit => Ok((Json::Null(Null { value: None }), i + 1)),
        Token::Present => {
            let r = dec_any(toks, i + 1);
            proof {
                assert forall|f: nat| f >= 2 * (toks@.len() - i) + 2 implies
                    dec_val(tv, i as int, f) == lift_val(r) by {
                    assert(dec_val(tv, i as int + 1, (f - 1) as nat) == lift_val(r));
                }
            }
            r
        },
        Token::SeqStart => {
            match dec_items(toks, i + 1, Vec::new()) {
                Err(e) => {
                    proof {
                        assert forall|f: nat| f >= 2 * (toks@.len() - i) + 2 implies
                            dec_val(tv, i as int, f) == lift_val(Err::<(Json, usize), DecodeError>(e)) by {
                            assert(dec_elems(tv, i as int + 1, seq_view(Seq::<Json>::empty()), (f - 1) as nat)
                                == Some(Err::<(Seq<JsonV>, int), DecodeError>(e)));
                            assert(seq_view(Seq::<Json>::empty()) =~= Seq::<JsonV>::empty());
                        }
                    }
                    Err(e)
                },
                Ok((items, j)) => {
                    let ghost items_s = items@;
                    let ghost items_v = seq_view(items@);
                    let out = Json::Array(Array { value: items });
                    proof {
                        assert(out@ == JsonV::Array(items_v));
                        assert forall|f: nat| f >= 2 * (toks@.len() - i) + 2 implies
                            dec_val(tv, i as int, f)
                                == lift_val(Ok::<(Json, usize), DecodeError>((out, j))) by {
                            assert(dec_elems(tv, i as int + 1, seq_view(Seq::<Json>::empty()), (f - 1) as nat)
                                == Some(Ok::<(Seq<JsonV>, int), DecodeError>((items_v, j as int))));
                            assert(seq_view(Seq::<Json>::empty()) =~= Seq::<JsonV>::empty());
                        }
                        assert(wf(out@)) by {
                            lemma_seq_view(items_s);
                            assert forall|ii: int| 0 <= ii < items_v.len() implies
                                wf(#[trigger] items_v[ii]) by {
                                assert(items_v[ii] == view_json(items_s[ii]));
                                assert(wf(items_s[ii]@));
                            }
                        }
                    }
                    Ok((out, j))
                },
            }
        },
        Token::MapStart => {
            match dec_fields(toks, i + 1, Object::new()) {
                Err(e) => {
                    proof {
                        assert forall|f: nat| f >= 2 * (toks@.len() - i) + 2 implies
                            dec_val(tv, i as int, f) == lift_val(Err::<(Json, usize), DecodeError>(e)) by {
                            assert(dec_entries(tv, i as int + 1, Seq::<(Seq<char>, JsonV)>::empty(), (f - 1) as nat)
                                == Some(Err::<(Seq<(Seq<char>, JsonV)>, int), DecodeError>(e)));
                        }
                    }
                    Err(e)
                },
                Ok((obj, j)) => {
                    let ghost obj_v = obj.entries();
                    let out = Json::Object(obj);
                    proof {
                        assert(out@ == JsonV::Object(obj_v));
                        assert forall|f: nat| f >= 2 * (toks@.len() - i) + 2 implies
                            dec_val(tv, i as int, f)
                                == lift_val(Ok::<(Json, usize), DecodeError>((out, j))) by {
                            assert(dec_entries(tv, i as int + 1, Seq::<(Seq<char>, JsonV)>::empty(), (f - 1) as nat)
                                == Some(Ok::<(Seq<(Seq<char>, JsonV)>, int), DecodeError>((obj_v, j as int))));
                        }
                        assert(wf(out@));
                    }
                    Ok((out, j))
                },
            }
        },
        Token::SeqEnd => Err(DecodeError::UnexpectedToken),
        Token::MapEnd => Err(DecodeError::UnexpectedToken),
    }
}

fn dec_items(toks: &Vec<Token>, i: usize, items: Vec<Json>) -> (r: Result<
    (Vec<Json>, usize),
    DecodeError,
>)
    requires
        i <= toks@.len(),
        forall|k: int| 0 <= k < items@.len() ==> wf(#[trigger] items@[k]@),
    ensures
        forall|f: nat| f >= 2 * (toks@.len() - i) + 3
            ==> dec_elems(toks_view(toks@), i as int, seq_view(items@), f) == lift_items(r),
        match r {
            Ok(p) => i < p.1 <= toks@.len() && forall|k: int|
                0 <= k < p.0@.len() ==> wf(#[trigger] p.0@[k]@),
            Err(_) => true,
        },
    decreases toks@.len() - i, 2int,
{
    let ghost tv = toks_view(toks@);
    let ghost acc = seq_view(items@);
    proof {
        lemma_seq_view(items@);
    }
    if i >= toks.len() {
        return Err(DecodeError::EndOfInput);
    }
    match &toks[i] {
        Token::SeqEnd => Ok((items, i + 1)),
        _ => {
            match dec_any(toks, i) {
                Err(e) => {
                    proof {
                        assert forall|f: nat| f >= 2 * (toks@.len() - i) + 3 implies
                            dec_elems(tv, i as int, acc, f)
                                == lift_items(Err::<(Vec<Json>, usize), DecodeError>(e)) by {
                            assert(dec_val(tv, i as int, (f - 1) as nat)
                                == Some(Err::<(JsonV, int), DecodeError>(e)));
                        }
                    }
                    Err(e)
                },
                Ok((v, j)) => {
                    let ghost vv = v@;
                    let mut items2 = items;
                    items2.push(v);
                    proof {
                        lemma_seq_view(items2@);
                        assert(seq_view(items2@) =~= acc.push(vv));
                        assert(forall|k: int| 0 <= k < items2@.len()
                            ==> wf(#[trigger] items2@[k]@));
                    }
                    let r2 = dec_items(toks, j, items2);
                    proof {
                        assert forall|f: nat| f >= 2 * (toks@.len() - i) + 3 implies
                            dec_elems(tv, i as int, acc, f) == lift_items(r2) by {
                            assert(dec_val(tv, i as int, (f - 1) as nat)
                                == Some(Ok::<(JsonV, int), DecodeError>((vv, j as int))));
                            assert(dec_elems(tv, j as int, acc.push(vv), (f - 1) as nat)
                                == lift_items(r2));
                        }
                    }
                    r2
                },
            }
        },
    }
}

fn dec_fields(toks: &Vec<Token>, i: usize, obj: Object) -> (r: Result<
    (Object, usize),
    DecodeError,
>)
    requires
        i <= toks@.len(),
        entries_sorted(obj.entries()),
        forall|k: int| 0 <= k < obj.entries().len() ==> wf(#[trigger] obj.entries()[k].1),
    ensures
        forall|f: nat| f >= 2 * (toks@.len() - i) + 3
            ==> dec_entries(toks_view(toks@), i as int, obj.entries(), f) == lift_fields(r),
        match r {
            Ok(p) => i < p.1 <= toks@.len() && entries_sorted(p.0.entries()) && forall|k: int|
                0 <= k < p.0.entries().len() ==> wf(#[trigger] p.0.entries()[k].1),
            Err(_) => true,
        },
    decreases toks@.len() - i, 2int,
{
    let ghost tv = toks_view(toks@);
    let ghost acc = obj.entries();
    if i >= toks.len() {
        return Err(DecodeError::EndOfInput);
    }
    match &toks[i] {
        Token::MapEnd => Ok((obj, i + 1)),
        Token::Text(s) => {
            let ghost kv = s@;
            let key = match classify_key(s.clone()) {
                KeyClass::Ordinary(k) => k,
            };
            match dec_any(toks, i + 1) {
                Err(e) => {
                    proof {
                        assert forall|f: nat| f >= 2 * (toks@.len() - i) + 3 implies
                            dec_entries(tv, i as int, acc, f)
                                == lift_fields(Err::<(Object, usize), DecodeError>(e)) by {
                            assert(dec_val(tv, i as int + 1, (f - 1) as nat)
                                == Some(Err::<(JsonV, int), DecodeError>(e)));
                        }
                    }
                    Err(e)
                },
                Ok((v, j)) => {
                    let ghost vv = v@;
                    let mut obj2 = obj;
                    proof {
                        lemma_entry_insert_wf(acc, kv, vv);
                    }
                    obj2.insert(key, v);
                    let r2 = dec_fields(toks, j, obj2);
                    proof {
                        assert forall|f: nat| f >= 2 * (toks@.len() - i) + 3 implies
                            dec_entries(tv, i as int, acc, f) == lift_fields(r2) by {
                            assert(dec_val(tv, i as int + 1, (f - 1) as nat)
                                == Some(Ok::<(JsonV, int), DecodeError>((vv, j as int))));
                            assert(dec_entries(tv, j as int, entry_insert(acc, kv, vv), (f - 1) as nat)
                                == lift_fields(r2));
                        }
                    }
                    r2
                },
            }
        },
        _ => Err(DecodeError::KeyNotString),
    }
}

/// Decodes exactly one value from `toks[from..]`, returning it together
/// with the position of the first token after it: the single entry
/// point of the tree decoder, invoked once per tree and (in the model)
/// once more per composite element.
pub fn decode_value(toks: &Vec<Token>, from: usize) -> (r: Result<(Json, usize), DecodeError>)
    requires
        from <= toks@.len(),
    ensures
        spec_decode_value(toks_view(toks@), from as int) == lift_val(r),
        match r {
            Ok(p) => from < p.1 <= toks@.len() && wf(p.0@),
            Err(_) => true,
        },
{
    let r = dec_any(toks, from);
    proof {
        let tv = toks_view(toks@);
        assert(dec_val(tv, from as int, dec_fuel(tv, from as int)) == lift_val(r));
    }
    r
}

/// Decodes a whole token stream as one value. The stream must hold
/// exactly one value: trailing tokens are an error, and any error from
/// the stream aborts the decode with no tree returned.
pub fn decode(toks: &Vec<Token>) -> (r: Result<Json, DecodeError>)
    ensures
        match r {
            Ok(v) => spec_decode_value(toks_view(toks@), 0)
                == Some(Ok::<(JsonV, int), DecodeError>((v@, toks@.len() as int))) && wf(v@),
            Err(e) => match spec_decode_value(toks_view(toks@), 0) {
                Some(Ok(p)) => e == DecodeError::TrailingTokens && p.1 != toks@.len(),
                Some(Err(e2)) => e == e2,
                None => false,
            },
        },
{
    match decode_value(toks, 0) {
        Err(e) => Err(e),
        Ok((v, j)) => {
            if j == toks.len() {
                Ok(v)
            } else {
                Err(DecodeError::TrailingTokens)
            }
        },
    }
}

} // verus!

