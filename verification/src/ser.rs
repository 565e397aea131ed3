//! Encoding a tagged value as one LTSV line.
//!
//! A mapping becomes `label:value` fields joined by tabs, a sequence becomes
//! a mapping keyed by element index, and a wrapped value must hold a
//! mapping.  Keys and values are stringified by kind; kinds the format
//! cannot carry make the whole encoding fail, the first offender deciding
//! the error.

use crate::error::LtsvError;
use crate::num::dec_str;
use crate::num::signed_dec_str;
use crate::num::u64_to_string;
use crate::num::i64_to_string;
use crate::text::bytes_to_string;
use crate::text::push_char;
use crate::value::Value;
use vstd::prelude::*;
use vstd::string::StringExecFns;
use vstd::utf8::decode_utf8;
use vstd::utf8::valid_utf8;

verus! {

/// Why a key or value refuses to stringify: the wrong kind of value, or a
/// byte sequence that is not text.
pub enum TextErr {
    BadKind,
    BadText,
}

/// The text a value renders to when it stands as a field label, or why it
/// cannot: strings, characters, integers, floats and UTF-8 byte sequences
/// are the only valid keys.
pub open spec fn key_txt(v: Value) -> Result<Seq<char>, TextErr> {
    match v {
        Value::Str(s) => Ok(s@),
        Value::U8(n) => Ok(dec_str(n as nat)),
        Value::U16(n) => Ok(dec_str(n as nat)),
        Value::U32(n) => Ok(dec_str(n as nat)),
        Value::U64(n) => Ok(dec_str(n as nat)),
        Value::I8(n) => Ok(signed_dec_str(n as int)),
        Value::I16(n) => Ok(signed_dec_str(n as int)),
        Value::I32(n) => Ok(signed_dec_str(n as int)),
        Value::I64(n) => Ok(signed_dec_str(n as int)),
        Value::F32(s) => Ok(s@),
        Value::F64(s) => Ok(s@),
        Value::Char(c) => Ok(seq![c]),
        Value::Bytes(b) => if valid_utf8(b@) {
            Ok(decode_utf8(b@))
        } else {
            Err(TextErr::BadText)
        },
        _ => Err(TextErr::BadKind),
    }
}

/// The text a value renders to when it stands as a field value: everything
/// a key may be, and also a boolean.
pub open spec fn val_txt(v: Value) -> Result<Seq<char>, TextErr> {
    match v {
        Value::Bool(b) => Ok(
            if b {
                seq!['t', 'r', 'u', 'e']
            } else {
                seq!['f', 'a', 'l', 's', 'e']
            },
        ),
        _ => key_txt(v),
    }
}

/// The text of one `label:value` field, the key error taking precedence.
pub open spec fn pair_txt(k: Value, v: Value) -> Result<Seq<char>, TextErr> {
    match key_txt(k) {
        Err(e) => Err(e),
        Ok(kt) => match val_txt(v) {
            Err(e) => Err(e),
            Ok(vt) => Ok(kt + seq![':'] + vt),
        },
    }
}

/// The line a mapping encodes to: its fields in order, joined by tabs; the
/// first failing pair decides the error.
pub open spec fn map_line(ps: Seq<(Value, Value)>) -> Result<Seq<char>, TextErr>
    decreases ps.len(),
{
    if ps.len() == 0 {
        Ok(Seq::empty())
    } else {
        match map_line(ps.drop_last()) {
            Err(e) => Err(e),
            Ok(t) => match pair_txt(ps.last().0, ps.last().1) {
                Err(e) => Err(e),
                Ok(p) => Ok(
                    if ps.len() == 1 {
                        p
                    } else {
                        t + seq!['\t'] + p
                    },
                ),
            },
        }
    }
}

/// The line a sequence encodes to: each element keyed by its zero-based
/// index, in order; the first failing element decides the error.
pub open spec fn seq_line(items: Seq<Value>) -> Result<Seq<char>, TextErr>
    decreases items.len(),
{
    if items.len() == 0 {
        Ok(Seq::empty())
    } else {
        match seq_line(items.drop_last()) {
            Err(e) => Err(e),
            Ok(t) => match val_txt(items.last()) {
                Err(e) => Err(e),
                Ok(vt) => Ok(
                    if items.len() == 1 {
                        dec_str((items.len() - 1) as nat) + seq![':'] + vt
                    } else {
                        t + seq!['\t'] + (dec_str((items.len() - 1) as nat) + seq![':'] + vt)
                    },
                ),
            },
        }
    }
}

/// The line a value encodes to, or why it cannot: only a mapping, a wrapped
/// mapping or a sequence has a line.
pub open spec fn encode_spec(v: Value) -> Result<Seq<char>, TextErr> {
    match v {
        Value::Mapping(ps) => map_line(ps@),
        Value::Sequence(items) => seq_line(items@),
        Value::Newtype(inner) => match *inner {
            Value::Mapping(ps) => map_line(ps@),
            _ => Err(TextErr::BadKind),
        },
        _ => Err(TextErr::BadKind),
    }
}

/// Whether the executable outcome `r` carries exactly the specified
/// outcome `m`: the same text on success, the matching error kind else.
pub open spec fn encode_result_is(r: Result<String, LtsvError>, m: Result<Seq<char>, TextErr>) -> bool {
    match m {
        Ok(t) => r matches Ok(s) && s@ == t,
        Err(TextErr::BadKind) => r matches Err(e) && (e matches LtsvError::InvalidInput(_)),
        Err(TextErr::BadText) => r matches Err(e) && (e matches LtsvError::FromUtf8Error(_)),
    }
}

fn key_to_string(v: &Value) -> (r: Result<String, LtsvError>)
    ensures
        encode_result_is(r, key_txt(*v)),
{
    match v {
        Value::Str(s) => Ok(s.clone()),
        Value::U8(n) => Ok(u64_to_string(*n as u64)),
        Value::U16(n) => Ok(u64_to_string(*n as u64)),
        Value::U32(n) => Ok(u64_to_string(*n as u64)),
        Value::U64(n) => Ok(u64_to_string(*n)),
        Value::I8(n) => Ok(i64_to_string(*n as i64)),
        Value::I16(n) => Ok(i64_to_string(*n as i64)),
        Value::I32(n) => Ok(i64_to_string(*n as i64)),
        Value::I64(n) => Ok(i64_to_string(*n)),
        Value::F32(s) => Ok(s.clone()),
        Value::F64(s) => Ok(s.clone()),
        Value::Char(c) => {
            let mut s = String::new();
            push_char(&mut s, *c);
            proof {
                assert(s@ =~= seq![*c]);
            }
            Ok(s)
        },
        Value::Bytes(b) => match bytes_to_string(b) {
            Ok(s) => Ok(s),
            Err(e) => Err(LtsvError::FromUtf8Error(e)),
        },
        Value::Bool(_) => Err(
            LtsvError::InvalidInput("a boolean cannot be a field label".to_owned()),
        ),
        Value::Unit => Err(LtsvError::InvalidInput("a unit cannot be a field label".to_owned())),
        Value::Optional(_) => Err(
            LtsvError::InvalidInput("an optional value cannot be a field label".to_owned()),
        ),
        Value::Newtype(_) => Err(
            LtsvError::InvalidInput("a wrapped value cannot be a field label".to_owned()),
        ),
        Value::Sequence(_) => Err(
            LtsvError::InvalidInput("a sequence cannot be a field label".to_owned()),
        ),
        Value::Mapping(_) => Err(
            LtsvError::InvalidInput("a mapping cannot be a field label".to_owned()),
        ),
    }
}

fn value_to_string(v: &Value) -> (r: Result<String, LtsvError>)
    ensures
        encode_result_is(r, val_txt(*v)),
{
    match v {
        Value::Bool(b) => {
            if *b {
                let s = "true".to_owned();
                proof {
                    reveal_strlit("true");
                    assert(s@ =~= seq!['t', 'r', 'u', 'e']);
                }
                Ok(s)
            } else {
                let s = "false".to_owned();
                proof {
                    reveal_strlit("false");
                    assert(s@ =~= seq!['f', 'a', 'l', 's', 'e']);
                }
                Ok(s)
            }
        },
        Value::Unit => Err(LtsvError::InvalidInput("a unit cannot be a field value".to_owned())),
        Value::Optional(_) => Err(
            LtsvError::InvalidInput("an optional value cannot be a field value".to_owned()),
        ),
        Value::Newtype(_) => Err(
            LtsvError::InvalidInput("a wrapped value cannot be a field value".to_owned()),
        ),
        Value::Sequence(_) => Err(
            LtsvError::InvalidInput("a sequence cannot be a field value".to_owned()),
        ),
        Value::Mapping(_) => Err(
            LtsvError::InvalidInput("a mapping cannot be a field value".to_owned()),
        ),
        _ => key_to_string(v),
    }
}

/// A failed prefix decides the whole mapping's failure.
proof fn lemma_map_line_err(ps: Seq<(Value, Value)>, i: int)
    requires
        0 <= i <= ps.len(),
        map_line(ps.subrange(0, i)) is Err,
    ensures
        map_line(ps) == map_line(ps.subrange(0, i)),
    decreases ps.len() - i,
{
    if i < ps.len() {
        let q = ps.subrange(0, i + 1);
        assert(q.drop_last() =~= ps.subrange(0, i));
        lemma_map_line_err(ps, i + 1);
    } else {
        assert(ps.subrange(0, i) =~= ps);
    }
}

/// A failed prefix decides the whole sequence's failure.
proof fn lemma_seq_line_err(items: Seq<Value>, i: int)
    requires
        0 <= i <= items.len(),
        seq_line(items.subrange(0, i)) is Err,
    ensures
        seq_line(items) == seq_line(items.subrange(0, i)),
    decreases items.len() - i,
{
    if i < items.len() {
        let q = items.subrange(0, i + 1);
        assert(q.drop_last() =~= items.subrange(0, i));
        lemma_seq_line_err(items, i + 1);
    } else {
        assert(items.subrange(0, i) =~= items);
    }
}

fn map_to_line(pairs: &Vec<(Value, Value)>) -> (r: Result<String, LtsvError>)
    ensures
        encode_result_is(r, map_line(pairs@)),
{
    let len = pairs.len();
    let mut acc = String::new();
    let mut i: usize = 0;
    while i < len
        invariant
            0 <= i <= len,
            len == pairs@.len(),
            map_line(pairs@.subrange(0, i as int)) == Ok::<Seq<char>, TextErr>(acc@),
            i > 0 ==> pairs@.len() > 0,
        decreases len - i,
    {
        let ghost prefix = pairs@.subrange(0, i as int);
        let ghost q = pairs@.subrange(0, i as int + 1);
        proof {
            assert(q.drop_last() =~= prefix);
            assert(q.last() == pairs@[i as int]);
        }
        let kr = key_to_string(&pairs[i].0);
        let kt = match kr {
            Ok(kt) => kt,
            Err(e) => {
                proof {
                    lemma_map_line_err(pairs@, i as int + 1);
                }
                return Err(e);
            },
        };
        let vr = value_to_string(&pairs[i].1);
        let vt = match vr {
            Ok(vt) => vt,
            Err(e) => {
                proof {
                    lemma_map_line_err(pairs@, i as int + 1);
                }
                return Err(e);
            },
        };
        let ghost acc0 = acc@;
        if i > 0 {
            acc.append("\t");
        }
        acc.append(kt.as_str());
        acc.append(":");
        acc.append(vt.as_str());
        proof {
            reveal_strlit(":");
            reveal_strlit("\t");
            assert(":"@ =~= seq![':']);
            assert("\t"@ =~= seq!['\t']);
            let p = kt@ + seq![':'] + vt@;
            assert(pair_txt(pairs@[i as int].0, pairs@[i as int].1) == Ok::<Seq<char>, TextErr>(p));
            if i == 0 {
                assert(acc@ =~= p);
                assert(map_line(q) == Ok::<Seq<char>, TextErr>(acc@));
            } else {
                assert(acc@ =~= acc0 + seq!['\t'] + p);
                assert(map_line(q) == Ok::<Seq<char>, TextErr>(acc@));
            }
        }
        i = i + 1;
    }
    proof {
        assert(pairs@.subrange(0, len as int) =~= pairs@);
    }
    Ok(acc)
}

fn seq_to_line(items: &Vec<Value>) -> (r: Result<String, LtsvError>)
    ensures
        encode_result_is(r, seq_line(items@)),
{
    let len = items.len();
    let mut acc = String::new();
    let mut i: usize = 0;
    while i < len
        invariant
            0 <= i <= len,
            len == items@.len(),
            seq_line(items@.subrange(0, i as int)) == Ok::<Seq<char>, TextErr>(acc@),
        decreases len - i,
    {
        let ghost prefix = items@.subrange(0, i as int);
        let ghost q = items@.subrange(0, i as int + 1);
        proof {
            assert(q.drop_last() =~= prefix);
            assert(q.last() == items@[i as int]);
        }
        let vr = value_to_string(&items[i]);
        let vt = match vr {
            Ok(vt) => vt,
            Err(e) => {
                proof {
                    lemma_seq_line_err(items@, i as int + 1);
                }
                return Err(e);
            },
        };
        let kt = u64_to_string(i as u64);
        let ghost acc0 = acc@;
        if i > 0 {
            acc.append("\t");
        }
        acc.append(kt.as_str());
        acc.append(":");
        acc.append(vt.as_str());
        proof {
            reveal_strlit(":");
            reveal_strlit("\t");
            assert(":"@ =~= seq![':']);
            assert("\t"@ =~= seq!['\t']);
            let p = dec_str(i as nat) + seq![':'] + vt@;
            if i == 0 {
                assert(acc@ =~= p);
            } else {
                assert(acc@ =~= acc0 + seq!['\t'] + p);
            }
            assert(seq_line(q) == Ok::<Seq<char>, TextErr>(acc@));
        }
        i = i + 1;
    }
    proof {
        assert(items@.subrange(0, len as int) =~= items@);
    }
    Ok(acc)
}

/// Encodes a tagged value as one LTSV line: a mapping field by field, a
/// sequence keyed by element index, a wrapped mapping unwrapped first; any
/// other shape is invalid.
pub fn to_string(value: &Value) -> (r: Result<String, LtsvError>)
    ensures
        encode_result_is(r, encode_spec(*value)),
{
    match value {
        Value::Mapping(pairs) => map_to_line(pairs),
        Value::Sequence(items) => seq_to_line(items),
        Value::Newtype(inner) => match &**inner {
            Value::Mapping(pairs) => map_to_line(pairs),
            _ => Err(
                LtsvError::InvalidInput("a wrapped value must hold a mapping".to_owned()),
            ),
        },
        _ => Err(
            LtsvError::InvalidInput(
                "only a mapping, a wrapped mapping or a sequence can become a line".to_owned(),
            ),
        ),
    }
}

} // verus!
