//! The round-trip law: a mapping of stable scalars under well-formed labels
//! encodes to a line that decodes back to the same mapping.

use crate::de::assemble;
use crate::de::chunk_pair;
use crate::de::decode_pairs;
use crate::de::decoded_map;
use crate::de::entry_matches;
use crate::de::inferred;
use crate::de::lemma_find_key_first;
use crate::de::upsert;
use crate::float::is_float_text;
use crate::num::all_digits;
use crate::num::dec_str;
use crate::num::is_digit;
use crate::num::is_i64_text;
use crate::num::is_u64_text;
use crate::num::lemma_dec_str_digits;
use crate::num::signed_dec_str;
use crate::ser::key_txt;
use crate::ser::map_line;
use crate::ser::pair_txt;
use crate::ser::val_txt;
use crate::ser::TextErr;
use crate::text::find_char;
use crate::text::lemma_find_char_bounds;
use crate::text::lemma_find_char_first;
use crate::value::Value;
use vstd::prelude::*;

verus! {

/// Whether `v` may stand as a label on a round trip: a string without the
/// two separator characters.
pub open spec fn key_ok(v: Value) -> bool {
    v matches Value::Str(s) && find_char(s@, ':') == -1 && find_char(s@, '\t') == -1
}

/// The label text of a string key.
pub open spec fn key_text_of(v: Value) -> Seq<char> {
    match v {
        Value::Str(s) => s@,
        _ => Seq::empty(),
    }
}

/// Whether `v` is a stable scalar: one whose rendered text infers back to
/// `v` itself.  Booleans, unsigned numbers and negative signed numbers
/// always are; a float is when its text does not also read as an integer;
/// a string is when its text reads as no other scalar kind and carries no
/// tab.
pub open spec fn scalar_stable(v: Value) -> bool {
    match v {
        Value::Bool(_) => true,
        Value::U64(_) => true,
        Value::I64(n) => n < 0,
        Value::F64(s) => is_float_text(s@) && !is_u64_text(s@) && !is_i64_text(s@),
        Value::Str(s) => s@ != seq!['t', 'r', 'u', 'e'] && s@ != seq!['f', 'a', 'l', 's', 'e']
            && !is_u64_text(s@) && !is_i64_text(s@) && !is_float_text(s@) && find_char(s@, '\t')
            == -1,
        _ => false,
    }
}

/// Digit texts contain no tab, no colon, and are no boolean literal.
proof fn lemma_digits_plain(t: Seq<char>)
    requires
        all_digits(t),
    ensures
        find_char(t, '\t') == -1,
        find_char(t, ':') == -1,
        t.len() > 0 ==> t != seq!['t', 'r', 'u', 'e'] && t != seq!['f', 'a', 'l', 's', 'e'],
{
    assert('\t' as u32 == 9);
    assert(':' as u32 == 58);
    assert('t' as u32 == 116);
    assert('f' as u32 == 102);
    assert forall|j: int| 0 <= j < t.len() implies t[j] != '\t' && t[j] != ':' by {
        assert(is_digit(t[j]));
    }
    lemma_find_char_first(t, '\t', t.len() as int);
    lemma_find_char_first(t, ':', t.len() as int);
    if t.len() > 0 {
        if t == seq!['t', 'r', 'u', 'e'] {
            assert(is_digit('t'));
        }
        if t == seq!['f', 'a', 'l', 's', 'e'] {
            assert(is_digit('f'));
        }
    }
}

/// A stable scalar renders to a tab-free text that infers back to it.
proof fn lemma_stable_val_txt(v: Value)
    requires
        scalar_stable(v),
    ensures
        val_txt(v) matches Ok(t) && inferred(t, v) && find_char(t, '\t') == -1,
{
    match v {
        Value::Bool(b) => {
            let t = if b {
                seq!['t', 'r', 'u', 'e']
            } else {
                seq!['f', 'a', 'l', 's', 'e']
            };
            assert('\t' as u32 == 9);
            assert forall|j: int| 0 <= j < t.len() implies t[j] != '\t' by {
                assert(t[j] as u32 != 9);
            }
            lemma_find_char_first(t, '\t', t.len() as int);
            if !b {
                assert(t != seq!['t', 'r', 'u', 'e']);
            }
        },
        Value::U64(n) => {
            lemma_dec_str_digits(n as nat);
            lemma_digits_plain(dec_str(n as nat));
        },
        Value::I64(n) => {
            let m = (-(n as int)) as nat;
            lemma_dec_str_digits(m);
            lemma_digits_plain(dec_str(m));
            let t = signed_dec_str(n as int);
            let d = dec_str(m);
            assert(t == seq!['-'] + d);
            assert(t[0] == '-');
            assert('-' as u32 == 45);
            assert('\t' as u32 == 9);
            assert('t' as u32 == 116);
            assert('f' as u32 == 102);
            assert(t != seq!['t', 'r', 'u', 'e']);
            assert(t != seq!['f', 'a', 'l', 's', 'e']);
            assert(!is_digit(t[0]));
            assert(!is_u64_text(t));
            assert(t.subrange(1, t.len() as int) =~= d);
            assert(is_i64_text(t));
            assert(crate::num::i64_text_val(t) == n as int);
            assert forall|j: int| 0 <= j < t.len() implies t[j] != '\t' by {
                if j > 0 {
                    assert(t[j] == d[j - 1]);
                    assert(is_digit(t[j]));
                }
            }
            lemma_find_char_first(t, '\t', t.len() as int);
            assert(inferred(t, v));
        },
        Value::F64(s) => {
            crate::float::lemma_float_text_no_tab(s@);
            crate::float::lemma_bool_literals_not_float();
        },
        Value::Str(_) => {
        },
        _ => {
        },
    }
}

/// A label and value text joined by a colon split back apart at that colon.
proof fn lemma_chunk_roundtrip(k: Seq<char>, vt: Seq<char>)
    requires
        find_char(k, ':') == -1,
    ensures
        chunk_pair(k + seq![':'] + vt) == Some((k, vt)),
{
    let c = k + seq![':'] + vt;
    lemma_find_char_bounds(k, ':');
    assert forall|j: int| 0 <= j < k.len() implies c[j] != ':' by {
        assert(c[j] == k[j]);
    }
    assert(c[k.len() as int] == ':');
    lemma_find_char_first(c, ':', k.len() as int);
    assert(c.subrange(0, k.len() as int) =~= k);
    assert(c.subrange(k.len() as int + 1, c.len() as int) =~= vt);
}

/// A chunk built from tab-free parts is tab-free.
proof fn lemma_chunk_no_tab(k: Seq<char>, vt: Seq<char>)
    requires
        find_char(k, '\t') == -1,
        find_char(vt, '\t') == -1,
    ensures
        find_char(k + seq![':'] + vt, '\t') == -1,
{
    let c = k + seq![':'] + vt;
    lemma_find_char_bounds(k, '\t');
    lemma_find_char_bounds(vt, '\t');
    assert(':' as u32 == 58);
    assert('\t' as u32 == 9);
    assert forall|j: int| 0 <= j < c.len() implies c[j] != '\t' by {
        if j < k.len() {
            assert(c[j] == k[j]);
        } else if j == k.len() {
            assert(c[j] == ':');
        } else {
            assert(c[j] == vt[j - k.len() - 1]);
        }
    }
    lemma_find_char_first(c, '\t', c.len() as int);
}

/// A single well-formed chunk decodes to its one pair.
proof fn lemma_decode_single(k: Seq<char>, vt: Seq<char>)
    requires
        find_char(k, ':') == -1,
        find_char(k, '\t') == -1,
        find_char(vt, '\t') == -1,
    ensures
        decode_pairs(k + seq![':'] + vt) == Some(seq![(k, vt)]),
{
    let c = k + seq![':'] + vt;
    lemma_chunk_no_tab(k, vt);
    lemma_chunk_roundtrip(k, vt);
}

/// Appending a tab and one more well-formed chunk to a decodable line
/// appends its pair to the decoding.
proof fn lemma_decode_append(
    t1: Seq<char>,
    k: Seq<char>,
    vt: Seq<char>,
    ps1: Seq<(Seq<char>, Seq<char>)>,
)
    requires
        decode_pairs(t1) == Some(ps1),
        find_char(k, ':') == -1,
        find_char(k, '\t') == -1,
        find_char(vt, '\t') == -1,
    ensures
        decode_pairs(t1 + seq!['\t'] + (k + seq![':'] + vt)) == Some(ps1.push((k, vt))),
    decreases t1.len(),
{
    let c = k + seq![':'] + vt;
    let t = t1 + seq!['\t'] + c;
    lemma_find_char_bounds(t1, '\t');
    let i = find_char(t1, '\t');
    if i == -1 {
        assert forall|j: int| 0 <= j < t1.len() implies t[j] != '\t' by {
            assert(t[j] == t1[j]);
        }
        assert(t[t1.len() as int] == '\t');
        lemma_find_char_first(t, '\t', t1.len() as int);
        assert(t.subrange(0, t1.len() as int) =~= t1);
        assert(t.subrange(t1.len() as int + 1, t.len() as int) =~= c);
        lemma_decode_single(k, vt);
        match chunk_pair(t1) {
            Some(p1) => {
                assert(ps1 == seq![p1]);
                assert(seq![p1] + seq![(k, vt)] =~= ps1.push((k, vt)));
            },
            None => {
                assert(false);
            },
        }
    } else {
        assert forall|j: int| 0 <= j < i implies t[j] != '\t' by {
            assert(t[j] == t1[j]);
        }
        assert(t[i] == t1[i]);
        lemma_find_char_first(t, '\t', i);
        let pre = t1.subrange(0, i);
        let suf = t1.subrange(i + 1, t1.len() as int);
        assert(t.subrange(0, i) =~= pre);
        assert(t.subrange(i + 1, t.len() as int) =~= suf + seq!['\t'] + c);
        match chunk_pair(pre) {
            Some(p) => {
                match decode_pairs(suf) {
                    Some(rest) => {
                        assert(ps1 == seq![p] + rest);
                        lemma_decode_append(suf, k, vt, rest);
                        assert(seq![p] + rest.push((k, vt)) =~= ps1.push((k, vt)));
                    },
                    None => {
                        assert(false);
                    },
                }
            },
            None => {
                assert(false);
            },
        }
    }
}

/// Folding pairs with pairwise distinct labels into a mapping keeps them
/// all, unchanged and in order.
proof fn lemma_assemble_distinct(ps: Seq<(Seq<char>, Seq<char>)>)
    requires
        forall|i: int, j: int| 0 <= i < j < ps.len() ==> ps[i].0 != ps[j].0,
    ensures
        assemble(ps) == ps,
    decreases ps.len(),
{
    if ps.len() > 0 {
        let q = ps.drop_last();
        lemma_assemble_distinct(q);
        assert forall|j: int| 0 <= j < q.len() implies q[j].0 != ps.last().0 by {
            assert(q[j] == ps[j]);
        }
        lemma_find_key_first(q, ps.last().0, q.len() as int);
        assert(upsert(q, ps.last().0, ps.last().1) == q.push(ps.last()));
        assert(q.push(ps.last()) =~= ps);
    }
}

/// The round-trip law: encoding a non-empty mapping whose labels are
/// separator-free strings, pairwise distinct, and whose values are stable
/// scalars yields a line; decoding that line yields pairs that carry
/// exactly the original labels and values, with nothing folded away.
pub proof fn lemma_scalar_round_trip(pairs: Seq<(Value, Value)>)
    requires
        pairs.len() > 0,
        forall|i: int|
            0 <= i < pairs.len() ==> key_ok((#[trigger] pairs[i]).0) && scalar_stable(pairs[i].1),
        forall|i: int, j: int|
            0 <= i < j < pairs.len() ==> key_text_of(pairs[i].0) != key_text_of(pairs[j].0),
    ensures
        map_line(pairs) matches Ok(t) && (decode_pairs(t) matches Some(ps) && assemble(ps) == ps
            && decoded_map(pairs, ps)),
    decreases pairs.len(),
{
    let last = pairs.last();
    assert(key_ok(last.0) && scalar_stable(last.1));
    let kt = key_text_of(last.0);
    lemma_stable_val_txt(last.1);
    let vt = match val_txt(last.1) {
        Ok(vt) => vt,
        Err(_) => Seq::empty(),
    };
    assert(key_txt(last.0) == Ok::<Seq<char>, TextErr>(kt));
    assert(pair_txt(last.0, last.1) == Ok::<Seq<char>, TextErr>(kt + seq![':'] + vt));
    if pairs.len() == 1 {
        assert(pairs.drop_last().len() == 0);
        assert(map_line(pairs.drop_last()) == Ok::<Seq<char>, TextErr>(Seq::empty()));
        let t = kt + seq![':'] + vt;
        assert(map_line(pairs) == Ok::<Seq<char>, TextErr>(t));
        lemma_decode_single(kt, vt);
        let ps = seq![(kt, vt)];
        assert forall|i: int, j: int| 0 <= i < j < ps.len() implies ps[i].0 != ps[j].0 by {}
        lemma_assemble_distinct(ps);
        assert(entry_matches(pairs[0], ps[0]));
        assert(decoded_map(pairs, ps));
    } else {
        let q = pairs.drop_last();
        assert forall|i: int| 0 <= i < q.len() implies key_ok((#[trigger] q[i]).0)
            && scalar_stable(q[i].1) by {
            assert(q[i] == pairs[i]);
        }
        assert forall|i: int, j: int| 0 <= i < j < q.len() implies key_text_of(q[i].0)
            != key_text_of(q[j].0) by {
            assert(q[i] == pairs[i] && q[j] == pairs[j]);
        }
        lemma_scalar_round_trip(q);
        match map_line(q) {
            Ok(t1) => {
                match decode_pairs(t1) {
                    Some(ps1) => {
                        let t = t1 + seq!['\t'] + (kt + seq![':'] + vt);
                        assert(map_line(pairs) == Ok::<Seq<char>, TextErr>(t));
                        lemma_decode_append(t1, kt, vt, ps1);
                        let ps = ps1.push((kt, vt));
                        assert forall|i: int| 0 <= i < pairs.len() implies entry_matches(
                            #[trigger] pairs[i],
                            ps[i],
                        ) by {
                            if i < pairs.len() - 1 {
                                assert(entry_matches(q[i], ps1[i]));
                                assert(q[i] == pairs[i] && ps1[i] == ps[i]);
                            } else {
                                assert(pairs[i] == last && ps[i] == (kt, vt));
                            }
                        }
                        assert(decoded_map(pairs, ps));
                        assert forall|i: int, j: int| 0 <= i < j < ps.len() implies ps[i].0
                            != ps[j].0 by {
                            assert(entry_matches(pairs[i], ps[i]));
                            assert(entry_matches(pairs[j], ps[j]));
                            assert(ps[i].0 == key_text_of(pairs[i].0));
                            assert(ps[j].0 == key_text_of(pairs[j].0));
                        }
                        lemma_assemble_distinct(ps);
                    },
                    None => {
                        assert(false);
                    },
                }
            },
            Err(_) => {
                assert(false);
            },
        }
    }
}

} // verus!
