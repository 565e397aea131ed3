//! Decoding one LTSV line into a tagged mapping value.
//!
//! The line splits on tabs into chunks; each chunk splits at its first colon
//! into a label and a raw value; each raw value gets a scalar type by
//! best-effort inference.  A later chunk with an already-seen label silently
//! overwrites the earlier value.

use crate::error::LtsvError;
use crate::float::is_float_str;
use crate::float::is_float_text;
use crate::num::dec_val;
use crate::num::i64_text_val;
use crate::num::is_i64_text;
use crate::num::is_u64_text;
use crate::num::parse_i64;
use crate::num::parse_u64;
use crate::text::find_char;
use crate::text::lemma_find_char_first;
use crate::value::Value;
use vstd::prelude::*;
use vstd::string::StrSliceExecFns;
use vstd::string::StringExecFns;

verus! {

/// What scalar the raw text `t` infers to: the boolean literals first, then
/// an unsigned 64-bit number, a signed one, a float text, and finally the
/// text itself, first match winning.
pub open spec fn inferred(t: Seq<char>, v: Value) -> bool {
    if t == seq!['t', 'r', 'u', 'e'] {
        v == Value::Bool(true)
    } else if t == seq!['f', 'a', 'l', 's', 'e'] {
        v == Value::Bool(false)
    } else if is_u64_text(t) {
        v == Value::U64(dec_val(t) as u64)
    } else if is_i64_text(t) {
        v == Value::I64(i64_text_val(t) as i64)
    } else if is_float_text(t) {
        v matches Value::F64(s) && s@ == t
    } else {
        v matches Value::Str(s) && s@ == t
    }
}

fn is_true_str(s: &str) -> (b: bool)
    ensures
        b == (s@ == seq!['t', 'r', 'u', 'e']),
{
    if s.unicode_len() != 4 {
        return false;
    }
    let b = s.get_char(0) == 't' && s.get_char(1) == 'r' && s.get_char(2) == 'u' && s.get_char(3)
        == 'e';
    proof {
        if b {
            assert(s@ =~= seq!['t', 'r', 'u', 'e']);
        }
    }
    b
}

fn is_false_str(s: &str) -> (b: bool)
    ensures
        b == (s@ == seq!['f', 'a', 'l', 's', 'e']),
{
    if s.unicode_len() != 5 {
        return false;
    }
    let b = s.get_char(0) == 'f' && s.get_char(1) == 'a' && s.get_char(2) == 'l' && s.get_char(3)
        == 's' && s.get_char(4) == 'e';
    proof {
        if b {
            assert(s@ =~= seq!['f', 'a', 'l', 's', 'e']);
        }
    }
    b
}

/// Guesses the scalar type of a raw text fragment.  This never fails: a text
/// that is no boolean, integer or float stays a string.
pub fn try_detect_type(raw: &str) -> (v: Value)
    ensures
        inferred(raw@, v),
{
    if is_true_str(raw) {
        return Value::Bool(true);
    }
    if is_false_str(raw) {
        return Value::Bool(false);
    }
    match parse_u64(raw) {
        Some(n) => {
            return Value::U64(n);
        },
        None => {},
    }
    match parse_i64(raw) {
        Some(n) => {
            return Value::I64(n);
        },
        None => {},
    }
    if is_float_str(raw) {
        return Value::F64(raw.to_owned());
    }
    Value::Str(raw.to_owned())
}

/// One chunk split at its first colon into label and raw value, or nothing
/// when it has no colon.
pub open spec fn chunk_pair(c: Seq<char>) -> Option<(Seq<char>, Seq<char>)> {
    let i = find_char(c, ':');
    if i < 0 {
        None
    } else {
        Some((c.subrange(0, i), c.subrange(i + 1, c.len() as int)))
    }
}

/// The line split on tabs, each chunk split at its first colon: the sequence
/// of (label, raw value) texts, or nothing when some chunk has no colon.
pub open spec fn decode_pairs(s: Seq<char>) -> Option<Seq<(Seq<char>, Seq<char>)>>
    decreases s.len(),
    via decode_pairs_dec
{
    let i = find_char(s, '\t');
    if i < 0 {
        match chunk_pair(s) {
            Some(p) => Some(seq![p]),
            None => None,
        }
    } else {
        match chunk_pair(s.subrange(0, i)) {
            Some(p) => match decode_pairs(s.subrange(i + 1, s.len() as int)) {
                Some(ps) => Some(seq![p] + ps),
                None => None,
            },
            None => None,
        }
    }
}

#[via_fn]
proof fn decode_pairs_dec(s: Seq<char>) {
    crate::text::lemma_find_char_bounds(s, '\t');
}

/// The position of the first entry of `m` whose label is `k`, or `-1`.
pub open spec fn find_key(m: Seq<(Seq<char>, Seq<char>)>, k: Seq<char>) -> int
    decreases m.len(),
{
    if m.len() == 0 {
        -1
    } else if m[0].0 == k {
        0
    } else {
        let r = find_key(m.subrange(1, m.len() as int), k);
        if r < 0 {
            -1
        } else {
            r + 1
        }
    }
}

pub(crate) proof fn lemma_find_key_first(m: Seq<(Seq<char>, Seq<char>)>, k: Seq<char>, i: int)
    requires
        0 <= i <= m.len(),
        forall|j: int| 0 <= j < i ==> m[j].0 != k,
        i < m.len() ==> m[i].0 == k,
    ensures
        i < m.len() ==> find_key(m, k) == i,
        i == m.len() ==> find_key(m, k) == -1,
    decreases m.len(),
{
    if m.len() == 0 {
    } else if m[0].0 == k {
        assert(i == 0);
    } else {
        let t = m.subrange(1, m.len() as int);
        assert(forall|j: int| 0 <= j < t.len() ==> t[j] == m[j + 1]);
        lemma_find_key_first(t, k, i - 1);
    }
}

/// `m` with the entry `(k, v)` written in: in place of the first entry
/// labeled `k` when there is one, appended otherwise.
pub open spec fn upsert(
    m: Seq<(Seq<char>, Seq<char>)>,
    k: Seq<char>,
    v: Seq<char>,
) -> Seq<(Seq<char>, Seq<char>)> {
    let i = find_key(m, k);
    if i < 0 {
        m.push((k, v))
    } else {
        m.update(i, (k, v))
    }
}

/// The (label, raw value) pairs folded into a mapping, in order: each pair
/// written in with `upsert`, so a repeated label keeps its first position
/// and its last value.
pub open spec fn assemble(ps: Seq<(Seq<char>, Seq<char>)>) -> Seq<(Seq<char>, Seq<char>)>
    decreases ps.len(),
{
    if ps.len() == 0 {
        Seq::empty()
    } else {
        upsert(assemble(ps.drop_last()), ps.last().0, ps.last().1)
    }
}

/// Whether one decoded entry carries the given label text as its string key
/// and a value inferred from the given raw text.
pub open spec fn entry_matches(e: (Value, Value), p: (Seq<char>, Seq<char>)) -> bool {
    (e.0 matches Value::Str(s) && s@ == p.0) && inferred(p.1, e.1)
}

/// Whether the decoded entries `m` carry exactly the labeled raw values `ps`.
pub open spec fn decoded_map(m: Seq<(Value, Value)>, ps: Seq<(Seq<char>, Seq<char>)>) -> bool {
    m.len() == ps.len() && (forall|i: int|
        0 <= i < m.len() ==> entry_matches(#[trigger] m[i], ps[i]))
}

fn upsert_pair(
    out: &mut Vec<(Value, Value)>,
    label: String,
    val: Value,
    am: Ghost<Seq<(Seq<char>, Seq<char>)>>,
    vt: Ghost<Seq<char>>,
)
    requires
        decoded_map(old(out)@, am@),
        inferred(vt@, val),
    ensures
        decoded_map(final(out)@, upsert(am@, label@, vt@)),
{
    let n = out.len();
    let mut j: usize = 0;
    while j < n
        invariant
            0 <= j <= n,
            n == out.len(),
            out@ == old(out)@,
            decoded_map(out@, am@),
            inferred(vt@, val),
            forall|l: int| 0 <= l < j ==> am@[l].0 != label@,
        decreases n - j,
    {
        let hit: bool;
        match &out[j].0 {
            Value::Str(s) => {
                hit = *s == label;
            },
            _ => {
                proof {
                    assert(entry_matches(out@[j as int], am@[j as int]));
                    assert(false);
                }
                hit = false;
            },
        }
        if hit {
            proof {
                assert(entry_matches(out@[j as int], am@[j as int]));
                lemma_find_key_first(am@, label@, j as int);
            }
            let _ = out.remove(j);
            out.insert(j, (Value::Str(label), val));
            proof {
                assert(out@ =~= old(out)@.update(j as int, (Value::Str(label), val)));
                let res = upsert(am@, label@, vt@);
                assert(res == am@.update(j as int, (label@, vt@)));
                assert forall|l: int| 0 <= l < out@.len() implies entry_matches(
                    #[trigger] out@[l],
                    res[l],
                ) by {
                    if l != j as int {
                        assert(entry_matches(old(out)@[l], am@[l]));
                    }
                }
            }
            return;
        }
        proof {
            assert(entry_matches(out@[j as int], am@[j as int]));
        }
        j = j + 1;
    }
    proof {
        lemma_find_key_first(am@, label@, n as int);
    }
    out.push((Value::Str(label), val));
    proof {
        let res = upsert(am@, label@, vt@);
        assert(res == am@.push((label@, vt@)));
        assert forall|l: int| 0 <= l < out@.len() implies entry_matches(
            #[trigger] out@[l],
            res[l],
        ) by {
            if l < n {
                assert(entry_matches(old(out)@[l], am@[l]));
            }
        }
    }
}

/// Decodes one LTSV line into a tagged mapping whose keys are the labels and
/// whose values are the inferred scalars; a chunk without a colon makes the
/// whole line invalid.
pub fn from_str(line: &str) -> (r: Result<Value, LtsvError>)
    ensures
        r matches Ok(v) ==> (decode_pairs(line@) matches Some(ps) && v matches Value::Mapping(m)
            && decoded_map(m@, assemble(ps))),
        r matches Err(e) ==> decode_pairs(line@) is None && e matches LtsvError::InvalidInput(_),
{
    let n = line.unicode_len();
    let mut out: Vec<(Value, Value)> = Vec::new();
    let ghost mut done: Seq<(Seq<char>, Seq<char>)> = Seq::empty();
    let mut start: usize = 0;
    let mut finished: bool = false;
    proof {
        assert(line@.subrange(0, n as int) =~= line@);
        match decode_pairs(line@) {
            Some(rest) => {
                assert(Seq::<(Seq<char>, Seq<char>)>::empty() + rest =~= rest);
            },
            None => {},
        }
    }
    while !finished
        invariant
            n == line@.len(),
            decoded_map(out@, assemble(done)),
            !finished ==> 0 <= start <= n,
            !finished ==> decode_pairs(line@) == (match decode_pairs(
                line@.subrange(start as int, n as int),
            ) {
                Some(rest) => Some(done + rest),
                None => None::<Seq<(Seq<char>, Seq<char>)>>,
            }),
            finished ==> decode_pairs(line@) == Some(done),
        decreases n - start + (if finished {
            0int
        } else {
            1int
        }),
    {
        let ghost start0 = start as int;
        let ghost done0 = done;
        let ghost suffix = line@.subrange(start as int, n as int);
        // find the tab that ends this chunk, if any
        let mut j: usize = start;
        let mut tab_found: bool = false;
        while !tab_found && j < n
            invariant
                start <= j <= n,
                n == line@.len(),
                forall|l: int| start <= l < j ==> line@[l] != '\t',
                tab_found ==> j < n && line@[j as int] == '\t',
            decreases n - j + (if tab_found {
                0int
            } else {
                1int
            }),
        {
            if line.get_char(j) == '\t' {
                tab_found = true;
            } else {
                j = j + 1;
            }
        }
        proof {
            assert(forall|l: int| 0 <= l < j - start ==> suffix[l] == line@[l + start]);
            if tab_found {
                assert(suffix[j - start] == line@[j as int]);
                lemma_find_char_first(suffix, '\t', j - start);
            } else {
                assert(j == n);
                lemma_find_char_first(suffix, '\t', suffix.len() as int);
            }
        }
        let ghost chunk = line@.subrange(start as int, j as int);
        proof {
            if tab_found {
                assert(chunk =~= suffix.subrange(0, j - start));
            } else {
                assert(chunk =~= suffix);
            }
        }
        // find the first colon inside the chunk
        let mut ci: usize = start;
        let mut colon_found: bool = false;
        while !colon_found && ci < j
            invariant
                start <= ci <= j,
                j <= n,
                n == line@.len(),
                forall|l: int| start <= l < ci ==> line@[l] != ':',
                colon_found ==> ci < j && line@[ci as int] == ':',
            decreases j - ci + (if colon_found {
                0int
            } else {
                1int
            }),
        {
            if line.get_char(ci) == ':' {
                colon_found = true;
            } else {
                ci = ci + 1;
            }
        }
        proof {
            assert(forall|l: int| 0 <= l < ci - start ==> chunk[l] == line@[l + start]);
            if colon_found {
                assert(chunk[ci - start] == line@[ci as int]);
                lemma_find_char_first(chunk, ':', ci - start);
            } else {
                assert(ci == j);
                lemma_find_char_first(chunk, ':', chunk.len() as int);
            }
        }
        if !colon_found {
            proof {
                assert(chunk_pair(chunk) is None);
                assert(decode_pairs(suffix) is None);
            }
            let mut msg = "each field must be written label:value, with a colon: [".to_owned();
            msg.append(line);
            msg.append("]");
            return Err(LtsvError::InvalidInput(msg));
        }
        let ghost k = line@.subrange(start as int, ci as int);
        let ghost vt = line@.subrange(ci as int + 1, j as int);
        proof {
            assert(k =~= chunk.subrange(0, ci - start));
            assert(vt =~= chunk.subrange(ci - start + 1, chunk.len() as int));
            assert(chunk_pair(chunk) == Some((k, vt)));
        }
        let label = line.substring_char(start, ci).to_owned();
        let vtext = line.substring_char(ci + 1, j);
        proof {
            assert(label@ == k);
            assert(vtext@ == vt);
        }
        let val = try_detect_type(vtext);
        upsert_pair(&mut out, label, val, Ghost(assemble(done)), Ghost(vt));
        proof {
            done = done0.push((k, vt));
            assert(done.drop_last() =~= done0);
            assert(assemble(done) == upsert(assemble(done0), k, vt));
        }
        if tab_found {
            start = j + 1;
            proof {
                let nsuffix = line@.subrange(start as int, n as int);
                assert(nsuffix =~= suffix.subrange((j - start0) + 1, suffix.len() as int));
                match decode_pairs(nsuffix) {
                    Some(rest) => {
                        assert(decode_pairs(suffix) == Some(seq![(k, vt)] + rest));
                        assert(done0 + (seq![(k, vt)] + rest) =~= done + rest);
                    },
                    None => {
                        assert(decode_pairs(suffix) is None);
                    },
                }
            }
        } else {
            finished = true;
            proof {
                assert(decode_pairs(suffix) == Some(seq![(k, vt)]));
                assert(done0 + seq![(k, vt)] =~= done);
            }
        }
    }
    Ok(Value::Mapping(out))
}

} // verus!
