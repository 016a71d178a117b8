//! The persisted form of a note store: a JSON array of objects
//! `{"id": ..., "body": "...", "timestamp": "..."}` with stable field order
//! and two-space indentation. `save` writes the full snapshot as text;
//! `load` reads it back leniently, answering the empty store for any text
//! that is not a well-formed snapshot. Loading what `save` wrote always
//! reproduces the same notes, which `lemma_save_load_round_trip` states.

use vstd::prelude::*;
use vstd::string::StrSliceExecFns;
use vstd::string::StringExecFns;

use crate::numeral::{
    dec_str, hex_char, hex_digit_char, hex_val, is_hex_digit, lemma_hex_digit_char_val, push_dec,
    to_dec,
};
use crate::store::{contiguous_ids, views_of, Note, NoteStore, NoteView};
use crate::text::push_char;

verus! {

/// How one character of a stored string is written: the quote, the
/// backslash and the common control characters get two-character escapes,
/// the remaining control characters a `\u00XX` escape, and every other
/// character stands for itself.
pub open spec fn escape_char(c: char) -> Seq<char> {
    if c == '"' {
        seq!['\\', '"']
    } else if c == '\\' {
        seq!['\\', '\\']
    } else if c == '\n' {
        seq!['\\', 'n']
    } else if c == '\t' {
        seq!['\\', 't']
    } else if c == '\r' {
        seq!['\\', 'r']
    } else if (c as u32) < 0x20 {
        seq![
            '\\',
            'u',
            '0',
            '0',
            hex_digit_char(c as u32 as int / 16),
            hex_digit_char(c as u32 as int % 16),
        ]
    } else {
        seq![c]
    }
}

/// `s` written with every character escaped as `escape_char` says.
pub open spec fn escape(s: Seq<char>) -> Seq<char>
    decreases s.len(),
{
    if s.len() == 0 {
        Seq::empty()
    } else {
        escape_char(s[0]) + escape(s.skip(1))
    }
}

/// The persisted form of one note.
pub open spec fn render_note(n: NoteView) -> Seq<char> {
    "  {\n    \"id\": "@ + dec_str(n.id as int) + ",\n    \"body\": \""@ + escape(n.body) + "\""@
        + ",\n    \"timestamp\": \""@ + escape(n.timestamp) + "\""@ + "\n  }"@
}

/// The persisted forms of the notes from position `k` on, joined with
/// `,` and a line break.
pub open spec fn render_items(v: Seq<NoteView>, k: int) -> Seq<char>
    decreases v.len() - k,
{
    if k < 0 || k >= v.len() {
        Seq::empty()
    } else if k == v.len() - 1 {
        render_note(v[k])
    } else {
        render_note(v[k]) + ",\n"@ + render_items(v, k + 1)
    }
}

/// The persisted form of a whole store: the empty array, or one object per
/// note between brackets on lines of their own.
pub open spec fn render_notes(v: Seq<NoteView>) -> Seq<char> {
    if v.len() == 0 {
        "[]"@
    } else {
        "[\n"@ + render_items(v, 0) + "\n]"@
    }
}

/// `s` begins with `p`.
pub open spec fn starts_with(s: Seq<char>, p: Seq<char>) -> bool {
    p.len() <= s.len() && s.take(p.len() as int) == p
}

/// Joins a character read from an escape onto a parsed string tail.
pub open spec fn parse_string_cons(c: char, r: Option<(Seq<char>, Seq<char>)>) -> Option<
    (Seq<char>, Seq<char>),
> {
    match r {
        Some((v, rest)) => Some((seq![c] + v, rest)),
        None => None,
    }
}

/// Reads a string body up to and including its closing quote: the value
/// read and the remaining input, or nothing if the input ends first or an
/// escape is malformed.
pub open spec fn parse_string(s: Seq<char>) -> Option<(Seq<char>, Seq<char>)>
    decreases s.len(),
{
    if s.len() == 0 {
        None
    } else if s[0] == '"' {
        Some((Seq::empty(), s.skip(1)))
    } else if s[0] == '\\' {
        if s.len() < 2 {
            None
        } else {
            let e = s[1];
            if e == '"' || e == '\\' {
                parse_string_cons(e, parse_string(s.skip(2)))
            } else if e == 'n' {
                parse_string_cons('\n', parse_string(s.skip(2)))
            } else if e == 't' {
                parse_string_cons('\t', parse_string(s.skip(2)))
            } else if e == 'r' {
                parse_string_cons('\r', parse_string(s.skip(2)))
            } else if e == 'u' {
                if s.len() < 6 {
                    None
                } else if s[2] == '0' && s[3] == '0' && is_hex_digit(s[4]) && is_hex_digit(s[5]) {
                    parse_string_cons(
                        ((hex_val(s[4]) * 16 + hex_val(s[5])) as u8) as char,
                        parse_string(s.skip(6)),
                    )
                } else {
                    None
                }
            } else {
                None
            }
        }
    } else {
        parse_string_cons(s[0], parse_string(s.skip(1)))
    }
}

/// Reads one persisted note whose id must be `id`: the note and the
/// remaining input, or nothing if the text does not have exactly the
/// persisted shape.
pub open spec fn parse_note(s: Seq<char>, id: u32) -> Option<(NoteView, Seq<char>)> {
    let lit_id = "  {\n    \"id\": "@;
    let ids = dec_str(id as int);
    let lit_body = ",\n    \"body\": \""@;
    let lit_ts = ",\n    \"timestamp\": \""@;
    let lit_end = "\n  }"@;
    if !starts_with(s, lit_id) {
        None
    } else {
        let s1 = s.skip(lit_id.len() as int);
        if !starts_with(s1, ids) {
            None
        } else {
            let s2 = s1.skip(ids.len() as int);
            if !starts_with(s2, lit_body) {
                None
            } else {
                match parse_string(s2.skip(lit_body.len() as int)) {
                    None => None,
                    Some((body, s3)) => if !starts_with(s3, lit_ts) {
                        None
                    } else {
                        match parse_string(s3.skip(lit_ts.len() as int)) {
                            None => None,
                            Some((ts, s4)) => if !starts_with(s4, lit_end) {
                                None
                            } else {
                                Some(
                                    (
                                        NoteView { id, body, timestamp: ts },
                                        s4.skip(lit_end.len() as int),
                                    ),
                                )
                            },
                        }
                    },
                }
            }
        }
    }
}

/// Reads the persisted notes from expected id `id` on, up to the closing
/// bracket, which must end the input. `fuel` only bounds the recursion;
/// any value at least the number of notes gives the same answer.
pub open spec fn parse_items(s: Seq<char>, id: u32, fuel: nat) -> Option<Seq<NoteView>>
    decreases fuel,
{
    if fuel == 0 {
        None
    } else {
        match parse_note(s, id) {
            None => None,
            Some((n, rest)) => {
                if rest == "\n]"@ {
                    Some(seq![n])
                } else if starts_with(rest, ",\n"@) && id < u32::MAX {
                    match parse_items(rest.skip(2), (id + 1) as u32, (fuel - 1) as nat) {
                        None => None,
                        Some(tail) => Some(seq![n] + tail),
                    }
                } else {
                    None
                }
            },
        }
    }
}

/// Reads a whole persisted snapshot; ids must run 1, 2, 3, ... in order.
pub open spec fn parse_notes(s: Seq<char>) -> Option<Seq<NoteView>> {
    if s == "[]"@ {
        Some(Seq::empty())
    } else if starts_with(s, "[\n"@) {
        parse_items(s.skip(2), 1, s.len() as nat)
    } else {
        None
    }
}

proof fn lemma_split_concat(a: Seq<char>, b: Seq<char>)
    ensures
        starts_with(a + b, a),
        (a + b).skip(a.len() as int) == b,
{
    assert((a + b).take(a.len() as int) =~= a);
    assert((a + b).skip(a.len() as int) =~= b);
}

proof fn lemma_parse_string_round_trip(v: Seq<char>, rest: Seq<char>)
    ensures
        parse_string(escape(v) + seq!['"'] + rest) == Some((v, rest)),
    decreases v.len(),
{
    let s = escape(v) + seq!['"'] + rest;
    if v.len() == 0 {
        assert(s =~= seq!['"'] + rest);
        assert(s[0] == '"');
        assert(s.skip(1) =~= rest);
    } else {
        let c = v[0];
        let e = escape_char(c);
        lemma_parse_string_round_trip(v.skip(1), rest);
        let t = escape(v.skip(1)) + seq!['"'] + rest;
        assert(s =~= e + t);
        lemma_split_concat(e, t);
        assert(parse_string(t) == Some((v.skip(1), rest)));
        if c == '"' || c == '\\' {
            assert(s[0] == '\\' && s[1] == c);
            assert(s.skip(2) =~= t);
            assert(seq![c] + v.skip(1) =~= v);
        } else if c == '\n' || c == '\t' || c == '\r' {
            assert(s[0] == '\\');
            assert(s.skip(2) =~= t);
            assert(seq![c] + v.skip(1) =~= v);
        } else if (c as u32) < 0x20 {
            let u = c as u32 as int;
            lemma_hex_digit_char_val(u / 16);
            lemma_hex_digit_char_val(u % 16);
            assert(s[0] == '\\' && s[1] == 'u' && s[2] == '0' && s[3] == '0');
            assert(s[4] == hex_digit_char(u / 16) && s[5] == hex_digit_char(u % 16));
            assert(hex_val(s[4]) * 16 + hex_val(s[5]) == u);
            let w: u32 = c as u32;
            vstd::utf8::char_u32_cast(c, w);
            assert(((u as u8) as char) == c);
            assert(s.skip(6) =~= t);
            assert(seq![c] + v.skip(1) =~= v);
        } else {
            assert(s[0] == c);
            assert(s.skip(1) =~= t);
            assert(seq![c] + v.skip(1) =~= v);
        }
    }
}

#[verifier::rlimit(80)]
proof fn lemma_parse_note_round_trip(n: NoteView, rest: Seq<char>)
    ensures
        parse_note(render_note(n) + rest, n.id) == Some((n, rest)),
{
    let lit_id = "  {\n    \"id\": "@;
    let ids = dec_str(n.id as int);
    let lit_body = ",\n    \"body\": \""@;
    let q = "\""@;
    let lit_ts = ",\n    \"timestamp\": \""@;
    let lit_end = "\n  }"@;
    let eb = escape(n.body);
    let et = escape(n.timestamp);
    reveal_strlit("\"");
    let r6 = lit_end + rest;
    let r5 = et + (q + r6);
    let r4 = lit_ts + r5;
    let r3 = eb + (q + r4);
    let r2 = lit_body + r3;
    let r1 = ids + r2;
    let s = render_note(n) + rest;
    assert(s =~= lit_id + r1);
    lemma_split_concat(lit_id, r1);
    lemma_split_concat(ids, r2);
    lemma_split_concat(lit_body, r3);
    assert(r3 =~= eb + seq!['"'] + (r4));
    lemma_parse_string_round_trip(n.body, r4);
    assert(parse_string(r3) == Some((n.body, r4)));
    lemma_split_concat(lit_ts, r5);
    assert(r5 =~= et + seq!['"'] + (r6));
    lemma_parse_string_round_trip(n.timestamp, r6);
    assert(parse_string(r5) == Some((n.timestamp, r6)));
    lemma_split_concat(lit_end, rest);
    assert((NoteView { id: n.id, body: n.body, timestamp: n.timestamp }) == n);
}

#[verifier::rlimit(80)]
proof fn lemma_parse_items_round_trip(v: Seq<NoteView>, k: int, fuel: nat)
    requires
        0 <= k < v.len(),
        contiguous_ids(v),
        fuel >= v.len() - k,
    ensures
        parse_items(render_items(v, k) + "\n]"@, (k + 1) as u32, fuel) == Some(v.skip(k)),
    decreases v.len() - k,
{
    let id = (k + 1) as u32;
    assert(v[v.len() - 1].id as int == v.len());
    assert(v[k].id as int == k + 1);
    assert(id as int == k + 1);
    if k == v.len() - 1 {
        let s = render_items(v, k) + "\n]"@;
        assert(s == render_note(v[k]) + "\n]"@);
        lemma_parse_note_round_trip(v[k], "\n]"@);
        assert(parse_note(s, id) == Some((v[k], "\n]"@)));
        assert(seq![v[k]] =~= v.skip(k));
    } else {
        let tail = render_items(v, k + 1) + "\n]"@;
        let mid = ",\n"@ + tail;
        let s = render_items(v, k) + "\n]"@;
        assert(s =~= render_note(v[k]) + mid);
        lemma_parse_note_round_trip(v[k], mid);
        assert(parse_note(s, id) == Some((v[k], mid)));
        reveal_strlit(",\n");
        reveal_strlit("\n]");
        assert(mid[0] == ',' && "\n]"@[0] == '\n');
        assert(mid != "\n]"@);
        lemma_split_concat(",\n"@, tail);
        assert(mid.skip(2) == tail);
        lemma_parse_items_round_trip(v, k + 1, (fuel - 1) as nat);
        assert(seq![v[k]] + v.skip(k + 1) =~= v.skip(k));
    }
}

proof fn lemma_render_items_len(v: Seq<NoteView>, k: int)
    requires
        0 <= k < v.len(),
    ensures
        render_items(v, k).len() >= v.len() - k,
    decreases v.len() - k,
{
    reveal_strlit("  {\n    \"id\": ");
    assert(render_note(v[k]).len() >= 1);
    if k < v.len() - 1 {
        lemma_render_items_len(v, k + 1);
    }
}

proof fn lemma_escape_concat(a: Seq<char>, b: Seq<char>)
    ensures
        escape(a + b) == escape(a) + escape(b),
    decreases a.len(),
{
    if a.len() == 0 {
        assert(a + b =~= b);
        assert(escape(a) + escape(b) =~= escape(b));
    } else {
        assert((a + b)[0] == a[0]);
        assert((a + b).skip(1) =~= a.skip(1) + b);
        lemma_escape_concat(a.skip(1), b);
        assert(escape_char(a[0]) + (escape(a.skip(1)) + escape(b)) =~= (escape_char(a[0]) + escape(
            a.skip(1),
        )) + escape(b));
    }
}

proof fn lemma_escape_snoc(s: Seq<char>, i: int)
    requires
        0 <= i < s.len(),
    ensures
        escape(s.take(i + 1)) == escape(s.take(i)) + escape_char(s[i]),
{
    assert(s.take(i + 1) =~= s.take(i) + seq![s[i]]);
    lemma_escape_concat(s.take(i), seq![s[i]]);
    assert(seq![s[i]].skip(1) =~= Seq::<char>::empty());
    assert(escape(Seq::<char>::empty()) =~= Seq::<char>::empty());
    assert(escape(seq![s[i]]) =~= escape_char(s[i]));
}

/// Appends `s` with every character escaped.
fn push_escaped(out: &mut String, s: &str)
    ensures
        final(out)@ == old(out)@ + escape(s@),
{
    let n = s.unicode_len();
    let mut i: usize = 0;
    while i < n
        invariant
            0 <= i <= n,
            n == s@.len(),
            out@ == old(out)@ + escape(s@.take(i as int)),
        decreases n - i,
    {
        let c = s.get_char(i);
        if c == '"' {
            out.append("\\\"");
            proof {
                reveal_strlit("\\\"");
            }
        } else if c == '\\' {
            out.append("\\\\");
            proof {
                reveal_strlit("\\\\");
            }
        } else if c == '\n' {
            out.append("\\n");
            proof {
                reveal_strlit("\\n");
            }
        } else if c == '\t' {
            out.append("\\t");
            proof {
                reveal_strlit("\\t");
            }
        } else if c == '\r' {
            out.append("\\r");
            proof {
                reveal_strlit("\\r");
            }
        } else {
            let u = c as u32;
            if u < 0x20 {
                out.append("\\u00");
                push_char(out, hex_char(u / 16));
                push_char(out, hex_char(u % 16));
                proof {
                    reveal_strlit("\\u00");
                }
            } else {
                push_char(out, c);
            }
        }
        proof {
            lemma_escape_snoc(s@, i as int);
            assert(out@ =~= old(out)@ + escape(s@.take(i + 1)));
        }
        i = i + 1;
    }
    proof {
        assert(s@.take(n as int) =~= s@);
    }
}

/// Appends the persisted form of one note.
fn push_note(out: &mut String, n: &Note)
    ensures
        final(out)@ == old(out)@ + render_note(n@),
{
    out.append("  {\n    \"id\": ");
    push_dec(out, n.id);
    out.append(",\n    \"body\": \"");
    push_escaped(out, n.body.as_str());
    out.append("\"");
    out.append(",\n    \"timestamp\": \"");
    push_escaped(out, n.timestamp.as_str());
    out.append("\"");
    out.append("\n  }");
    proof {
        assert(out@ =~= old(out)@ + render_note(n@));
    }
}

/// Appends the persisted forms of the notes from position `i` on.
fn push_items(out: &mut String, notes: &Vec<Note>, i: usize)
    requires
        i < notes@.len(),
    ensures
        final(out)@ == old(out)@ + render_items(views_of(notes@), i as int),
    decreases notes@.len() - i,
{
    let m = notes.len();
    push_note(out, &notes[i]);
    proof {
        assert(views_of(notes@)[i as int] == notes@[i as int]@);
    }
    if i < m - 1 {
        out.append(",\n");
        push_items(out, notes, i + 1);
        proof {
            assert(out@ =~= old(out)@ + render_items(views_of(notes@), i as int));
        }
    }
}

/// The persisted snapshot of the whole store, as text.
pub fn save(store: &NoteStore) -> (r: String)
    ensures
        r@ == render_notes(store@),
{
    let notes = store.list();
    if notes.len() == 0 {
        return String::from_str("[]");
    }
    let mut out = String::from_str("[\n");
    push_items(&mut out, notes, 0);
    out.append("\n]");
    proof {
        assert(out@ =~= "[\n"@ + render_items(store@, 0) + "\n]"@);
    }
    out
}

/// `lit` occurs in `s` at character position `i`.
fn match_lit(s: &str, i: usize, lit: &str) -> (b: bool)
    requires
        i <= s@.len(),
    ensures
        b == starts_with(s@.skip(i as int), lit@),
        b ==> i + lit@.len() <= s@.len(),
{
    let n = s.unicode_len();
    let m = lit.unicode_len();
    if n - i < m {
        proof {
            assert(s@.skip(i as int).len() < lit@.len());
        }
        return false;
    }
    let mut j: usize = 0;
    while j < m
        invariant
            0 <= j <= m,
            i + m <= n,
            n == s@.len(),
            m == lit@.len(),
            forall|k: int| 0 <= k < j ==> s@[i + k] == lit@[k],
        decreases m - j,
    {
        if s.get_char(i + j) != lit.get_char(j) {
            proof {
                assert(s@.skip(i as int).take(m as int)[j as int] == s@[i + j]);
                assert(s@.skip(i as int).take(m as int) != lit@);
            }
            return false;
        }
        j = j + 1;
    }
    proof {
        assert(s@.skip(i as int).take(m as int) =~= lit@);
    }
    true
}

/// Reads a string body starting at `i`, appending the value to `out`;
/// answers the position after the closing quote.
fn parse_string_into(s: &str, i: usize, out: &mut String) -> (r: Option<usize>)
    requires
        i <= s@.len(),
    ensures
        match r {
            Some(j) => i <= j <= s@.len() && (parse_string(s@.skip(i as int)) matches Some(
                (v, rest),
            ) && final(out)@ == old(out)@ + v && rest == s@.skip(j as int)),
            None => parse_string(s@.skip(i as int)) is None,
        },
    decreases s@.len() - i,
{
    let n = s.unicode_len();
    if i >= n {
        return None;
    }
    let ghost t = s@.skip(i as int);
    proof {
        assert(t[0] == s@[i as int]);
    }
    let c = s.get_char(i);
    if c == '"' {
        proof {
            assert(t.skip(1) =~= s@.skip(i + 1));
            assert(old(out)@ + Seq::<char>::empty() =~= old(out)@);
        }
        return Some(i + 1);
    }
    if c == '\\' {
        if n - i < 2 {
            return None;
        }
        proof {
            assert(t[1] == s@[i + 1]);
        }
        let e = s.get_char(i + 1);
        if e == '"' || e == '\\' || e == 'n' || e == 't' || e == 'r' {
            let decoded: char = if e == 'n' {
                '\n'
            } else if e == 't' {
                '\t'
            } else if e == 'r' {
                '\r'
            } else {
                e
            };
            let ghost mid = out@;
            push_char(out, decoded);
            proof {
                assert(t.skip(2) =~= s@.skip(i + 2));
            }
            match parse_string_into(s, i + 2, out) {
                Some(j) => {
                    proof {
                        let (v, rest) = parse_string(s@.skip(i + 2)).unwrap();
                        assert(mid.push(decoded) + v =~= mid + (seq![decoded] + v));
                    }
                    Some(j)
                },
                None => None,
            }
        } else if e == 'u' {
            if n - i < 6 {
                return None;
            }
            proof {
                assert(t[2] == s@[i + 2]);
                assert(t[3] == s@[i + 3]);
                assert(t[4] == s@[i + 4]);
                assert(t[5] == s@[i + 5]);
            }
            let c2 = s.get_char(i + 2);
            let c3 = s.get_char(i + 3);
            if !(c2 == '0' && c3 == '0') {
                return None;
            }
            let u1 = s.get_char(i + 4) as u32;
            let u2 = s.get_char(i + 5) as u32;
            let mut v1: u32 = 0;
            let mut v2: u32 = 0;
            if 48 <= u1 && u1 <= 57 {
                v1 = u1 - 48;
            } else if 97 <= u1 && u1 <= 102 {
                v1 = u1 - 87;
            } else {
                return None;
            }
            if 48 <= u2 && u2 <= 57 {
                v2 = u2 - 48;
            } else if 97 <= u2 && u2 <= 102 {
                v2 = u2 - 87;
            } else {
                return None;
            }
            let decoded = ((v1 * 16 + v2) as u8) as char;
            let ghost mid = out@;
            push_char(out, decoded);
            proof {
                assert(t.skip(6) =~= s@.skip(i + 6));
            }
            match parse_string_into(s, i + 6, out) {
                Some(j) => {
                    proof {
                        let (v, rest) = parse_string(s@.skip(i + 6)).unwrap();
                        assert(mid.push(decoded) + v =~= mid + (seq![decoded] + v));
                    }
                    Some(j)
                },
                None => None,
            }
        } else {
            None
        }
    } else {
        let ghost mid = out@;
        push_char(out, c);
        proof {
            assert(t.skip(1) =~= s@.skip(i + 1));
        }
        match parse_string_into(s, i + 1, out) {
            Some(j) => {
                proof {
                    let (v, rest) = parse_string(s@.skip(i + 1)).unwrap();
                    assert(mid.push(c) + v =~= mid + (seq![c] + v));
                }
                Some(j)
            },
            None => None,
        }
    }
}

/// Reads one persisted note starting at `i`, whose id must be `id`.
fn parse_note_at(s: &str, i: usize, id: u32) -> (r: Option<(Note, usize)>)
    requires
        i <= s@.len(),
    ensures
        match r {
            Some((note, j)) => i <= j <= s@.len() && note@.id == id && (parse_note(
                s@.skip(i as int),
                id,
            ) matches Some((nv, rest)) && note@ == nv && rest == s@.skip(j as int)),
            None => parse_note(s@.skip(i as int), id) is None,
        },
{
    let n = s.unicode_len();
    let lit_id = "  {\n    \"id\": ";
    if !match_lit(s, i, lit_id) {
        return None;
    }
    let i1 = i + lit_id.unicode_len();
    proof {
        assert(s@.skip(i as int).skip(lit_id@.len() as int) =~= s@.skip(i1 as int));
    }
    let ids = to_dec(id);
    if !match_lit(s, i1, ids.as_str()) {
        return None;
    }
    let i2 = i1 + ids.as_str().unicode_len();
    proof {
        assert(s@.skip(i1 as int).skip(ids@.len() as int) =~= s@.skip(i2 as int));
    }
    let lit_body = ",\n    \"body\": \"";
    if !match_lit(s, i2, lit_body) {
        return None;
    }
    let i3 = i2 + lit_body.unicode_len();
    proof {
        assert(s@.skip(i2 as int).skip(lit_body@.len() as int) =~= s@.skip(i3 as int));
    }
    let mut body = String::new();
    let j4 = match parse_string_into(s, i3, &mut body) {
        Some(j) => j,
        None => {
            return None;
        },
    };
    let lit_ts = ",\n    \"timestamp\": \"";
    if !match_lit(s, j4, lit_ts) {
        return None;
    }
    let i5 = j4 + lit_ts.unicode_len();
    proof {
        assert(s@.skip(j4 as int).skip(lit_ts@.len() as int) =~= s@.skip(i5 as int));
    }
    let mut ts = String::new();
    let j6 = match parse_string_into(s, i5, &mut ts) {
        Some(j) => j,
        None => {
            return None;
        },
    };
    let lit_end = "\n  }";
    if !match_lit(s, j6, lit_end) {
        return None;
    }
    let j = j6 + lit_end.unicode_len();
    proof {
        assert(s@.skip(j6 as int).skip(lit_end@.len() as int) =~= s@.skip(j as int));
        let (v_body, _r1) = parse_string(s@.skip(i3 as int)).unwrap();
        assert(body@ =~= Seq::<char>::empty() + v_body);
        let (v_ts, _r2) = parse_string(s@.skip(i5 as int)).unwrap();
        assert(ts@ =~= Seq::<char>::empty() + v_ts);
    }
    Some((Note { id, body, timestamp: ts }, j))
}

/// Reads persisted notes from position `i` on, expected ids `id, id+1,
/// ...`, through the closing bracket that must end the input, pushing the
/// notes onto `out`.
fn parse_items_at(s: &str, i: usize, id: u32, fuel: usize, out: &mut Vec<Note>) -> (ok: bool)
    requires
        i <= s@.len(),
    ensures
        ok ==> (parse_items(s@.skip(i as int), id, fuel as nat) matches Some(v) && views_of(
            final(out)@,
        ) == views_of(old(out)@) + v),
        !ok ==> parse_items(s@.skip(i as int), id, fuel as nat) is None,
    decreases fuel,
{
    if fuel == 0 {
        return false;
    }
    let (note, j) = match parse_note_at(s, i, id) {
        Some(p) => p,
        None => {
            return false;
        },
    };
    let ghost rest = s@.skip(j as int);
    let n = s.unicode_len();
    let close_ok = match_lit(s, j, "\n]");
    proof {
        reveal_strlit("\n]");
        reveal_strlit(",\n");
        assert("\n]"@.take("\n]"@.len() as int) =~= "\n]"@);
    }
    if close_ok && n - j == 2 {
        proof {
            assert(rest.len() == 2);
            assert(rest =~= "\n]"@);
        }
        let ghost before = out@;
        out.push(note);
        proof {
            assert(views_of(before.push(note)) =~= views_of(before) + seq![note@]);
        }
        return true;
    }
    proof {
        assert(rest != "\n]"@);
    }
    if !match_lit(s, j, ",\n") {
        return false;
    }
    if id == u32::MAX {
        return false;
    }
    let ghost before = out@;
    out.push(note);
    proof {
        assert(rest.skip(2) =~= s@.skip(j + 2));
    }
    let ok = parse_items_at(s, j + 2, id + 1, fuel - 1, out);
    if ok {
        proof {
            let tail = parse_items(s@.skip(j + 2), (id + 1) as u32, (fuel - 1) as nat).unwrap();
            assert(views_of(before.push(note)) =~= views_of(before) + seq![note@]);
            assert((views_of(before) + seq![note@]) + tail =~= views_of(before) + (seq![note@]
                + tail));
        }
        true
    } else {
        false
    }
}

proof fn lemma_parse_items_ids(s: Seq<char>, id: u32, fuel: nat)
    ensures
        parse_items(s, id, fuel) matches Some(v) ==> forall|j: int|
            0 <= j < v.len() ==> (#[trigger] v[j]).id as int == id as int + j,
    decreases fuel,
{
    if fuel == 0 {
    } else {
        match parse_note(s, id) {
            None => {},
            Some((n, rest)) => {
                assert(n.id == id);
                if rest == "\n]"@ {
                } else if starts_with(rest, ",\n"@) && id < u32::MAX {
                    lemma_parse_items_ids(rest.skip(2), (id + 1) as u32, (fuel - 1) as nat);
                }
            },
        }
    }
}

/// Reads a snapshot back into a store. Text that is not exactly a
/// persisted snapshot — an absent file's contents, foreign JSON, damage —
/// yields the empty store: the lenient-load policy surfaces no error.
pub fn load(s: &str) -> (r: NoteStore)
    ensures
        r.wf(),
        match parse_notes(s@) {
            Some(v) => r@ == v,
            None => r@ == Seq::<NoteView>::empty(),
        },
{
    let n = s.unicode_len();
    let empty_ok = match_lit(s, 0, "[]");
    proof {
        assert(s@.skip(0) =~= s@);
        reveal_strlit("[]");
        assert("[]"@.take("[]"@.len() as int) =~= "[]"@);
    }
    if empty_ok && n == 2 {
        proof {
            assert(s@ =~= "[]"@);
        }
        return NoteStore::new();
    }
    proof {
        assert(s@ != "[]"@);
    }
    if !match_lit(s, 0, "[\n") {
        return NoteStore::new();
    }
    proof {
        reveal_strlit("[\n");
    }
    let mut notes: Vec<Note> = Vec::new();
    let ok = parse_items_at(s, 2, 1, n, &mut notes);
    if !ok {
        return NoteStore::new();
    }
    proof {
        let v = parse_items(s@.skip(2), 1, n as nat).unwrap();
        lemma_parse_items_ids(s@.skip(2), 1, n as nat);
        assert(views_of(notes@) =~= views_of(Seq::<Note>::empty()) + v);
        assert(views_of(Seq::<Note>::empty()) + v =~= v);
    }
    NoteStore::from_vec(notes)
}

/// Law: a persisted snapshot reads back as the very notes that were
/// written — `load` applied to `save`'s text reproduces the same ids,
/// bodies and timestamps, for every well-formed store.
pub proof fn lemma_save_load_round_trip(v: Seq<NoteView>)
    requires
        contiguous_ids(v),
    ensures
        parse_notes(render_notes(v)) == Some(v),
{
    reveal_strlit("[]");
    reveal_strlit("[\n");
    if v.len() == 0 {
    } else {
        let s = render_notes(v);
        let body = render_items(v, 0) + "\n]"@;
        lemma_render_items_len(v, 0);
        reveal_strlit("\n]");
        assert(s.len() >= 2 + v.len() + 2);
        assert(s != "[]"@);
        assert(s =~= "[\n"@ + body);
        lemma_split_concat("[\n"@, body);
        lemma_parse_items_round_trip(v, 0, s.len() as nat);
        assert(v.skip(0) =~= v);
    }
}

} // verus!
