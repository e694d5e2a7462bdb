//! The artifact fragment codec. The generated region of an artifact holds a
//! JSON object fragment without its enclosing braces: a comma-terminated
//! run of `"name":{"prefix":…,"body":…,"description":…}` entries. The
//! serializer writes that fragment; the parser reads it back, tolerating
//! surrounding whitespace and a trailing comma. A fragment the parser cannot
//! read is reported as such, so that the merge engine can fall back to
//! rewriting the region from the newly scanned snippets alone.

use vstd::prelude::*;
use crate::chars::{chars_eq, extend_chars};
use crate::snippet::{
    EntryView, Snippet, SnippetSet, SnippetView, lemma_set_insert, set_insert, wf_entries,
};

verus! {

/// Hexadecimal digit for a value below sixteen, lower case.
pub open spec fn hex_digit(n: int) -> char {
    if n == 0 {
        '0'
    } else if n == 1 {
        '1'
    } else if n == 2 {
        '2'
    } else if n == 3 {
        '3'
    } else if n == 4 {
        '4'
    } else if n == 5 {
        '5'
    } else if n == 6 {
        '6'
    } else if n == 7 {
        '7'
    } else if n == 8 {
        '8'
    } else if n == 9 {
        '9'
    } else if n == 10 {
        'a'
    } else if n == 11 {
        'b'
    } else if n == 12 {
        'c'
    } else if n == 13 {
        'd'
    } else if n == 14 {
        'e'
    } else {
        'f'
    }
}

/// How one character is written inside a JSON string: quote and backslash
/// get a backslash escape, the named control characters their short escapes,
/// any other control character a `\u00..` escape, and everything else stands
/// as itself.
pub open spec fn escape_char(c: char) -> Seq<char> {
    if c == '"' {
        seq!['\\', '"']
    } else if c == '\\' {
        seq!['\\', '\\']
    } else if c == '\u{8}' {
        seq!['\\', 'b']
    } else if c == '\t' {
        seq!['\\', 't']
    } else if c == '\n' {
        seq!['\\', 'n']
    } else if c == '\u{c}' {
        seq!['\\', 'f']
    } else if c == '\r' {
        seq!['\\', 'r']
    } else if (c as u32) < 0x20 {
        seq!['\\', 'u', '0', '0', hex_digit(c as u32 as int / 16), hex_digit(c as u32 as int % 16)]
    } else {
        seq![c]
    }
}

/// A string's characters written out for JSON, in order.
pub open spec fn escape_str(s: Seq<char>) -> Seq<char>
    decreases s.len(),
{
    if s.len() == 0 {
        Seq::empty()
    } else {
        escape_char(s.first()) + escape_str(s.drop_first())
    }
}

pub proof fn lemma_escape_snoc(s: Seq<char>, c: char)
    ensures
        escape_str(s.push(c)) == escape_str(s) + escape_char(c),
    decreases s.len(),
{
    reveal_with_fuel(escape_str, 3);
    if s.len() == 0 {
        assert(s.push(c).drop_first() =~= Seq::<char>::empty());
        assert(s.push(c).first() == c);
        assert(escape_str(s.push(c)) =~= escape_char(c));
        assert(escape_str(s) + escape_char(c) =~= escape_char(c));
    } else {
        assert(s.push(c).drop_first() =~= s.drop_first().push(c));
        lemma_escape_snoc(s.drop_first(), c);
        assert(escape_str(s.push(c)) == escape_char(s.first()) + (escape_str(s.drop_first())
            + escape_char(c)));
        assert(escape_char(s.first()) + (escape_str(s.drop_first()) + escape_char(c)) =~= (
        escape_char(s.first()) + escape_str(s.drop_first())) + escape_char(c));
    }
}

/// A string as it stands in JSON: escaped, between quotes.
pub open spec fn quote(s: Seq<char>) -> Seq<char> {
    seq!['"'] + escape_str(s) + seq!['"']
}

pub open spec fn prefix_key() -> Seq<char> {
    seq!['p', 'r', 'e', 'f', 'i', 'x']
}

pub open spec fn body_key() -> Seq<char> {
    seq!['b', 'o', 'd', 'y']
}

pub open spec fn desc_key() -> Seq<char> {
    seq!['d', 'e', 's', 'c', 'r', 'i', 'p', 't', 'i', 'o', 'n']
}

/// One snippet as a JSON object.
pub open spec fn ser_snippet(v: SnippetView) -> Seq<char> {
    seq!['{'] + quote(prefix_key()) + seq![':'] + quote(v.prefix) + seq![','] + quote(body_key())
        + seq![':'] + quote(v.body) + seq![','] + quote(desc_key()) + seq![':'] + quote(
        v.description,
    ) + seq!['}']
}

/// One fragment entry: quoted name, colon, object, comma.
pub open spec fn ser_entry(e: EntryView) -> Seq<char> {
    quote(e.name) + seq![':'] + ser_snippet(e.data) + seq![',']
}

/// The whole fragment: every entry in order, each comma-terminated.
pub open spec fn ser_fragment(es: Seq<EntryView>) -> Seq<char>
    decreases es.len(),
{
    if es.len() == 0 {
        Seq::empty()
    } else {
        ser_entry(es.first()) + ser_fragment(es.drop_first())
    }
}

#[verifier::rlimit(50)]
pub proof fn lemma_ser_fragment_snoc(es: Seq<EntryView>, e: EntryView)
    ensures
        ser_fragment(es.push(e)) == ser_fragment(es) + ser_entry(e),
    decreases es.len(),
{
    reveal_with_fuel(ser_fragment, 3);
    if es.len() == 0 {
        assert(es.push(e).drop_first() =~= Seq::<EntryView>::empty());
        assert(es.push(e).first() == e);
        assert(ser_fragment(es.push(e)) =~= ser_entry(e));
        assert(ser_fragment(es) + ser_entry(e) =~= ser_entry(e));
    } else {
        assert(es.push(e).drop_first() =~= es.drop_first().push(e));
        lemma_ser_fragment_snoc(es.drop_first(), e);
        assert(ser_fragment(es.push(e)) == ser_entry(es.first()) + (ser_fragment(es.drop_first())
            + ser_entry(e)));
        assert(ser_entry(es.first()) + (ser_fragment(es.drop_first()) + ser_entry(e)) =~= (
        ser_entry(es.first()) + ser_fragment(es.drop_first())) + ser_entry(e));
    }
}

fn hex_digit_exec(n: u32) -> (r: char)
    requires
        n < 16,
    ensures
        r == hex_digit(n as int),
{
    if n == 0 {
        '0'
    } else if n == 1 {
        '1'
    } else if n == 2 {
        '2'
    } else if n == 3 {
        '3'
    } else if n == 4 {
        '4'
    } else if n == 5 {
        '5'
    } else if n == 6 {
        '6'
    } else if n == 7 {
        '7'
    } else if n == 8 {
        '8'
    } else if n == 9 {
        '9'
    } else if n == 10 {
        'a'
    } else if n == 11 {
        'b'
    } else if n == 12 {
        'c'
    } else if n == 13 {
        'd'
    } else if n == 14 {
        'e'
    } else {
        'f'
    }
}

/// Escapes the characters of `s` for JSON.
pub fn escape_chars(s: &Vec<char>) -> (r: Vec<char>)
    ensures
        r@ == escape_str(s@),
{
    let mut r: Vec<char> = Vec::new();
    let mut i: usize = 0;
    proof {
        assert(s@.take(0) =~= Seq::<char>::empty());
    }
    while i < s.len()
        invariant
            i <= s@.len(),
            r@ == escape_str(s@.take(i as int)),
        decreases s@.len() - i,
    {
        let c = s[i];
        if c == '"' {
            r.push('\\');
            r.push('"');
        } else if c == '\\' {
            r.push('\\');
            r.push('\\');
        } else if c == '\u{8}' {
            r.push('\\');
            r.push('b');
        } else if c == '\t' {
            r.push('\\');
            r.push('t');
        } else if c == '\n' {
            r.push('\\');
            r.push('n');
        } else if c == '\u{c}' {
            r.push('\\');
            r.push('f');
        } else if c == '\r' {
            r.push('\\');
            r.push('r');
        } else if (c as u32) < 0x20 {
            r.push('\\');
            r.push('u');
            r.push('0');
            r.push('0');
            r.push(hex_digit_exec((c as u32) / 16));
            r.push(hex_digit_exec((c as u32) % 16));
        } else {
            r.push(c);
        }
        i = i + 1;
        proof {
            lemma_escape_snoc(s@.take(i - 1), s@[i - 1]);
            assert(s@.take(i as int) =~= s@.take(i - 1).push(s@[i - 1]));
            assert(r@ =~= escape_str(s@.take(i - 1)) + escape_char(s@[i - 1]));
        }
    }
    proof {
        assert(s@.take(s@.len() as int) =~= s@);
    }
    r
}

/// Appends `s` to `dst` as a quoted, escaped JSON string.
pub fn push_quoted(dst: &mut Vec<char>, s: &Vec<char>)
    ensures
        final(dst)@ == old(dst)@ + quote(s@),
{
    dst.push('"');
    let e = escape_chars(s);
    extend_chars(dst, &e);
    dst.push('"');
    proof {
        assert(final(dst)@ =~= old(dst)@ + quote(s@));
    }
}

fn prefix_key_chars() -> (r: Vec<char>)
    ensures
        r@ == prefix_key(),
{
    let mut v: Vec<char> = Vec::new();
    v.push('p');
    v.push('r');
    v.push('e');
    v.push('f');
    v.push('i');
    v.push('x');
    proof {
        assert(v@ =~= prefix_key());
    }
    v
}

fn body_key_chars() -> (r: Vec<char>)
    ensures
        r@ == body_key(),
{
    let mut v: Vec<char> = Vec::new();
    v.push('b');
    v.push('o');
    v.push('d');
    v.push('y');
    proof {
        assert(v@ =~= body_key());
    }
    v
}

fn desc_key_chars() -> (r: Vec<char>)
    ensures
        r@ == desc_key(),
{
    let mut v: Vec<char> = Vec::new();
    v.push('d');
    v.push('e');
    v.push('s');
    v.push('c');
    v.push('r');
    v.push('i');
    v.push('p');
    v.push('t');
    v.push('i');
    v.push('o');
    v.push('n');
    proof {
        assert(v@ =~= desc_key());
    }
    v
}

fn push_snippet(dst: &mut Vec<char>, sn: &Snippet)
    ensures
        final(dst)@ == old(dst)@ + ser_snippet(sn@),
{
    dst.push('{');
    let pk = prefix_key_chars();
    push_quoted(dst, &pk);
    dst.push(':');
    let pv = crate::chars::str_to_chars(sn.prefix.as_str());
    push_quoted(dst, &pv);
    dst.push(',');
    let bk = body_key_chars();
    push_quoted(dst, &bk);
    dst.push(':');
    let bv = crate::chars::str_to_chars(sn.body.as_str());
    push_quoted(dst, &bv);
    dst.push(',');
    let dk = desc_key_chars();
    push_quoted(dst, &dk);
    dst.push(':');
    let dv = crate::chars::str_to_chars(sn.description.as_str());
    push_quoted(dst, &dv);
    dst.push('}');
    proof {
        assert(final(dst)@ =~= old(dst)@ + ser_snippet(sn@));
    }
}

/// Writes the generated-region fragment for a snippet set: every entry in
/// order, `"name":{object},` each.
pub fn serialize_fragment(set: &SnippetSet) -> (r: Vec<char>)
    ensures
        r@ == ser_fragment(set@),
{
    let mut r: Vec<char> = Vec::new();
    let mut i: usize = 0;
    proof {
        assert(set@.take(0) =~= Seq::<EntryView>::empty());
        assert(r@ =~= ser_fragment(set@.take(0)));
    }
    while i < set.entries.len()
        invariant
            i <= set@.len(),
            set@.len() == set.entries@.len(),
            r@ == ser_fragment(set@.take(i as int)),
        decreases set@.len() - i,
    {
        let ghost r0 = r@;
        let ghost ev = set@[i as int];
        let entry = &set.entries[i];
        proof {
            assert(entry@ == ev);
        }
        let nv = crate::chars::str_to_chars(entry.name.as_str());
        push_quoted(&mut r, &nv);
        r.push(':');
        push_snippet(&mut r, &entry.data);
        r.push(',');
        i = i + 1;
        proof {
            assert(r@ =~= r0 + ser_entry(ev));
            lemma_ser_fragment_snoc(set@.take(i - 1), ev);
            assert(set@.take(i as int) =~= set@.take(i - 1).push(ev));
        }
    }
    proof {
        assert(set@.take(set@.len() as int) =~= set@);
    }
    r
}

/// JSON whitespace.
pub open spec fn json_ws(c: char) -> bool {
    c == ' ' || c == '\t' || c == '\n' || c == '\r'
}

/// Index of the first character at or after `from` that is not JSON
/// whitespace, or the length of `s`.
pub open spec fn json_skip(s: Seq<char>, from: int) -> int
    decreases s.len() - from when 0 <= from <= s.len()
{
    if from >= s.len() {
        s.len() as int
    } else if json_ws(s[from]) {
        json_skip(s, from + 1)
    } else {
        from
    }
}

pub proof fn lemma_json_skip(s: Seq<char>, from: int)
    requires
        0 <= from <= s.len(),
    ensures
        from <= json_skip(s, from) <= s.len(),
    decreases s.len() - from,
{
    if from < s.len() && json_ws(s[from]) {
        lemma_json_skip(s, from + 1);
    }
}

/// Value of a hexadecimal digit, or a negative number for any other
/// character.
pub open spec fn hex_val(c: char) -> int {
    let u = c as u32 as int;
    if 48 <= u <= 57 {
        u - 48
    } else if 97 <= u <= 102 {
        u - 87
    } else if 65 <= u <= 70 {
        u - 55
    } else {
        -1
    }
}

pub open spec fn is_hex4(s: Seq<char>, p: int) -> bool {
    &&& p + 4 <= s.len()
    &&& hex_val(s[p]) >= 0
    &&& hex_val(s[p + 1]) >= 0
    &&& hex_val(s[p + 2]) >= 0
    &&& hex_val(s[p + 3]) >= 0
}

pub open spec fn hex4(s: Seq<char>, p: int) -> int {
    4096 * hex_val(s[p]) + 256 * hex_val(s[p + 1]) + 16 * hex_val(s[p + 2]) + hex_val(s[p + 3])
}

/// A Unicode scalar value: what a `char` can hold.
pub open spec fn is_scalar_val(u: int) -> bool {
    0 <= u < 0xD800 || 0xE000 <= u < 0x110000
}

pub open spec fn char_of(u: int) -> char {
    (u as u32) as char
}

/// The character a one-letter escape stands for.
pub open spec fn unescape_char(e: char) -> Option<char> {
    if e == '"' {
        Some('"')
    } else if e == '\\' {
        Some('\\')
    } else if e == '/' {
        Some('/')
    } else if e == 'b' {
        Some('\u{8}')
    } else if e == 'f' {
        Some('\u{c}')
    } else if e == 'n' {
        Some('\n')
    } else if e == 'r' {
        Some('\r')
    } else if e == 't' {
        Some('\t')
    } else {
        None
    }
}

/// Reads a JSON string at `i`, which points just past the opening quote:
/// the decoded content and the index past the closing quote. Fails on an
/// unterminated string, an unknown escape, a non-scalar `\u` value, or a
/// raw control character.
pub open spec fn parse_string_body(s: Seq<char>, i: int) -> Option<(Seq<char>, int)>
    decreases s.len() - i when 0 <= i <= s.len()
{
    if i >= s.len() {
        None
    } else if s[i] == '"' {
        Some((Seq::empty(), i + 1))
    } else if s[i] == '\\' {
        if i + 1 >= s.len() {
            None
        } else if s[i + 1] == 'u' {
            if is_hex4(s, i + 2) && is_scalar_val(hex4(s, i + 2)) {
                match parse_string_body(s, i + 6) {
                    Some(t) => Some((seq![char_of(hex4(s, i + 2))] + t.0, t.1)),
                    None => None,
                }
            } else {
                None
            }
        } else {
            match unescape_char(s[i + 1]) {
                Some(c) => match parse_string_body(s, i + 2) {
                    Some(t) => Some((seq![c] + t.0, t.1)),
                    None => None,
                },
                None => None,
            }
        }
    } else if (s[i] as u32) < 0x20 {
        None
    } else {
        match parse_string_body(s, i + 1) {
            Some(t) => Some((seq![s[i]] + t.0, t.1)),
            None => None,
        }
    }
}

pub proof fn lemma_psb_bounds(s: Seq<char>, i: int)
    requires
        0 <= i <= s.len(),
    ensures
        parse_string_body(s, i) matches Some(t) ==> i < t.1 <= s.len(),
    decreases s.len() - i,
{
    if i >= s.len() {
    } else if s[i] == '"' {
    } else if s[i] == '\\' {
        if i + 1 >= s.len() {
        } else if s[i + 1] == 'u' {
            if is_hex4(s, i + 2) && is_scalar_val(hex4(s, i + 2)) {
                lemma_psb_bounds(s, i + 6);
            }
        } else {
            if unescape_char(s[i + 1]) is Some {
                lemma_psb_bounds(s, i + 2);
            }
        }
    } else if (s[i] as u32) < 0x20 {
    } else {
        lemma_psb_bounds(s, i + 1);
    }
}

/// Reads the fields of a snippet object, `i` pointing just past the opening
/// brace or a separating comma. Fields must be string-valued; `prefix`,
/// `body` and `description` must each appear exactly once; other keys are
/// read and ignored.
pub open spec fn parse_fields(
    s: Seq<char>,
    i: int,
    p: Option<Seq<char>>,
    b: Option<Seq<char>>,
    d: Option<Seq<char>>,
) -> Option<(SnippetView, int)>
    decreases s.len() - i
    when 0 <= i <= s.len()
    via parse_fields_dec
{
    let j = json_skip(s, i);
    if j >= s.len() || s[j] != '"' {
        None
    } else {
        match parse_string_body(s, j + 1) {
            None => None,
            Some(kt) => {
                let m = json_skip(s, kt.1);
                if m >= s.len() || s[m] != ':' {
                    None
                } else {
                    let n = json_skip(s, m + 1);
                    if n >= s.len() || s[n] != '"' {
                        None
                    } else {
                        match parse_string_body(s, n + 1) {
                            None => None,
                            Some(vt) => {
                                if kt.0 == prefix_key() && p is Some {
                                    None
                                } else if kt.0 == body_key() && b is Some {
                                    None
                                } else if kt.0 == desc_key() && d is Some {
                                    None
                                } else {
                                    let p2 = if kt.0 == prefix_key() {
                                        Some(vt.0)
                                    } else {
                                        p
                                    };
                                    let b2 = if kt.0 == body_key() {
                                        Some(vt.0)
                                    } else {
                                        b
                                    };
                                    let d2 = if kt.0 == desc_key() {
                                        Some(vt.0)
                                    } else {
                                        d
                                    };
                                    let t = json_skip(s, vt.1);
                                    if t < s.len() && s[t] == ',' {
                                        parse_fields(s, t + 1, p2, b2, d2)
                                    } else if t < s.len() && s[t] == '}' {
                                        if p2 is Some && b2 is Some && d2 is Some {
                                            Some(
                                                (
                                                    SnippetView {
                                                        prefix: p2->0,
                                                        body: b2->0,
                                                        description: d2->0,
                                                    },
                                                    t + 1,
                                                ),
                                            )
                                        } else {
                                            None
                                        }
                                    } else {
                                        None
                                    }
                                }
                            },
                        }
                    }
                }
            },
        }
    }
}

#[via_fn]
proof fn parse_fields_dec(
    s: Seq<char>,
    i: int,
    p: Option<Seq<char>>,
    b: Option<Seq<char>>,
    d: Option<Seq<char>>,
) {
    lemma_json_skip(s, i);
    let j = json_skip(s, i);
    if j < s.len() && s[j] == '"' {
        lemma_psb_bounds(s, j + 1);
        if let Some(kt) = parse_string_body(s, j + 1) {
            lemma_json_skip(s, kt.1);
            let m = json_skip(s, kt.1);
            if m < s.len() && s[m] == ':' {
                lemma_json_skip(s, m + 1);
                let n = json_skip(s, m + 1);
                if n < s.len() && s[n] == '"' {
                    lemma_psb_bounds(s, n + 1);
                    if let Some(vt) = parse_string_body(s, n + 1) {
                        lemma_json_skip(s, vt.1);
                    }
                }
            }
        }
    }
}

pub proof fn lemma_pf_bounds(
    s: Seq<char>,
    i: int,
    p: Option<Seq<char>>,
    b: Option<Seq<char>>,
    d: Option<Seq<char>>,
)
    requires
        0 <= i <= s.len(),
    ensures
        parse_fields(s, i, p, b, d) matches Some(t) ==> i < t.1 <= s.len(),
    decreases s.len() - i,
{
    lemma_json_skip(s, i);
    let j = json_skip(s, i);
    if j < s.len() && s[j] == '"' {
        lemma_psb_bounds(s, j + 1);
        if let Some(kt) = parse_string_body(s, j + 1) {
            lemma_json_skip(s, kt.1);
            let m = json_skip(s, kt.1);
            if m < s.len() && s[m] == ':' {
                lemma_json_skip(s, m + 1);
                let n = json_skip(s, m + 1);
                if n < s.len() && s[n] == '"' {
                    lemma_psb_bounds(s, n + 1);
                    if let Some(vt) = parse_string_body(s, n + 1) {
                        lemma_json_skip(s, vt.1);
                        let t = json_skip(s, vt.1);
                        if t < s.len() && s[t] == ',' {
                            let p2 = if kt.0 == prefix_key() {
                                Some(vt.0)
                            } else {
                                p
                            };
                            let b2 = if kt.0 == body_key() {
                                Some(vt.0)
                            } else {
                                b
                            };
                            let d2 = if kt.0 == desc_key() {
                                Some(vt.0)
                            } else {
                                d
                            };
                            lemma_pf_bounds(s, t + 1, p2, b2, d2);
                        }
                    }
                }
            }
        }
    }
}

/// Reads the whole fragment: a run of `"name":{object}` entries separated
/// by commas, with a trailing comma tolerated, accumulated with
/// insert-or-overwrite semantics so a repeated name keeps the last value.
pub open spec fn parse_entries(s: Seq<char>, i: int, acc: Seq<EntryView>) -> Option<Seq<EntryView>>
    decreases s.len() - i
    when 0 <= i <= s.len()
    via parse_entries_dec
{
    let j = json_skip(s, i);
    if j >= s.len() {
        Some(acc)
    } else if s[j] != '"' {
        None
    } else {
        match parse_string_body(s, j + 1) {
            None => None,
            Some(kt) => {
                let m = json_skip(s, kt.1);
                if m >= s.len() || s[m] != ':' {
                    None
                } else {
                    let n = json_skip(s, m + 1);
                    if n >= s.len() || s[n] != '{' {
                        None
                    } else {
                        match parse_fields(s, n + 1, None, None, None) {
                            None => None,
                            Some(vt) => {
                                let acc2 = set_insert(acc, EntryView { name: kt.0, data: vt.0 });
                                let t = json_skip(s, vt.1);
                                if t >= s.len() {
                                    Some(acc2)
                                } else if s[t] == ',' {
                                    parse_entries(s, t + 1, acc2)
                                } else {
                                    None
                                }
                            },
                        }
                    }
                }
            },
        }
    }
}

#[via_fn]
proof fn parse_entries_dec(s: Seq<char>, i: int, acc: Seq<EntryView>) {
    lemma_json_skip(s, i);
    let j = json_skip(s, i);
    if j < s.len() && s[j] == '"' {
        lemma_psb_bounds(s, j + 1);
        if let Some(kt) = parse_string_body(s, j + 1) {
            lemma_json_skip(s, kt.1);
            let m = json_skip(s, kt.1);
            if m < s.len() && s[m] == ':' {
                lemma_json_skip(s, m + 1);
                let n = json_skip(s, m + 1);
                if n < s.len() && s[n] == '{' {
                    lemma_pf_bounds(s, n + 1, None, None, None);
                    if let Some(vt) = parse_fields(s, n + 1, None, None, None) {
                        lemma_json_skip(s, vt.1);
                    }
                }
            }
        }
    }
}

/// The mapping a fragment parses to, or `None` when it is not well-formed.
pub open spec fn parse_fragment_spec(s: Seq<char>) -> Option<Seq<EntryView>> {
    parse_entries(s, 0, Seq::empty())
}

pub proof fn lemma_parse_entries_wf(s: Seq<char>, i: int, acc: Seq<EntryView>)
    requires
        0 <= i <= s.len(),
        wf_entries(acc),
    ensures
        parse_entries(s, i, acc) matches Some(es) ==> wf_entries(es),
    decreases s.len() - i,
{
    lemma_json_skip(s, i);
    let j = json_skip(s, i);
    if j < s.len() && s[j] == '"' {
        lemma_psb_bounds(s, j + 1);
        if let Some(kt) = parse_string_body(s, j + 1) {
            lemma_json_skip(s, kt.1);
            let m = json_skip(s, kt.1);
            if m < s.len() && s[m] == ':' {
                lemma_json_skip(s, m + 1);
                let n = json_skip(s, m + 1);
                if n < s.len() && s[n] == '{' {
                    lemma_pf_bounds(s, n + 1, None, None, None);
                    if let Some(vt) = parse_fields(s, n + 1, None, None, None) {
                        let e = EntryView { name: kt.0, data: vt.0 };
                        lemma_set_insert(acc, e);
                        lemma_json_skip(s, vt.1);
                        let t = json_skip(s, vt.1);
                        if t < s.len() && s[t] == ',' {
                            lemma_parse_entries_wf(s, t + 1, set_insert(acc, e));
                        }
                    }
                }
            }
        }
    }
}


fn is_json_ws_exec(c: char) -> (r: bool)
    ensures
        r == json_ws(c),
{
    c == ' ' || c == '\t' || c == '\n' || c == '\r'
}

pub(crate) fn json_skip_exec(s: &Vec<char>, from: usize) -> (r: usize)
    requires
        from <= s@.len(),
    ensures
        r == json_skip(s@, from as int),
        from <= r <= s@.len(),
{
    let mut j: usize = from;
    while j < s.len() && is_json_ws_exec(s[j])
        invariant
            from <= j <= s@.len(),
            json_skip(s@, from as int) == json_skip(s@, j as int),
        decreases s@.len() - j,
    {
        j = j + 1;
    }
    proof {
        assert(json_skip(s@, j as int) == j);
    }
    j
}

fn hex_val_exec(c: char) -> (r: Option<u32>)
    ensures
        match r {
            Some(v) => hex_val(c) == v as int && v < 16,
            None => hex_val(c) < 0,
        },
{
    let u = c as u32;
    if 48 <= u && u <= 57 {
        Some(u - 48)
    } else if 97 <= u && u <= 102 {
        Some(u - 87)
    } else if 65 <= u && u <= 70 {
        Some(u - 55)
    } else {
        None
    }
}

/// Relies on char::from_u32: it returns the character for exactly the
/// Unicode scalar values, that is all values below 0xD800 and those from
/// 0xE000 through 0x10FFFF, and that character casts back to the value.
#[verifier::external_body]
fn char_from_u32(u: u32) -> (r: Option<char>)
    ensures
        r matches Some(c) ==> c as u32 == u,
        r is Some <==> is_scalar_val(u as int),
{
    char::from_u32(u)
}

pub(crate) fn parse_string_body_exec(s: &Vec<char>, start: usize) -> (r: Option<(Vec<char>, usize)>)
    requires
        start <= s@.len(),
    ensures
        match r {
            Some(t) => parse_string_body(s@, start as int) == Some((t.0@, t.1 as int)) && start
                < t.1 <= s@.len(),
            None => parse_string_body(s@, start as int) is None,
        },
{
    proof {
        lemma_psb_bounds(s@, start as int);
    }
    let mut acc: Vec<char> = Vec::new();
    let mut i: usize = start;
    loop
        invariant
            start <= i <= s@.len(),
            parse_string_body(s@, start as int) == (match parse_string_body(s@, i as int) {
                Some(t) => Some((acc@ + t.0, t.1)),
                None => None::<(Seq<char>, int)>,
            }),
            parse_string_body(s@, start as int) matches Some(t) ==> start < t.1 <= s@.len(),
        decreases s@.len() - i,
    {
        if i >= s.len() {
            return None;
        }
        let c = s[i];
        if c == '"' {
            proof {
                assert(parse_string_body(s@, i as int) == Some((Seq::<char>::empty(), i + 1)));
                assert(acc@ + Seq::<char>::empty() =~= acc@);
            }
            return Some((acc, i + 1));
        } else if c == '\\' {
            if i + 1 >= s.len() {
                return None;
            }
            let e = s[i + 1];
            if e == 'u' {
                if s.len() - i < 6 {
                    proof {
                        assert(!is_hex4(s@, i + 2));
                    }
                    return None;
                }
                let h0 = hex_val_exec(s[i + 2]);
                let h1 = hex_val_exec(s[i + 3]);
                let h2 = hex_val_exec(s[i + 4]);
                let h3 = hex_val_exec(s[i + 5]);
                match (h0, h1, h2, h3) {
                    (Some(v0), Some(v1), Some(v2), Some(v3)) => {
                        let u: u32 = 4096 * v0 + 256 * v1 + 16 * v2 + v3;
                        proof {
                            assert(is_hex4(s@, i + 2));
                            assert(hex4(s@, i + 2) == u as int);
                        }
                        match char_from_u32(u) {
                            Some(ch) => {
                                proof {
                                    vstd::utf8::char_u32_cast(ch, u);
                                    assert(char_of(hex4(s@, i + 2)) == ch);
                                }
                                let ghost acc0 = acc@;
                                acc.push(ch);
                                i = i + 6;
                                proof {
                                    if let Some(t) = parse_string_body(s@, i as int) {
                                        assert(acc@ + t.0 =~= acc0 + (seq![ch] + t.0));
                                    }
                                }
                            },
                            None => {
                                proof {
                                    assert(!is_scalar_val(hex4(s@, i + 2)));
                                }
                                return None;
                            },
                        }
                    },
                    _ => {
                        proof {
                            assert(!is_hex4(s@, i + 2));
                        }
                        return None;
                    },
                }
            } else if e == '"' || e == '\\' || e == '/' || e == 'b' || e == 'f' || e == 'n' || e
                == 'r' || e == 't' {
                let ch = if e == '"' {
                    '"'
                } else if e == '\\' {
                    '\\'
                } else if e == '/' {
                    '/'
                } else if e == 'b' {
                    '\u{8}'
                } else if e == 'f' {
                    '\u{c}'
                } else if e == 'n' {
                    '\n'
                } else if e == 'r' {
                    '\r'
                } else {
                    '\t'
                };
                proof {
                    assert(unescape_char(e) == Some(ch));
                }
                let ghost acc0 = acc@;
                acc.push(ch);
                i = i + 2;
                proof {
                    if let Some(t) = parse_string_body(s@, i as int) {
                        assert(acc@ + t.0 =~= acc0 + (seq![ch] + t.0));
                    }
                }
            } else {
                proof {
                    assert(unescape_char(e) is None);
                }
                return None;
            }
        } else if (c as u32) < 0x20 {
            return None;
        } else {
            let ghost acc0 = acc@;
            acc.push(c);
            i = i + 1;
            proof {
                if let Some(t) = parse_string_body(s@, i as int) {
                    assert(acc@ + t.0 =~= acc0 + (seq![c] + t.0));
                }
            }
        }
    }
}

spec fn opt_chars_view(o: Option<Vec<char>>) -> Option<Seq<char>> {
    match o {
        Some(v) => Some(v@),
        None => None,
    }
}

fn parse_fields_exec(s: &Vec<char>, start: usize) -> (r: Option<(Snippet, usize)>)
    requires
        start <= s@.len(),
    ensures
        match r {
            Some(t) => parse_fields(s@, start as int, None, None, None) == Some(
                (t.0@, t.1 as int),
            ) && start < t.1 <= s@.len(),
            None => parse_fields(s@, start as int, None, None, None) is None,
        },
{
    proof {
        lemma_pf_bounds(s@, start as int, None, None, None);
    }
    let pk = prefix_key_chars();
    let bk = body_key_chars();
    let dk = desc_key_chars();
    let mut p: Option<Vec<char>> = None;
    let mut b: Option<Vec<char>> = None;
    let mut d: Option<Vec<char>> = None;
    let mut i: usize = start;
    loop
        invariant
            start <= i <= s@.len(),
            pk@ == prefix_key(),
            bk@ == body_key(),
            dk@ == desc_key(),
            parse_fields(s@, start as int, None, None, None) == parse_fields(
                s@,
                i as int,
                opt_chars_view(p),
                opt_chars_view(b),
                opt_chars_view(d),
            ),
            parse_fields(s@, start as int, None, None, None) matches Some(t) ==> start < t.1
                <= s@.len(),
        decreases s@.len() - i,
    {
        let j = json_skip_exec(s, i);
        if j >= s.len() {
            return None;
        }
        if s[j] != '"' {
            return None;
        }
        let kt = match parse_string_body_exec(s, j + 1) {
            Some(kt) => kt,
            None => {
                return None;
            },
        };
        let key = kt.0;
        let m = json_skip_exec(s, kt.1);
        if m >= s.len() {
            return None;
        }
        if s[m] != ':' {
            return None;
        }
        let n = json_skip_exec(s, m + 1);
        if n >= s.len() {
            return None;
        }
        if s[n] != '"' {
            return None;
        }
        let vt = match parse_string_body_exec(s, n + 1) {
            Some(vt) => vt,
            None => {
                return None;
            },
        };
        let is_p = chars_eq(&key, &pk);
        let is_b = chars_eq(&key, &bk);
        let is_d = chars_eq(&key, &dk);
        if is_p && p.is_some() {
            return None;
        }
        if is_b && b.is_some() {
            return None;
        }
        if is_d && d.is_some() {
            return None;
        }
        let ghost p2 = if key@ == prefix_key() { Some(vt.0@) } else { opt_chars_view(p) };
        let ghost b2 = if key@ == body_key() { Some(vt.0@) } else { opt_chars_view(b) };
        let ghost d2 = if key@ == desc_key() { Some(vt.0@) } else { opt_chars_view(d) };
        if is_p {
            p = Some(vt.0);
        } else if is_b {
            b = Some(vt.0);
        } else if is_d {
            d = Some(vt.0);
        }
        proof {
            assert(opt_chars_view(p) == p2);
            assert(opt_chars_view(b) == b2);
            assert(opt_chars_view(d) == d2);
        }
        let t = json_skip_exec(s, vt.1);
        if t < s.len() && s[t] == ',' {
            i = t + 1;
        } else if t < s.len() && s[t] == '}' {
            match (p, b, d) {
                (Some(pv), Some(bv), Some(dv)) => {
                    let sn = Snippet {
                        prefix: crate::chars::chars_to_string(&pv),
                        body: crate::chars::chars_to_string(&bv),
                        description: crate::chars::chars_to_string(&dv),
                    };
                    return Some((sn, t + 1));
                },
                _ => {
                    return None;
                },
            }
        } else {
            return None;
        }
    }
}

/// Reads a generated-region fragment back into a snippet set, or reports
/// that it is not well-formed.
pub fn parse_fragment(s: &Vec<char>) -> (r: Option<SnippetSet>)
    ensures
        match r {
            Some(set) => parse_fragment_spec(s@) == Some(set@) && set.wf(),
            None => parse_fragment_spec(s@) is None,
        },
{
    proof {
        lemma_parse_entries_wf(s@, 0, Seq::<EntryView>::empty());
    }
    let mut set = SnippetSet::new();
    let mut i: usize = 0;
    proof {
        assert(set@ =~= Seq::<EntryView>::empty());
    }
    loop
        invariant
            i <= s@.len(),
            set.wf(),
            parse_entries(s@, 0, Seq::<EntryView>::empty()) == parse_entries(
                s@,
                i as int,
                set@,
            ),
            parse_entries(s@, 0, Seq::<EntryView>::empty()) matches Some(es) ==> wf_entries(es),
        decreases s@.len() - i,
    {
        let j = json_skip_exec(s, i);
        if j >= s.len() {
            return Some(set);
        }
        if s[j] != '"' {
            return None;
        }
        let kt = match parse_string_body_exec(s, j + 1) {
            Some(kt) => kt,
            None => {
                return None;
            },
        };
        let m = json_skip_exec(s, kt.1);
        if m >= s.len() {
            return None;
        }
        if s[m] != ':' {
            return None;
        }
        let n = json_skip_exec(s, m + 1);
        if n >= s.len() {
            return None;
        }
        if s[n] != '{' {
            return None;
        }
        let vt = match parse_fields_exec(s, n + 1) {
            Some(vt) => vt,
            None => {
                return None;
            },
        };
        let ghost acc0 = set@;
        let nm = crate::chars::chars_to_string(&kt.0);
        set.insert(nm, vt.0);
        proof {
            assert(set@ == set_insert(acc0, EntryView { name: kt.0@, data: vt.0@ }));
        }
        let t = json_skip_exec(s, vt.1);
        if t >= s.len() {
            return Some(set);
        }
        if s[t] == ',' {
            i = t + 1;
        } else {
            return None;
        }
    }
}

} // verus!
