//! The library's laws: reading a serialized fragment back yields the same
//! snippet mapping, reconciling is idempotent once an artifact carries a
//! generated region, an update from one file leaves other files' entries
//! untouched, and a region whose fragment is corrupt is rewritten from the
//! new snippets alone rather than failing.

use vstd::prelude::*;
use crate::json::{
    char_of, escape_char, escape_str, hex4, hex_val, is_hex4, is_scalar_val, json_skip, json_ws,
    parse_entries, parse_fields, parse_fragment_spec, parse_string_body, quote, ser_entry,
    ser_fragment, ser_snippet, prefix_key, body_key, desc_key, unescape_char,
};
use crate::snippet::{
    EntryView, SnippetView, has_name, lemma_lookup_at, lemma_lookup_has_name, lemma_set_insert,
    lookup, set_insert, wf_entries,
};
use crate::merge::{
    drop_deleted, find_marker, gen_end_marker, gen_start_marker, insert_all, lemma_drop_deleted_wf,
    lemma_find_marker, merged_entries, name_in, reconcile_spec, region_text, tag_line, MergeError,
};
use crate::chars::{join_nl, line_break, lines_of, split_nl, lemma_line_break};
use crate::{contains_seq, occurs_at};

verus! {

proof fn lemma_skip_skip(s: Seq<char>, i: int, d: int)
    requires
        0 <= i,
        0 <= d,
        i + d <= s.len(),
    ensures
        s.skip(i + d) == s.skip(i).skip(d),
{
    assert(s.skip(i + d) =~= s.skip(i).skip(d));
}

/// An escaped string, followed by its closing quote, reads back as the
/// original string.
pub proof fn lemma_escape_parse(s: Seq<char>, i: int, x: Seq<char>, rest: Seq<char>)
    requires
        0 <= i <= s.len(),
        s.skip(i) == escape_str(x) + seq!['"'] + rest,
    ensures
        parse_string_body(s, i) == Some((x, i + escape_str(x).len() + 1)),
    decreases x.len(),
{
    let tail = s.skip(i);
    if x.len() == 0 {
        assert(escape_str(x) == Seq::<char>::empty());
        assert(tail =~= seq!['"'] + rest);
        assert(tail.len() == s.len() - i);
        assert(tail.len() >= 1);
        assert(tail[0] == '"');
        assert(tail[0] == s.skip(i)[0]);
        assert(s.skip(i)[0] == s[i]);
        assert(s[i] == '"');
        assert(parse_string_body(s, i) == Some((Seq::<char>::empty(), i + 1)));
        assert(Seq::<char>::empty() =~= x);
    } else {
        let c = x.first();
        let ec = escape_char(c);
        let x2 = x.drop_first();
        assert(escape_str(x) == ec + escape_str(x2));
        let rem = escape_str(x2) + seq!['"'] + rest;
        assert(tail =~= ec + rem);
        assert(tail.len() == s.len() - i);
        assert(tail.len() == ec.len() + rem.len());
        assert(forall|k: int| 0 <= k < ec.len() ==> #[trigger] tail[k] == ec[k]);
        assert(forall|k: int| 0 <= k < tail.len() ==> #[trigger] tail[k] == s[i + k]);
        lemma_skip_skip(s, i, ec.len() as int);
        assert(tail.skip(ec.len() as int) =~= rem);
        assert(s.skip(i + ec.len()) == rem);
        lemma_escape_parse(s, i + ec.len() as int, x2, rest);
        assert(parse_string_body(s, i + ec.len() as int) == Some(
            (x2, i + ec.len() + escape_str(x2).len() + 1),
        ));
        assert(seq![c] + x2 =~= x);
        if c == '"' {
            assert(ec =~= seq!['\\', '"']);
            assert(ec[0] == '\\' && ec[1] == '"');
            assert(s[i] == tail[0] && s[i + 1] == tail[1]);
            assert(s[i] == '\\' && s[i + 1] == '"');
            assert(unescape_char('"') == Some('"'));
        } else if c == '\\' {
            assert(ec =~= seq!['\\', '\\']);
            assert(ec[0] == '\\' && ec[1] == '\\');
            assert(s[i] == tail[0] && s[i + 1] == tail[1]);
            assert(s[i] == '\\' && s[i + 1] == '\\');
            assert(unescape_char('\\') == Some('\\'));
        } else if c == '\u{8}' {
            assert(ec =~= seq!['\\', 'b']);
            assert(ec[0] == '\\' && ec[1] == 'b');
            assert(s[i] == tail[0] && s[i + 1] == tail[1]);
            assert(s[i] == '\\' && s[i + 1] == 'b');
        } else if c == '\t' {
            assert(ec =~= seq!['\\', 't']);
            assert(ec[0] == '\\' && ec[1] == 't');
            assert(s[i] == tail[0] && s[i + 1] == tail[1]);
            assert(s[i] == '\\' && s[i + 1] == 't');
        } else if c == '\n' {
            assert(ec =~= seq!['\\', 'n']);
            assert(ec[0] == '\\' && ec[1] == 'n');
            assert(s[i] == tail[0] && s[i + 1] == tail[1]);
            assert(s[i] == '\\' && s[i + 1] == 'n');
        } else if c == '\u{c}' {
            assert(ec =~= seq!['\\', 'f']);
            assert(ec[0] == '\\' && ec[1] == 'f');
            assert(s[i] == tail[0] && s[i + 1] == tail[1]);
            assert(s[i] == '\\' && s[i + 1] == 'f');
        } else if c == '\r' {
            assert(ec =~= seq!['\\', 'r']);
            assert(ec[0] == '\\' && ec[1] == 'r');
            assert(s[i] == tail[0] && s[i + 1] == tail[1]);
            assert(s[i] == '\\' && s[i + 1] == 'r');
        } else if (c as u32) < 0x20 {
            let hi = c as u32 as int / 16;
            let lo = c as u32 as int % 16;
            assert(ec =~= seq!['\\', 'u', '0', '0', crate::json::hex_digit(hi), crate::json::hex_digit(lo)]);
            assert(ec[0] == '\\' && ec[1] == 'u' && ec[2] == '0' && ec[3] == '0' && ec[4]
                == crate::json::hex_digit(hi) && ec[5] == crate::json::hex_digit(lo));
            assert(s[i] == tail[0] && s[i + 1] == tail[1] && s[i + 2] == tail[2] && s[i + 3]
                == tail[3] && s[i + 4] == tail[4] && s[i + 5] == tail[5]);
            assert(s[i] == '\\' && s[i + 1] == 'u');
            assert(s[i + 2] == '0' && s[i + 3] == '0');
            assert(s[i + 4] == crate::json::hex_digit(hi) && s[i + 5] == crate::json::hex_digit(
                lo,
            ));
            assert(hex_val('0') == 0);
            lemma_hex_digit_val(hi);
            lemma_hex_digit_val(lo);
            assert(is_hex4(s, i + 2));
            assert(hex4(s, i + 2) == 16 * hi + lo);
            assert(16 * hi + lo == c as u32 as int);
            assert(is_scalar_val(hex4(s, i + 2)));
            assert(char_of(hex4(s, i + 2)) == c) by {
                assert(hex4(s, i + 2) as u32 == c as u32);
                vstd::utf8::char_u32_cast(c, c as u32);
            }
        } else {
            assert(ec =~= seq![c]);
            assert(ec[0] == c);
            assert(s[i] == tail[0]);
            assert(s[i] == c);
            assert(c != '"' && c != '\\');
            assert((c as u32) >= 0x20);
        }
    }
}

proof fn lemma_hex_digit_val(v: int)
    requires
        0 <= v < 16,
    ensures
        hex_val(crate::json::hex_digit(v)) == v,
{
}

/// A quoted string followed by anything reads back as the string.
pub proof fn lemma_quote_parse(s: Seq<char>, i: int, x: Seq<char>, rest: Seq<char>)
    requires
        0 <= i <= s.len(),
        s.skip(i) == quote(x) + rest,
    ensures
        s[i] == '"',
        i + quote(x).len() <= s.len(),
        parse_string_body(s, i + 1) == Some((x, i + quote(x).len())),
{
    let tail = s.skip(i);
    assert(quote(x) =~= seq!['"'] + (escape_str(x) + seq!['"']));
    assert(tail =~= seq!['"'] + (escape_str(x) + seq!['"'] + rest));
    assert(tail.len() == s.len() - i);
    assert(tail.len() >= 1);
    assert(tail[0] == '"');
    assert(tail[0] == s.skip(i)[0]);
    assert(s.skip(i)[0] == s[i]);
    lemma_skip_skip(s, i, 1);
    assert(tail.skip(1) =~= escape_str(x) + seq!['"'] + rest);
    assert(s.skip(i + 1) == escape_str(x) + seq!['"'] + rest);
    lemma_escape_parse(s, i + 1, x, rest);
}


proof fn lemma_drop_prefix(s: Seq<char>, i: int, a: Seq<char>, b: Seq<char>)
    requires
        0 <= i <= s.len(),
        s.skip(i) == a + b,
    ensures
        i + a.len() <= s.len(),
        s.skip(i + a.len()) == b,
        forall|k: int| 0 <= k < a.len() ==> s[i + k] == #[trigger] a[k],
{
    assert(s.skip(i).len() == s.len() - i);
    lemma_skip_skip(s, i, a.len() as int);
    assert(s.skip(i).skip(a.len() as int) =~= b);
    assert forall|k: int| 0 <= k < a.len() implies s[i + k] == #[trigger] a[k] by {
        assert(s.skip(i)[k] == s[i + k]);
        assert((a + b)[k] == a[k]);
    }
}

proof fn lemma_json_skip_here(s: Seq<char>, p: int)
    requires
        0 <= p < s.len(),
        !json_ws(s[p]),
    ensures
        json_skip(s, p) == p,
{
}

/// One `"key":"value"` field followed by a separator reads back as its
/// parts, at fixed offsets.
proof fn lemma_field_step(s: Seq<char>, i: int, key: Seq<char>, val: Seq<char>, sep: char, rest: Seq<char>)
    requires
        0 <= i <= s.len(),
        s.skip(i) == quote(key) + seq![':'] + quote(val) + seq![sep] + rest,
    ensures
        ({
            let kl = quote(key).len() as int;
            let vl = quote(val).len() as int;
            &&& i + kl + 2 + vl <= s.len()
            &&& s[i] == '"'
            &&& parse_string_body(s, i + 1) == Some((key, i + kl))
            &&& s[i + kl] == ':'
            &&& s[i + kl + 1] == '"'
            &&& parse_string_body(s, i + kl + 2) == Some((val, i + kl + 1 + vl))
            &&& s[i + kl + 1 + vl] == sep
            &&& s.skip(i + kl + 2 + vl) == rest
        }),
{
    let kl = quote(key).len() as int;
    let vl = quote(val).len() as int;
    let r1 = seq![':'] + quote(val) + seq![sep] + rest;
    assert(s.skip(i) =~= quote(key) + r1);
    lemma_quote_parse(s, i, key, r1);
    lemma_drop_prefix(s, i, quote(key), r1);
    let p1 = i + kl;
    let r2 = quote(val) + seq![sep] + rest;
    assert(s.skip(p1) =~= seq![':'] + r2);
    lemma_drop_prefix(s, p1, seq![':'], r2);
    assert(seq![':'][0] == ':');
    assert(s[p1 + 0] == ':');
    let p2 = p1 + 1;
    let r3 = seq![sep] + rest;
    assert(s.skip(p2) =~= quote(val) + r3);
    lemma_quote_parse(s, p2, val, r3);
    lemma_drop_prefix(s, p2, quote(val), r3);
    let p3 = p2 + vl;
    assert(s.skip(p3) =~= seq![sep] + rest);
    lemma_drop_prefix(s, p3, seq![sep], rest);
    assert(seq![sep][0] == sep);
    assert(s[p3 + 0] == sep);
}

/// A serialized snippet object followed by anything reads back as the
/// snippet.
#[verifier::rlimit(100)]
pub proof fn lemma_snippet_parse(s: Seq<char>, i: int, v: SnippetView, rest: Seq<char>)
    requires
        0 <= i <= s.len(),
        s.skip(i) == ser_snippet(v) + rest,
    ensures
        s[i] == '{',
        i + ser_snippet(v).len() <= s.len(),
        parse_fields(s, i + 1, None, None, None) == Some(
            (v, i + ser_snippet(v).len() as int),
        ),
        s.skip(i + ser_snippet(v).len() as int) == rest,
{
    let qp = quote(prefix_key());
    let qb = quote(body_key());
    let qd = quote(desc_key());
    let vp = quote(v.prefix);
    let vb = quote(v.body);
    let vd = quote(v.description);
    let f1 = qp + seq![':'] + vp + seq![','];
    let f2 = qb + seq![':'] + vb + seq![','];
    let f3 = qd + seq![':'] + vd + seq!['}'];
    assert(ser_snippet(v) =~= seq!['{'] + (f1 + f2 + f3));
    assert(s.skip(i) =~= seq!['{'] + ((f1 + f2 + f3) + rest));
    lemma_drop_prefix(s, i, seq!['{'], (f1 + f2 + f3) + rest);
    assert(seq!['{'][0] == '{');
    assert(s[i + 0] == '{');
    let p1 = i + 1;
    let rest1 = f2 + f3 + rest;
    assert(s.skip(p1) =~= qp + seq![':'] + vp + seq![','] + rest1) by {
        assert((f1 + f2 + f3) + rest =~= qp + seq![':'] + vp + seq![','] + rest1);
    }
    lemma_field_step(s, p1, prefix_key(), v.prefix, ',', rest1);
    let p2 = p1 + qp.len() + 2 + vp.len();
    let rest2 = f3 + rest;
    assert(s.skip(p2) =~= qb + seq![':'] + vb + seq![','] + rest2) by {
        assert(rest1 =~= qb + seq![':'] + vb + seq![','] + rest2);
    }
    lemma_field_step(s, p2, body_key(), v.body, ',', rest2);
    let p3 = p2 + qb.len() + 2 + vb.len();
    assert(s.skip(p3) =~= qd + seq![':'] + vd + seq!['}'] + rest) by {
        assert(rest2 =~= qd + seq![':'] + vd + seq!['}'] + rest);
    }
    lemma_field_step(s, p3, desc_key(), v.description, '}', rest);
    let fin = p3 + qd.len() + 2 + vd.len();
    assert(fin == i + ser_snippet(v).len());
    assert(prefix_key().len() == 6);
    assert(body_key().len() == 4);
    assert(desc_key().len() == 11);
    // walk the three fields
    assert(parse_fields(s, p1, None, None, None) == parse_fields(
        s,
        p2,
        Some(v.prefix),
        None,
        None,
    )) by {
        lemma_json_skip_here(s, p1);
        lemma_json_skip_here(s, p1 + qp.len() as int);
        lemma_json_skip_here(s, p1 + qp.len() + 1);
        lemma_json_skip_here(s, p1 + qp.len() + 1 + vp.len() as int);
    }
    assert(parse_fields(s, p2, Some(v.prefix), None, None) == parse_fields(
        s,
        p3,
        Some(v.prefix),
        Some(v.body),
        None,
    )) by {
        lemma_json_skip_here(s, p2);
        lemma_json_skip_here(s, p2 + qb.len() as int);
        lemma_json_skip_here(s, p2 + qb.len() + 1);
        lemma_json_skip_here(s, p2 + qb.len() + 1 + vb.len() as int);
    }
    assert(parse_fields(s, p3, Some(v.prefix), Some(v.body), None) == Some(
        (v, fin),
    )) by {
        lemma_json_skip_here(s, p3);
        lemma_json_skip_here(s, p3 + qd.len() as int);
        lemma_json_skip_here(s, p3 + qd.len() + 1);
        lemma_json_skip_here(s, p3 + qd.len() + 1 + vd.len() as int);
        assert((SnippetView {
            prefix: v.prefix,
            body: v.body,
            description: v.description,
        }) == v);
    }
}

/// A serialized fragment, followed only by whitespace, reads back entry by
/// entry, inserted over `acc`.
#[verifier::rlimit(100)]
pub proof fn lemma_entries_parse(s: Seq<char>, i: int, es: Seq<EntryView>, tail: Seq<char>, acc: Seq<EntryView>)
    requires
        0 <= i <= s.len(),
        s.skip(i) == ser_fragment(es) + tail,
        forall|k: int| 0 <= k < tail.len() ==> json_ws(#[trigger] tail[k]),
    ensures
        parse_entries(s, i, acc) == Some(insert_all(acc, es)),
    decreases es.len(),
{
    if es.len() == 0 {
        assert(ser_fragment(es) == Seq::<char>::empty());
        assert(s.skip(i) =~= tail);
        assert forall|k: int| i <= k < s.len() implies json_ws(#[trigger] s[k]) by {
            assert(s.skip(i)[k - i] == s[k]);
            assert(tail[k - i] == s.skip(i)[k - i]);
        }
        lemma_json_skip_ws_end(s, i);
        assert(insert_all(acc, es) == acc);
    } else {
        let e = es.first();
        let es2 = es.drop_first();
        assert(ser_fragment(es) == ser_entry(e) + ser_fragment(es2));
        let qn = quote(e.name);
        let sn = ser_snippet(e.data);
        let rest1 = sn + seq![','] + (ser_fragment(es2) + tail);
        assert(s.skip(i) =~= qn + (seq![':'] + rest1)) by {
            assert(ser_entry(e) =~= qn + seq![':'] + sn + seq![',']);
            assert(ser_fragment(es) + tail =~= qn + (seq![':'] + rest1));
        }
        lemma_quote_parse(s, i, e.name, seq![':'] + rest1);
        lemma_drop_prefix(s, i, qn, seq![':'] + rest1);
        let p1 = i + qn.len();
        lemma_drop_prefix(s, p1, seq![':'], rest1);
        assert(seq![':'][0] == ':');
        assert(s[p1 + 0] == ':');
        let p2 = p1 + 1;
        assert(s.skip(p2) =~= sn + (seq![','] + (ser_fragment(es2) + tail)));
        lemma_snippet_parse(s, p2, e.data, seq![','] + (ser_fragment(es2) + tail));
        let p3 = p2 + sn.len();
        lemma_drop_prefix(s, p3, seq![','], ser_fragment(es2) + tail);
        assert(seq![','][0] == ',');
        assert(s[p3 + 0] == ',');
        let p4 = p3 + 1;
        lemma_entries_parse(s, p4, es2, tail, set_insert(acc, e));
        assert(parse_entries(s, i, acc) == parse_entries(s, p4, set_insert(acc, e))) by {
            lemma_json_skip_here(s, i);
            lemma_json_skip_here(s, p1);
            lemma_json_skip_here(s, p2);
            lemma_json_skip_here(s, p3);
            assert((EntryView { name: e.name, data: e.data }) == e);
        }
        assert(insert_all(acc, es) == insert_all(set_insert(acc, e), es2));
    }
}

proof fn lemma_json_skip_ws_end(s: Seq<char>, i: int)
    requires
        0 <= i <= s.len(),
        forall|k: int| i <= k < s.len() ==> json_ws(#[trigger] s[k]),
    ensures
        json_skip(s, i) == s.len(),
    decreases s.len() - i,
{
    if i < s.len() {
        lemma_json_skip_ws_end(s, i + 1);
    }
}

/// Reading a serialized fragment back yields exactly the serialized
/// snippet set: the codec round-trips.
pub proof fn lemma_fragment_round_trip(es: Seq<EntryView>)
    requires
        wf_entries(es),
    ensures
        parse_fragment_spec(ser_fragment(es)) == Some(es),
{
    let s = ser_fragment(es);
    assert(s.skip(0) =~= s + Seq::<char>::empty());
    lemma_entries_parse(s, 0, es, Seq::<char>::empty(), Seq::<EntryView>::empty());
    crate::merge::lemma_insert_all_identity(es);
}



/// What `insert_all` does to lookups: inserted names now map to their new
/// values; every other name is untouched.
pub proof fn lemma_insert_all_lookup(base: Seq<EntryView>, add: Seq<EntryView>)
    requires
        wf_entries(base),
        wf_entries(add),
    ensures
        wf_entries(insert_all(base, add)),
        forall|n: Seq<char>|
            !has_name(add, n) ==> lookup(insert_all(base, add), n) == lookup(base, n),
        forall|i: int|
            0 <= i < add.len() ==> lookup(insert_all(base, add), #[trigger] add[i].name) == Some(
                add[i].data,
            ),
    decreases add.len(),
{
    if add.len() == 0 {
    } else {
        let e = add.first();
        let add2 = add.drop_first();
        let base2 = set_insert(base, e);
        lemma_set_insert(base, e);
        assert(wf_entries(add2)) by {
            assert(forall|p: int, q: int|
                0 <= p < q < add2.len() ==> add2[p] == add[p + 1] && add2[q] == add[q + 1]);
        }
        lemma_insert_all_lookup(base2, add2);
        assert(insert_all(base, add) == insert_all(base2, add2));
        assert forall|n: Seq<char>| !has_name(add, n) implies lookup(insert_all(base, add), n)
            == lookup(base, n) by {
            assert(!has_name(add2, n)) by {
                if has_name(add2, n) {
                    let j = choose|j: int| 0 <= j < add2.len() && add2[j].name == n;
                    assert(add[j + 1].name == n);
                }
            }
            assert(n != e.name);
        }
        assert forall|i: int| 0 <= i < add.len() implies lookup(
            insert_all(base, add),
            #[trigger] add[i].name,
        ) == Some(add[i].data) by {
            if i == 0 {
                assert(!has_name(add2, e.name)) by {
                    if has_name(add2, e.name) {
                        let j = choose|j: int| 0 <= j < add2.len() && add2[j].name == e.name;
                        assert(add[j + 1].name == add[0].name);
                    }
                }
                assert(lookup(insert_all(base2, add2), e.name) == lookup(base2, e.name));
            } else {
                assert(add2[i - 1] == add[i]);
            }
        }
    }
}

/// Inserting entries whose names already map to the same values changes
/// nothing.
pub proof fn lemma_set_insert_noop(m: Seq<EntryView>, e: EntryView)
    requires
        wf_entries(m),
        lookup(m, e.name) == Some(e.data),
    ensures
        set_insert(m, e) == m,
    decreases m.len(),
{
    if m.len() == 0 {
    } else if m.first().name == e.name {
        assert(m.first().data == e.data);
        assert(m.first() == e);
        assert(seq![e] + m.drop_first() =~= m);
    } else {
        assert(wf_entries(m.drop_first())) by {
            assert(forall|p: int, q: int|
                0 <= p < q < m.drop_first().len() ==> m.drop_first()[p] == m[p + 1]
                    && m.drop_first()[q] == m[q + 1]);
        }
        lemma_set_insert_noop(m.drop_first(), e);
        assert(seq![m.first()] + m.drop_first() =~= m);
    }
}

pub proof fn lemma_insert_all_noop(m: Seq<EntryView>, add: Seq<EntryView>)
    requires
        wf_entries(m),
        forall|i: int|
            0 <= i < add.len() ==> lookup(m, #[trigger] add[i].name) == Some(add[i].data),
    ensures
        insert_all(m, add) == m,
    decreases add.len(),
{
    if add.len() > 0 {
        let e = add.first();
        lemma_set_insert_noop(m, e);
        assert(forall|i: int|
            0 <= i < add.drop_first().len() ==> #[trigger] add.drop_first()[i] == add[i + 1]);
        lemma_insert_all_noop(m, add.drop_first());
        assert(insert_all(m, add) == insert_all(set_insert(m, e), add.drop_first()));
    }
}

/// Dropping an empty deletion set keeps every entry.
pub proof fn lemma_drop_deleted_none(es: Seq<EntryView>)
    ensures
        drop_deleted(es, Seq::empty()) == es,
    decreases es.len(),
{
    if es.len() > 0 {
        lemma_drop_deleted_none(es.drop_last());
        assert(!name_in(Seq::empty(), es.last().name));
        assert(es.drop_last().push(es.last()) =~= es);
    }
}

/// What `drop_deleted` does to lookups: a deleted name is gone, any other
/// name keeps its value.
pub proof fn lemma_drop_deleted_lookup(es: Seq<EntryView>, deleted: Seq<Seq<char>>)
    requires
        wf_entries(es),
    ensures
        forall|n: Seq<char>|
            name_in(deleted, n) ==> #[trigger] lookup(drop_deleted(es, deleted), n) is None,
        forall|n: Seq<char>|
            !name_in(deleted, n) ==> #[trigger] lookup(drop_deleted(es, deleted), n) == lookup(
                es,
                n,
            ),
    decreases es.len(),
{
    lemma_drop_deleted_wf(es, deleted);
    let dd = drop_deleted(es, deleted);
    lemma_drop_deleted_members(es, deleted);
    assert forall|n: Seq<char>| name_in(deleted, n) implies #[trigger] lookup(dd, n) is None by {
        lemma_lookup_has_name(dd, n);
        if has_name(dd, n) {
            let j = choose|j: int| 0 <= j < dd.len() && dd[j].name == n;
            assert(exists|i: int|
                0 <= i < es.len() && dd[j] == es[i] && !name_in(deleted, es[i].name));
        }
    }
    assert forall|n: Seq<char>| !name_in(deleted, n) implies #[trigger] lookup(dd, n) == lookup(
        es,
        n,
    ) by {
        lemma_lookup_has_name(dd, n);
        lemma_lookup_has_name(es, n);
        if has_name(es, n) {
            let i = choose|i: int| 0 <= i < es.len() && es[i].name == n;
            assert(exists|j: int| 0 <= j < dd.len() && dd[j] == es[i]);
            let j = choose|j: int| 0 <= j < dd.len() && dd[j] == es[i];
            lemma_lookup_at(dd, j);
            lemma_lookup_at(es, i);
        } else {
            if has_name(dd, n) {
                let j = choose|j: int| 0 <= j < dd.len() && dd[j].name == n;
                let i = choose|i: int|
                    0 <= i < es.len() && dd[j] == es[i] && !name_in(deleted, es[i].name);
                assert(has_name(es, n));
            }
        }
    }
}

proof fn lemma_drop_deleted_members(es: Seq<EntryView>, deleted: Seq<Seq<char>>)
    ensures
        forall|j: int|
            0 <= j < drop_deleted(es, deleted).len() ==> exists|i: int|
                0 <= i < es.len() && #[trigger] drop_deleted(es, deleted)[j] == es[i] && !name_in(
                    deleted,
                    es[i].name,
                ),
        forall|i: int|
            0 <= i < es.len() && !name_in(deleted, #[trigger] es[i].name) ==> exists|j: int|
                0 <= j < drop_deleted(es, deleted).len() && drop_deleted(es, deleted)[j] == es[i],
    decreases es.len(),
{
    if es.len() > 0 {
        lemma_drop_deleted_members(es.drop_last(), deleted);
        let dd = drop_deleted(es, deleted);
        let rest = drop_deleted(es.drop_last(), deleted);
        assert(forall|i: int| 0 <= i < es.len() - 1 ==> #[trigger] es.drop_last()[i] == es[i]);
        if name_in(deleted, es.last().name) {
            assert(dd == rest);
            assert forall|i: int|
                0 <= i < es.len() && !name_in(deleted, #[trigger] es[i].name) implies exists|j: int|
                0 <= j < dd.len() && dd[j] == es[i] by {
                assert(i < es.len() - 1);
                assert(es.drop_last()[i] == es[i]);
            }
        } else {
            assert(dd == rest.push(es.last()));
            assert(forall|j: int| 0 <= j < rest.len() ==> #[trigger] dd[j] == rest[j]);
            assert(dd[dd.len() - 1] == es.last());
            assert forall|i: int|
                0 <= i < es.len() && !name_in(deleted, #[trigger] es[i].name) implies exists|j: int|
                0 <= j < dd.len() && dd[j] == es[i] by {
                if i == es.len() - 1 {
                    assert(dd[dd.len() - 1] == es[i]);
                } else {
                    assert(es.drop_last()[i] == es[i]);
                    let j = choose|j: int| 0 <= j < rest.len() && rest[j] == es[i];
                    assert(dd[j] == es[i]);
                }
            }
        }
    }
}

/// Any snippet set the tag scanner produces survives a trip through the
/// artifact codec: serialized into a generated-region fragment and parsed
/// back, it is the same name-to-snippet mapping.
pub proof fn lemma_scan_round_trip(text: Seq<char>)
    requires
        crate::scanner::scan_spec(text) is Some,
    ensures
        crate::scanner::scan_spec(text) matches Some(set) ==> wf_entries(set)
            && parse_fragment_spec(ser_fragment(set)) == Some(set),
{
    if let Some(set) = crate::scanner::scan_spec(text) {
        crate::scanner::lemma_scan_lines_wf(
            crate::chars::lines_of(text),
            crate::scanner::ScanState::Seek,
            Seq::<EntryView>::empty(),
        );
        lemma_fragment_round_trip(set);
    }
}

/// Reconciling an update from one file leaves every entry alone whose name
/// that file neither produced nor deleted: its value in the rewritten
/// region equals its value in the previous region.
pub proof fn lemma_cross_file_isolation(
    interior: Seq<char>,
    new: Seq<EntryView>,
    deleted: Seq<Seq<char>>,
    n: Seq<char>,
)
    requires
        wf_entries(new),
        parse_fragment_spec(interior) is Some,
        !name_in(deleted, n),
        !has_name(new, n),
    ensures
        parse_fragment_spec(interior) matches Some(old) ==> lookup(
            merged_entries(interior, new, deleted),
            n,
        ) == lookup(old, n),
{
    if let Some(old) = parse_fragment_spec(interior) {
        crate::json::lemma_parse_entries_wf(interior, 0, Seq::<EntryView>::empty());
        lemma_drop_deleted_wf(old, deleted);
        lemma_drop_deleted_lookup(old, deleted);
        lemma_insert_all_lookup(drop_deleted(old, deleted), new);
    }
}

/// A name the file has stopped owning is gone from the rewritten region,
/// provided the latest scan did not produce it again.
pub proof fn lemma_deleted_removed(
    interior: Seq<char>,
    new: Seq<EntryView>,
    deleted: Seq<Seq<char>>,
    n: Seq<char>,
)
    requires
        wf_entries(new),
        parse_fragment_spec(interior) is Some,
        name_in(deleted, n),
        !has_name(new, n),
    ensures
        lookup(merged_entries(interior, new, deleted), n) is None,
{
    if let Some(old) = parse_fragment_spec(interior) {
        crate::json::lemma_parse_entries_wf(interior, 0, Seq::<EntryView>::empty());
        lemma_drop_deleted_wf(old, deleted);
        lemma_drop_deleted_lookup(old, deleted);
        lemma_insert_all_lookup(drop_deleted(old, deleted), new);
        lemma_lookup_has_name(insert_all(drop_deleted(old, deleted), new), n);
        lemma_lookup_has_name(drop_deleted(old, deleted), n);
    }
}

/// A region whose fragment is not readable is not a failure: the region is
/// rewritten from the newly scanned snippets alone.
pub proof fn lemma_malformed_fallback(
    interior: Seq<char>,
    new: Seq<EntryView>,
    deleted: Seq<Seq<char>>,
)
    requires
        parse_fragment_spec(interior) is None,
    ensures
        merged_entries(interior, new, deleted) == new,
{
}



/// No newline anywhere in `s`.
pub open spec fn nl_free(s: Seq<char>) -> bool {
    forall|k: int| 0 <= k < s.len() ==> s[k] != '\n'
}

/// No newline in any line of `ls`.
pub open spec fn nl_free_lines(ls: Seq<Seq<char>>) -> bool {
    forall|i: int| 0 <= i < ls.len() ==> nl_free(#[trigger] ls[i])
}

proof fn lemma_nl_free_concat(a: Seq<char>, b: Seq<char>)
    requires
        nl_free(a),
        nl_free(b),
    ensures
        nl_free(a + b),
{
    assert forall|k: int| 0 <= k < (a + b).len() implies (a + b)[k] != '\n' by {
        if k < a.len() {
            assert((a + b)[k] == a[k]);
        } else {
            assert((a + b)[k] == b[k - a.len()]);
        }
    }
}

proof fn lemma_split_nl_free(text: Seq<char>)
    ensures
        nl_free_lines(split_nl(text)),
    decreases text.len(),
{
    lemma_line_break(text, 0);
    let e = line_break(text, 0);
    if 0 <= e < text.len() {
        lemma_split_nl_free(text.skip(e + 1));
        let r = seq![text.take(e)] + split_nl(text.skip(e + 1));
        assert forall|i: int| 0 <= i < r.len() implies nl_free(#[trigger] r[i]) by {
            if i == 0 {
                assert(r[0] == text.take(e));
                assert forall|k: int| 0 <= k < text.take(e).len() implies text.take(e)[k]
                    != '\n' by {
                    assert(text.take(e)[k] == text[k]);
                }
            } else {
                assert(r[i] == split_nl(text.skip(e + 1))[i - 1]);
            }
        }
    } else {
        assert(split_nl(text) == seq![text]);
        assert forall|i: int| 0 <= i < split_nl(text).len() implies nl_free(
            #[trigger] split_nl(text)[i],
        ) by {
            assert(split_nl(text)[0] == text);
            assert(forall|j: int| 0 <= j < e ==> text[j] != '\n');
        }
    }
}

proof fn lemma_lines_of_nl_free(text: Seq<char>)
    ensures
        nl_free_lines(lines_of(text)),
{
    if text.len() > 0 && text.last() == '\n' {
        lemma_split_nl_free(text.take(text.len() - 1));
    } else {
        lemma_split_nl_free(text);
    }
}

proof fn lemma_escape_nl_free(x: Seq<char>)
    ensures
        nl_free(escape_str(x)),
    decreases x.len(),
{
    if x.len() == 0 {
    } else {
        let c = x.first();
        lemma_escape_nl_free(x.drop_first());
        assert(nl_free(escape_char(c))) by {
            assert forall|k: int| 0 <= k < escape_char(c).len() implies escape_char(c)[k]
                != '\n' by {
                if !(c == '"' || c == '\\' || c == '\u{8}' || c == '\t' || c == '\n' || c
                    == '\u{c}' || c == '\r') && (c as u32) < 0x20 {
                    assert(crate::json::hex_digit(c as u32 as int / 16) != '\n');
                    assert(crate::json::hex_digit(c as u32 as int % 16) != '\n');
                }
            }
        }
        lemma_nl_free_concat(escape_char(c), escape_str(x.drop_first()));
    }
}

proof fn lemma_quote_nl_free(x: Seq<char>)
    ensures
        nl_free(quote(x)),
{
    lemma_escape_nl_free(x);
    lemma_nl_free_concat(seq!['"'], escape_str(x));
    lemma_nl_free_concat(seq!['"'] + escape_str(x), seq!['"']);
}

proof fn lemma_snippet_nl_free(v: SnippetView)
    ensures
        nl_free(ser_snippet(v)),
{
    lemma_quote_nl_free(prefix_key());
    lemma_quote_nl_free(body_key());
    lemma_quote_nl_free(desc_key());
    lemma_quote_nl_free(v.prefix);
    lemma_quote_nl_free(v.body);
    lemma_quote_nl_free(v.description);
    let a1 = seq!['{'];
    lemma_nl_free_concat(a1, quote(prefix_key()));
    let a2 = a1 + quote(prefix_key());
    lemma_nl_free_concat(a2, seq![':']);
    let a3 = a2 + seq![':'];
    lemma_nl_free_concat(a3, quote(v.prefix));
    let a4 = a3 + quote(v.prefix);
    lemma_nl_free_concat(a4, seq![',']);
    let a5 = a4 + seq![','];
    lemma_nl_free_concat(a5, quote(body_key()));
    let a6 = a5 + quote(body_key());
    lemma_nl_free_concat(a6, seq![':']);
    let a7 = a6 + seq![':'];
    lemma_nl_free_concat(a7, quote(v.body));
    let a8 = a7 + quote(v.body);
    lemma_nl_free_concat(a8, seq![',']);
    let a9 = a8 + seq![','];
    lemma_nl_free_concat(a9, quote(desc_key()));
    let a10 = a9 + quote(desc_key());
    lemma_nl_free_concat(a10, seq![':']);
    let a11 = a10 + seq![':'];
    lemma_nl_free_concat(a11, quote(v.description));
    let a12 = a11 + quote(v.description);
    lemma_nl_free_concat(a12, seq!['}']);
}

/// A serialized fragment holds no newline: it stands on one line of the
/// artifact.
pub proof fn lemma_fragment_nl_free(es: Seq<EntryView>)
    ensures
        nl_free(ser_fragment(es)),
    decreases es.len(),
{
    if es.len() > 0 {
        let e = es.first();
        lemma_quote_nl_free(e.name);
        lemma_snippet_nl_free(e.data);
        lemma_nl_free_concat(quote(e.name), seq![':']);
        lemma_nl_free_concat(quote(e.name) + seq![':'], ser_snippet(e.data));
        lemma_nl_free_concat(quote(e.name) + seq![':'] + ser_snippet(e.data), seq![',']);
        lemma_fragment_nl_free(es.drop_first());
        lemma_nl_free_concat(ser_entry(e), ser_fragment(es.drop_first()));
    }
}

proof fn lemma_tag_line_nl_free()
    ensures
        nl_free(tag_line(gen_start_marker())),
        nl_free(tag_line(gen_end_marker())),
        tag_line(gen_start_marker()).len() > 0,
        tag_line(gen_end_marker()).len() > 0,
{
    reveal_strlit("////////// ");
    reveal_strlit(" (DON'T REMOVE) //////////");
    reveal_strlit("[[Generated By PortSnippet]]");
    reveal_strlit("[[PortSnippet End]]");
    assert(nl_free("////////// "@));
    assert(nl_free(" (DON'T REMOVE) //////////"@));
    assert(nl_free("[[Generated By PortSnippet]]"@));
    assert(nl_free("[[PortSnippet End]]"@));
    lemma_nl_free_concat("////////// "@, gen_start_marker());
    lemma_nl_free_concat("////////// "@ + gen_start_marker(), " (DON'T REMOVE) //////////"@);
    lemma_nl_free_concat("////////// "@, gen_end_marker());
    lemma_nl_free_concat("////////// "@ + gen_end_marker(), " (DON'T REMOVE) //////////"@);
}

/// A marker's decorated line contains the marker.
proof fn lemma_tag_contains(m: Seq<char>)
    ensures
        contains_seq(tag_line(m), m),
{
    reveal_strlit("////////// ");
    let line = tag_line(m);
    assert(occurs_at(line, m, 11)) by {
        assert("////////// "@.len() == 11);
        assert(line.subrange(11, 11 + m.len() as int) =~= m);
    }
}

proof fn lemma_join_concat(a: Seq<Seq<char>>, b: Seq<Seq<char>>)
    ensures
        join_nl(a + b) == join_nl(a) + join_nl(b),
    decreases a.len(),
{
    if a.len() == 0 {
        assert(a + b =~= b);
        assert(join_nl(a) + join_nl(b) =~= join_nl(b));
    } else {
        assert((a + b).first() == a.first());
        assert((a + b).drop_first() =~= a.drop_first() + b);
        lemma_join_concat(a.drop_first(), b);
        assert(join_nl(a + b) == (a + b).first() + seq!['\n'] + join_nl((a + b).drop_first()));
        assert(a.first() + seq!['\n'] + (join_nl(a.drop_first()) + join_nl(b)) =~= (a.first()
            + seq!['\n'] + join_nl(a.drop_first())) + join_nl(b));
    }
}

proof fn lemma_region_lines(frag: Seq<char>)
    ensures
        region_text(frag) == join_nl(
            seq![tag_line(gen_start_marker()), frag, tag_line(gen_end_marker())],
        ),
{
    reveal_with_fuel(join_nl, 5);
    let ls = seq![tag_line(gen_start_marker()), frag, tag_line(gen_end_marker())];
    assert(ls.drop_first() =~= seq![frag, tag_line(gen_end_marker())]);
    assert(ls.drop_first().drop_first() =~= seq![tag_line(gen_end_marker())]);
    assert(ls.drop_first().drop_first().drop_first() =~= Seq::<Seq<char>>::empty());
    assert(join_nl(ls) == tag_line(gen_start_marker()) + seq!['\n'] + (frag + seq!['\n'] + (
    tag_line(gen_end_marker()) + seq!['\n'] + Seq::<char>::empty())));
    assert(tag_line(gen_start_marker()) + seq!['\n'] + (frag + seq!['\n'] + (tag_line(
        gen_end_marker(),
    ) + seq!['\n'] + Seq::<char>::empty())) =~= region_text(frag));
}

proof fn lemma_split_join_aux(ls: Seq<Seq<char>>)
    requires
        ls.len() >= 1,
        nl_free_lines(ls),
    ensures
        join_nl(ls).len() >= 1,
        join_nl(ls).last() == '\n',
        split_nl(join_nl(ls).take(join_nl(ls).len() - 1)) == ls,
    decreases ls.len(),
{
    let l0 = ls.first();
    let t = join_nl(ls);
    assert(nl_free(l0));
    if ls.len() == 1 {
        assert(ls.drop_first() =~= Seq::<Seq<char>>::empty());
        assert(join_nl(Seq::<Seq<char>>::empty()) == Seq::<char>::empty());
        assert(t == l0 + seq!['\n'] + Seq::<char>::empty());
        assert(t =~= l0 + seq!['\n']);
        assert(t.last() == '\n');
        let tp = t.take(t.len() - 1);
        assert(tp =~= l0);
        lemma_line_break(l0, 0);
        assert(line_break(l0, 0) == l0.len()) by {
            if line_break(l0, 0) < l0.len() {
                assert(l0[line_break(l0, 0)] == '\n');
            }
        }
        assert(split_nl(l0) == seq![l0]);
        assert(seq![l0] =~= ls);
    } else {
        let rest = ls.drop_first();
        assert(nl_free_lines(rest)) by {
            assert(forall|i: int| 0 <= i < rest.len() ==> #[trigger] rest[i] == ls[i + 1]);
        }
        lemma_split_join_aux(rest);
        let tr = join_nl(rest);
        assert(t == l0 + seq!['\n'] + tr);
        assert(t.last() == tr.last()) by {
            assert(t[t.len() - 1] == tr[tr.len() - 1]);
        }
        let tp = t.take(t.len() - 1);
        assert(tp =~= l0 + seq!['\n'] + tr.take(tr.len() - 1));
        lemma_line_break(tp, 0);
        let e = line_break(tp, 0);
        assert(tp[l0.len() as int] == '\n') by {
            assert((l0 + seq!['\n'] + tr.take(tr.len() - 1))[l0.len() as int] == '\n');
        }
        assert(e == l0.len()) by {
            if e < l0.len() {
                assert(tp[e] == (l0 + seq!['\n'] + tr.take(tr.len() - 1))[e]);
                assert(tp[e] == l0[e]);
                assert(tp[e] == '\n');
            }
            if e > l0.len() {
                assert(tp[l0.len() as int] != '\n');
            }
        }
        assert(split_nl(tp) == seq![tp.take(e)] + split_nl(tp.skip(e + 1)));
        assert(tp.take(e) =~= l0);
        assert(tp.skip(e + 1) =~= tr.take(tr.len() - 1));
        assert(seq![l0] + rest =~= ls);
    }
}

proof fn lemma_find_marker_exact(ls: Seq<Seq<char>>, m: Seq<char>, from: int, p: int)
    requires
        0 <= from <= p < ls.len(),
        contains_seq(ls[p], m),
        forall|j: int| from <= j < p ==> !contains_seq(#[trigger] ls[j], m),
    ensures
        find_marker(ls, m, from) == Some(p),
    decreases p - from,
{
    if from < p {
        lemma_find_marker_exact(ls, m, from + 1, p);
    }
}

/// Where the artifact's generated region starts: the first line carrying
/// the start marker.
pub open spec fn region_start(prev: Seq<char>) -> Option<int> {
    find_marker(lines_of(prev), gen_start_marker(), 0)
}

/// Where it ends: the first line after the start carrying the end marker.
pub open spec fn region_end(prev: Seq<char>) -> Option<int> {
    match region_start(prev) {
        Some(si) => find_marker(lines_of(prev), gen_end_marker(), si + 1),
        None => None,
    }
}

/// The region's interior text, line by line.
pub open spec fn region_interior(prev: Seq<char>) -> Seq<char> {
    join_nl(lines_of(prev).subrange(region_start(prev)->0 + 1, region_end(prev)->0))
}

/// Reconciling is idempotent: once an artifact carries a generated region,
/// running the same reconciliation again over its own output reproduces
/// that output byte for byte. (An artifact without a region first gains
/// one, and a snippet whose own text embeds the end marker corrupts the
/// region; both stand outside this law.)
#[verifier::rlimit(100)]
pub proof fn lemma_reconcile_idempotent(
    prev: Seq<char>,
    new: Seq<EntryView>,
    deleted: Seq<Seq<char>>,
)
    requires
        wf_entries(new),
        region_start(prev) is Some,
        region_end(prev) is Some,
        !contains_seq(
            ser_fragment(merged_entries(region_interior(prev), new, deleted)),
            gen_end_marker(),
        ),
    ensures
        reconcile_spec(prev, new, deleted) matches Ok(o1) && reconcile_spec(
            o1,
            new,
            Seq::empty(),
        ) == Ok::<Seq<char>, MergeError>(o1),
{
    let lines = lines_of(prev);
    let si = region_start(prev)->0;
    let ei = region_end(prev)->0;
    lemma_find_marker(lines, gen_start_marker(), 0);
    lemma_find_marker(lines, gen_end_marker(), si + 1);
    let pre = lines.take(si);
    let post = lines.skip(ei + 1);
    let interior = region_interior(prev);
    let merged = merged_entries(interior, new, deleted);
    let frag = ser_fragment(merged);
    let sl = tag_line(gen_start_marker());
    let el = tag_line(gen_end_marker());
    let o1 = join_nl(pre) + region_text(frag) + join_nl(post);
    assert(lines.subrange(si + 1, ei) == lines_of(prev).subrange(si + 1, ei));
    assert(reconcile_spec(prev, new, deleted) == Ok::<Seq<char>, MergeError>(o1));

    // the merged set is well-formed
    assert(wf_entries(merged)) by {
        match crate::json::parse_fragment_spec(interior) {
            Some(old) => {
                crate::json::lemma_parse_entries_wf(interior, 0, Seq::<EntryView>::empty());
                lemma_drop_deleted_wf(old, deleted);
                lemma_insert_all_lookup(drop_deleted(old, deleted), new);
            },
            None => {},
        }
    }

    // the output's lines are the kept lines around the fresh region
    let ls1 = pre + seq![sl, frag, el] + post;
    assert(o1 == join_nl(ls1)) by {
        lemma_region_lines(frag);
        lemma_join_concat(pre, seq![sl, frag, el]);
        lemma_join_concat(pre + seq![sl, frag, el], post);
        assert(join_nl(pre) + region_text(frag) + join_nl(post) =~= join_nl(
            pre + seq![sl, frag, el],
        ) + join_nl(post));
    }
    assert(nl_free_lines(ls1)) by {
        lemma_lines_of_nl_free(prev);
        lemma_tag_line_nl_free();
        lemma_fragment_nl_free(merged);
        assert forall|i: int| 0 <= i < ls1.len() implies nl_free(#[trigger] ls1[i]) by {
            if i < pre.len() {
                assert(ls1[i] == pre[i]);
                assert(pre[i] == lines[i]);
            } else if i == pre.len() {
                assert(ls1[i] == sl);
            } else if i == pre.len() + 1 {
                assert(ls1[i] == frag);
            } else if i == pre.len() + 2 {
                assert(ls1[i] == el);
            } else {
                assert(ls1[i] == post[i - pre.len() - 3]);
                assert(post[i - pre.len() - 3] == lines[ei + 1 + i - pre.len() - 3]);
            }
        }
    }
    lemma_split_join_aux(ls1);
    assert(lines_of(o1) == ls1) by {
        assert(o1.len() >= 1 && o1.last() == '\n');
    }

    // the second run finds the fresh region
    let si1 = pre.len() as int;
    assert(si1 == si);
    assert(find_marker(ls1, gen_start_marker(), 0) == Some(si1)) by {
        lemma_tag_contains(gen_start_marker());
        assert(ls1[si1] == sl);
        assert forall|j: int| 0 <= j < si1 implies !contains_seq(#[trigger] ls1[j], gen_start_marker()) by {
            assert(ls1[j] == pre[j]);
            assert(pre[j] == lines[j]);
        }
        lemma_find_marker_exact(ls1, gen_start_marker(), 0, si1);
    }
    assert(find_marker(ls1, gen_end_marker(), si1 + 1) == Some(si1 + 2)) by {
        lemma_tag_contains(gen_end_marker());
        assert(ls1[si1 + 2] == el);
        assert(ls1[si1 + 1] == frag);
        assert forall|j: int| si1 + 1 <= j < si1 + 2 implies !contains_seq(
            #[trigger] ls1[j],
            gen_end_marker(),
        ) by {
            assert(ls1[j] == frag);
        }
        lemma_find_marker_exact(ls1, gen_end_marker(), si1 + 1, si1 + 2);
    }

    // its interior reads back as the merged set
    let interior1 = join_nl(ls1.subrange(si1 + 1, si1 + 2));
    assert(interior1 =~= frag + seq!['\n']) by {
        reveal_with_fuel(join_nl, 3);
        assert(ls1.subrange(si1 + 1, si1 + 2) =~= seq![frag]);
        assert(seq![frag].drop_first() =~= Seq::<Seq<char>>::empty());
        assert(join_nl(seq![frag]) == frag + seq!['\n'] + Seq::<char>::empty());
        assert(frag + seq!['\n'] + Seq::<char>::empty() =~= frag + seq!['\n']);
    }
    assert(crate::json::parse_fragment_spec(interior1) == Some(merged)) by {
        let s1 = frag + seq!['\n'];
        assert(s1.skip(0) =~= ser_fragment(merged) + seq!['\n']);
        assert forall|k: int| 0 <= k < seq!['\n'].len() implies json_ws(#[trigger] seq!['\n'][k]) by {
            assert(seq!['\n'][0] == '\n');
        }
        lemma_entries_parse(s1, 0, merged, seq!['\n'], Seq::<EntryView>::empty());
        crate::merge::lemma_insert_all_identity(merged);
    }

    // merging the same snippets again changes nothing
    let merged2 = merged_entries(interior1, new, Seq::empty());
    assert(merged2 == merged) by {
        lemma_drop_deleted_none(merged);
        assert(forall|i: int|
            0 <= i < new.len() ==> lookup(merged, #[trigger] new[i].name) == Some(
                new[i].data,
            )) by {
            match crate::json::parse_fragment_spec(interior) {
                Some(old) => {
                    crate::json::lemma_parse_entries_wf(interior, 0, Seq::<EntryView>::empty());
                    lemma_drop_deleted_wf(old, deleted);
                    lemma_insert_all_lookup(drop_deleted(old, deleted), new);
                },
                None => {
                    assert(merged == new);
                    assert forall|i: int| 0 <= i < new.len() implies lookup(
                        new,
                        #[trigger] new[i].name,
                    ) == Some(new[i].data) by {
                        lemma_lookup_at(new, i);
                    }
                },
            }
        }
        lemma_insert_all_noop(merged, new);
    }

    // and the second output is the first, byte for byte
    let o2 = join_nl(ls1.take(si1)) + region_text(ser_fragment(merged2)) + join_nl(
        ls1.skip(si1 + 3),
    );
    assert(reconcile_spec(o1, new, Seq::empty()) == Ok::<Seq<char>, MergeError>(o2));
    assert(ls1.take(si1) =~= pre);
    assert(ls1.skip(si1 + 3) =~= post);
    assert(o2 == o1);
}


} // verus!
