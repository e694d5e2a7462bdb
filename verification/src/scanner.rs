//! The tag scanner: parses a source file's text into a set of named snippet
//! records. A block opens on a line containing the start marker, gathers
//! `name:"…"`, `prefix:"…"` and `description:"…"` metadata, and once name and
//! prefix are both present the remaining lines up to the end marker become
//! the snippet body, reproduced verbatim. A start marker inside a block that
//! has not yet gathered name and prefix, or input that ends inside a block,
//! fails the whole scan.

use vstd::prelude::*;
use crate::chars::{
    chars_to_string, contains_sub, extend_chars, find_from, lines_of, split_lines, str_to_chars,
    sub_chars, find_sub_from, occurs_at_exec,
};
use crate::snippet::{EntryView, Snippet, SnippetSet, SnippetView, set_insert, wf_entries,
    lemma_set_insert};
use crate::{contains_seq, occurs_at};

verus! {

/// Marker that opens a tagged block in a source file.
pub open spec fn start_tag() -> Seq<char> {
    "#PORT#"@
}

/// Marker that closes a tagged block in a source file.
pub open spec fn end_tag() -> Seq<char> {
    "#PORT_END#"@
}

pub open spec fn name_needle() -> Seq<char> {
    "name:"@
}

pub open spec fn prefix_needle() -> Seq<char> {
    "prefix:"@
}

pub open spec fn desc_needle() -> Seq<char> {
    "description:"@
}

/// The whitespace characters tolerated between a metadata key and its quoted
/// value.
pub open spec fn is_space(c: char) -> bool {
    c == ' ' || c == '\t' || c == '\n' || c == '\r' || c == '\u{b}' || c == '\u{c}'
}

/// Index of the first non-whitespace character at or after `from`, or the
/// length of `s`.
pub open spec fn skip_ws(s: Seq<char>, from: int) -> int
    decreases s.len() - from when 0 <= from <= s.len()
{
    if from >= s.len() {
        s.len() as int
    } else if is_space(s[from]) {
        skip_ws(s, from + 1)
    } else {
        from
    }
}

pub proof fn lemma_skip_ws(s: Seq<char>, from: int)
    requires
        0 <= from <= s.len(),
    ensures
        from <= skip_ws(s, from) <= s.len(),
        skip_ws(s, from) < s.len() ==> !is_space(s[skip_ws(s, from)]),
        forall|j: int| from <= j < skip_ws(s, from) ==> is_space(s[j]),
    decreases s.len() - from,
{
    if from < s.len() && is_space(s[from]) {
        lemma_skip_ws(s, from + 1);
    }
}

/// The quoted value expected after a metadata key ending at position `p`:
/// optional whitespace, an opening quote, then everything up to the next
/// quote.
pub open spec fn quoted_after(s: Seq<char>, p: int) -> Option<Seq<char>> {
    let j = skip_ws(s, p);
    if j < s.len() && s[j] == '"' {
        match find_from(s, seq!['"'], j + 1) {
            Some(k) => Some(s.subrange(j + 1, k)),
            None => None,
        }
    } else {
        None
    }
}

/// The value captured when the key pattern matches at position `i` of `s`.
pub open spec fn match_capture_at(s: Seq<char>, needle: Seq<char>, i: int) -> Option<Seq<char>> {
    if occurs_at(s, needle, i) {
        quoted_after(s, i + needle.len())
    } else {
        None
    }
}

pub open spec fn capture_from(s: Seq<char>, needle: Seq<char>, from: int) -> Option<Seq<char>>
    decreases s.len() - from when 0 <= from
{
    if from > s.len() {
        None
    } else if match_capture_at(s, needle, from) is Some {
        match_capture_at(s, needle, from)
    } else if from >= s.len() {
        None
    } else {
        capture_from(s, needle, from + 1)
    }
}

/// The value of the leftmost complete `needle …"value"` match in `s`.
pub open spec fn capture_spec(s: Seq<char>, needle: Seq<char>) -> Option<Seq<char>> {
    capture_from(s, needle, 0)
}

/// Finds the leftmost position of `line` where `needle` is followed by
/// optional whitespace and a quoted value, and returns that value.
pub fn capture_value(line: &Vec<char>, needle: &Vec<char>) -> (r: Option<Vec<char>>)
    ensures
        match r {
            Some(v) => capture_spec(line@, needle@) == Some(v@),
            None => capture_spec(line@, needle@) is None,
        },
{
    let quote: Vec<char> = vec!['"'];
    proof {
        assert(quote@ =~= seq!['"']);
    }
    let mut i: usize = 0;
    loop
        invariant
            i <= line@.len(),
            quote@ == seq!['"'],
            capture_from(line@, needle@, 0) == capture_from(line@, needle@, i as int),
        decreases line@.len() - i,
    {
        if occurs_at_exec(line, needle, i) {
            let llen = line.len();
            proof {
                assert(i + needle@.len() <= llen);
            }
            let p = i + needle.len();
            let mut j: usize = p;
            while j < line.len() && is_space_exec(line[j])
                invariant
                    p <= j <= line@.len(),
                    skip_ws(line@, p as int) == skip_ws(line@, j as int),
                decreases line@.len() - j,
            {
                j = j + 1;
            }
            proof {
                assert(skip_ws(line@, j as int) == j);
            }
            if j < line.len() && line[j] == '"' {
                match find_sub_from(line, &quote, j + 1) {
                    Some(k) => {
                        proof {
                            crate::chars::lemma_find_from_bounds(line@, quote@, j + 1);
                        }
                        let v = sub_chars(line, j + 1, k);
                        return Some(v);
                    },
                    None => {
                        proof {
                            assert(match_capture_at(line@, needle@, i as int) is None);
                        }
                    },
                }
            } else {
                proof {
                    assert(match_capture_at(line@, needle@, i as int) is None);
                }
            }
        } else {
            proof {
                assert(match_capture_at(line@, needle@, i as int) is None);
            }
        }
        if i == line.len() {
            return None;
        }
        i = i + 1;
    }
}

fn is_space_exec(c: char) -> (r: bool)
    ensures
        r == is_space(c),
{
    c == ' ' || c == '\t' || c == '\n' || c == '\r' || c == '\u{b}' || c == '\u{c}'
}

/// Captures the value of a `key:"…"` metadata pattern in `line`, leftmost
/// complete match first, tolerating whitespace between the colon and the
/// opening quote.
pub fn capture_meta(line: &str, key: &str) -> (r: Option<String>)
    ensures
        match r {
            Some(v) => capture_spec(line@, key@ + seq![':']) == Some(v@),
            None => capture_spec(line@, key@ + seq![':']) is None,
        },
{
    let lv = str_to_chars(line);
    let mut needle = str_to_chars(key);
    needle.push(':');
    proof {
        assert(needle@ =~= key@ + seq![':']);
    }
    match capture_value(&lv, &needle) {
        Some(v) => Some(chars_to_string(&v)),
        None => None,
    }
}

/// One state of the scanner: between blocks, gathering metadata, or inside a
/// block body.
pub enum ScanState {
    Seek,
    Meta { name: Seq<char>, prefix: Seq<char>, desc: Seq<char> },
    Body { name: Seq<char>, prefix: Seq<char>, desc: Seq<char>, body: Seq<char> },
}

pub open spec fn or_else(new: Option<Seq<char>>, old: Seq<char>) -> Seq<char> {
    match new {
        Some(v) => v,
        None => old,
    }
}

/// One step of the scanner. `None` is the scan failing: a start marker seen
/// again before the block gathered both name and prefix.
pub open spec fn scan_line(st: ScanState, line: Seq<char>) -> Option<(ScanState, Option<EntryView>)> {
    match st {
        ScanState::Seek => {
            if contains_seq(line, start_tag()) {
                Some(
                    (
                        ScanState::Meta {
                            name: Seq::empty(),
                            prefix: Seq::empty(),
                            desc: Seq::empty(),
                        },
                        None,
                    ),
                )
            } else {
                Some((ScanState::Seek, None))
            }
        },
        ScanState::Meta { name, prefix, desc } => {
            let dcap = capture_spec(line, desc_needle());
            let name2 = or_else(capture_spec(line, name_needle()), name);
            let prefix2 = or_else(capture_spec(line, prefix_needle()), prefix);
            if dcap is Some {
                Some((ScanState::Meta { name: name2, prefix: prefix2, desc: dcap->0 }, None))
            } else if name.len() > 0 && prefix.len() > 0 {
                if contains_seq(line, end_tag()) {
                    Some(
                        (
                            ScanState::Seek,
                            Some(
                                EntryView {
                                    name: name2,
                                    data: SnippetView {
                                        prefix: prefix2,
                                        body: Seq::empty(),
                                        description: desc,
                                    },
                                },
                            ),
                        ),
                    )
                } else {
                    Some(
                        (
                            ScanState::Body {
                                name: name2,
                                prefix: prefix2,
                                desc,
                                body: line + seq!['\n'],
                            },
                            None,
                        ),
                    )
                }
            } else if contains_seq(line, start_tag()) {
                None
            } else {
                Some((ScanState::Meta { name: name2, prefix: prefix2, desc }, None))
            }
        },
        ScanState::Body { name, prefix, desc, body } => {
            if contains_seq(line, end_tag()) {
                Some(
                    (
                        ScanState::Seek,
                        Some(
                            EntryView {
                                name,
                                data: SnippetView { prefix, body, description: desc },
                            },
                        ),
                    ),
                )
            } else {
                Some(
                    (
                        ScanState::Body { name, prefix, desc, body: body + line + seq!['\n'] },
                        None,
                    ),
                )
            }
        },
    }
}

/// Runs the scanner over `lines`, accumulating emitted records into `acc`
/// with insert-or-overwrite semantics.
pub open spec fn scan_lines(
    lines: Seq<Seq<char>>,
    st: ScanState,
    acc: Seq<EntryView>,
) -> Option<(ScanState, Seq<EntryView>)>
    decreases lines.len(),
{
    if lines.len() == 0 {
        Some((st, acc))
    } else {
        match scan_line(st, lines.first()) {
            None => None,
            Some(step) => {
                let acc2 = match step.1 {
                    Some(e) => set_insert(acc, e),
                    None => acc,
                };
                scan_lines(lines.drop_first(), step.0, acc2)
            },
        }
    }
}

/// The snippet set a text scans to, or `None` when the scan fails: a nested
/// start marker, or input ending inside a block.
pub open spec fn scan_spec(text: Seq<char>) -> Option<Seq<EntryView>> {
    match scan_lines(lines_of(text), ScanState::Seek, Seq::empty()) {
        None => None,
        Some(fin) => {
            if fin.0 is Seek {
                Some(fin.1)
            } else {
                None
            }
        },
    }
}

pub proof fn lemma_scan_lines_wf(lines: Seq<Seq<char>>, st: ScanState, acc: Seq<EntryView>)
    requires
        wf_entries(acc),
    ensures
        scan_lines(lines, st, acc) matches Some(fin) ==> wf_entries(fin.1),
    decreases lines.len(),
{
    if lines.len() > 0 {
        match scan_line(st, lines.first()) {
            None => {},
            Some(step) => {
                match step.1 {
                    Some(e) => {
                        lemma_set_insert(acc, e);
                        lemma_scan_lines_wf(lines.drop_first(), step.0, set_insert(acc, e));
                    },
                    None => {
                        lemma_scan_lines_wf(lines.drop_first(), step.0, acc);
                    },
                }
            },
        }
    }
}

/// The scan failing: a malformed or unterminated tag block.
#[derive(Debug, PartialEq, Eq)]
pub enum TrimError {
    InvalidMeta,
}

enum Phase {
    Seek,
    Meta,
    Body,
}

spec fn abs_state(
    phase: Phase,
    name: Seq<char>,
    prefix: Seq<char>,
    desc: Seq<char>,
    body: Seq<char>,
) -> ScanState {
    match phase {
        Phase::Seek => ScanState::Seek,
        Phase::Meta => ScanState::Meta { name, prefix, desc },
        Phase::Body => ScanState::Body { name, prefix, desc, body },
    }
}

/// Scans `text` into its snippet records, or fails when a block is malformed
/// or unterminated.
pub fn trim_code(text: &str) -> (r: Result<SnippetSet, TrimError>)
    ensures
        match r {
            Ok(set) => scan_spec(text@) == Some(set@) && set.wf(),
            Err(e) => scan_spec(text@) is None && e == TrimError::InvalidMeta,
        },
{
    let chars = str_to_chars(text);
    let lines = split_lines(&chars);
    let ghost all = lines_of(text@);
    proof {
        assert(lines.deep_view() == all);
    }

    let start_v = str_to_chars("#PORT#");
    let end_v = str_to_chars("#PORT_END#");
    let name_v = str_to_chars("name:");
    let prefix_v = str_to_chars("prefix:");
    let desc_v = str_to_chars("description:");

    let mut set = SnippetSet::new();
    let mut phase = Phase::Seek;
    let mut name: Vec<char> = Vec::new();
    let mut prefix: Vec<char> = Vec::new();
    let mut desc: Vec<char> = Vec::new();
    let mut body: Vec<char> = Vec::new();

    let mut li: usize = 0;
    proof {
        assert(all.skip(0) =~= all);
        assert(set@ =~= Seq::<EntryView>::empty());
        assert(scan_lines(all, ScanState::Seek, Seq::empty()) == scan_lines(
            all.skip(0),
            abs_state(phase, name@, prefix@, desc@, body@),
            set@,
        ));
    }
    while li < lines.len()
        invariant
            all == lines_of(text@),
            lines.deep_view() == all,
            li <= all.len(),
            set.wf(),
            start_v@ == start_tag(),
            end_v@ == end_tag(),
            name_v@ == name_needle(),
            prefix_v@ == prefix_needle(),
            desc_v@ == desc_needle(),
            scan_lines(all, ScanState::Seek, Seq::empty()) == scan_lines(
                all.skip(li as int),
                abs_state(phase, name@, prefix@, desc@, body@),
                set@,
            ),
        decreases all.len() - li,
    {
        let line = &lines[li];
        let ghost lv = all[li as int];
        proof {
            assert(all[li as int] =~= line@);
            assert(all.skip(li as int).first() == all[li as int]);
            assert(all.skip(li as int).drop_first() =~= all.skip(li + 1));
        }
        let ghost st0 = abs_state(phase, name@, prefix@, desc@, body@);
        match phase {
            Phase::Seek => {
                if contains_sub(line, &start_v) {
                    phase = Phase::Meta;
                    name = Vec::new();
                    prefix = Vec::new();
                    desc = Vec::new();
                    body = Vec::new();
                    proof {
                        assert(scan_line(st0, lv) == Some(
                            (abs_state(phase, name@, prefix@, desc@, body@), None::<EntryView>),
                        ));
                    }
                } else {
                    proof {
                        assert(scan_line(st0, lv) == Some((st0, None::<EntryView>)));
                    }
                }
            },
            Phase::Meta => {
                let armed = name.len() > 0 && prefix.len() > 0;
                let dcap = capture_value(line, &desc_v);
                let has_desc = dcap.is_some();
                match dcap {
                    Some(d) => {
                        desc = d;
                    },
                    None => {},
                }
                match capture_value(line, &name_v) {
                    Some(n) => {
                        name = n;
                    },
                    None => {},
                }
                match capture_value(line, &prefix_v) {
                    Some(p) => {
                        prefix = p;
                    },
                    None => {},
                }
                if has_desc {
                    proof {
                        assert(scan_line(st0, lv) == Some(
                            (abs_state(phase, name@, prefix@, desc@, body@), None::<EntryView>),
                        ));
                    }
                } else if armed {
                    if contains_sub(line, &end_v) {
                        let ghost emitted = EntryView {
                            name: name@,
                            data: SnippetView {
                                prefix: prefix@,
                                body: Seq::empty(),
                                description: desc@,
                            },
                        };
                        let sn = Snippet {
                            prefix: chars_to_string(&prefix),
                            body: String::new(),
                            description: chars_to_string(&desc),
                        };
                        let nm = chars_to_string(&name);
                        let ghost set0 = set@;
                        set.insert(nm, sn);
                        phase = Phase::Seek;
                        name = Vec::new();
                        prefix = Vec::new();
                        desc = Vec::new();
                        body = Vec::new();
                        proof {
                            assert(scan_line(st0, lv) == Some(
                                (ScanState::Seek, Some(emitted)),
                            ));
                            assert(set@ == set_insert(set0, emitted));
                        }
                    } else {
                        body = Vec::new();
                        extend_chars(&mut body, line);
                        body.push('\n');
                        phase = Phase::Body;
                        proof {
                            assert(body@ =~= lv + seq!['\n']);
                            assert(scan_line(st0, lv) == Some(
                                (abs_state(phase, name@, prefix@, desc@, body@), None::<EntryView>),
                            ));
                        }
                    }
                } else if contains_sub(line, &start_v) {
                    proof {
                        assert(scan_line(st0, lv) is None);
                        assert(scan_lines(all.skip(li as int), st0, set@) is None);
                    }
                    return Err(TrimError::InvalidMeta);
                } else {
                    proof {
                        assert(scan_line(st0, lv) == Some(
                            (abs_state(phase, name@, prefix@, desc@, body@), None::<EntryView>),
                        ));
                    }
                }
            },
            Phase::Body => {
                if contains_sub(line, &end_v) {
                    let ghost emitted = EntryView {
                        name: name@,
                        data: SnippetView { prefix: prefix@, body: body@, description: desc@ },
                    };
                    let sn = Snippet {
                        prefix: chars_to_string(&prefix),
                        body: chars_to_string(&body),
                        description: chars_to_string(&desc),
                    };
                    let nm = chars_to_string(&name);
                    let ghost set0 = set@;
                    set.insert(nm, sn);
                    phase = Phase::Seek;
                    name = Vec::new();
                    prefix = Vec::new();
                    desc = Vec::new();
                    body = Vec::new();
                    proof {
                        assert(scan_line(st0, lv) == Some((ScanState::Seek, Some(emitted))));
                        assert(set@ == set_insert(set0, emitted));
                    }
                } else {
                    let ghost b0 = body@;
                    extend_chars(&mut body, line);
                    body.push('\n');
                    proof {
                        assert(body@ =~= b0 + lv + seq!['\n']);
                        assert(scan_line(st0, lv) == Some(
                            (abs_state(phase, name@, prefix@, desc@, body@), None::<EntryView>),
                        ));
                    }
                }
            },
        }
        li = li + 1;
    }
    proof {
        assert(all.skip(all.len() as int) =~= Seq::<Seq<char>>::empty());
    }
    match phase {
        Phase::Seek => {
            proof {
                lemma_scan_lines_wf(all, ScanState::Seek, Seq::empty());
            }
            Ok(set)
        },
        Phase::Meta => Err(TrimError::InvalidMeta),
        Phase::Body => Err(TrimError::InvalidMeta),
    }
}

} // verus!
