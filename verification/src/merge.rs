//! The merge engine. An artifact file owns exactly one generated region,
//! bounded by marker lines; everything outside it is preserved byte for
//! byte. Reconciling reads the region's fragment, drops the entries whose
//! names this source file has stopped owning, overwrites or appends the
//! newly scanned entries, and splices the re-serialized fragment back in.
//! A region whose fragment cannot be parsed is rewritten from the new
//! entries alone; an artifact without a region gets one, right after the
//! first opening brace, or with synthesized braces when there is none.

use vstd::prelude::*;
use vstd::string::StringExecFns;
use crate::chars::{
    chars_to_string, contains_sub, extend_chars, find_from, find_sub_from, join_nl, lines_of,
    split_lines, str_to_chars,
};
use crate::json::{parse_fragment, parse_fragment_spec, ser_fragment, serialize_fragment};
use crate::snippet::{EntryView, Snippet, SnippetSet, has_name, set_insert, wf_entries};
use crate::contains_seq;

verus! {

/// Marker naming the start of the generated region.
pub open spec fn gen_start_marker() -> Seq<char> {
    "[[Generated By PortSnippet]]"@
}

/// Marker naming the end of the generated region.
pub open spec fn gen_end_marker() -> Seq<char> {
    "[[PortSnippet End]]"@
}

/// A marker as it stands on its own line in the artifact.
pub open spec fn tag_line(tag: Seq<char>) -> Seq<char> {
    "////////// "@ + tag + " (DON'T REMOVE) //////////"@
}

/// The full generated region around a fragment: start line, fragment,
/// end line, each newline-terminated.
pub open spec fn region_text(frag: Seq<char>) -> Seq<char> {
    tag_line(gen_start_marker()) + seq!['\n'] + frag + seq!['\n'] + tag_line(gen_end_marker())
        + seq!['\n']
}

/// Decorates a marker the way it stands in the artifact.
pub fn format_tag(tag: &str) -> (r: String)
    ensures
        r@ == tag_line(tag@),
{
    let mut s = String::from_str("////////// ");
    s.append(tag);
    s.append(" (DON'T REMOVE) //////////");
    proof {
        assert(s@ =~= tag_line(tag@));
    }
    s
}

/// Wraps a fragment in the region marker lines.
pub fn add_tag(code: &String) -> (r: String)
    ensures
        r@ == region_text(code@),
{
    let mut s = format_tag("[[Generated By PortSnippet]]");
    s.append("\n");
    s.append(code.as_str());
    s.append("\n");
    let end = format_tag("[[PortSnippet End]]");
    s.append(end.as_str());
    s.append("\n");
    proof {
        reveal_strlit("\n");
        assert(s@ =~= region_text(code@));
    }
    s
}

/// Index of the first line at or after `from` that contains `marker`.
pub open spec fn find_marker(lines: Seq<Seq<char>>, marker: Seq<char>, from: int) -> Option<int>
    decreases lines.len() - from when 0 <= from
{
    if from >= lines.len() {
        None
    } else if contains_seq(lines[from], marker) {
        Some(from)
    } else {
        find_marker(lines, marker, from + 1)
    }
}

pub proof fn lemma_find_marker(lines: Seq<Seq<char>>, marker: Seq<char>, from: int)
    requires
        0 <= from,
    ensures
        find_marker(lines, marker, from) matches Some(i) ==> {
            &&& from <= i < lines.len()
            &&& contains_seq(lines[i], marker)
            &&& forall|j: int| from <= j < i ==> !contains_seq(lines[j], marker)
        },
        find_marker(lines, marker, from) is None ==> forall|j: int|
            from <= j < lines.len() ==> !contains_seq(lines[j], marker),
    decreases lines.len() - from,
{
    if from < lines.len() && !contains_seq(lines[from], marker) {
        lemma_find_marker(lines, marker, from + 1);
    }
}

fn find_marker_exec(lines: &Vec<Vec<char>>, marker: &Vec<char>, from: usize) -> (r: Option<usize>)
    requires
        from <= lines@.len(),
    ensures
        match r {
            Some(i) => find_marker(lines.deep_view(), marker@, from as int) == Some(i as int)
                && from <= i < lines@.len(),
            None => find_marker(lines.deep_view(), marker@, from as int) is None,
        },
{
    let mut i: usize = from;
    while i < lines.len()
        invariant
            from <= i <= lines@.len(),
            lines@.len() == lines.deep_view().len(),
            find_marker(lines.deep_view(), marker@, from as int) == find_marker(
                lines.deep_view(),
                marker@,
                i as int,
            ),
        decreases lines@.len() - i,
    {
        proof {
            assert(lines.deep_view()[i as int] =~= lines@[i as int]@);
        }
        if contains_sub(&lines[i], marker) {
            return Some(i);
        }
        i = i + 1;
    }
    None
}

/// Whether `n` is one of the names in `ns`.
pub open spec fn name_in(ns: Seq<Seq<char>>, n: Seq<char>) -> bool {
    exists|i: int| 0 <= i < ns.len() && ns[i] == n
}

pub fn name_in_exec(ns: &Vec<String>, n: &String) -> (r: bool)
    ensures
        r == name_in(ns.deep_view(), n@),
{
    let mut i: usize = 0;
    while i < ns.len()
        invariant
            i <= ns@.len(),
            ns@.len() == ns.deep_view().len(),
            forall|j: int| 0 <= j < i ==> ns.deep_view()[j] != n@,
        decreases ns@.len() - i,
    {
        proof {
            assert(ns.deep_view()[i as int] == ns@[i as int]@);
        }
        if crate::chars::str_eq(ns[i].as_str(), n.as_str()) {
            return true;
        }
        i = i + 1;
    }
    false
}

/// The entries of `es` whose names are not in `deleted`, in order.
pub open spec fn drop_deleted(es: Seq<EntryView>, deleted: Seq<Seq<char>>) -> Seq<EntryView>
    decreases es.len(),
{
    if es.len() == 0 {
        Seq::empty()
    } else {
        let rest = drop_deleted(es.drop_last(), deleted);
        if name_in(deleted, es.last().name) {
            rest
        } else {
            rest.push(es.last())
        }
    }
}

pub proof fn lemma_drop_deleted_wf(es: Seq<EntryView>, deleted: Seq<Seq<char>>)
    requires
        wf_entries(es),
    ensures
        wf_entries(drop_deleted(es, deleted)),
        forall|n: Seq<char>|
            has_name(drop_deleted(es, deleted), n) ==> has_name(es, n),
    decreases es.len(),
{
    if es.len() > 0 {
        assert(wf_entries(es.drop_last())) by {
            assert(forall|p: int, q: int|
                0 <= p < q < es.drop_last().len() ==> es.drop_last()[p] == es[p]
                    && es.drop_last()[q] == es[q]);
        }
        lemma_drop_deleted_wf(es.drop_last(), deleted);
        let rest = drop_deleted(es.drop_last(), deleted);
        assert(forall|n: Seq<char>| has_name(es.drop_last(), n) ==> has_name(es, n)) by {
            assert(forall|j: int|
                0 <= j < es.drop_last().len() ==> es.drop_last()[j] == es[j]);
        }
        if !name_in(deleted, es.last().name) {
            let r = rest.push(es.last());
            assert(!has_name(rest, es.last().name)) by {
                if has_name(rest, es.last().name) {
                    assert(has_name(es.drop_last(), es.last().name));
                    let k = choose|k: int|
                        0 <= k < es.drop_last().len() && es.drop_last()[k].name == es.last().name;
                    assert(es[k].name == es[es.len() - 1].name);
                }
            }
            assert(wf_entries(r)) by {
                assert(forall|j: int| 0 <= j < rest.len() ==> r[j] == rest[j]);
                assert(r[r.len() - 1] == es.last());
                assert(forall|j: int| 0 <= j < rest.len() ==> r[j].name != es.last().name);
            }
            assert(forall|n: Seq<char>| has_name(r, n) ==> has_name(es, n)) by {
                assert(forall|j: int| 0 <= j < rest.len() ==> r[j] == rest[j]);
            }
        }
    }
}

fn drop_deleted_exec(es: &SnippetSet, deleted: &Vec<String>) -> (r: SnippetSet)
    requires
        es.wf(),
    ensures
        r@ == drop_deleted(es@, deleted.deep_view()),
        r.wf(),
{
    let mut r = SnippetSet::new();
    let mut i: usize = 0;
    proof {
        assert(es@.take(0) =~= Seq::<EntryView>::empty());
        assert(r@ =~= drop_deleted(es@.take(0), deleted.deep_view()));
    }
    while i < es.entries.len()
        invariant
            i <= es@.len(),
            es@.len() == es.entries@.len(),
            r@ == drop_deleted(es@.take(i as int), deleted.deep_view()),
        decreases es@.len() - i,
    {
        let ghost r0 = r@;
        let entry = &es.entries[i];
        proof {
            assert(entry@ == es@[i as int]);
            assert(es@.take(i + 1).drop_last() =~= es@.take(i as int));
            assert(es@.take(i + 1).last() == es@[i as int]);
        }
        if !name_in_exec(deleted, &entry.name) {
            let copied = clone_entry(entry);
            r.entries.push(copied);
            proof {
                assert(r@ =~= r0.push(es@[i as int]));
            }
        }
        i = i + 1;
    }
    proof {
        assert(es@.take(es@.len() as int) =~= es@);
        lemma_drop_deleted_wf(es@, deleted.deep_view());
    }
    r
}

fn clone_entry(entry: &crate::snippet::SnippetEntry) -> (r: crate::snippet::SnippetEntry)
    ensures
        r@ == entry@,
{
    crate::snippet::SnippetEntry {
        name: entry.name.clone(),
        data: Snippet {
            prefix: entry.data.prefix.clone(),
            body: entry.data.body.clone(),
            description: entry.data.description.clone(),
        },
    }
}

/// Inserts every entry of `add`, in order, into `base`.
pub open spec fn insert_all(base: Seq<EntryView>, add: Seq<EntryView>) -> Seq<EntryView>
    decreases add.len(),
{
    if add.len() == 0 {
        base
    } else {
        insert_all(set_insert(base, add.first()), add.drop_first())
    }
}

pub proof fn lemma_insert_all_snoc(base: Seq<EntryView>, add: Seq<EntryView>, e: EntryView)
    ensures
        insert_all(base, add.push(e)) == set_insert(insert_all(base, add), e),
    decreases add.len(),
{
    reveal_with_fuel(insert_all, 3);
    if add.len() == 0 {
        assert(add.push(e).drop_first() =~= Seq::<EntryView>::empty());
        assert(add.push(e).first() == e);
        assert(insert_all(set_insert(base, e), Seq::<EntryView>::empty()) == set_insert(base, e));
        assert(insert_all(base, add.push(e)) == insert_all(
            set_insert(base, e),
            add.push(e).drop_first(),
        ));
    } else {
        assert(add.push(e).first() == add.first());
        assert(add.push(e).drop_first() =~= add.drop_first().push(e));
        lemma_insert_all_snoc(set_insert(base, add.first()), add.drop_first(), e);
    }
}

fn insert_all_exec(dst: &mut SnippetSet, src: &SnippetSet)
    requires
        old(dst).wf(),
    ensures
        final(dst)@ == insert_all(old(dst)@, src@),
        final(dst).wf(),
{
    let ghost base = old(dst)@;
    let mut i: usize = 0;
    proof {
        assert(src@.take(0) =~= Seq::<EntryView>::empty());
    }
    while i < src.entries.len()
        invariant
            i <= src@.len(),
            src@.len() == src.entries@.len(),
            dst@ == insert_all(base, src@.take(i as int)),
            dst.wf(),
        decreases src@.len() - i,
    {
        let entry = &src.entries[i];
        proof {
            assert(entry@ == src@[i as int]);
        }
        let copied = clone_entry(entry);
        dst.insert(copied.name, copied.data);
        i = i + 1;
        proof {
            lemma_insert_all_snoc(base, src@.take(i - 1), src@[i - 1]);
            assert(src@.take(i as int) =~= src@.take(i - 1).push(src@[i - 1]));
        }
    }
    proof {
        assert(src@.take(src@.len() as int) =~= src@);
    }
}

/// Structural corruption the lossy fallback cannot mend: a region start
/// marker with no end marker after it.
#[derive(Debug, PartialEq, Eq)]
pub enum MergeError {
    UnterminatedRegion,
}

/// The entries the rewritten region holds: the previous region's entries
/// minus the deleted names, with the new entries inserted over them; or the
/// new entries alone when the previous fragment does not parse.
pub open spec fn merged_entries(
    interior: Seq<char>,
    new: Seq<EntryView>,
    deleted: Seq<Seq<char>>,
) -> Seq<EntryView> {
    match parse_fragment_spec(interior) {
        Some(old) => insert_all(drop_deleted(old, deleted), new),
        None => new,
    }
}

/// What reconciling produces, line for line. With a region present, the
/// lines before the start marker and after the end marker are kept, and the
/// region is rewritten around the merged fragment. With none, the region is
/// inserted after the first opening brace, or the whole text is wrapped in
/// synthesized braces.
pub open spec fn reconcile_spec(
    prev: Seq<char>,
    new: Seq<EntryView>,
    deleted: Seq<Seq<char>>,
) -> Result<Seq<char>, MergeError> {
    let lines = lines_of(prev);
    match find_marker(lines, gen_start_marker(), 0) {
        Some(si) => match find_marker(lines, gen_end_marker(), si + 1) {
            None => Err(MergeError::UnterminatedRegion),
            Some(ei) => {
                let interior = join_nl(lines.subrange(si + 1, ei));
                let merged = merged_entries(interior, new, deleted);
                Ok(
                    join_nl(lines.take(si)) + region_text(ser_fragment(merged)) + join_nl(
                        lines.skip(ei + 1),
                    ),
                )
            },
        },
        None => {
            let joined = join_nl(lines);
            let frag = ser_fragment(new);
            match find_from(joined, seq!['{'], 0) {
                Some(bi) => Ok(
                    joined.take(bi + 1) + seq!['\n'] + region_text(frag) + joined.skip(bi + 1),
                ),
                None => Ok(
                    seq!['{', '\n'] + region_text(frag) + joined + seq!['\n', '}'],
                ),
            }
        },
    }
}

fn join_lines(lines: &Vec<Vec<char>>, a: usize, b: usize) -> (r: Vec<char>)
    requires
        a <= b <= lines@.len(),
    ensures
        r@ == join_nl(lines.deep_view().subrange(a as int, b as int)),
{
    let mut r: Vec<char> = Vec::new();
    let mut i: usize = a;
    proof {
        assert(join_nl(lines.deep_view().subrange(a as int, b as int)) == r@ + join_nl(
            lines.deep_view().subrange(a as int, b as int),
        )) by {
            assert(r@ + join_nl(lines.deep_view().subrange(a as int, b as int)) =~= join_nl(
                lines.deep_view().subrange(a as int, b as int),
            ));
        }
    }
    while i < b
        invariant
            a <= i <= b <= lines@.len(),
            lines@.len() == lines.deep_view().len(),
            join_nl(lines.deep_view().subrange(a as int, b as int)) == r@ + join_nl(
                lines.deep_view().subrange(i as int, b as int),
            ),
        decreases b - i,
    {
        let ghost dv = lines.deep_view();
        let ghost r0 = r@;
        proof {
            assert(dv.subrange(i as int, b as int).first() == dv[i as int]);
            assert(dv.subrange(i as int, b as int).drop_first() =~= dv.subrange(i + 1, b as int));
            assert(dv[i as int] =~= lines@[i as int]@);
        }
        extend_chars(&mut r, &lines[i]);
        r.push('\n');
        i = i + 1;
        proof {
            assert(r@ =~= r0 + (dv[i - 1] + seq!['\n']));
            assert(join_nl(dv.subrange(i - 1, b as int)) == dv[i - 1] + seq!['\n'] + join_nl(
                dv.subrange(i as int, b as int),
            ));
            assert(r0 + (dv[i - 1] + seq!['\n'] + join_nl(dv.subrange(i as int, b as int))) =~= (r0
                + (dv[i - 1] + seq!['\n'])) + join_nl(dv.subrange(i as int, b as int)));
        }
    }
    proof {
        assert(lines.deep_view().subrange(b as int, b as int).len() == 0);
        assert(join_nl(lines.deep_view().subrange(b as int, b as int)) =~= Seq::<char>::empty());
        assert(r@ + join_nl(lines.deep_view().subrange(b as int, b as int)) =~= r@);
    }
    r
}

fn region_chars(frag: &Vec<char>) -> (r: Vec<char>)
    ensures
        r@ == region_text(frag@),
{
    let mut r = str_to_chars("////////// ");
    let start_marker = str_to_chars("[[Generated By PortSnippet]]");
    extend_chars(&mut r, &start_marker);
    let tail = str_to_chars(" (DON'T REMOVE) //////////");
    extend_chars(&mut r, &tail);
    r.push('\n');
    extend_chars(&mut r, frag);
    r.push('\n');
    let end_head = str_to_chars("////////// ");
    extend_chars(&mut r, &end_head);
    let end_marker = str_to_chars("[[PortSnippet End]]");
    extend_chars(&mut r, &end_marker);
    let end_tail = str_to_chars(" (DON'T REMOVE) //////////");
    extend_chars(&mut r, &end_tail);
    r.push('\n');
    proof {
        assert(r@ =~= region_text(frag@));
    }
    r
}

/// Produces the new artifact text from the previous one, the snippets just
/// scanned from one source file, and the names that file no longer owns.
/// Entries of other provenance survive unchanged; only an unterminated
/// region fails.
pub fn reconcile(prev: &str, new_snippets: &SnippetSet, deleted: &Vec<String>) -> (r: Result<
    String,
    MergeError,
>)
    requires
        new_snippets.wf(),
    ensures
        match r {
            Ok(out) => reconcile_spec(prev@, new_snippets@, deleted.deep_view()) == Ok::<
                Seq<char>,
                MergeError,
            >(out@),
            Err(e) => reconcile_spec(prev@, new_snippets@, deleted.deep_view()) == Err::<
                Seq<char>,
                MergeError,
            >(e),
        },
{
    let chars = str_to_chars(prev);
    let lines = split_lines(&chars);
    let ghost lsq = lines_of(prev@);
    proof {
        assert(lines.deep_view() == lsq);
    }
    let start_marker = str_to_chars("[[Generated By PortSnippet]]");
    let end_marker = str_to_chars("[[PortSnippet End]]");

    let nlines = lines.len();
    match find_marker_exec(&lines, &start_marker, 0) {
        Some(si) => {
            match find_marker_exec(&lines, &end_marker, si + 1) {
                None => Err(MergeError::UnterminatedRegion),
                Some(ei) => {
                    let interior = join_lines(&lines, si + 1, ei);
                    let merged: SnippetSet = match parse_fragment(&interior) {
                        Some(old) => {
                            let mut kept = drop_deleted_exec(&old, deleted);
                            insert_all_exec(&mut kept, new_snippets);
                            kept
                        },
                        None => {
                            let mut fresh = SnippetSet::new();
                            insert_all_exec(&mut fresh, new_snippets);
                            proof {
                                lemma_insert_all_identity(new_snippets@);
                            }
                            fresh
                        },
                    };
                    proof {
                        assert(merged@ == merged_entries(
                            interior@,
                            new_snippets@,
                            deleted.deep_view(),
                        ));
                    }
                    let frag = serialize_fragment(&merged);
                    let region = region_chars(&frag);
                    let mut out = join_lines(&lines, 0, si);
                    proof {
                        assert(lsq.subrange(0, si as int) =~= lsq.take(si as int));
                    }
                    extend_chars(&mut out, &region);
                    let after = join_lines(&lines, ei + 1, nlines);
                    proof {
                        assert(lsq.subrange(ei + 1, lsq.len() as int) =~= lsq.skip(ei + 1));
                    }
                    extend_chars(&mut out, &after);
                    Ok(chars_to_string(&out))
                },
            }
        },
        None => {
            let joined = join_lines(&lines, 0, nlines);
            proof {
                assert(lsq.subrange(0, lsq.len() as int) =~= lsq);
            }
            let frag = serialize_fragment(new_snippets);
            let region = region_chars(&frag);
            let brace: Vec<char> = vec!['{'];
            proof {
                assert(brace@ =~= seq!['{']);
            }
            match find_sub_from(&joined, &brace, 0) {
                Some(bi) => {
                    proof {
                        crate::chars::lemma_find_from_bounds(joined@, brace@, 0);
                    }
                    let jlen = joined.len();
                    let mut out = crate::chars::sub_chars(&joined, 0, bi + 1);
                    out.push('\n');
                    extend_chars(&mut out, &region);
                    let rest = crate::chars::sub_chars(&joined, bi + 1, jlen);
                    extend_chars(&mut out, &rest);
                    proof {
                        assert(joined@.subrange(0, bi + 1) =~= joined@.take(bi + 1));
                        assert(joined@.subrange(bi + 1, joined@.len() as int) =~= joined@.skip(
                            bi + 1,
                        ));
                        assert(out@ =~= joined@.take(bi + 1) + seq!['\n'] + region_text(frag@)
                            + joined@.skip(bi + 1));
                    }
                    Ok(chars_to_string(&out))
                },
                None => {
                    let mut out: Vec<char> = Vec::new();
                    out.push('{');
                    out.push('\n');
                    extend_chars(&mut out, &region);
                    extend_chars(&mut out, &joined);
                    out.push('\n');
                    out.push('}');
                    proof {
                        assert(out@ =~= seq!['{', '\n'] + region_text(frag@) + joined@ + seq![
                            '\n',
                            '}',
                        ]);
                    }
                    Ok(chars_to_string(&out))
                },
            }
        },
    }
}

/// Inserting a well-formed entry sequence into an empty set reproduces it.
pub proof fn lemma_insert_all_identity(add: Seq<EntryView>)
    requires
        wf_entries(add),
    ensures
        insert_all(Seq::<EntryView>::empty(), add) == add,
    decreases add.len(),
{
    if add.len() > 0 {
        assert(set_insert(Seq::<EntryView>::empty(), add.first()) =~= seq![add.first()]);
        assert(seq![add.first()] + add.drop_first() =~= add);
        lemma_insert_all_prefix(seq![add.first()], add.drop_first(), add);
    } else {
        assert(insert_all(Seq::<EntryView>::empty(), add) =~= add);
    }
}

proof fn lemma_insert_all_prefix(base: Seq<EntryView>, add: Seq<EntryView>, whole: Seq<EntryView>)
    requires
        base + add =~= whole,
        wf_entries(whole),
    ensures
        insert_all(base, add) == whole,
    decreases add.len(),
{
    if add.len() == 0 {
        assert(base =~= whole);
    } else {
        let e = add.first();
        assert(forall|j: int| 0 <= j < base.len() ==> base[j] == whole[j]);
        assert(e == whole[base.len() as int]);
        assert(forall|j: int| 0 <= j < base.len() ==> base[j].name != e.name);
        lemma_set_insert_absent_pub(base, e);
        assert(set_insert(base, e) =~= base.push(e));
        assert(base.push(e) + add.drop_first() =~= whole);
        lemma_insert_all_prefix(base.push(e), add.drop_first(), whole);
    }
}

proof fn lemma_set_insert_absent_pub(es: Seq<EntryView>, e: EntryView)
    requires
        forall|j: int| 0 <= j < es.len() ==> es[j].name != e.name,
    ensures
        set_insert(es, e) =~= es.push(e),
    decreases es.len(),
{
    if es.len() == 0 {
        assert(set_insert(es, e) =~= es.push(e));
    } else {
        assert(forall|j: int| 0 <= j < es.drop_first().len() ==> es.drop_first()[j] == es[j + 1]);
        lemma_set_insert_absent_pub(es.drop_first(), e);
        assert((seq![es.first()] + es.drop_first().push(e)) =~= es.push(e));
    }
}

} // verus!
