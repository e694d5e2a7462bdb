//! The name index: a persisted mapping from source-file path to the ordered
//! list of snippet names that file currently contributes to the artifact.
//! It is the record by which a name that a file owned before, but no longer
//! produces, is recognized as deleted. The index file holds one JSON object
//! mapping each path to an array of names; one that cannot be read is
//! treated as empty, a tolerated degradation.

use vstd::prelude::*;
use crate::chars::str_to_chars;
use crate::json::{
    json_skip, parse_string_body, lemma_psb_bounds, lemma_json_skip, quote, json_skip_exec,
    parse_string_body_exec,
};
use crate::merge::name_in;
use crate::snippet::{EntryView, SnippetSet, has_name};

verus! {

/// One index entry: a source-file path and the names it owns, in order.
#[derive(Debug, Clone, PartialEq)]
pub struct KeyEntry {
    pub path: String,
    pub names: Vec<String>,
}

/// Mathematical value of a `KeyEntry`.
pub struct KeyEntryView {
    pub path: Seq<char>,
    pub names: Seq<Seq<char>>,
}

impl View for KeyEntry {
    type V = KeyEntryView;

    open spec fn view(&self) -> KeyEntryView {
        KeyEntryView { path: self.path@, names: self.names.deep_view() }
    }
}

/// The persisted index: path to owned names, paths pairwise distinct, in
/// first-seen order.
#[derive(Debug, Clone, PartialEq)]
pub struct KeyList {
    pub entries: Vec<KeyEntry>,
}

impl View for KeyList {
    type V = Seq<KeyEntryView>;

    open spec fn view(&self) -> Seq<KeyEntryView> {
        Seq::new(self.entries@.len(), |i: int| self.entries@[i]@)
    }
}

/// Paths are pairwise distinct.
pub open spec fn wf_keylist(es: Seq<KeyEntryView>) -> bool {
    forall|i: int, j: int| 0 <= i < j < es.len() ==> es[i].path != es[j].path
}

/// The names stored under `path`: the first entry with that path wins.
pub open spec fn klookup(es: Seq<KeyEntryView>, path: Seq<char>) -> Option<Seq<Seq<char>>>
    decreases es.len(),
{
    if es.len() == 0 {
        None
    } else if es.first().path == path {
        Some(es.first().names)
    } else {
        klookup(es.drop_first(), path)
    }
}

/// Stores `e`: overwrites in place the first entry with the same path, or
/// appends `e` at the end when the path is new.
pub open spec fn kinsert(es: Seq<KeyEntryView>, e: KeyEntryView) -> Seq<KeyEntryView>
    decreases es.len(),
{
    if es.len() == 0 {
        seq![e]
    } else if es.first().path == e.path {
        seq![e] + es.drop_first()
    } else {
        seq![es.first()] + kinsert(es.drop_first(), e)
    }
}

pub proof fn lemma_kinsert(es: Seq<KeyEntryView>, e: KeyEntryView)
    requires
        wf_keylist(es),
    ensures
        wf_keylist(kinsert(es, e)),
        klookup(kinsert(es, e), e.path) == Some(e.names),
        forall|p: Seq<char>| p != e.path ==> klookup(kinsert(es, e), p) == klookup(es, p),
    decreases es.len(),
{
    if es.len() == 0 {
        let r = seq![e];
        assert forall|p: Seq<char>| p != e.path implies klookup(r, p) == klookup(es, p) by {
            assert(r.first() == e);
            assert(klookup(r, p) == klookup(r.drop_first(), p));
            assert(r.drop_first().len() == 0);
        }
    } else if es.first().path == e.path {
        let r = seq![e] + es.drop_first();
        assert(wf_keylist(es.drop_first())) by {
            assert(forall|a: int, b: int|
                0 <= a < b < es.drop_first().len() ==> es.drop_first()[a] == es[a + 1]
                    && es.drop_first()[b] == es[b + 1]);
        }
        assert(forall|j: int| 0 <= j < es.drop_first().len() ==> es.drop_first()[j] == es[j + 1]);
        assert(wf_keylist(r)) by {
            assert(forall|j: int| 1 <= j < r.len() ==> r[j] == es[j]);
        }
        assert(r.drop_first() =~= es.drop_first());
        assert forall|p: Seq<char>| p != e.path implies klookup(r, p) == klookup(es, p) by {
            assert(r.first() == e);
            assert(klookup(r, p) == klookup(r.drop_first(), p));
            assert(klookup(es, p) == klookup(es.drop_first(), p));
        }
    } else {
        assert(wf_keylist(es.drop_first())) by {
            assert(forall|a: int, b: int|
                0 <= a < b < es.drop_first().len() ==> es.drop_first()[a] == es[a + 1]
                    && es.drop_first()[b] == es[b + 1]);
        }
        lemma_kinsert(es.drop_first(), e);
        let tail = kinsert(es.drop_first(), e);
        let r = seq![es.first()] + tail;
        assert(r.drop_first() =~= tail);
        assert(r.first() == es.first());
        assert(wf_keylist(r)) by {
            assert(forall|j: int|
                0 <= j < tail.len() ==> #[trigger] tail[j].path != es.first().path) by {
                if exists|j: int|
                    0 <= j < tail.len() && #[trigger] tail[j].path == es.first().path {
                    let j = choose|j: int| 0 <= j < tail.len() && tail[j].path == es.first().path;
                    lemma_klookup_names(tail, j);
                    if tail[j].path == e.path {
                    } else {
                        assert(klookup(tail, tail[j].path) == klookup(
                            es.drop_first(),
                            tail[j].path,
                        ));
                        lemma_klookup_has(es.drop_first(), es.first().path);
                        let k = choose|k: int|
                            0 <= k < es.drop_first().len() && es.drop_first()[k].path
                                == es.first().path;
                        assert(es[k + 1].path == es[0].path);
                    }
                }
            }
            assert(forall|a: int, b: int| 0 <= a < b < r.len() && a > 0 ==> r[a] == tail[a - 1]
                && r[b] == tail[b - 1]);
        }
        assert forall|p: Seq<char>| p != e.path implies klookup(r, p) == klookup(es, p) by {
            if es.first().path == p {
            } else {
                assert(klookup(r, p) == klookup(tail, p));
                assert(klookup(es, p) == klookup(es.drop_first(), p));
            }
        }
        assert(klookup(r, e.path) == klookup(tail, e.path));
    }
}

proof fn lemma_klookup_names(es: Seq<KeyEntryView>, j: int)
    requires
        wf_keylist(es),
        0 <= j < es.len(),
    ensures
        klookup(es, es[j].path) == Some(es[j].names),
    decreases es.len(),
{
    if j > 0 {
        assert(es.first().path != es[j].path);
        assert(es.drop_first()[j - 1] == es[j]);
        assert(wf_keylist(es.drop_first())) by {
            assert(forall|a: int, b: int|
                0 <= a < b < es.drop_first().len() ==> es.drop_first()[a] == es[a + 1]
                    && es.drop_first()[b] == es[b + 1]);
        }
        lemma_klookup_names(es.drop_first(), j - 1);
    }
}

proof fn lemma_klookup_has(es: Seq<KeyEntryView>, p: Seq<char>)
    ensures
        klookup(es, p) is Some <==> exists|i: int| 0 <= i < es.len() && es[i].path == p,
    decreases es.len(),
{
    if es.len() > 0 {
        if es.first().path == p {
        } else {
            lemma_klookup_has(es.drop_first(), p);
            if klookup(es, p) is Some {
                let i = choose|i: int|
                    0 <= i < es.drop_first().len() && es.drop_first()[i].path == p;
                assert(es[i + 1].path == p);
            }
            if exists|i: int| 0 <= i < es.len() && es[i].path == p {
                let i = choose|i: int| 0 <= i < es.len() && es[i].path == p;
                assert(es.drop_first()[i - 1].path == p);
            }
        }
    }
}

impl KeyList {
    pub open spec fn wf(&self) -> bool {
        wf_keylist(self@)
    }

    pub fn new() -> (r: KeyList)
        ensures
            r@ =~= Seq::<KeyEntryView>::empty(),
            r.wf(),
    {
        KeyList { entries: Vec::new() }
    }

    /// Stores `names` under `path`, overwriting in place when the path is
    /// already present.
    pub fn store(&mut self, path: String, names: Vec<String>)
        requires
            old(self).wf(),
        ensures
            final(self)@ == kinsert(
                old(self)@,
                KeyEntryView { path: path@, names: names.deep_view() },
            ),
            final(self).wf(),
    {
        let ghost e = KeyEntryView { path: path@, names: names.deep_view() };
        let ghost es0 = self@;
        let mut i: usize = 0;
        while i < self.entries.len()
            invariant
                es0 == old(self)@,
                self@ == es0,
                wf_keylist(es0),
                i <= es0.len(),
                e == (KeyEntryView { path: path@, names: names.deep_view() }),
                forall|j: int| 0 <= j < i ==> es0[j].path != path@,
            decreases es0.len() - i,
        {
            if crate::chars::str_eq(self.entries[i].path.as_str(), path.as_str()) {
                proof {
                    assert(self@[i as int] == es0[i as int]);
                    assert(es0[i as int].path == path@);
                }
                self.entries[i] = KeyEntry { path, names };
                proof {
                    lemma_kinsert_found(es0, e, i as int);
                    assert(self@ =~= es0.update(i as int, e));
                    lemma_kinsert(es0, e);
                }
                return ;
            }
            i = i + 1;
        }
        self.entries.push(KeyEntry { path, names });
        proof {
            lemma_kinsert_absent(es0, e);
            assert(self@ =~= es0.push(e));
            lemma_kinsert(es0, e);
        }
    }
}

proof fn lemma_kinsert_found(es: Seq<KeyEntryView>, e: KeyEntryView, i: int)
    requires
        0 <= i < es.len(),
        es[i].path == e.path,
        forall|j: int| 0 <= j < i ==> es[j].path != e.path,
    ensures
        kinsert(es, e) =~= es.update(i, e),
    decreases es.len(),
{
    if i == 0 {
        assert((seq![e] + es.drop_first()) =~= es.update(0, e));
    } else {
        assert(es.first().path != e.path);
        assert(es.drop_first()[i - 1] == es[i]);
        assert(forall|j: int| 0 <= j < i - 1 ==> es.drop_first()[j] == es[j + 1]);
        lemma_kinsert_found(es.drop_first(), e, i - 1);
        assert((seq![es.first()] + es.drop_first().update(i - 1, e)) =~= es.update(i, e));
    }
}

proof fn lemma_kinsert_absent(es: Seq<KeyEntryView>, e: KeyEntryView)
    requires
        forall|j: int| 0 <= j < es.len() ==> es[j].path != e.path,
    ensures
        kinsert(es, e) =~= es.push(e),
    decreases es.len(),
{
    if es.len() == 0 {
        assert(kinsert(es, e) =~= es.push(e));
    } else {
        assert(forall|j: int| 0 <= j < es.drop_first().len() ==> es.drop_first()[j] == es[j + 1]);
        lemma_kinsert_absent(es.drop_first(), e);
        assert((seq![es.first()] + es.drop_first().push(e)) =~= es.push(e));
    }
}

/// The names this file owned before, or none when the file is seen for the
/// first time.
pub fn filter_namelist<'a>(name_list: &'a KeyList, code_filepath_string: &String) -> (r: Option<
    &'a Vec<String>,
>)
    ensures
        match r {
            Some(v) => klookup(name_list@, code_filepath_string@) == Some(v.deep_view()),
            None => klookup(name_list@, code_filepath_string@) is None,
        },
{
    let ghost es = name_list@;
    let mut i: usize = 0;
    proof {
        lemma_klookup_from_rel(es, code_filepath_string@, 0);
        assert(es.skip(0) =~= es);
    }
    while i < name_list.entries.len()
        invariant
            es == name_list@,
            i <= es.len(),
            klookup(es, code_filepath_string@) == klookup_from(es, code_filepath_string@, i as int),
        decreases es.len() - i,
    {
        proof {
            assert(name_list@[i as int] == name_list.entries@[i as int]@);
        }
        if crate::chars::str_eq(
            name_list.entries[i].path.as_str(),
            code_filepath_string.as_str(),
        ) {
            proof {
                lemma_klookup_from(es, code_filepath_string@, i as int);
            }
            return Some(&name_list.entries[i].names);
        }
        i = i + 1;
        proof {
            lemma_klookup_from_step(es, code_filepath_string@, i - 1);
        }
    }
    proof {
        lemma_klookup_from_end(es, code_filepath_string@);
    }
    None
}

/// `klookup` restricted to the entries from `from` on.
pub open spec fn klookup_from(es: Seq<KeyEntryView>, p: Seq<char>, from: int) -> Option<
    Seq<Seq<char>>,
>
    decreases es.len() - from when 0 <= from
{
    if from >= es.len() {
        None
    } else if es[from].path == p {
        Some(es[from].names)
    } else {
        klookup_from(es, p, from + 1)
    }
}

proof fn lemma_klookup_from_rel(es: Seq<KeyEntryView>, p: Seq<char>, from: int)
    requires
        0 <= from <= es.len(),
    ensures
        klookup_from(es, p, from) == klookup(es.skip(from), p),
    decreases es.len() - from,
{
    if from >= es.len() {
        assert(es.skip(from).len() == 0);
    } else {
        assert(es.skip(from).first() == es[from]);
        assert(es.skip(from).drop_first() =~= es.skip(from + 1));
        lemma_klookup_from_rel(es, p, from + 1);
    }
}

proof fn lemma_klookup_from(es: Seq<KeyEntryView>, p: Seq<char>, i: int)
    requires
        0 <= i < es.len(),
        es[i].path == p,
    ensures
        klookup_from(es, p, i) == Some(es[i].names),
{
}

proof fn lemma_klookup_from_step(es: Seq<KeyEntryView>, p: Seq<char>, i: int)
    requires
        0 <= i < es.len(),
        es[i].path != p,
    ensures
        klookup_from(es, p, i) == klookup_from(es, p, i + 1),
{
}

proof fn lemma_klookup_from_end(es: Seq<KeyEntryView>, p: Seq<char>)
    ensures
        klookup_from(es, p, es.len() as int) is None,
{
}

/// The names owned before but no longer produced by the latest scan, in
/// their stored order.
pub open spec fn deleted_names(names: Seq<Seq<char>>, set: Seq<EntryView>) -> Seq<Seq<char>>
    decreases names.len(),
{
    if names.len() == 0 {
        Seq::empty()
    } else {
        let rest = deleted_names(names.drop_last(), set);
        if has_name(set, names.last()) {
            rest
        } else {
            rest.push(names.last())
        }
    }
}

fn set_has_name(set: &SnippetSet, name: &String) -> (r: bool)
    ensures
        r == has_name(set@, name@),
{
    let mut i: usize = 0;
    while i < set.entries.len()
        invariant
            i <= set@.len(),
            set@.len() == set.entries@.len(),
            forall|j: int| 0 <= j < i ==> set@[j].name != name@,
        decreases set@.len() - i,
    {
        proof {
            assert(set@[i as int] == set.entries@[i as int]@);
        }
        if crate::chars::str_eq(set.entries[i].name.as_str(), name.as_str()) {
            return true;
        }
        i = i + 1;
    }
    false
}

/// Previous names minus the names of the latest scan: what this file has
/// just stopped owning.
pub fn get_deleted_list(snippet: &SnippetSet, name_list: &Vec<String>) -> (r: Vec<String>)
    ensures
        r.deep_view() == deleted_names(name_list.deep_view(), snippet@),
{
    let ghost ns = name_list.deep_view();
    let mut r: Vec<String> = Vec::new();
    let mut i: usize = 0;
    proof {
        assert(ns.take(0) =~= Seq::<Seq<char>>::empty());
        assert(r.deep_view() =~~= deleted_names(ns.take(0), snippet@));
    }
    while i < name_list.len()
        invariant
            i <= ns.len(),
            ns == name_list.deep_view(),
            ns.len() == name_list@.len(),
            r.deep_view() == deleted_names(ns.take(i as int), snippet@),
        decreases ns.len() - i,
    {
        proof {
            assert(ns[i as int] == name_list@[i as int]@);
            assert(ns.take(i + 1).drop_last() =~= ns.take(i as int));
            assert(ns.take(i + 1).last() == ns[i as int]);
        }
        let ghost r0 = r.deep_view();
        if !set_has_name(snippet, &name_list[i]) {
            let nm = name_list[i].clone();
            r.push(nm);
            proof {
                assert(r.deep_view() =~~= r0.push(ns[i as int]));
            }
        }
        i = i + 1;
    }
    proof {
        assert(ns.take(ns.len() as int) =~= ns);
    }
    r
}

/// The previous list with the newly scanned names appended (in scan order,
/// skipping those already listed).
pub open spec fn append_new(prev: Seq<Seq<char>>, set: Seq<EntryView>) -> Seq<Seq<char>>
    decreases set.len(),
{
    if set.len() == 0 {
        prev
    } else {
        let rest = append_new(prev, set.drop_last());
        if name_in(prev, set.last().name) {
            rest
        } else {
            rest.push(set.last().name)
        }
    }
}

/// Drops every name that stood in the previous list and has just been
/// deleted.
pub open spec fn strip_deleted(
    ns: Seq<Seq<char>>,
    prev: Seq<Seq<char>>,
    deleted: Seq<Seq<char>>,
) -> Seq<Seq<char>>
    decreases ns.len(),
{
    if ns.len() == 0 {
        Seq::empty()
    } else {
        let rest = strip_deleted(ns.drop_last(), prev, deleted);
        if name_in(prev, ns.last()) && name_in(deleted, ns.last()) {
            rest
        } else {
            rest.push(ns.last())
        }
    }
}

/// What a file's name list becomes after a scan: new names appended, then
/// the deleted ones removed.
pub open spec fn updated_names(
    prev: Seq<Seq<char>>,
    set: Seq<EntryView>,
    deleted: Seq<Seq<char>>,
) -> Seq<Seq<char>> {
    strip_deleted(append_new(prev, set), prev, deleted)
}

/// The names of a scan, in order.
pub open spec fn names_of(set: Seq<EntryView>) -> Seq<Seq<char>> {
    Seq::new(set.len(), |i: int| set[i].name)
}

fn string_in_exec(ns: &Vec<String>, n: &String) -> (r: bool)
    ensures
        r == name_in(ns.deep_view(), n@),
{
    crate::merge::name_in_exec(ns, n)
}

/// Rebuilds the index after one file's scan. With a previous list, names
/// newly produced are appended and names just deleted are removed, the rest
/// keeping their positions; without one, the file's entry is created with
/// the scanned names.
pub fn update_name_list(
    code_filepath_string: &String,
    all_name_list: &KeyList,
    name_list: &Option<&Vec<String>>,
    deleted_name_list: &Vec<String>,
    snippet: &SnippetSet,
) -> (r: KeyList)
    requires
        all_name_list.wf(),
    ensures
        r@ == kinsert(
            all_name_list@,
            KeyEntryView {
                path: code_filepath_string@,
                names: match name_list {
                    Some(prev) => updated_names(
                        prev.deep_view(),
                        snippet@,
                        deleted_name_list.deep_view(),
                    ),
                    None => names_of(snippet@),
                },
            },
        ),
        r.wf(),
{
    let new_names: Vec<String> = match name_list {
        Some(prev) => {
            let ghost pv = prev.deep_view();
            // append the newly scanned names
            let mut appended: Vec<String> = clone_names(prev);
            let mut i: usize = 0;
            proof {
                assert(snippet@.take(0) =~= Seq::<EntryView>::empty());
                assert(appended.deep_view() =~~= append_new(pv, snippet@.take(0)));
            }
            while i < snippet.entries.len()
                invariant
                    i <= snippet@.len(),
                    snippet@.len() == snippet.entries@.len(),
                    pv == prev.deep_view(),
                    appended.deep_view() == append_new(pv, snippet@.take(i as int)),
                decreases snippet@.len() - i,
            {
                proof {
                    assert(snippet@[i as int] == snippet.entries@[i as int]@);
                    assert(snippet@.take(i + 1).drop_last() =~= snippet@.take(i as int));
                    assert(snippet@.take(i + 1).last() == snippet@[i as int]);
                }
                let ghost a0 = appended.deep_view();
                if !string_in_exec(prev, &snippet.entries[i].name) {
                    let nm = snippet.entries[i].name.clone();
                    appended.push(nm);
                    proof {
                        assert(appended.deep_view() =~~= a0.push(snippet@[i as int].name));
                    }
                }
                i = i + 1;
            }
            proof {
                assert(snippet@.take(snippet@.len() as int) =~= snippet@);
            }
            // remove the names that have just been deleted
            let ghost av = appended.deep_view();
            let mut kept: Vec<String> = Vec::new();
            let mut k: usize = 0;
            proof {
                assert(av.take(0) =~= Seq::<Seq<char>>::empty());
                assert(kept.deep_view() =~~= strip_deleted(
                    av.take(0),
                    pv,
                    deleted_name_list.deep_view(),
                ));
            }
            while k < appended.len()
                invariant
                    k <= av.len(),
                    av == appended.deep_view(),
                    av.len() == appended@.len(),
                    pv == prev.deep_view(),
                    kept.deep_view() == strip_deleted(
                        av.take(k as int),
                        pv,
                        deleted_name_list.deep_view(),
                    ),
                decreases av.len() - k,
            {
                proof {
                    assert(av[k as int] == appended@[k as int]@);
                    assert(av.take(k + 1).drop_last() =~= av.take(k as int));
                    assert(av.take(k + 1).last() == av[k as int]);
                }
                let ghost k0 = kept.deep_view();
                let in_prev = string_in_exec(prev, &appended[k]);
                let in_del = string_in_exec(deleted_name_list, &appended[k]);
                if !(in_prev && in_del) {
                    let nm = appended[k].clone();
                    kept.push(nm);
                    proof {
                        assert(kept.deep_view() =~~= k0.push(av[k as int]));
                    }
                }
                k = k + 1;
            }
            proof {
                assert(av.take(av.len() as int) =~= av);
            }
            kept
        },
        None => {
            let mut ns: Vec<String> = Vec::new();
            let mut i: usize = 0;
            proof {
                assert(ns.deep_view() =~~= names_of(snippet@).take(0));
            }
            while i < snippet.entries.len()
                invariant
                    i <= snippet@.len(),
                    snippet@.len() == snippet.entries@.len(),
                    ns.deep_view() == names_of(snippet@).take(i as int),
                decreases snippet@.len() - i,
            {
                proof {
                    assert(snippet@[i as int] == snippet.entries@[i as int]@);
                }
                let ghost n0 = ns.deep_view();
                let nm = snippet.entries[i].name.clone();
                ns.push(nm);
                i = i + 1;
                proof {
                    assert(ns.deep_view() =~~= n0.push(snippet@[i - 1].name));
                    assert(names_of(snippet@).take(i as int) =~= names_of(snippet@).take(
                        i - 1,
                    ).push(snippet@[i - 1].name));
                }
            }
            proof {
                assert(names_of(snippet@).take(snippet@.len() as int) =~= names_of(snippet@));
            }
            ns
        },
    };
    let mut r = clone_keylist(all_name_list);
    let path = code_filepath_string.clone();
    r.store(path, new_names);
    r
}

fn clone_names(ns: &Vec<String>) -> (r: Vec<String>)
    ensures
        r.deep_view() == ns.deep_view(),
        r@.len() == ns@.len(),
{
    let mut r: Vec<String> = Vec::new();
    let mut i: usize = 0;
    while i < ns.len()
        invariant
            i <= ns@.len(),
            r@.len() == i,
            forall|j: int| 0 <= j < i ==> r.deep_view()[j] == ns.deep_view()[j],
        decreases ns@.len() - i,
    {
        let nm = ns[i].clone();
        r.push(nm);
        i = i + 1;
        proof {
            assert(r.deep_view()[i - 1] == ns@[i - 1]@);
            assert(ns.deep_view()[i - 1] == ns@[i - 1]@);
        }
    }
    proof {
        assert(r.deep_view() =~~= ns.deep_view());
    }
    r
}

fn clone_keylist(kl: &KeyList) -> (r: KeyList)
    ensures
        r@ == kl@,
{
    let mut entries: Vec<KeyEntry> = Vec::new();
    let mut i: usize = 0;
    while i < kl.entries.len()
        invariant
            i <= kl.entries@.len(),
            entries@.len() == i,
            forall|j: int| 0 <= j < i ==> entries@[j]@ == kl.entries@[j]@,
        decreases kl.entries@.len() - i,
    {
        let path = kl.entries[i].path.clone();
        let names = clone_names(&kl.entries[i].names);
        entries.push(KeyEntry { path, names });
        i = i + 1;
        proof {
            assert(entries@[i - 1]@ =~~= kl.entries@[i - 1]@);
        }
    }
    let r = KeyList { entries };
    proof {
        assert(r@ =~~= kl@);
    }
    r
}


/// Whether some entry carries the path `p`.
pub open spec fn kl_has_path(es: Seq<KeyEntryView>, p: Seq<char>) -> bool {
    exists|i: int| 0 <= i < es.len() && es[i].path == p
}

/// A name array's interior, comma separated.
pub open spec fn ser_names(ns: Seq<Seq<char>>) -> Seq<char>
    decreases ns.len(),
{
    if ns.len() == 0 {
        Seq::empty()
    } else if ns.len() == 1 {
        quote(ns.first())
    } else {
        quote(ns.first()) + seq![','] + ser_names(ns.drop_first())
    }
}

/// One index entry as JSON: quoted path, colon, array of names.
pub open spec fn ser_kl_entry(e: KeyEntryView) -> Seq<char> {
    quote(e.path) + seq![':', '['] + ser_names(e.names) + seq![']']
}

pub open spec fn ser_kl_body(es: Seq<KeyEntryView>) -> Seq<char>
    decreases es.len(),
{
    if es.len() == 0 {
        Seq::empty()
    } else if es.len() == 1 {
        ser_kl_entry(es.first())
    } else {
        ser_kl_entry(es.first()) + seq![','] + ser_kl_body(es.drop_first())
    }
}

/// The whole index file: one JSON object, compact.
pub open spec fn ser_keylist(es: Seq<KeyEntryView>) -> Seq<char> {
    seq!['{'] + ser_kl_body(es) + seq!['}']
}

proof fn lemma_ser_names_snoc(ns: Seq<Seq<char>>, n: Seq<char>)
    ensures
        ser_names(ns.push(n)) == if ns.len() == 0 {
            quote(n)
        } else {
            ser_names(ns) + seq![','] + quote(n)
        },
    decreases ns.len(),
{
    reveal_with_fuel(ser_names, 3);
    if ns.len() == 0 {
        assert(ns.push(n).first() == n);
        assert(ns.push(n).len() == 1);
    } else {
        assert(ns.push(n).first() == ns.first());
        assert(ns.push(n).drop_first() =~= ns.drop_first().push(n));
        lemma_ser_names_snoc(ns.drop_first(), n);
        if ns.len() == 1 {
            assert(ser_names(ns.push(n)) == quote(ns.first()) + (seq![','] + quote(n)));
            assert(quote(ns.first()) + (seq![','] + quote(n)) =~= (ser_names(ns) + seq![','])
                + quote(n));
            assert((ser_names(ns) + seq![',']) + quote(n) =~= ser_names(ns) + seq![','] + quote(
                n,
            ));
        } else {
            assert(ser_names(ns.push(n)) == quote(ns.first()) + seq![','] + (ser_names(
                ns.drop_first(),
            ) + seq![','] + quote(n)));
            assert(quote(ns.first()) + seq![','] + (ser_names(ns.drop_first()) + seq![',']
                + quote(n)) =~= (quote(ns.first()) + seq![','] + ser_names(ns.drop_first()))
                + seq![','] + quote(n));
        }
    }
}

proof fn lemma_ser_kl_body_snoc(es: Seq<KeyEntryView>, e: KeyEntryView)
    ensures
        ser_kl_body(es.push(e)) == if es.len() == 0 {
            ser_kl_entry(e)
        } else {
            ser_kl_body(es) + seq![','] + ser_kl_entry(e)
        },
    decreases es.len(),
{
    reveal_with_fuel(ser_kl_body, 3);
    if es.len() == 0 {
        assert(es.push(e).first() == e);
        assert(es.push(e).len() == 1);
    } else {
        assert(es.push(e).first() == es.first());
        assert(es.push(e).drop_first() =~= es.drop_first().push(e));
        lemma_ser_kl_body_snoc(es.drop_first(), e);
        if es.len() == 1 {
            assert(ser_kl_body(es.push(e)) == ser_kl_entry(es.first()) + (seq![',']
                + ser_kl_entry(e)));
            assert(ser_kl_entry(es.first()) + (seq![','] + ser_kl_entry(e)) =~= (ser_kl_body(es)
                + seq![',']) + ser_kl_entry(e));
            assert((ser_kl_body(es) + seq![',']) + ser_kl_entry(e) =~= ser_kl_body(es) + seq![
                ','
            ] + ser_kl_entry(e));
        } else {
            assert(ser_kl_body(es.push(e)) == ser_kl_entry(es.first()) + seq![','] + (
            ser_kl_body(es.drop_first()) + seq![','] + ser_kl_entry(e)));
            assert(ser_kl_entry(es.first()) + seq![','] + (ser_kl_body(es.drop_first()) + seq![
                ','
            ] + ser_kl_entry(e)) =~= (ser_kl_entry(es.first()) + seq![','] + ser_kl_body(
                es.drop_first(),
            )) + seq![','] + ser_kl_entry(e));
        }
    }
}

fn push_kl_entry(dst: &mut Vec<char>, entry: &KeyEntry)
    ensures
        final(dst)@ == old(dst)@ + ser_kl_entry(entry@),
{
    let pv = str_to_chars(entry.path.as_str());
    crate::json::push_quoted(dst, &pv);
    dst.push(':');
    dst.push('[');
    let mut i: usize = 0;
    let ghost base = dst@;
    let ghost ns = entry.names.deep_view();
    proof {
        assert(ns.take(0) =~= Seq::<Seq<char>>::empty());
        assert(dst@ =~= base + ser_names(ns.take(0)));
    }
    while i < entry.names.len()
        invariant
            i <= ns.len(),
            ns == entry.names.deep_view(),
            ns.len() == entry.names@.len(),
            dst@ == base + ser_names(ns.take(i as int)),
        decreases ns.len() - i,
    {
        let ghost d0 = dst@;
        if i > 0 {
            dst.push(',');
        }
        let nv = str_to_chars(entry.names[i].as_str());
        crate::json::push_quoted(dst, &nv);
        proof {
            assert(ns[i as int] == entry.names@[i as int]@);
            lemma_ser_names_snoc(ns.take(i as int), ns[i as int]);
            assert(ns.take(i + 1) =~= ns.take(i as int).push(ns[i as int]));
            if i == 0 {
                assert(dst@ =~= base + quote(ns[i as int]));
            } else {
                assert(dst@ =~= base + (ser_names(ns.take(i as int)) + seq![','] + quote(
                    ns[i as int],
                )));
            }
        }
        i = i + 1;
    }
    proof {
        assert(ns.take(ns.len() as int) =~= ns);
    }
    dst.push(']');
    proof {
        assert(dst@ =~= old(dst)@ + ser_kl_entry(entry@));
    }
}

/// Writes the index as one compact JSON object.
pub fn serialize_keylist(kl: &KeyList) -> (r: String)
    ensures
        r@ == ser_keylist(kl@),
{
    let mut out: Vec<char> = Vec::new();
    out.push('{');
    let ghost es = kl@;
    let mut i: usize = 0;
    proof {
        assert(es.take(0) =~= Seq::<KeyEntryView>::empty());
        assert(out@ =~= seq!['{'] + ser_kl_body(es.take(0)));
    }
    while i < kl.entries.len()
        invariant
            i <= es.len(),
            es == kl@,
            es.len() == kl.entries@.len(),
            out@ == seq!['{'] + ser_kl_body(es.take(i as int)),
        decreases es.len() - i,
    {
        let ghost d0 = out@;
        if i > 0 {
            out.push(',');
        }
        proof {
            assert(es[i as int] == kl.entries@[i as int]@);
        }
        push_kl_entry(&mut out, &kl.entries[i]);
        proof {
            lemma_ser_kl_body_snoc(es.take(i as int), es[i as int]);
            assert(es.take(i + 1) =~= es.take(i as int).push(es[i as int]));
            if i == 0 {
                assert(out@ =~= seq!['{'] + ser_kl_entry(es[i as int]));
            } else {
                assert(out@ =~= seq!['{'] + (ser_kl_body(es.take(i as int)) + seq![',']
                    + ser_kl_entry(es[i as int])));
            }
        }
        i = i + 1;
    }
    proof {
        assert(es.take(es.len() as int) =~= es);
    }
    out.push('}');
    proof {
        assert(out@ =~= ser_keylist(es));
    }
    crate::chars::chars_to_string(&out)
}

/// Reads a JSON array of strings, `i` pointing just past a name that has
/// been read: expects `,` and another name, or `]`.
pub open spec fn parse_names_rest(s: Seq<char>, i: int, acc: Seq<Seq<char>>) -> Option<
    (Seq<Seq<char>>, int),
>
    decreases s.len() - i
    when 0 <= i <= s.len()
    via parse_names_rest_dec
{
    let j = json_skip(s, i);
    if j >= s.len() {
        None
    } else if s[j] == ']' {
        Some((acc, j + 1))
    } else if s[j] == ',' {
        let k = json_skip(s, j + 1);
        if k >= s.len() || s[k] != '"' {
            None
        } else {
            match parse_string_body(s, k + 1) {
                None => None,
                Some(t) => parse_names_rest(s, t.1, acc.push(t.0)),
            }
        }
    } else {
        None
    }
}

#[via_fn]
proof fn parse_names_rest_dec(s: Seq<char>, i: int, acc: Seq<Seq<char>>) {
    lemma_json_skip(s, i);
    let j = json_skip(s, i);
    if j < s.len() && s[j] == ',' {
        lemma_json_skip(s, j + 1);
        let k = json_skip(s, j + 1);
        if k < s.len() && s[k] == '"' {
            lemma_psb_bounds(s, k + 1);
        }
    }
}

/// Reads a JSON array of strings, `i` pointing just past the `[`.
pub open spec fn parse_names(s: Seq<char>, i: int) -> Option<(Seq<Seq<char>>, int)> {
    let j = json_skip(s, i);
    if j >= s.len() {
        None
    } else if s[j] == ']' {
        Some((Seq::empty(), j + 1))
    } else if s[j] == '"' {
        match parse_string_body(s, j + 1) {
            None => None,
            Some(t) => parse_names_rest(s, t.1, seq![t.0]),
        }
    } else {
        None
    }
}

proof fn lemma_pnr_bounds(s: Seq<char>, i: int, acc: Seq<Seq<char>>)
    requires
        0 <= i <= s.len(),
    ensures
        parse_names_rest(s, i, acc) matches Some(t) ==> i < t.1 <= s.len(),
    decreases s.len() - i,
{
    lemma_json_skip(s, i);
    let j = json_skip(s, i);
    if j < s.len() && s[j] == ',' {
        lemma_json_skip(s, j + 1);
        let k = json_skip(s, j + 1);
        if k < s.len() && s[k] == '"' {
            lemma_psb_bounds(s, k + 1);
            if let Some(t) = parse_string_body(s, k + 1) {
                lemma_pnr_bounds(s, t.1, acc.push(t.0));
            }
        }
    }
}

proof fn lemma_pn_bounds(s: Seq<char>, i: int)
    requires
        0 <= i <= s.len(),
    ensures
        parse_names(s, i) matches Some(t) ==> i < t.1 <= s.len(),
{
    lemma_json_skip(s, i);
    let j = json_skip(s, i);
    if j < s.len() && s[j] == '"' {
        lemma_psb_bounds(s, j + 1);
        if let Some(t) = parse_string_body(s, j + 1) {
            lemma_pnr_bounds(s, t.1, seq![t.0]);
        }
    }
}

/// Reads index entries, `i` pointing just past an entry: expects `,` and
/// another entry, or `}`. A repeated path makes the index unreadable.
pub open spec fn parse_kl_rest(s: Seq<char>, i: int, acc: Seq<KeyEntryView>) -> Option<
    (Seq<KeyEntryView>, int),
>
    decreases s.len() - i
    when 0 <= i <= s.len()
    via parse_kl_rest_dec
{
    let j = json_skip(s, i);
    if j >= s.len() {
        None
    } else if s[j] == '}' {
        Some((acc, j + 1))
    } else if s[j] == ',' {
        let k = json_skip(s, j + 1);
        if k >= s.len() || s[k] != '"' {
            None
        } else {
            match parse_string_body(s, k + 1) {
                None => None,
                Some(pt) => {
                    let m = json_skip(s, pt.1);
                    if m >= s.len() || s[m] != ':' {
                        None
                    } else {
                        let n = json_skip(s, m + 1);
                        if n >= s.len() || s[n] != '[' {
                            None
                        } else {
                            match parse_names(s, n + 1) {
                                None => None,
                                Some(nt) => {
                                    if kl_has_path(acc, pt.0) {
                                        None
                                    } else {
                                        parse_kl_rest(
                                            s,
                                            nt.1,
                                            acc.push(KeyEntryView { path: pt.0, names: nt.0 }),
                                        )
                                    }
                                },
                            }
                        }
                    }
                },
            }
        }
    } else {
        None
    }
}

#[via_fn]
proof fn parse_kl_rest_dec(s: Seq<char>, i: int, acc: Seq<KeyEntryView>) {
    lemma_json_skip(s, i);
    let j = json_skip(s, i);
    if j < s.len() && s[j] == ',' {
        lemma_json_skip(s, j + 1);
        let k = json_skip(s, j + 1);
        if k < s.len() && s[k] == '"' {
            lemma_psb_bounds(s, k + 1);
            if let Some(pt) = parse_string_body(s, k + 1) {
                lemma_json_skip(s, pt.1);
                let m = json_skip(s, pt.1);
                if m < s.len() && s[m] == ':' {
                    lemma_json_skip(s, m + 1);
                    let n = json_skip(s, m + 1);
                    if n < s.len() && s[n] == '[' {
                        lemma_pn_bounds(s, n + 1);
                    }
                }
            }
        }
    }
}

/// The index a full JSON document parses to: one object of path to name
/// array, nothing but whitespace around it.
pub open spec fn parse_keylist_spec(s: Seq<char>) -> Option<Seq<KeyEntryView>> {
    let j = json_skip(s, 0);
    if j >= s.len() || s[j] != '{' {
        None
    } else {
        let k = json_skip(s, j + 1);
        if k >= s.len() {
            None
        } else if s[k] == '}' {
            let m = json_skip(s, k + 1);
            if m >= s.len() {
                Some(Seq::empty())
            } else {
                None
            }
        } else if s[k] == '"' {
            match parse_string_body(s, k + 1) {
                None => None,
                Some(pt) => {
                    let m = json_skip(s, pt.1);
                    if m >= s.len() || s[m] != ':' {
                        None
                    } else {
                        let n = json_skip(s, m + 1);
                        if n >= s.len() || s[n] != '[' {
                            None
                        } else {
                            match parse_names(s, n + 1) {
                                None => None,
                                Some(nt) => {
                                    match parse_kl_rest(
                                        s,
                                        nt.1,
                                        seq![KeyEntryView { path: pt.0, names: nt.0 }],
                                    ) {
                                        None => None,
                                        Some(rt) => {
                                            let tail = json_skip(s, rt.1);
                                            if tail >= s.len() {
                                                Some(rt.0)
                                            } else {
                                                None
                                            }
                                        },
                                    }
                                },
                            }
                        }
                    }
                },
            }
        } else {
            None
        }
    }
}

proof fn lemma_parse_kl_rest_wf(s: Seq<char>, i: int, acc: Seq<KeyEntryView>)
    requires
        0 <= i <= s.len(),
        wf_keylist(acc),
    ensures
        parse_kl_rest(s, i, acc) matches Some(t) ==> wf_keylist(t.0) && i < t.1 <= s.len(),
    decreases s.len() - i,
{
    lemma_json_skip(s, i);
    let j = json_skip(s, i);
    if j < s.len() && s[j] == ',' {
        lemma_json_skip(s, j + 1);
        let k = json_skip(s, j + 1);
        if k < s.len() && s[k] == '"' {
            lemma_psb_bounds(s, k + 1);
            if let Some(pt) = parse_string_body(s, k + 1) {
                lemma_json_skip(s, pt.1);
                let m = json_skip(s, pt.1);
                if m < s.len() && s[m] == ':' {
                    lemma_json_skip(s, m + 1);
                    let n = json_skip(s, m + 1);
                    if n < s.len() && s[n] == '[' {
                        lemma_pn_bounds(s, n + 1);
                        if let Some(nt) = parse_names(s, n + 1) {
                            if !kl_has_path(acc, pt.0) {
                                let e = KeyEntryView { path: pt.0, names: nt.0 };
                                assert(wf_keylist(acc.push(e))) by {
                                    assert(forall|q: int|
                                        0 <= q < acc.len() ==> acc.push(e)[q] == acc[q]);
                                    assert(acc.push(e)[acc.len() as int] == e);
                                    assert(forall|q: int|
                                        0 <= q < acc.len() ==> acc[q].path != e.path);
                                }
                                lemma_parse_kl_rest_wf(s, nt.1, acc.push(e));
                            }
                        }
                    }
                }
            }
        }
    }
}



fn kl_path_present(kl: &KeyList, p: &String) -> (r: bool)
    ensures
        r == kl_has_path(kl@, p@),
{
    let mut i: usize = 0;
    while i < kl.entries.len()
        invariant
            i <= kl@.len(),
            kl@.len() == kl.entries@.len(),
            forall|j: int| 0 <= j < i ==> kl@[j].path != p@,
        decreases kl@.len() - i,
    {
        proof {
            assert(kl@[i as int] == kl.entries@[i as int]@);
        }
        if crate::chars::str_eq(kl.entries[i].path.as_str(), p.as_str()) {
            return true;
        }
        i = i + 1;
    }
    false
}

fn parse_names_exec(s: &Vec<char>, start: usize) -> (r: Option<(Vec<String>, usize)>)
    requires
        start <= s@.len(),
    ensures
        match r {
            Some(t) => parse_names(s@, start as int) == Some((t.0.deep_view(), t.1 as int))
                && start < t.1 <= s@.len(),
            None => parse_names(s@, start as int) is None,
        },
{
    proof {
        lemma_pn_bounds(s@, start as int);
    }
    let j = json_skip_exec(s, start);
    if j >= s.len() {
        return None;
    }
    if s[j] == ']' {
        let empty_names: Vec<String> = Vec::new();
        proof {
            assert(empty_names.deep_view() =~~= Seq::<Seq<char>>::empty());
        }
        return Some((empty_names, j + 1));
    }
    if s[j] != '"' {
        return None;
    }
    let t = match parse_string_body_exec(s, j + 1) {
        Some(t) => t,
        None => {
            return None;
        },
    };
    let mut names: Vec<String> = Vec::new();
    let first = crate::chars::chars_to_string(&t.0);
    names.push(first);
    proof {
        assert(names.deep_view() =~~= seq![t.0@]);
    }
    let mut i: usize = t.1;
    loop
        invariant
            i <= s@.len(),
            parse_names(s@, start as int) == parse_names_rest(s@, i as int, names.deep_view()),
            parse_names(s@, start as int) matches Some(t) ==> start < t.1 <= s@.len(),
        decreases s@.len() - i,
    {
        let j2 = json_skip_exec(s, i);
        if j2 >= s.len() {
            return None;
        }
        if s[j2] == ']' {
            return Some((names, j2 + 1));
        }
        if s[j2] != ',' {
            return None;
        }
        let k = json_skip_exec(s, j2 + 1);
        if k >= s.len() {
            return None;
        }
        if s[k] != '"' {
            return None;
        }
        let t2 = match parse_string_body_exec(s, k + 1) {
            Some(t2) => t2,
            None => {
                return None;
            },
        };
        let ghost n0 = names.deep_view();
        let nm = crate::chars::chars_to_string(&t2.0);
        names.push(nm);
        proof {
            assert(names.deep_view() =~~= n0.push(t2.0@));
        }
        i = t2.1;
    }
}

fn parse_keylist_chars(s: &Vec<char>) -> (r: Option<KeyList>)
    ensures
        match r {
            Some(kl) => parse_keylist_spec(s@) == Some(kl@) && kl.wf(),
            None => parse_keylist_spec(s@) is None,
        },
{
    let j = json_skip_exec(s, 0);
    if j >= s.len() {
        return None;
    }
    if s[j] != '{' {
        return None;
    }
    let k = json_skip_exec(s, j + 1);
    if k >= s.len() {
        return None;
    }
    if s[k] == '}' {
        let m = json_skip_exec(s, k + 1);
        if m >= s.len() {
            let kl = KeyList::new();
            proof {
                assert(kl@ =~= Seq::<KeyEntryView>::empty());
            }
            return Some(kl);
        } else {
            return None;
        }
    }
    if s[k] != '"' {
        return None;
    }
    let pt = match parse_string_body_exec(s, k + 1) {
        Some(pt) => pt,
        None => {
            return None;
        },
    };
    let m = json_skip_exec(s, pt.1);
    if m >= s.len() {
        return None;
    }
    if s[m] != ':' {
        return None;
    }
    let n = json_skip_exec(s, m + 1);
    if n >= s.len() {
        return None;
    }
    if s[n] != '[' {
        return None;
    }
    let nt = match parse_names_exec(s, n + 1) {
        Some(nt) => nt,
        None => {
            return None;
        },
    };
    let mut kl = KeyList::new();
    let path0 = crate::chars::chars_to_string(&pt.0);
    let ghost e0 = KeyEntryView { path: pt.0@, names: nt.0.deep_view() };
    kl.entries.push(KeyEntry { path: path0, names: nt.0 });
    proof {
        assert(kl@ =~~= seq![e0]);
        assert(wf_keylist(kl@));
    }
    let mut i: usize = nt.1;
    loop
        invariant
            i <= s@.len(),
            kl.wf(),
            parse_keylist_spec(s@) == (match parse_kl_rest(s@, i as int, kl@) {
                None => None::<Seq<KeyEntryView>>,
                Some(rt) => {
                    if json_skip(s@, rt.1) >= s@.len() {
                        Some(rt.0)
                    } else {
                        None
                    }
                },
            }),
        decreases s@.len() - i,
    {
        proof {
            lemma_parse_kl_rest_wf(s@, i as int, kl@);
        }
        let j2 = json_skip_exec(s, i);
        if j2 >= s.len() {
            return None;
        }
        if s[j2] == '}' {
            let tail = json_skip_exec(s, j2 + 1);
            if tail >= s.len() {
                return Some(kl);
            } else {
                return None;
            }
        }
        if s[j2] != ',' {
            return None;
        }
        let k2 = json_skip_exec(s, j2 + 1);
        if k2 >= s.len() {
            return None;
        }
        if s[k2] != '"' {
            return None;
        }
        let pt2 = match parse_string_body_exec(s, k2 + 1) {
            Some(pt2) => pt2,
            None => {
                return None;
            },
        };
        let m2 = json_skip_exec(s, pt2.1);
        if m2 >= s.len() {
            return None;
        }
        if s[m2] != ':' {
            return None;
        }
        let n2 = json_skip_exec(s, m2 + 1);
        if n2 >= s.len() {
            return None;
        }
        if s[n2] != '[' {
            return None;
        }
        let nt2 = match parse_names_exec(s, n2 + 1) {
            Some(nt2) => nt2,
            None => {
                return None;
            },
        };
        let path2 = crate::chars::chars_to_string(&pt2.0);
        if kl_path_present(&kl, &path2) {
            return None;
        }
        let ghost kl0 = kl@;
        let ghost e2 = KeyEntryView { path: pt2.0@, names: nt2.0.deep_view() };
        kl.entries.push(KeyEntry { path: path2, names: nt2.0 });
        proof {
            assert(kl@ =~~= kl0.push(e2));
            assert(wf_keylist(kl@)) by {
                assert(forall|q: int| 0 <= q < kl0.len() ==> kl@[q] == kl0[q]);
                assert(kl@[kl0.len() as int] == e2);
                assert(forall|q: int| 0 <= q < kl0.len() ==> kl0[q].path != e2.path);
            }
        }
        i = nt2.1;
    }
}

/// Loads the index from the persisted file's text; a missing or corrupt
/// index reads as empty.
pub fn get_snippet_namelist(list_file_text: &str) -> (r: KeyList)
    ensures
        r.wf(),
        match parse_keylist_spec(list_file_text@) {
            Some(es) => r@ == es,
            None => r@ == Seq::<KeyEntryView>::empty(),
        },
{
    let chars = str_to_chars(list_file_text);
    match parse_keylist_chars(&chars) {
        Some(kl) => kl,
        None => {
            let kl = KeyList::new();
            proof {
                assert(kl@ =~= Seq::<KeyEntryView>::empty());
            }
            kl
        },
    }
}



/// The index a persisted text loads to: the parsed entries, or an empty
/// index when the text is not readable.
pub open spec fn loaded_index(text: Seq<char>) -> Seq<KeyEntryView> {
    match parse_keylist_spec(text) {
        Some(es) => es,
        None => Seq::empty(),
    }
}


} // verus!
