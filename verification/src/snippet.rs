//! The snippet data model: one named code template, and an ordered set of
//! them keyed by name. The set keeps first-insertion order; inserting an
//! already-present name overwrites the value in place.

use vstd::prelude::*;

verus! {

/// One reusable code template.
#[derive(Debug, Clone)]
pub struct Snippet {
    pub prefix: String,
    pub body: String,
    pub description: String,
}

/// Mathematical value of a `Snippet`.
pub struct SnippetView {
    pub prefix: Seq<char>,
    pub body: Seq<char>,
    pub description: Seq<char>,
}

impl View for Snippet {
    type V = SnippetView;

    open spec fn view(&self) -> SnippetView {
        SnippetView { prefix: self.prefix@, body: self.body@, description: self.description@ }
    }
}

impl Snippet {
    /// A snippet with all three fields empty.
    pub fn new() -> (r: Snippet)
        ensures
            r@.prefix.len() == 0,
            r@.body.len() == 0,
            r@.description.len() == 0,
    {
        Snippet { prefix: String::new(), body: String::new(), description: String::new() }
    }
}

/// A named snippet, one element of a `SnippetSet`.
#[derive(Debug, Clone)]
pub struct SnippetEntry {
    pub name: String,
    pub data: Snippet,
}

/// Mathematical value of a `SnippetEntry`.
pub struct EntryView {
    pub name: Seq<char>,
    pub data: SnippetView,
}

impl View for SnippetEntry {
    type V = EntryView;

    open spec fn view(&self) -> EntryView {
        EntryView { name: self.name@, data: self.data@ }
    }
}

/// Entries have pairwise distinct names.
pub open spec fn wf_entries(es: Seq<EntryView>) -> bool {
    forall|i: int, j: int| 0 <= i < j < es.len() ==> es[i].name != es[j].name
}

/// Whether some entry carries the name `n`.
pub open spec fn has_name(es: Seq<EntryView>, n: Seq<char>) -> bool {
    exists|i: int| 0 <= i < es.len() && es[i].name == n
}

/// The value stored under `n`: the first entry with that name wins.
pub open spec fn lookup(es: Seq<EntryView>, n: Seq<char>) -> Option<SnippetView>
    decreases es.len(),
{
    if es.len() == 0 {
        None
    } else if es.first().name == n {
        Some(es.first().data)
    } else {
        lookup(es.drop_first(), n)
    }
}

/// Inserts `e`: overwrites in place the first entry with the same name, or
/// appends `e` at the end when the name is new.
pub open spec fn set_insert(es: Seq<EntryView>, e: EntryView) -> Seq<EntryView>
    decreases es.len(),
{
    if es.len() == 0 {
        seq![e]
    } else if es.first().name == e.name {
        seq![e] + es.drop_first()
    } else {
        seq![es.first()] + set_insert(es.drop_first(), e)
    }
}

pub proof fn lemma_lookup_has_name(es: Seq<EntryView>, n: Seq<char>)
    ensures
        lookup(es, n) is Some <==> has_name(es, n),
        lookup(es, n) matches Some(v) ==> exists|i: int|
            0 <= i < es.len() && es[i].name == n && es[i].data == v,
    decreases es.len(),
{
    if es.len() > 0 {
        if es.first().name == n {
        } else {
            lemma_lookup_has_name(es.drop_first(), n);
            if lookup(es, n) is Some {
                let i = choose|i: int|
                    0 <= i < es.drop_first().len() && es.drop_first()[i].name == n
                        && es.drop_first()[i].data == lookup(es, n)->0;
                assert(es[i + 1].name == n && es[i + 1].data == lookup(es, n)->0);
            }
            if has_name(es, n) {
                let i = choose|i: int| 0 <= i < es.len() && es[i].name == n;
                assert(es.drop_first()[i - 1].name == n);
            }
        }
    }
}

/// In a well-formed set, `lookup` agrees with every entry.
pub proof fn lemma_lookup_at(es: Seq<EntryView>, i: int)
    requires
        wf_entries(es),
        0 <= i < es.len(),
    ensures
        lookup(es, es[i].name) == Some(es[i].data),
    decreases es.len(),
{
    if i == 0 {
    } else {
        assert(es.first().name != es[i].name);
        assert(es.drop_first()[i - 1] == es[i]);
        assert(wf_entries(es.drop_first())) by {
            assert(forall|p: int, q: int|
                0 <= p < q < es.drop_first().len() ==> es.drop_first()[p] == es[p + 1]
                    && es.drop_first()[q] == es[q + 1]);
        }
        lemma_lookup_at(es.drop_first(), i - 1);
    }
}

pub proof fn lemma_set_insert(es: Seq<EntryView>, e: EntryView)
    requires
        wf_entries(es),
    ensures
        wf_entries(set_insert(es, e)),
        lookup(set_insert(es, e), e.name) == Some(e.data),
        forall|n: Seq<char>| n != e.name ==> lookup(set_insert(es, e), n) == lookup(es, n),
        set_insert(es, e).len() == if has_name(es, e.name) {
            es.len() as int
        } else {
            es.len() + 1 as int
        },
    decreases es.len(),
{
    if es.len() == 0 {
        let r = seq![e];
        assert forall|n: Seq<char>| n != e.name implies lookup(r, n) == lookup(es, n) by {
            assert(r.first() == e);
            assert(lookup(r, n) == lookup(r.drop_first(), n));
            assert(r.drop_first().len() == 0);
            assert(lookup(r.drop_first(), n) is None);
        }
    } else if es.first().name == e.name {
        let r = seq![e] + es.drop_first();
        assert(wf_entries(es.drop_first())) by {
            assert(forall|p: int, q: int|
                0 <= p < q < es.drop_first().len() ==> es.drop_first()[p] == es[p + 1]
                    && es.drop_first()[q] == es[q + 1]);
        }
        assert(forall|j: int| 0 <= j < es.drop_first().len() ==> es.drop_first()[j] == es[j + 1]);
        assert(wf_entries(r)) by {
            assert(forall|j: int| 1 <= j < r.len() ==> r[j] == es[j]);
        }
        assert(r.drop_first() =~= es.drop_first());
        assert forall|n: Seq<char>| n != e.name implies lookup(r, n) == lookup(es, n) by {
            assert(r.first() == e);
            assert(lookup(r, n) == lookup(r.drop_first(), n));
            assert(lookup(es, n) == lookup(es.drop_first(), n));
        }
    } else {
        assert(wf_entries(es.drop_first())) by {
            assert(forall|p: int, q: int|
                0 <= p < q < es.drop_first().len() ==> es.drop_first()[p] == es[p + 1]
                    && es.drop_first()[q] == es[q + 1]);
        }
        lemma_set_insert(es.drop_first(), e);
        let r = seq![es.first()] + set_insert(es.drop_first(), e);
        let tail = set_insert(es.drop_first(), e);
        assert(r.drop_first() =~= tail);
        assert(r.first() == es.first());
        // the head's name differs from every name in the tail
        assert(wf_entries(r)) by {
            lemma_lookup_has_name(es.drop_first(), es.first().name);
            assert(forall|j: int| 0 <= j < tail.len() ==> #[trigger] tail[j].name != es.first().name)
                by {
                if exists|j: int| 0 <= j < tail.len() && #[trigger] tail[j].name == es.first().name {
                    let j = choose|j: int| 0 <= j < tail.len() && tail[j].name == es.first().name;
                    if tail[j].name == e.name {
                        assert(lookup(tail, e.name) == Some(e.data));
                    } else {
                        lemma_lookup_at(tail, j);
                        assert(lookup(es.drop_first(), tail[j].name) is Some);
                        lemma_lookup_has_name(es.drop_first(), tail[j].name);
                        assert(has_name(es.drop_first(), es.first().name));
                        let k = choose|k: int|
                            0 <= k < es.drop_first().len() && es.drop_first()[k].name
                                == es.first().name;
                        assert(es[k + 1].name == es[0].name);
                    }
                }
            }
            assert(forall|p: int, q: int| 0 <= p < q < r.len() && p > 0 ==> r[p] == tail[p - 1]
                && r[q] == tail[q - 1]);
        }
        assert forall|n: Seq<char>| n != e.name implies lookup(r, n) == lookup(es, n) by {
            assert(r.first() == es.first());
            if es.first().name == n {
            } else {
                assert(lookup(r, n) == lookup(tail, n));
                assert(lookup(es, n) == lookup(es.drop_first(), n));
            }
        }
        assert(lookup(r, e.name) == lookup(tail, e.name));
        if has_name(es, e.name) {
            let i = choose|i: int| 0 <= i < es.len() && es[i].name == e.name;
            assert(es.drop_first()[i - 1].name == e.name);
            assert(has_name(es.drop_first(), e.name));
        }
        if has_name(es.drop_first(), e.name) {
            let i = choose|i: int|
                0 <= i < es.drop_first().len() && es.drop_first()[i].name == e.name;
            assert(es[i + 1].name == e.name);
            assert(has_name(es, e.name));
        }
    }
}

/// An ordered mapping from snippet name to snippet, as scanned out of one
/// source file.
#[derive(Debug, Clone)]
pub struct SnippetSet {
    pub entries: Vec<SnippetEntry>,
}

impl View for SnippetSet {
    type V = Seq<EntryView>;

    open spec fn view(&self) -> Seq<EntryView> {
        Seq::new(self.entries@.len(), |i: int| self.entries@[i]@)
    }
}

impl SnippetSet {
    pub open spec fn wf(&self) -> bool {
        wf_entries(self@)
    }

    pub fn new() -> (r: SnippetSet)
        ensures
            r@ =~= Seq::<EntryView>::empty(),
            r.wf(),
    {
        SnippetSet { entries: Vec::new() }
    }

    pub fn len(&self) -> (r: usize)
        ensures
            r == self@.len(),
    {
        self.entries.len()
    }

    /// Inserts a snippet under a name, overwriting in place when the name is
    /// already present.
    pub fn insert(&mut self, name: String, data: Snippet)
        requires
            old(self).wf(),
        ensures
            final(self)@ == set_insert(old(self)@, EntryView { name: name@, data: data@ }),
            final(self).wf(),
    {
        let ghost e = EntryView { name: name@, data: data@ };
        let ghost es0 = self@;
        let mut i: usize = 0;
        while i < self.entries.len()
            invariant
                es0 == old(self)@,
                self@ == es0,
                wf_entries(es0),
                i <= es0.len(),
                e == (EntryView { name: name@, data: data@ }),
                forall|j: int| 0 <= j < i ==> es0[j].name != name@,
            decreases es0.len() - i,
        {
            if crate::chars::str_eq(self.entries[i].name.as_str(), name.as_str()) {
                proof {
                    assert(self@[i as int] == es0[i as int]);
                    assert(es0[i as int].name == name@);
                }
                self.entries[i] = SnippetEntry { name, data };
                proof {
                    lemma_set_insert_found(es0, e, i as int);
                    assert(self@ =~= es0.update(i as int, e));
                    lemma_set_insert(es0, e);
                }
                return ;
            }
            i = i + 1;
        }
        self.entries.push(SnippetEntry { name, data });
        proof {
            lemma_set_insert_absent(es0, e);
            assert(self@ =~= es0.push(e));
            lemma_set_insert(es0, e);
        }
    }
}

proof fn lemma_set_insert_found(es: Seq<EntryView>, e: EntryView, i: int)
    requires
        0 <= i < es.len(),
        es[i].name == e.name,
        forall|j: int| 0 <= j < i ==> es[j].name != e.name,
    ensures
        set_insert(es, e) =~= es.update(i, e),
    decreases es.len(),
{
    if i == 0 {
        assert(set_insert(es, e) == seq![e] + es.drop_first());
        assert((seq![e] + es.drop_first()) =~= es.update(0, e));
    } else {
        assert(es.first().name != e.name);
        assert(es.drop_first()[i - 1] == es[i]);
        assert(forall|j: int| 0 <= j < i - 1 ==> es.drop_first()[j] == es[j + 1]);
        lemma_set_insert_found(es.drop_first(), e, i - 1);
        assert(set_insert(es, e) == seq![es.first()] + set_insert(es.drop_first(), e));
        assert((seq![es.first()] + es.drop_first().update(i - 1, e)) =~= es.update(i, e));
    }
}

proof fn lemma_set_insert_absent(es: Seq<EntryView>, e: EntryView)
    requires
        forall|j: int| 0 <= j < es.len() ==> es[j].name != e.name,
    ensures
        set_insert(es, e) =~= es.push(e),
    decreases es.len(),
{
    if es.len() == 0 {
        assert(set_insert(es, e) =~= es.push(e));
    } else {
        assert(forall|j: int| 0 <= j < es.drop_first().len() ==> es.drop_first()[j] == es[j + 1]);
        lemma_set_insert_absent(es.drop_first(), e);
        assert((seq![es.first()] + es.drop_first().push(e)) =~= es.push(e));
    }
}


/// What one reconciliation run produces: the new artifact text and the
/// updated name index.
#[derive(Debug, PartialEq)]
pub struct Output {
    pub json: String,
    pub name_list: crate::index::KeyList,
}

/// What `make` computes: `None` when the scan fails or the artifact's
/// generated region is unterminated; otherwise the new artifact text paired
/// with the rebuilt index.
pub open spec fn make_spec(
    snippet_text: Seq<char>,
    artifact_text: Seq<char>,
    namelist_text: Seq<char>,
    path: Seq<char>,
) -> Option<(Seq<char>, Seq<crate::index::KeyEntryView>)> {
    match crate::scanner::scan_spec(snippet_text) {
        None => None,
        Some(set) => {
            let all = crate::index::loaded_index(namelist_text);
            let prev = crate::index::klookup(all, path);
            let deleted = match prev {
                Some(ns) => crate::index::deleted_names(ns, set),
                None => Seq::empty(),
            };
            match crate::merge::reconcile_spec(artifact_text, set, deleted) {
                Err(_) => None,
                Ok(json) => Some(
                    (
                        json,
                        crate::index::kinsert(
                            all,
                            crate::index::KeyEntryView {
                                path: path,
                                names: match prev {
                                    Some(ns) => crate::index::updated_names(ns, set, deleted),
                                    None => crate::index::names_of(set),
                                },
                            },
                        ),
                    ),
                ),
            }
        },
    }
}

/// Runs the whole pipeline for one source file: scans its text, loads the
/// index, computes the names the file stopped owning, reconciles the
/// artifact and rebuilds the index entry. Nothing is written; the caller
/// persists both results together.
pub fn make(
    snippet_text: &str,
    snippet_json_text: &str,
    list_file_text: &str,
    code_filepath_string: String,
) -> (r: Option<Output>)
    ensures
        match r {
            Some(out) => make_spec(
                snippet_text@,
                snippet_json_text@,
                list_file_text@,
                code_filepath_string@,
            ) == Some((out.json@, out.name_list@)) && out.name_list.wf(),
            None => make_spec(
                snippet_text@,
                snippet_json_text@,
                list_file_text@,
                code_filepath_string@,
            ) is None,
        },
{
    let set = match crate::scanner::trim_code(snippet_text) {
        Ok(set) => set,
        Err(_) => {
            return None;
        },
    };
    let all = crate::index::get_snippet_namelist(list_file_text);
    let prev = crate::index::filter_namelist(&all, &code_filepath_string);
    let deleted: Vec<String> = match prev {
        Some(ns) => crate::index::get_deleted_list(&set, ns),
        None => Vec::new(),
    };
    proof {
        if prev is None {
            assert(deleted.deep_view() =~~= Seq::<Seq<char>>::empty());
        }
    }
    match crate::merge::reconcile(snippet_json_text, &set, &deleted) {
        Err(_) => None,
        Ok(json) => {
            let updated = crate::index::update_name_list(
                &code_filepath_string,
                &all,
                &prev,
                &deleted,
                &set,
            );
            Some(Output { json, name_list: updated })
        },
    }
}


} // verus!
