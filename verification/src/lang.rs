//! The extension-to-language lookup. The table itself comes from an
//! external configuration file; the lookup over a loaded table is the
//! library's.

use vstd::prelude::*;

verus! {

/// One language of the configuration: its display name, its identifier
/// (which names the artifact file), and the file extension it claims.
#[derive(Debug, Clone)]
pub struct Language {
    pub name: String,
    pub identifier: String,
    pub extension: String,
}

/// Mathematical value of a `Language`.
pub struct LanguageView {
    pub name: Seq<char>,
    pub identifier: Seq<char>,
    pub extension: Seq<char>,
}

impl View for Language {
    type V = LanguageView;

    open spec fn view(&self) -> LanguageView {
        LanguageView {
            name: self.name@,
            identifier: self.identifier@,
            extension: self.extension@,
        }
    }
}

/// The loaded language table.
#[derive(Debug, Clone)]
pub struct Languages {
    pub lang: Vec<Language>,
}

impl View for Languages {
    type V = Seq<LanguageView>;

    open spec fn view(&self) -> Seq<LanguageView> {
        Seq::new(self.lang@.len(), |i: int| self.lang@[i]@)
    }
}

/// The identifier of the first language claiming `extension`.
pub open spec fn lang_lookup(langs: Seq<LanguageView>, extension: Seq<char>) -> Option<Seq<char>>
    decreases langs.len(),
{
    if langs.len() == 0 {
        None
    } else if langs.first().extension == extension {
        Some(langs.first().identifier)
    } else {
        lang_lookup(langs.drop_first(), extension)
    }
}

spec fn lang_lookup_from(langs: Seq<LanguageView>, extension: Seq<char>, from: int) -> Option<
    Seq<char>,
>
    decreases langs.len() - from when 0 <= from
{
    if from >= langs.len() {
        None
    } else if langs[from].extension == extension {
        Some(langs[from].identifier)
    } else {
        lang_lookup_from(langs, extension, from + 1)
    }
}

proof fn lemma_lang_lookup_from_rel(langs: Seq<LanguageView>, extension: Seq<char>, from: int)
    requires
        0 <= from <= langs.len(),
    ensures
        lang_lookup_from(langs, extension, from) == lang_lookup(langs.skip(from), extension),
    decreases langs.len() - from,
{
    if from >= langs.len() {
        assert(langs.skip(from).len() == 0);
    } else {
        assert(langs.skip(from).first() == langs[from]);
        assert(langs.skip(from).drop_first() =~= langs.skip(from + 1));
        lemma_lang_lookup_from_rel(langs, extension, from + 1);
    }
}

/// The language identifier for a file extension, from the loaded table:
/// the first language claiming the extension wins, and an unclaimed
/// extension has none.
pub fn get_lang(langs: &Languages, extension: String) -> (r: Option<String>)
    ensures
        match r {
            Some(id) => lang_lookup(langs@, extension@) == Some(id@),
            None => lang_lookup(langs@, extension@) is None,
        },
{
    let ghost lv = langs@;
    let mut i: usize = 0;
    proof {
        lemma_lang_lookup_from_rel(lv, extension@, 0);
        assert(lv.skip(0) =~= lv);
    }
    while i < langs.lang.len()
        invariant
            lv == langs@,
            i <= lv.len(),
            lv.len() == langs.lang@.len(),
            lang_lookup(lv, extension@) == lang_lookup_from(lv, extension@, i as int),
        decreases lv.len() - i,
    {
        proof {
            assert(lv[i as int] == langs.lang@[i as int]@);
        }
        if crate::chars::str_eq(langs.lang[i].extension.as_str(), extension.as_str()) {
            return Some(langs.lang[i].identifier.clone());
        }
        i = i + 1;
    }
    None
}

} // verus!
