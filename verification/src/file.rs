//! Text-source abstraction and path helpers. Reading and writing real
//! files belongs to the surrounding program; what stands here is the pure
//! part: the extension a path carries.

use vstd::prelude::*;
use crate::chars::{chars_to_string, str_to_chars, sub_chars};

verus! {

/// A source of text, line by line or whole. The program around the library
/// implements it over real files; tests implement it over strings.
pub trait Reader {
    fn lines(&self) -> Vec<String>;

    fn all(&mut self) -> String;
}

/// What follows the last occurrence of `c`, or all of `s` when `c` does
/// not occur.
pub open spec fn after_last(s: Seq<char>, c: char) -> Seq<char>
    decreases s.len(),
{
    if s.len() == 0 {
        s
    } else if s.last() == c {
        Seq::empty()
    } else {
        after_last(s.drop_last(), c).push(s.last())
    }
}

proof fn lemma_after_last_skip(s: Seq<char>, c: char, k: int)
    requires
        0 <= k <= s.len(),
        forall|j: int| k <= j < s.len() ==> s[j] != c,
        k > 0 ==> s[k - 1] == c,
    ensures
        after_last(s, c) == s.skip(k),
    decreases s.len(),
{
    if k == s.len() {
        if k > 0 {
            assert(s.last() == c);
            assert(after_last(s, c) =~= s.skip(k));
        } else {
            assert(s.len() == 0);
            assert(after_last(s, c) =~= s.skip(0));
        }
    } else {
        assert(s.last() != c);
        assert(forall|j: int| k <= j < s.drop_last().len() ==> s.drop_last()[j] == s[j]);
        assert(k > 0 ==> s.drop_last()[k - 1] == s[k - 1]);
        lemma_after_last_skip(s.drop_last(), c, k);
        assert(s.drop_last().skip(k).push(s.last()) =~= s.skip(k));
    }
}

fn after_last_exec(v: &Vec<char>, c: char) -> (r: Vec<char>)
    ensures
        r@ == after_last(v@, c),
{
    let mut cut: usize = 0;
    let mut found = false;
    let mut i: usize = v.len();
    while i > 0 && !found
        invariant
            i <= v@.len(),
            !found ==> cut == 0 && (forall|j: int| i <= j < v@.len() ==> v@[j] != c),
            found ==> 1 <= cut <= v@.len() && v@[cut - 1] == c && (forall|j: int|
                cut <= j < v@.len() ==> v@[j] != c),
        decreases i, (if found { 0int } else { 1int }),
    {
        if v[i - 1] == c {
            cut = i;
            found = true;
        } else {
            i = i - 1;
        }
    }
    if !found {
        proof {
            lemma_after_last_skip(v@, c, 0);
            assert(v@.skip(0) =~= v@);
        }
        let r = sub_chars(v, 0, v.len());
        proof {
            assert(v@.subrange(0, v@.len() as int) =~= v@);
        }
        r
    } else {
        proof {
            lemma_after_last_skip(v@, c, cut as int);
        }
        let r = sub_chars(v, cut, v.len());
        proof {
            assert(v@.subrange(cut as int, v@.len() as int) =~= v@.skip(cut as int));
        }
        r
    }
}

/// The extension a path carries: the final component is what follows the
/// last slash; a path with an empty, `.` or `..` final component has no
/// extension; otherwise the extension is what follows the component's last
/// dot, or the whole component when it has none.
pub open spec fn extension_spec(path: Seq<char>) -> Option<Seq<char>> {
    let name = after_last(path, '/');
    if name.len() == 0 || name == seq!['.'] || name == seq!['.', '.'] {
        None
    } else {
        Some(after_last(name, '.'))
    }
}

/// Extracts the extension of a path, as `extension_spec` describes.
pub fn get_extension(path: &str) -> (r: Option<String>)
    ensures
        match r {
            Some(e) => extension_spec(path@) == Some(e@),
            None => extension_spec(path@) is None,
        },
{
    let chars = str_to_chars(path);
    let name = after_last_exec(&chars, '/');
    if name.len() == 0 {
        return None;
    }
    if name.len() == 1 && name[0] == '.' {
        proof {
            assert(name@ =~= seq!['.']);
        }
        return None;
    }
    if name.len() == 2 && name[0] == '.' && name[1] == '.' {
        proof {
            assert(name@ =~= seq!['.', '.']);
        }
        return None;
    }
    proof {
        assert(name@ != seq!['.']) by {
            if name@ == seq!['.'] {
                assert(name@.len() == 1 && name@[0] == '.');
            }
        }
        assert(name@ != seq!['.', '.']) by {
            if name@ == seq!['.', '.'] {
                assert(name@.len() == 2 && name@[0] == '.' && name@[1] == '.');
            }
        }
    }
    let ext = after_last_exec(&name, '.');
    Some(chars_to_string(&ext))
}

} // verus!
