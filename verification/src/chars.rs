//! Character-sequence utilities: conversions between `String` and
//! `Vec<char>`, substring search, and splitting text into lines.

use vstd::prelude::*;
use crate::{contains_seq, occurs_at};

verus! {

/// Relies on std's `FromIterator<char> for String`: collecting a sequence of
/// characters yields the string with exactly those characters.
#[verifier::external_body]
pub fn chars_to_string(v: &Vec<char>) -> (r: String)
    ensures
        r@ == v@,
{
    v.iter().collect()
}

/// Collects the characters of a string slice into a vector.
pub fn str_to_chars(s: &str) -> (r: Vec<char>)
    ensures
        r@ == s@,
{
    let n: usize = s.unicode_len();
    let mut r: Vec<char> = Vec::new();
    let mut i: usize = 0;
    while i < n
        invariant
            n == s@.len(),
            i <= n,
            r@ == s@.take(i as int),
        decreases n - i,
    {
        r.push(s.get_char(i));
        i = i + 1;
        proof {
            assert(s@.take(i as int) =~= s@.take(i - 1).push(s@[i - 1]));
        }
    }
    proof {
        assert(s@.take(n as int) =~= s@);
    }
    r
}

/// Index of the first occurrence of `pat` in `text` at or after `from`,
/// if there is one.
pub open spec fn find_from(text: Seq<char>, pat: Seq<char>, from: int) -> Option<int>
    decreases text.len() - from when 0 <= from
{
    if from + pat.len() > text.len() {
        None
    } else if pat.len() == 0 {
        Some(from)
    } else if occurs_at(text, pat, from) {
        Some(from)
    } else {
        find_from(text, pat, from + 1)
    }
}

pub proof fn lemma_find_from_bounds(text: Seq<char>, pat: Seq<char>, from: int)
    requires
        0 <= from,
    ensures
        find_from(text, pat, from) matches Some(at) ==> {
            &&& from <= at
            &&& occurs_at(text, pat, at)
            &&& forall|j: int| from <= j < at ==> !occurs_at(text, pat, j)
        },
        find_from(text, pat, from) is None ==> forall|j: int|
            from <= j ==> !occurs_at(text, pat, j),
    decreases text.len() - from,
{
    if from + pat.len() > text.len() {
    } else if pat.len() == 0 {
        assert(text.subrange(from, from + pat.len() as int) =~= pat);
    } else if occurs_at(text, pat, from) {
    } else {
        lemma_find_from_bounds(text, pat, from + 1);
    }
}

pub proof fn lemma_find_contains(text: Seq<char>, pat: Seq<char>)
    ensures
        find_from(text, pat, 0) is Some <==> contains_seq(text, pat),
{
    lemma_find_from_bounds(text, pat, 0);
    if contains_seq(text, pat) {
        let at = choose|at: int| occurs_at(text, pat, at);
        if find_from(text, pat, 0) is None {
            assert(!occurs_at(text, pat, at));
        }
    }
}

/// Whether `pat` occurs in `text` starting exactly at index `at`.
pub fn occurs_at_exec(text: &Vec<char>, pat: &Vec<char>, at: usize) -> (r: bool)
    requires
        at <= text@.len(),
    ensures
        r == occurs_at(text@, pat@, at as int),
{
    if pat.len() > text.len() - at {
        proof {
            assert(!occurs_at(text@, pat@, at as int));
        }
        return false;
    }
    let mut i: usize = 0;
    while i < pat.len()
        invariant
            at + pat@.len() <= text@.len(),
            text@.len() <= usize::MAX,
            i <= pat@.len(),
            forall|j: int| 0 <= j < i ==> text@[at + j] == pat@[j],
        decreases pat@.len() - i,
    {
        if text[at + i] != pat[i] {
            proof {
                assert(text@.subrange(at as int, at + pat@.len())[i as int] == text@[at + i]);
                assert(!occurs_at(text@, pat@, at as int));
            }
            return false;
        }
        i = i + 1;
    }
    proof {
        assert(text@.subrange(at as int, at + pat@.len()) =~= pat@);
    }
    true
}

/// Finds the first occurrence of `pat` in `text` at or after `from`.
pub fn find_sub_from(text: &Vec<char>, pat: &Vec<char>, from: usize) -> (r: Option<usize>)
    requires
        from <= text@.len(),
    ensures
        match r {
            Some(at) => find_from(text@, pat@, from as int) == Some(at as int),
            None => find_from(text@, pat@, from as int) is None,
        },
{
    let mut i: usize = from;
    loop
        invariant
            from <= i <= text@.len(),
            find_from(text@, pat@, from as int) == find_from(text@, pat@, i as int),
        decreases text@.len() - i,
    {
        if pat.len() > text.len() - i {
            return None;
        }
        if pat.len() == 0 {
            return Some(i);
        }
        if occurs_at_exec(text, pat, i) {
            return Some(i);
        }
        i = i + 1;
    }
}

/// Whether `pat` occurs anywhere in `text`.
pub fn contains_sub(text: &Vec<char>, pat: &Vec<char>) -> (r: bool)
    ensures
        r == contains_seq(text@, pat@),
{
    proof {
        lemma_find_contains(text@, pat@);
    }
    match find_sub_from(text, pat, 0) {
        Some(_) => true,
        None => false,
    }
}

/// Index of the first newline character at or after `from`, or the length of
/// `text` if there is none.
pub open spec fn line_break(text: Seq<char>, from: int) -> int
    decreases text.len() - from when 0 <= from <= text.len()
{
    if from >= text.len() {
        text.len() as int
    } else if text[from] == '\n' {
        from
    } else {
        line_break(text, from + 1)
    }
}

pub proof fn lemma_line_break(text: Seq<char>, from: int)
    requires
        0 <= from <= text.len(),
    ensures
        from <= line_break(text, from) <= text.len(),
        line_break(text, from) < text.len() ==> text[line_break(text, from)] == '\n',
        forall|j: int| from <= j < line_break(text, from) ==> text[j] != '\n',
    decreases text.len() - from,
{
    if from < text.len() && text[from] != '\n' {
        lemma_line_break(text, from + 1);
    }
}

/// Splits `text` at every newline character; the separators are dropped.
pub open spec fn split_nl(text: Seq<char>) -> Seq<Seq<char>>
    decreases text.len()
{
    let e = line_break(text, 0);
    if 0 <= e < text.len() {
        seq![text.take(e)] + split_nl(text.skip(e + 1))
    } else {
        seq![text]
    }
}

/// The lines of a text, the way the scanner and the merge engine see them: a
/// final newline terminates the last line rather than opening an empty one.
pub open spec fn lines_of(text: Seq<char>) -> Seq<Seq<char>> {
    if text.len() > 0 && text.last() == '\n' {
        split_nl(text.take(text.len() - 1))
    } else {
        split_nl(text)
    }
}

/// Joins lines back into one text, terminating every line with a newline.
pub open spec fn join_nl(lines: Seq<Seq<char>>) -> Seq<char>
    decreases lines.len()
{
    if lines.len() == 0 {
        Seq::empty()
    } else {
        lines.first() + seq!['\n'] + join_nl(lines.drop_first())
    }
}

/// Splits `text` into lines, as `lines_of` describes.
pub fn split_lines(text: &Vec<char>) -> (r: Vec<Vec<char>>)
    ensures
        r.deep_view() == lines_of(text@),
{
    let base: Vec<char> = if text.len() > 0 && text[text.len() - 1] == '\n' {
        let mut b: Vec<char> = Vec::new();
        let mut i: usize = 0;
        while i < text.len() - 1
            invariant
                text@.len() > 0,
                i <= text@.len() - 1,
                b@ == text@.take(i as int),
            decreases text@.len() - 1 - i,
        {
            b.push(text[i]);
            i = i + 1;
            proof {
                assert(text@.take(i as int) =~= text@.take(i - 1).push(text@[i - 1]));
            }
        }
        proof {
            assert(b@ =~= text@.take(text@.len() - 1));
        }
        b
    } else {
        let mut b: Vec<char> = Vec::new();
        let mut i: usize = 0;
        while i < text.len()
            invariant
                i <= text@.len(),
                b@ == text@.take(i as int),
            decreases text@.len() - i,
        {
            b.push(text[i]);
            i = i + 1;
            proof {
                assert(text@.take(i as int) =~= text@.take(i - 1).push(text@[i - 1]));
            }
        }
        proof {
            assert(b@ =~= text@);
        }
        b
    };
    split_nl_exec(&base)
}

fn split_nl_exec(text: &Vec<char>) -> (r: Vec<Vec<char>>)
    ensures
        r.deep_view() == split_nl(text@),
{
    let mut r: Vec<Vec<char>> = Vec::new();
    let mut start: usize = 0;
    let mut cur: Vec<char> = Vec::new();
    let mut i: usize = 0;
    proof {
        assert(text@.skip(0) =~= text@);
        assert(r.deep_view() =~~= Seq::<Seq<char>>::empty());
        assert(r.deep_view() + split_nl(text@) =~~= split_nl(text@));
        assert(cur@ =~= text@.subrange(0, 0));
    }
    while i < text.len()
        invariant
            start <= i <= text@.len(),
            cur@ == text@.subrange(start as int, i as int),
            forall|j: int| start <= j < i ==> text@[j] != '\n',
            split_nl(text@) == r.deep_view() + split_nl(text@.skip(start as int)),
        decreases text@.len() - i,
    {
        let c = text[i];
        if c == '\n' {
            proof {
                let rest = text@.skip(start as int);
                lemma_line_break(rest, 0);
                assert(forall|j: int|
                    0 <= j < i - start ==> rest[j] == text@[start + j] && rest[j] != '\n');
                assert(rest[i - start] == '\n');
                assert(line_break(rest, 0) == i - start) by {
                    let e = line_break(rest, 0);
                    if e < i - start {
                        assert(rest[e] != '\n');
                    }
                }
                assert(rest.take(i - start) =~= cur@);
                assert(rest.skip(i - start + 1) =~= text@.skip(i + 1));
                assert(split_nl(rest) == seq![cur@] + split_nl(text@.skip(i + 1)));
            }
            let ghost prev = r.deep_view();
            let ghost piece = cur@;
            r.push(cur);
            cur = Vec::new();
            start = i + 1;
            proof {
                assert(r.deep_view() =~~= prev.push(piece));
                assert(prev.push(piece) =~~= prev + seq![piece]);
                assert(cur@ =~= text@.subrange(start as int, start as int));
                assert(split_nl(text@) =~~= r.deep_view() + split_nl(text@.skip(start as int)));
            }
        } else {
            cur.push(c);
            proof {
                assert(text@.subrange(start as int, i + 1) =~= text@.subrange(
                    start as int,
                    i as int,
                ).push(text@[i as int]));
            }
        }
        i = i + 1;
    }
    proof {
        let rest = text@.skip(start as int);
        lemma_line_break(rest, 0);
        assert(line_break(rest, 0) == rest.len()) by {
            let e = line_break(rest, 0);
            if e < rest.len() {
                assert(rest[e] == text@[start + e]);
            }
        }
        assert(rest =~= cur@);
        assert(split_nl(rest) == seq![cur@]);
    }
    let ghost prev = r.deep_view();
    let ghost piece = cur@;
    r.push(cur);
    proof {
        assert(r.deep_view() =~~= prev.push(piece));
        assert(prev.push(piece) =~~= prev + seq![piece]);
        assert(r.deep_view() =~~= split_nl(text@));
    }
    r
}

/// Appends every character of `src` to `dst`.
pub fn extend_chars(dst: &mut Vec<char>, src: &Vec<char>)
    ensures
        final(dst)@ == old(dst)@ + src@,
{
    let mut i: usize = 0;
    while i < src.len()
        invariant
            i <= src@.len(),
            dst@ == old(dst)@ + src@.take(i as int),
        decreases src@.len() - i,
    {
        dst.push(src[i]);
        i = i + 1;
        proof {
            assert(old(dst)@ + src@.take(i as int) =~= (old(dst)@ + src@.take(i - 1)).push(
                src@[i - 1],
            ));
        }
    }
    proof {
        assert(old(dst)@ + src@.take(src@.len() as int) =~= old(dst)@ + src@);
    }
}

/// Copies the characters of `v` between `a` and `b` into a fresh vector.
pub fn sub_chars(v: &Vec<char>, a: usize, b: usize) -> (r: Vec<char>)
    requires
        a <= b <= v@.len(),
    ensures
        r@ == v@.subrange(a as int, b as int),
{
    let mut r: Vec<char> = Vec::new();
    let mut i: usize = a;
    while i < b
        invariant
            a <= i <= b <= v@.len(),
            r@ == v@.subrange(a as int, i as int),
        decreases b - i,
    {
        r.push(v[i]);
        i = i + 1;
        proof {
            assert(v@.subrange(a as int, i as int) =~= v@.subrange(a as int, i - 1).push(
                v@[i - 1],
            ));
        }
    }
    r
}

/// Compares two character vectors for equality.
pub fn chars_eq(a: &Vec<char>, b: &Vec<char>) -> (r: bool)
    ensures
        r == (a@ == b@),
{
    if a.len() != b.len() {
        proof {
            assert(a@ != b@);
        }
        return false;
    }
    let mut i: usize = 0;
    while i < a.len()
        invariant
            a@.len() == b@.len(),
            i <= a@.len(),
            forall|j: int| 0 <= j < i ==> a@[j] == b@[j],
        decreases a@.len() - i,
    {
        if a[i] != b[i] {
            return false;
        }
        i = i + 1;
    }
    proof {
        assert(a@ =~= b@);
    }
    true
}

/// Compares two string slices by their characters.
pub fn str_eq(a: &str, b: &str) -> (r: bool)
    ensures
        r == (a@ == b@),
{
    let av = str_to_chars(a);
    let bv = str_to_chars(b);
    chars_eq(&av, &bv)
}

} // verus!
