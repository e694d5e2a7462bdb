//! Per-key debouncing. A debouncer runs an action immediately the first
//! time, rate-limits it afterwards, and leaves the caller to schedule one
//! trailing re-check after a run, so that a burst of events inside one
//! interval collapses to the immediate run plus one guaranteed later run.
//! Time enters as an explicit millisecond reading, so the decision itself
//! is a pure function of state and clock value.

use vstd::prelude::*;
use vstd::string::StringExecFns;

verus! {

/// Rate-limits one key: remembers the interval and the last time an action
/// was allowed to run.
#[derive(Debug, Clone, Copy)]
pub struct Debouncer {
    pub interval_ms: u64,
    pub last_run: Option<u64>,
}

impl Debouncer {
    /// A debouncer that has never run.
    pub fn new(interval_ms: u64) -> (r: Debouncer)
        ensures
            r.interval_ms == interval_ms,
            r.last_run is None,
    {
        Debouncer { interval_ms, last_run: None }
    }

    /// Whether an action is allowed at time `now`: always on the first
    /// call, afterwards only once strictly more than the interval has
    /// passed since the last allowed run.
    pub open spec fn should_run(self, now: u64) -> bool {
        match self.last_run {
            None => true,
            Some(t) => now > t && now - t > self.interval_ms,
        }
    }

    /// Decides whether the caller may run its action now, and records the
    /// time when it may.
    pub fn debounce(&mut self, now_ms: u64) -> (r: bool)
        ensures
            r == old(self).should_run(now_ms),
            final(self).interval_ms == old(self).interval_ms,
            final(self).last_run == if r {
                Some(now_ms)
            } else {
                old(self).last_run
            },
    {
        match self.last_run {
            None => {
                self.last_run = Some(now_ms);
                true
            },
            Some(t) => {
                if now_ms > t && now_ms - t > self.interval_ms {
                    self.last_run = Some(now_ms);
                    true
                } else {
                    false
                }
            },
        }
    }
}

/// One debouncer per file path, created lazily and kept for the
/// coordinator's lifetime.
pub struct SafeFileDebouncer {
    debounce_interval: u64,
    debouncers: Vec<(String, Debouncer)>,
}

/// The debouncer stored under `key`: the first entry with that key wins.
pub open spec fn deb_lookup(es: Seq<(String, Debouncer)>, key: Seq<char>) -> Option<Debouncer>
    decreases es.len(),
{
    if es.len() == 0 {
        None
    } else if es.first().0@ == key {
        Some(es.first().1)
    } else {
        deb_lookup(es.drop_first(), key)
    }
}

spec fn deb_lookup_from(es: Seq<(String, Debouncer)>, key: Seq<char>, from: int) -> Option<
    Debouncer,
>
    decreases es.len() - from when 0 <= from
{
    if from >= es.len() {
        None
    } else if es[from].0@ == key {
        Some(es[from].1)
    } else {
        deb_lookup_from(es, key, from + 1)
    }
}

proof fn lemma_deb_lookup_from_rel(es: Seq<(String, Debouncer)>, key: Seq<char>, from: int)
    requires
        0 <= from <= es.len(),
    ensures
        deb_lookup_from(es, key, from) == deb_lookup(es.skip(from), key),
    decreases es.len() - from,
{
    if from >= es.len() {
        assert(es.skip(from).len() == 0);
    } else {
        assert(es.skip(from).first() == es[from]);
        assert(es.skip(from).drop_first() =~= es.skip(from + 1));
        lemma_deb_lookup_from_rel(es, key, from + 1);
    }
}

proof fn lemma_deb_lookup_update(es: Seq<(String, Debouncer)>, key: Seq<char>, i: int, d: Debouncer)
    requires
        0 <= i < es.len(),
        es[i].0@ == key,
        forall|j: int| 0 <= j < i ==> es[j].0@ != key,
        es.update(i, (es[i].0, d))[i].0@ == key,
    ensures
        deb_lookup(es.update(i, (es[i].0, d)), key) == Some(d),
        forall|k2: Seq<char>| k2 != key ==> deb_lookup(es.update(i, (es[i].0, d)), k2)
            == deb_lookup(es, k2),
    decreases es.len(),
{
    let r = es.update(i, (es[i].0, d));
    if i == 0 {
        assert(r.first() == (es[0].0, d));
        assert(r.drop_first() =~= es.drop_first());
        assert forall|k2: Seq<char>| k2 != key implies deb_lookup(r, k2) == deb_lookup(es, k2) by {
            assert(deb_lookup(r, k2) == deb_lookup(r.drop_first(), k2));
            assert(deb_lookup(es, k2) == deb_lookup(es.drop_first(), k2));
        }
    } else {
        assert(r.first() == es.first());
        assert(r.drop_first() =~= es.drop_first().update(i - 1, (es[i].0, d)));
        assert(es.drop_first()[i - 1] == es[i]);
        assert(forall|j: int| 0 <= j < i - 1 ==> es.drop_first()[j] == es[j + 1]);
        lemma_deb_lookup_update(es.drop_first(), key, i - 1, d);
        assert forall|k2: Seq<char>| k2 != key implies deb_lookup(r, k2) == deb_lookup(es, k2) by {
            if es.first().0@ == k2 {
            } else {
                assert(deb_lookup(r, k2) == deb_lookup(r.drop_first(), k2));
                assert(deb_lookup(es, k2) == deb_lookup(es.drop_first(), k2));
            }
        }
        assert(deb_lookup(r, key) == deb_lookup(r.drop_first(), key));
    }
}

proof fn lemma_deb_lookup_push(es: Seq<(String, Debouncer)>, e: (String, Debouncer))
    requires
        deb_lookup(es, e.0@) is None,
    ensures
        deb_lookup(es.push(e), e.0@) == Some(e.1),
        forall|k2: Seq<char>| k2 != e.0@ ==> deb_lookup(es.push(e), k2) == deb_lookup(es, k2),
    decreases es.len(),
{
    if es.len() == 0 {
        assert(es.push(e).first() == e);
        assert forall|k2: Seq<char>| k2 != e.0@ implies deb_lookup(es.push(e), k2) == deb_lookup(
            es,
            k2,
        ) by {
            assert(deb_lookup(es.push(e), k2) == deb_lookup(es.push(e).drop_first(), k2));
            assert(es.push(e).drop_first().len() == 0);
        }
    } else {
        assert(es.push(e).first() == es.first());
        assert(es.push(e).drop_first() =~= es.drop_first().push(e));
        assert(es.first().0@ != e.0@);
        lemma_deb_lookup_push(es.drop_first(), e);
        assert forall|k2: Seq<char>| k2 != e.0@ implies deb_lookup(es.push(e), k2) == deb_lookup(
            es,
            k2,
        ) by {
            if es.first().0@ == k2 {
            } else {
                assert(deb_lookup(es.push(e), k2) == deb_lookup(es.drop_first().push(e), k2));
                assert(deb_lookup(es, k2) == deb_lookup(es.drop_first(), k2));
            }
        }
        assert(deb_lookup(es.push(e), e.0@) == deb_lookup(es.drop_first().push(e), e.0@));
    }
}

impl SafeFileDebouncer {
    /// The configured interval.
    pub closed spec fn spec_interval(&self) -> u64 {
        self.debounce_interval
    }

    /// The debouncer cached for a path, if one has been created.
    pub closed spec fn spec_get(&self, key: Seq<char>) -> Option<Debouncer> {
        deb_lookup(self.debouncers@, key)
    }

    pub fn new(debounce_interval: u64) -> (r: SafeFileDebouncer)
        ensures
            r.spec_interval() == debounce_interval,
            forall|k: Seq<char>| r.spec_get(k) is None,
    {
        let r = SafeFileDebouncer { debounce_interval, debouncers: Vec::new() };
        proof {
            assert(forall|k: Seq<char>| deb_lookup(r.debouncers@, k) is None);
        }
        r
    }

    /// The debouncer tied to a path, created with the configured interval
    /// the first time the path is seen.
    pub fn get(&mut self, filepath: &str) -> (r: &Debouncer)
        ensures
            final(self).spec_interval() == old(self).spec_interval(),
            final(self).spec_get(filepath@) == Some(*r),
            match old(self).spec_get(filepath@) {
                Some(d) => *r == d,
                None => *r == (Debouncer {
                    interval_ms: old(self).spec_interval(),
                    last_run: None,
                }),
            },
            forall|k: Seq<char>| k != filepath@ ==> final(self).spec_get(k) == old(self).spec_get(
                k,
            ),
    {
        let ghost es0 = self.debouncers@;
        let mut i: usize = 0;
        proof {
            lemma_deb_lookup_from_rel(es0, filepath@, 0);
            assert(es0.skip(0) =~= es0);
        }
        while i < self.debouncers.len()
            invariant
                self == old(self),
                es0 == self.debouncers@,
                i <= es0.len(),
                deb_lookup(es0, filepath@) == deb_lookup_from(es0, filepath@, i as int),
            decreases es0.len() - i,
        {
            if crate::chars::str_eq(self.debouncers[i].0.as_str(), filepath) {
                return &self.debouncers[i].1;
            }
            i = i + 1;
        }
        let key = String::from_str(filepath);
        let fresh = Debouncer { interval_ms: self.debounce_interval, last_run: None };
        let ghost e = (key, fresh);
        self.debouncers.push((key, fresh));
        proof {
            lemma_deb_lookup_push(es0, e);
        }
        let n = self.debouncers.len();
        &self.debouncers[n - 1].1
    }

    /// Looks up (or creates) the path's debouncer and asks it whether the
    /// action may run at time `now_ms`, recording the run when it may.
    pub fn debounce(&mut self, filepath: &str, now_ms: u64) -> (r: bool)
        ensures
            final(self).spec_interval() == old(self).spec_interval(),
            ({
                let d0 = match old(self).spec_get(filepath@) {
                    Some(d) => d,
                    None => Debouncer { interval_ms: old(self).spec_interval(), last_run: None },
                };
                &&& r == d0.should_run(now_ms)
                &&& final(self).spec_get(filepath@) == Some(
                    Debouncer {
                        interval_ms: d0.interval_ms,
                        last_run: if r {
                            Some(now_ms)
                        } else {
                            d0.last_run
                        },
                    },
                )
            }),
            forall|k: Seq<char>| k != filepath@ ==> final(self).spec_get(k) == old(self).spec_get(
                k,
            ),
    {
        let ghost es0 = self.debouncers@;
        let mut i: usize = 0;
        proof {
            lemma_deb_lookup_from_rel(es0, filepath@, 0);
            assert(es0.skip(0) =~= es0);
        }
        while i < self.debouncers.len()
            invariant
                self == old(self),
                es0 == self.debouncers@,
                i <= es0.len(),
                forall|j: int| 0 <= j < i ==> es0[j].0@ != filepath@,
                deb_lookup(es0, filepath@) == deb_lookup_from(es0, filepath@, i as int),
            decreases es0.len() - i,
        {
            if crate::chars::str_eq(self.debouncers[i].0.as_str(), filepath) {
                let mut d = self.debouncers[i].1;
                let r = d.debounce(now_ms);
                let key = self.debouncers[i].0.clone();
                let ghost updated = d;
                self.debouncers[i] = (key, d);
                proof {
                    assert(self.debouncers@ =~= es0.update(i as int, (es0[i as int].0, updated)))
                        by {
                        assert(self.debouncers@[i as int].0@ == es0[i as int].0@);
                        assert(self.debouncers@[i as int].1 == updated);
                        assert(forall|j: int|
                            0 <= j < es0.len() && j != i ==> self.debouncers@[j] == es0[j]);
                        assert(es0.update(i as int, (es0[i as int].0, updated))[i as int] == (
                        es0[i as int].0, updated));
                    };
                    lemma_deb_lookup_update(es0, filepath@, i as int, updated);
                }
                return r;
            }
            i = i + 1;
        }
        let key = String::from_str(filepath);
        let mut fresh = Debouncer { interval_ms: self.debounce_interval, last_run: None };
        let r = fresh.debounce(now_ms);
        let ghost e = (key, fresh);
        self.debouncers.push((key, fresh));
        proof {
            lemma_deb_lookup_push(es0, e);
        }
        r
    }
}

} // verus!
