//! Counters for observational statistics: operations increment named
//! counters as a side effect; nothing in the core reads them back to
//! make decisions.

use vstd::prelude::*;

verus! {

/// A process-scoped sink of named counters, passed explicitly into every
/// component that counts. All counters implicitly start at 0.
pub struct Report {
    counts: Vec<(String, u64)>,
}

/// The value of counter `name` in the association list, first match wins.
pub open spec fn count_in(counts: Seq<(Seq<char>, u64)>, name: Seq<char>) -> u64
    decreases counts.len(),
{
    if counts.len() == 0 {
        0
    } else if counts[0].0 == name {
        counts[0].1
    } else {
        count_in(counts.skip(1), name)
    }
}

impl Report {
    /// The counter values, as a sequence of name/value pairs.
    pub closed spec fn counts_view(&self) -> Seq<(Seq<char>, u64)> {
        self.counts@.map_values(|p: (String, u64)| (p.0@, p.1))
    }

    /// The current value of one counter.
    pub closed spec fn count_of(&self, name: Seq<char>) -> u64 {
        count_in(self.counts_view(), name)
    }

    /// A fresh report: every counter reads 0.
    pub fn new() -> (r: Report)
        ensures
            forall|name: Seq<char>| r.count_of(name) == 0,
    {
        let r = Report { counts: Vec::new() };
        proof {
            assert(r.counts_view() =~= Seq::<(Seq<char>, u64)>::empty());
        }
        r
    }

    /// Increment a counter by 1, saturating at the maximum: a counter
    /// that can no longer grow stays put rather than failing the run.
    pub fn increment(&mut self, name: &str)
        ensures
            final(self).count_of(name@) == if old(self).count_of(name@) == u64::MAX {
                u64::MAX
            } else {
                (old(self).count_of(name@) + 1) as u64
            },
            forall|other: Seq<char>|
                other != name@ ==> final(self).count_of(other) == old(self).count_of(other),
    {
        let v = self.get_count(name);
        let bumped = if v == u64::MAX {
            u64::MAX
        } else {
            v + 1
        };
        let owned = name.to_owned();
        self.counts.insert(0, (owned, bumped));
        proof {
            assert(self.counts_view()[0].0 == name@);
            assert(self.counts_view().skip(1) =~= old(self).counts_view());
            assert(forall|other: Seq<char>|
                other != name@ ==> count_in(self.counts_view(), other) == count_in(
                    self.counts_view().skip(1),
                    other,
                ));
        }
    }

    /// Read one counter; a counter never incremented reads 0.
    pub fn get_count(&self, name: &str) -> (r: u64)
        ensures
            r == self.count_of(name@),
    {
        let owned = name.to_owned();
        let mut i: usize = 0;
        proof {
            assert(self.counts_view().skip(0) =~= self.counts_view());
        }
        loop
            invariant
                i <= self.counts.len(),
                owned@ == name@,
                count_in(self.counts_view().skip(i as int), name@) == self.count_of(name@),
            decreases self.counts.len() - i,
        {
            if i == self.counts.len() {
                proof {
                    assert(self.counts_view().skip(i as int) =~= Seq::<(Seq<char>, u64)>::empty());
                }
                return 0;
            }
            if self.counts[i].0.eq(&owned) {
                proof {
                    assert(self.counts_view().skip(i as int)[0]
                        == (self.counts@[i as int].0@, self.counts@[i as int].1));
                }
                return self.counts[i].1;
            }
            proof {
                assert(self.counts_view().skip(i as int)[0]
                    == (self.counts@[i as int].0@, self.counts@[i as int].1));
                assert(self.counts_view().skip(i as int).skip(1) =~= self.counts_view().skip(
                    i + 1 as int,
                ));
            }
            i = i + 1;
        }
    }
}

} // verus!
