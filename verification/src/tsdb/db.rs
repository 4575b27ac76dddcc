//! The registry: a mapping from signal name to [`Trace`].
//!
//! Traces are created lazily on first write to an unseen name and are never
//! removed individually.  Queries and summaries for unknown names answer
//! with an empty result or `None`, never an error: asking about a signal
//! before its first sample arrives is a normal occurrence.

use crate::time::TimeSpan;
use crate::tsdb::handle::{make_handle, TsDbHandle};
use crate::tsdb::query::{Query, QueryError, QueryResult};
use crate::tsdb::sample::{obs_bounded, Aggregation, Observation};
use crate::tsdb::trace::{query_result_ok, select_range, summary_target, Trace};
use vstd::prelude::*;

verus! {

/// A time series database, usable as a library.  This struct is not itself
/// shareable across execution contexts; wrap it with
/// [`crate::tsdb::TsDbHandle`] for that.
pub struct TsDb {
    names: Vec<String>,
    traces: Vec<Trace>,
}

impl TsDb {
    /// Internal well-formedness: one trace per name, all names distinct,
    /// every trace well-formed.
    pub closed spec fn wf(&self) -> bool {
        &&& self.names@.len() == self.traces@.len()
        &&& forall|i: int, j: int|
            0 <= i < j < self.names@.len() ==> (#[trigger] self.names@[i])@ != (
            #[trigger] self.names@[j])@
        &&& forall|i: int| 0 <= i < self.traces@.len() ==> (#[trigger] self.traces@[i]).wf()
    }

    /// The known signal names, in registration order.
    pub closed spec fn spec_names(&self) -> Seq<Seq<char>> {
        Seq::new(self.names@.len(), |i: int| self.names@[i]@)
    }

    /// Whether a signal of this name exists.
    pub open spec fn spec_contains_name(&self, name: Seq<char>) -> bool {
        self.spec_names().contains(name)
    }

    /// The index a name is registered under.
    pub closed spec fn spec_index_of(&self, name: Seq<char>) -> int {
        choose|i: int| 0 <= i < self.names@.len() && (self.names@[i])@ == name
    }

    /// The observations stored for a name.
    pub closed spec fn spec_trace(&self, name: Seq<char>) -> Seq<Observation> {
        (self.traces@[self.spec_index_of(name)])@
    }

    /// Create an empty database.
    pub fn new() -> (r: TsDb)
        ensures
            r.wf(),
            r.spec_names() == Seq::<Seq<char>>::empty(),
    {
        let r = TsDb { names: Vec::new(), traces: Vec::new() };
        proof {
            assert(r.spec_names() =~= Seq::<Seq<char>>::empty());
        }
        r
    }

    /// Move the database behind a handle, ready for subscribers.
    pub fn into_handle(self) -> (r: TsDbHandle)
        requires
            self.wf(),
        ensures
            r.spec_db() == self,
            r.spec_db().wf(),
            r.spec_subscriber_count() == 0,
    {
        make_handle(self)
    }

    /// Index of the trace registered for `name`, if any.
    #[verifier::loop_isolation(false)]
    fn find(&self, name: &str) -> (r: Option<usize>)
        requires
            self.wf(),
        ensures
            match r {
                Some(i) => i < self.names@.len() && (self.names@[i as int])@ == name@ && i as int
                    == self.spec_index_of(name@) && self.spec_contains_name(name@),
                None => !self.spec_contains_name(name@),
            },
    {
        let key: String = name.to_owned();
        let n = self.names.len();
        let mut i: usize = 0;
        while i < n
            invariant
                i <= n,
                key@ == name@,
                forall|j: int| 0 <= j < i ==> (#[trigger] self.names@[j])@ != name@,
            decreases n - i,
        {
            if self.names[i] == key {
                proof {
                    assert(self.spec_names()[i as int] == name@);
                    assert(self.spec_names().contains(name@));
                    let w = self.spec_index_of(name@);
                    assert(0 <= w < self.names@.len() && (self.names@[w])@ == name@);
                    assert(w == i as int);
                }
                return Some(i);
            }
            i = i + 1;
        }
        proof {
            assert forall|j: int| 0 <= j < self.spec_names().len() implies self.spec_names()[j]
                != name@ by {
                assert((self.names@[j])@ != name@);
            }
        }
        None
    }

    /// A point-in-time snapshot of the known signal names.
    #[verifier::loop_isolation(false)]
    pub fn get_signal_names(&self) -> (r: Vec<String>)
        requires
            self.wf(),
        ensures
            r@.len() == self.spec_names().len(),
            forall|i: int| 0 <= i < r@.len() ==> (#[trigger] r@[i])@ == self.spec_names()[i],
    {
        let n = self.names.len();
        let mut out: Vec<String> = Vec::new();
        let mut i: usize = 0;
        while i < n
            invariant
                i <= n,
                out@.len() == i,
                forall|j: int| 0 <= j < i ==> (#[trigger] out@[j])@ == (self.names@[j])@,
            decreases n - i,
        {
            out.push(self.names[i].clone());
            i = i + 1;
        }
        out
    }

    /// Register `name` with a fresh, empty trace; an existing trace under
    /// this name is replaced.
    pub fn new_trace(&mut self, name: &str)
        requires
            old(self).wf(),
        ensures
            final(self).wf(),
            final(self).spec_names() == if old(self).spec_contains_name(name@) {
                old(self).spec_names()
            } else {
                old(self).spec_names().push(name@)
            },
            final(self).spec_trace(name@) == Seq::<Observation>::empty(),
            forall|n2: Seq<char>|
                n2 != name@ && old(self).spec_contains_name(n2) ==> #[trigger] final(self).spec_trace(n2) == old(self).spec_trace(n2),
    {
        match self.find(name) {
            Some(i) => {
                self.traces[i] = Trace::new();
                proof {
                    self.lemma_update_at(*old(self), i as int, name@);
                }
            },
            None => {
                self.push_new(name);
            },
        }
    }

    /// Append `name` with an empty trace; `name` must be unknown.
    fn push_new(&mut self, name: &str)
        requires
            old(self).wf(),
            !old(self).spec_contains_name(name@),
        ensures
            final(self).wf(),
            final(self).spec_names() == old(self).spec_names().push(name@),
            final(self).spec_trace(name@) == Seq::<Observation>::empty(),
            final(self).spec_index_of(name@) == old(self).spec_names().len(),
            forall|n2: Seq<char>|
                n2 != name@ && old(self).spec_contains_name(n2) ==> #[trigger] final(self).spec_trace(n2) == old(self).spec_trace(n2),
    {
        let key: String = name.to_owned();
        self.names.push(key);
        self.traces.push(Trace::new());
        proof {
            let newlen = self.names@.len() as int;
            assert(final(self).spec_names() =~= old(self).spec_names().push(name@));
            assert forall|i: int, j: int|
                0 <= i < j < self.names@.len() implies (#[trigger] self.names@[i])@ != (
            #[trigger] self.names@[j])@ by {
                if j == newlen - 1 {
                    assert(old(self).spec_names()[i] == (self.names@[i])@);
                    assert(old(self).spec_names().contains((self.names@[i])@));
                }
            }
            let w = self.spec_index_of(name@);
            assert((self.names@[newlen - 1])@ == name@);
            assert(0 <= w < newlen && (self.names@[w])@ == name@);
            if w < newlen - 1 {
                assert(old(self).spec_names()[w] == name@);
                assert(old(self).spec_names().contains(name@));
            }
            assert forall|n2: Seq<char>|
                n2 != name@ && old(self).spec_contains_name(n2) implies #[trigger] final(self).spec_trace(n2) == old(self).spec_trace(n2) by {
                let w2 = old(self).spec_index_of(n2);
                let j2 = choose|i: int|
                    0 <= i < old(self).spec_names().len() && old(self).spec_names()[i] == n2;
                assert((old(self).names@[j2])@ == n2);
                assert(0 <= w2 < old(self).names@.len() && (old(self).names@[w2])@ == n2);
                let v2 = final(self).spec_index_of(n2);
                assert((self.names@[w2])@ == n2);
                assert(0 <= v2 < self.names@.len() && (self.names@[v2])@ == n2);
                assert(v2 == w2);
            }
        }
    }

    /// After replacing or mutating the trace at a known index `i` (the index
    /// of `name`), the registry is still well-formed and only `name`'s trace
    /// changed.
    proof fn lemma_update_at(&self, prev: TsDb, i: int, name: Seq<char>)
        requires
            prev.wf(),
            0 <= i < prev.names@.len(),
            (prev.names@[i])@ == name,
            i == prev.spec_index_of(name),
            self.names@ == prev.names@,
            self.traces@.len() == prev.traces@.len(),
            forall|j: int| 0 <= j < self.traces@.len() && j != i ==> self.traces@[j] == prev.traces@[j],
            (#[trigger] self.traces@[i]).wf(),
        ensures
            self.wf(),
            self.spec_names() == prev.spec_names(),
            self.spec_trace(name) == (self.traces@[i])@,
            forall|n2: Seq<char>|
                n2 != name && prev.spec_contains_name(n2) ==> #[trigger] self.spec_trace(n2)
                    == prev.spec_trace(n2),
    {
        assert(self.spec_names() =~= prev.spec_names());
        let w = self.spec_index_of(name);
        assert(0 <= w < self.names@.len() && (self.names@[w])@ == name);
        assert(w == i);
        assert forall|n2: Seq<char>|
            n2 != name && prev.spec_contains_name(n2) implies #[trigger] self.spec_trace(n2)
                == prev.spec_trace(n2) by {
            let j2 = choose|x: int|
                0 <= x < prev.spec_names().len() && prev.spec_names()[x] == n2;
            assert((prev.names@[j2])@ == n2);
            let w2 = prev.spec_index_of(n2);
            assert(0 <= w2 < prev.names@.len() && (prev.names@[w2])@ == n2);
            let v2 = self.spec_index_of(n2);
            assert(0 <= v2 < self.names@.len() && (self.names@[v2])@ == n2);
            assert(v2 == w2);
            assert(w2 != i);
        }
    }

    /// Append one observation to the named signal, creating its trace on
    /// first write.
    pub fn add_value(&mut self, name: &str, observation: Observation)
        requires
            old(self).wf(),
            observation.sample.spec_ok(),
        ensures
            final(self).wf(),
            final(self).spec_names() == if old(self).spec_contains_name(name@) {
                old(self).spec_names()
            } else {
                old(self).spec_names().push(name@)
            },
            final(self).spec_trace(name@) == if old(self).spec_contains_name(name@) {
                old(self).spec_trace(name@).push(observation)
            } else {
                seq![observation]
            },
            forall|n2: Seq<char>|
                n2 != name@ && old(self).spec_contains_name(n2) ==> #[trigger] final(self).spec_trace(n2) == old(self).spec_trace(n2),
    {
        match self.find(name) {
            Some(i) => {
                self.traces[i].add_sample(observation);
                proof {
                    self.lemma_update_at(*old(self), i as int, name@);
                }
            },
            None => {
                self.push_new(name);
                let ghost mid = *self;
                proof {
                    assert(mid.spec_names().len() == old(self).spec_names().len() + 1);
                    assert(mid.names@.len() == mid.spec_names().len());
                }
                let i = self.names.len() - 1;
                proof {
                    assert(i as int == mid.spec_index_of(name@));
                    assert(mid.spec_names()[i as int] == name@);
                    assert((mid.names@[i as int])@ == name@);
                }
                self.traces[i].add_sample(observation);
                proof {
                    self.lemma_update_at(mid, i as int, name@);
                    assert(final(self).spec_trace(name@) =~= seq![observation]);
                    assert forall|n2: Seq<char>|
                        n2 != name@ && old(self).spec_contains_name(n2) implies #[trigger] final(self).spec_trace(n2) == old(self).spec_trace(n2) by {
                        let x = choose|x: int|
                            0 <= x < old(self).spec_names().len() && old(self).spec_names()[x] == n2;
                        assert(mid.spec_names()[x] == n2);
                        assert(mid.spec_contains_name(n2));
                    }
                }
            },
        }
    }

    /// Append a batch of observations to the named signal, creating its
    /// trace on first write; equivalent to repeated [`TsDb::add_value`].
    pub fn add_values(&mut self, name: &str, samples: Vec<Observation>)
        requires
            old(self).wf(),
            obs_bounded(samples@),
        ensures
            final(self).wf(),
            final(self).spec_names() == if old(self).spec_contains_name(name@) {
                old(self).spec_names()
            } else {
                old(self).spec_names().push(name@)
            },
            final(self).spec_trace(name@) == if old(self).spec_contains_name(name@) {
                old(self).spec_trace(name@) + samples@
            } else {
                samples@
            },
            forall|n2: Seq<char>|
                n2 != name@ && old(self).spec_contains_name(n2) ==> #[trigger] final(self).spec_trace(n2) == old(self).spec_trace(n2),
    {
        match self.find(name) {
            Some(i) => {
                self.traces[i].add_values(samples);
                proof {
                    self.lemma_update_at(*old(self), i as int, name@);
                }
            },
            None => {
                self.push_new(name);
                let ghost mid = *self;
                proof {
                    assert(mid.spec_names().len() == old(self).spec_names().len() + 1);
                    assert(mid.names@.len() == mid.spec_names().len());
                }
                let i = self.names.len() - 1;
                proof {
                    assert(i as int == mid.spec_index_of(name@));
                    assert(mid.spec_names()[i as int] == name@);
                    assert((mid.names@[i as int])@ == name@);
                }
                self.traces[i].add_values(samples);
                proof {
                    self.lemma_update_at(mid, i as int, name@);
                    assert(final(self).spec_trace(name@) =~= samples@);
                    assert forall|n2: Seq<char>|
                        n2 != name@ && old(self).spec_contains_name(n2) implies #[trigger] final(self).spec_trace(n2) == old(self).spec_trace(n2) by {
                        let x = choose|x: int|
                            0 <= x < old(self).spec_names().len() && old(self).spec_names()[x] == n2;
                        assert(mid.spec_names()[x] == n2);
                        assert(mid.spec_contains_name(n2));
                    }
                }
            },
        }
    }

    /// Query the named trace.  A malformed query is signalled; an unknown
    /// name answers with an empty result that still carries the query.
    pub fn query(&self, name: &str, query: Query) -> (r: Result<QueryResult, QueryError>)
        requires
            self.wf(),
        ensures
            (r is Err) <==> !query.spec_valid(),
            r matches Err(e) ==> e == QueryError::InvalidRange,
            r matches Ok(qr) ==> qr.query == query && (if self.spec_contains_name(name@) {
                query_result_ok(
                    select_range(self.spec_trace(name@), query.interval),
                    query.amount as int,
                    qr.inner,
                ) && qr.spec_len() == crate::tsdb::trace::spec_result_len(
                    select_range(self.spec_trace(name@), query.interval).len() as int,
                    query.amount as int,
                )
            } else {
                qr.inner is None
            }),
    {
        if query.amount == 0 || query.interval.end <= query.interval.start {
            return Err(QueryError::InvalidRange);
        }
        match self.find(name) {
            Some(i) => {
                let trace = &self.traces[i];
                trace.query(query)
            },
            None => Ok(QueryResult { query, inner: None }),
        }
    }

    /// Summarize the named trace over an interval (or all time); `None` for
    /// an unknown name or when no data lies in range.
    pub fn summary(&self, name: &str, timespan: Option<&TimeSpan>) -> (r: Option<Aggregation>)
        requires
            self.wf(),
        ensures
            self.spec_contains_name(name@) ==> {
                &&& (r is None) <==> summary_target(self.spec_trace(name@), timespan).len() == 0
                &&& (r matches Some(a) ==> crate::tsdb::trace::entry_wf(
                    a,
                    summary_target(self.spec_trace(name@), timespan),
                ))
            },
            !self.spec_contains_name(name@) ==> r is None,
    {
        match self.find(name) {
            Some(i) => self.traces[i].summary(timespan),
            None => None,
        }
    }
}

impl Default for TsDb {
    /// An empty database.
    fn default() -> (r: TsDb)
        ensures
            r.wf(),
            r.spec_names() == Seq::<Seq<char>>::empty(),
    {
        TsDb::new()
    }
}

} // verus!
