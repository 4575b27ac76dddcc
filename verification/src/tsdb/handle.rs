//! The concurrency-facing facade over the registry.
//!
//! A [`TsDbHandle`] owns the registry and a set of subscriber queues.  Every
//! write appends its data under exclusive access (`&mut self`; wrap the
//! handle in the exclusion mechanism of your execution environment to share
//! it) and then broadcasts one [`DataChangeEvent`] naming the signals the
//! write touched to every registered subscriber.  Subscribers drain their
//! queue with [`TsDbHandle::poll_events`]; each receives every event
//! independently.

use crate::time::TimeSpan;
use crate::tsdb::db::TsDb;
use crate::tsdb::query::{Query, QueryError, QueryResult};
use crate::tsdb::sample::{obs_bounded, Aggregation, Observation};
use crate::tsdb::trace::{entry_wf, query_result_ok, select_range, summary_target};
use vstd::prelude::*;

verus! {

/// Notification that a batch of writes appended data: the names of the
/// signals that changed, each listed once.
pub struct DataChangeEvent {
    pub changed_signal_names: Vec<String>,
}

impl DataChangeEvent {
    /// The changed names, as character sequences.
    pub open spec fn spec_names(&self) -> Seq<Seq<char>> {
        Seq::new(self.changed_signal_names@.len(), |i: int| (self.changed_signal_names@[i])@)
    }
}

/// The observations a batch holds for one name, in batch order.
pub open spec fn batch_for(items: Seq<(String, Observation)>, name: Seq<char>) -> Seq<Observation>
    decreases items.len(),
{
    if items.len() == 0 {
        Seq::empty()
    } else if (items.last().0)@ == name {
        batch_for(items.drop_last(), name).push(items.last().1)
    } else {
        batch_for(items.drop_last(), name)
    }
}

/// Every value of a batch is acceptable to the engine.
pub open spec fn batch_bounded(items: Seq<(String, Observation)>) -> bool {
    forall|i: int| 0 <= i < items.len() ==> (#[trigger] items[i]).1.sample.spec_ok()
}

/// A batch holds observations for a name exactly when it touches the name.
proof fn lemma_batch_for_positive(s: Seq<(String, Observation)>, nm: Seq<char>)
    ensures
        seq_has(batch_names(s), nm) <==> batch_for(s, nm).len() > 0,
    decreases s.len(),
{
    if s.len() > 0 {
        lemma_batch_for_positive(s.drop_last(), nm);
        assert(batch_names(s.drop_last()) =~= batch_names(s).drop_last());
        if (s.last().0)@ == nm {
            assert(batch_names(s)[s.len() - 1] == nm);
            assert(seq_has(batch_names(s), nm));
        } else {
            if seq_has(batch_names(s), nm) {
                let i = lemma_seq_has_index(batch_names(s), nm);
                assert(i < s.len() - 1);
                assert(batch_names(s).drop_last()[i] == nm);
                assert(seq_has(batch_names(s).drop_last(), nm));
            }
            if seq_has(batch_names(s).drop_last(), nm) {
                let i = lemma_seq_has_index(batch_names(s).drop_last(), nm);
                assert(batch_names(s)[i] == nm);
                assert(seq_has(batch_names(s), nm));
            }
        }
    }
}

/// How the per-name batch contents grow with each applied item.
proof fn lemma_batch_for_take(s: Seq<(String, Observation)>, i: int, nm: Seq<char>)
    requires
        0 <= i < s.len(),
    ensures
        (s[i].0)@ == nm ==> batch_for(s.take(i + 1), nm) == batch_for(s.take(i), nm).push(s[i].1),
        (s[i].0)@ != nm ==> batch_for(s.take(i + 1), nm) == batch_for(s.take(i), nm),
{
    assert(s.take(i + 1).drop_last() =~= s.take(i));
    assert(s.take(i + 1).last() == s[i]);
}

/// Copy a list of names; the copy reads the same.
#[verifier::loop_isolation(false)]
fn clone_names(v: &Vec<String>) -> (r: Vec<String>)
    ensures
        r@ == v@,
{
    let n = v.len();
    let mut out: Vec<String> = Vec::new();
    let mut i: usize = 0;
    while i < n
        invariant
            i <= n,
            out@ == v@.subrange(0, i as int),
        decreases n - i,
    {
        out.push(v[i].clone());
        proof {
            assert(v@.subrange(0, i as int + 1) =~= v@.subrange(0, i as int).push(v@[i as int]));
        }
        i = i + 1;
    }
    proof {
        assert(v@.subrange(0, n as int) =~= v@);
    }
    out
}

/// A list of strings holds this name.
pub open spec fn names_has(v: Seq<String>, name: Seq<char>) -> bool {
    exists|j: int| 0 <= j < v.len() && (#[trigger] v[j])@ == name
}

/// A list of names holds this name.
pub open spec fn seq_has(ns: Seq<Seq<char>>, name: Seq<char>) -> bool {
    exists|i: int| 0 <= i < ns.len() && #[trigger] ns[i] == name
}

/// Where a held name sits.
proof fn lemma_names_has_index(v: Seq<String>, name: Seq<char>) -> (j: int)
    requires
        names_has(v, name),
    ensures
        0 <= j < v.len() && (v[j])@ == name,
{
    choose|j: int| 0 <= j < v.len() && (#[trigger] v[j])@ == name
}

/// Where a held name sits.
proof fn lemma_seq_has_index(ns: Seq<Seq<char>>, name: Seq<char>) -> (i: int)
    requires
        seq_has(ns, name),
    ensures
        0 <= i < ns.len() && ns[i] == name,
{
    choose|i: int| 0 <= i < ns.len() && #[trigger] ns[i] == name
}

/// Membership survives appending.
proof fn lemma_names_has_push(v: Seq<String>, s: String, name: Seq<char>)
    requires
        names_has(v, name),
    ensures
        names_has(v.push(s), name),
{
    let j = lemma_names_has_index(v, name);
    assert((v.push(s)[j])@ == name);
}

/// Whether a name already occurs in a list.
#[verifier::loop_isolation(false)]
fn contains_name(v: &Vec<String>, key: &String) -> (r: bool)
    ensures
        r == names_has(v@, key@),
{
    let n = v.len();
    let mut i: usize = 0;
    while i < n
        invariant
            i <= n,
            forall|j: int| 0 <= j < i ==> (#[trigger] v@[j])@ != key@,
        decreases n - i,
    {
        if v[i] == *key {
            return true;
        }
        i = i + 1;
    }
    false
}

/// The name of each batch item, as a character sequence, in batch order.
pub open spec fn batch_names(items: Seq<(String, Observation)>) -> Seq<Seq<char>> {
    Seq::new(items.len(), |i: int| (items[i].0)@)
}

/// The names a batch touches, each once, in first-appearance order.
#[verifier::loop_isolation(false)]
fn distinct_names(items: &Vec<(String, Observation)>) -> (r: Vec<String>)
    ensures
        forall|a: int, b: int| 0 <= a < b < r@.len() ==> (#[trigger] r@[a])@ != (#[trigger] r@[b])@,
        forall|i: int|
            0 <= i < items@.len() ==> names_has(r@, #[trigger] batch_names(items@)[i]),
        forall|j: int|
            0 <= j < r@.len() ==> seq_has(batch_names(items@), (#[trigger] r@[j])@),
{
    let ghost ns = batch_names(items@);
    let n = items.len();
    let mut out: Vec<String> = Vec::new();
    let mut i: usize = 0;
    while i < n
        invariant
            i <= n,
            n == items@.len(),
            ns == batch_names(items@),
            forall|a: int, b: int|
                0 <= a < b < out@.len() ==> (#[trigger] out@[a])@ != (#[trigger] out@[b])@,
            forall|x: int| 0 <= x < i ==> names_has(out@, #[trigger] ns[x]),
            forall|j: int| 0 <= j < out@.len() ==> seq_has(ns, (#[trigger] out@[j])@),
        decreases n - i,
    {
        let name = &items[i].0;
        proof {
            assert(ns[i as int] == name@);
        }
        let ghost before = out@;
        let present = contains_name(&out, name);
        if !present {
            out.push(name.clone());
            proof {
                assert(out@ == before.push(items@[i as int].0));
                assert forall|a: int, b: int|
                    0 <= a < b < out@.len() implies (#[trigger] out@[a])@ != (
                #[trigger] out@[b])@ by {
                    if b == out@.len() - 1 {
                        assert(out@[a] == before[a]);
                        assert(!names_has(before, name@));
                        assert((before[a])@ != name@);
                    } else {
                        assert(out@[a] == before[a] && out@[b] == before[b]);
                    }
                }
            }
        }
        proof {
            assert forall|x: int| 0 <= x < i + 1 implies names_has(out@, #[trigger] ns[x]) by {
                if x < i {
                    if present {
                        assert(out@ == before);
                    } else {
                        lemma_names_has_push(before, items@[i as int].0, ns[x]);
                    }
                } else {
                    if present {
                        assert(names_has(out@, name@));
                    } else {
                        assert((out@[out@.len() - 1])@ == ns[x]);
                    }
                }
            }
            assert forall|j: int| 0 <= j < out@.len() implies seq_has(
                ns,
                (#[trigger] out@[j])@,
            ) by {
                if j < before.len() {
                    assert(out@[j] == before[j]);
                } else {
                    assert((out@[j])@ == ns[i as int]);
                }
            }
        }
        i = i + 1;
    }
    out
}

/// The registry behind its exclusion-and-notification facade.
pub struct TsDbHandle {
    db: TsDb,
    queues: Vec<Vec<DataChangeEvent>>,
}

/// Wrap a database in a handle with no subscribers yet.
pub fn make_handle(db: TsDb) -> (r: TsDbHandle)
    ensures
        r.spec_db() == db,
        r.spec_subscriber_count() == 0,
{
    TsDbHandle { db, queues: Vec::new() }
}

impl TsDbHandle {
    /// The wrapped registry.
    pub closed spec fn spec_db(&self) -> TsDb {
        self.db
    }

    /// Number of registered subscribers.
    pub closed spec fn spec_subscriber_count(&self) -> int {
        self.queues@.len() as int
    }

    /// The events queued for one subscriber, oldest first.
    pub closed spec fn spec_queue(&self, id: int) -> Seq<DataChangeEvent> {
        (self.queues@[id])@
    }

    /// Register a new subscriber; its identifier indexes its event queue.
    pub fn register_subscriber(&mut self) -> (id: usize)
        ensures
            final(self).spec_db() == old(self).spec_db(),
            id as int == old(self).spec_subscriber_count(),
            final(self).spec_subscriber_count() == old(self).spec_subscriber_count() + 1,
            final(self).spec_queue(id as int) == Seq::<DataChangeEvent>::empty(),
            forall|q: int|
                0 <= q < old(self).spec_subscriber_count() ==> final(self).spec_queue(q) == old(self).spec_queue(q),
    {
        let id = self.queues.len();
        self.queues.push(Vec::new());
        id
    }

    /// Drain and return the events delivered to one subscriber so far, in
    /// delivery order.
    pub fn poll_events(&mut self, id: usize) -> (r: Vec<DataChangeEvent>)
        requires
            id < old(self).spec_subscriber_count(),
        ensures
            final(self).spec_db() == old(self).spec_db(),
            final(self).spec_subscriber_count() == old(self).spec_subscriber_count(),
            r@ == old(self).spec_queue(id as int),
            final(self).spec_queue(id as int) == Seq::<DataChangeEvent>::empty(),
            forall|q: int|
                0 <= q < old(self).spec_subscriber_count() && q != id ==> final(self).spec_queue(q)
                    == old(self).spec_queue(q),
    {
        let mut tmp: Vec<DataChangeEvent> = Vec::new();
        core::mem::swap(&mut tmp, &mut self.queues[id]);
        tmp
    }

    /// Push one event naming `names` onto every subscriber queue.
    #[verifier::loop_isolation(false)]
    fn notify_all(&mut self, names: &Vec<String>)
        ensures
            final(self).spec_db() == old(self).spec_db(),
            final(self).spec_subscriber_count() == old(self).spec_subscriber_count(),
            forall|q: int|
                0 <= q < old(self).spec_subscriber_count() ==> {
                    &&& (#[trigger] final(self).spec_queue(q)).len() == old(self).spec_queue(q).len()
                        + 1
                    &&& final(self).spec_queue(q).drop_last() == old(self).spec_queue(q)
                    &&& final(self).spec_queue(q).last().spec_names() == Seq::new(
                        names@.len(),
                        |i: int| (names@[i])@,
                    )
                },
    {
        let count = self.queues.len();
        let mut q: usize = 0;
        while q < count
            invariant
                q <= count,
                count == self.queues@.len(),
                self.db == old(self).db,
                forall|q2: int|
                    q <= q2 < count ==> (#[trigger] self.queues@[q2])@ == (old(self).queues@[q2])@,
                forall|q2: int|
                    0 <= q2 < q ==> {
                        &&& (#[trigger] self.queues@[q2])@.len() == (old(self).queues@[q2])@.len()
                            + 1
                        &&& (self.queues@[q2])@.drop_last() == (old(self).queues@[q2])@
                        &&& (self.queues@[q2])@.last().spec_names() == Seq::new(
                            names@.len(),
                            |i: int| (names@[i])@,
                        )
                    },
            decreases count - q,
        {
            let event = DataChangeEvent { changed_signal_names: clone_names(names) };
            proof {
                assert(event.spec_names() =~= Seq::new(names@.len(), |i: int| (names@[i])@));
            }
            self.queues[q].push(event);
            q = q + 1;
        }
    }

    /// Append one observation through the handle, then notify every
    /// subscriber with an event naming the one changed signal.
    pub fn add_value(&mut self, name: &str, observation: Observation)
        requires
            old(self).spec_db().wf(),
            observation.sample.spec_ok(),
        ensures
            final(self).spec_db().wf(),
            final(self).spec_db().spec_names() == if old(self).spec_db().spec_contains_name(
                name@,
            ) {
                old(self).spec_db().spec_names()
            } else {
                old(self).spec_db().spec_names().push(name@)
            },
            final(self).spec_db().spec_trace(name@) == if old(self).spec_db().spec_contains_name(
                name@,
            ) {
                old(self).spec_db().spec_trace(name@).push(observation)
            } else {
                seq![observation]
            },
            forall|n2: Seq<char>|
                n2 != name@ && old(self).spec_db().spec_contains_name(n2) ==> #[trigger] final(self).spec_db().spec_trace(n2) == old(self).spec_db().spec_trace(n2),
            final(self).spec_subscriber_count() == old(self).spec_subscriber_count(),
            forall|q: int|
                0 <= q < old(self).spec_subscriber_count() ==> {
                    &&& (#[trigger] final(self).spec_queue(q)).len() == old(self).spec_queue(q).len()
                        + 1
                    &&& final(self).spec_queue(q).drop_last() == old(self).spec_queue(q)
                    &&& final(self).spec_queue(q).last().spec_names() == seq![name@]
                },
    {
        self.db.add_value(name, observation);
        let mut names: Vec<String> = Vec::new();
        names.push(name.to_owned());
        proof {
            assert(Seq::new(names@.len(), |i: int| (names@[i])@) =~= seq![name@]);
        }
        self.notify_all(&names);
    }

    /// Append a batch of observations for one signal, then -- if the batch
    /// appended any data -- notify every subscriber.
    pub fn add_values(&mut self, name: &str, samples: Vec<Observation>)
        requires
            old(self).spec_db().wf(),
            obs_bounded(samples@),
        ensures
            final(self).spec_db().wf(),
            final(self).spec_db().spec_names() == if old(self).spec_db().spec_contains_name(
                name@,
            ) {
                old(self).spec_db().spec_names()
            } else {
                old(self).spec_db().spec_names().push(name@)
            },
            final(self).spec_db().spec_trace(name@) == if old(self).spec_db().spec_contains_name(
                name@,
            ) {
                old(self).spec_db().spec_trace(name@) + samples@
            } else {
                samples@
            },
            forall|n2: Seq<char>|
                n2 != name@ && old(self).spec_db().spec_contains_name(n2) ==> #[trigger] final(self).spec_db().spec_trace(n2) == old(self).spec_db().spec_trace(n2),
            final(self).spec_subscriber_count() == old(self).spec_subscriber_count(),
            samples@.len() == 0 ==> forall|q: int|
                0 <= q < old(self).spec_subscriber_count() ==> #[trigger] final(self).spec_queue(q)
                    == old(self).spec_queue(q),
            samples@.len() > 0 ==> forall|q: int|
                0 <= q < old(self).spec_subscriber_count() ==> {
                    &&& (#[trigger] final(self).spec_queue(q)).len() == old(self).spec_queue(q).len()
                        + 1
                    &&& final(self).spec_queue(q).drop_last() == old(self).spec_queue(q)
                    &&& final(self).spec_queue(q).last().spec_names() == seq![name@]
                },
    {
        let notify = samples.len() > 0;
        self.db.add_values(name, samples);
        if notify {
            let mut names: Vec<String> = Vec::new();
            names.push(name.to_owned());
            proof {
                assert(Seq::new(names@.len(), |i: int| (names@[i])@) =~= seq![name@]);
            }
            self.notify_all(&names);
        }
    }

    /// Apply a batch of named observations in order, then notify every
    /// subscriber once with the distinct set of touched names.
    #[verifier::rlimit(50)]
    pub fn add_batch(&mut self, items: Vec<(String, Observation)>)
        requires
            old(self).spec_db().wf(),
            batch_bounded(items@),
        ensures
            final(self).spec_db().wf(),
            forall|i: int|
                0 <= i < items@.len() ==> final(self).spec_db().spec_contains_name(
                    #[trigger] batch_names(items@)[i],
                ),
            forall|nm: Seq<char>|
                old(self).spec_db().spec_contains_name(nm) ==> #[trigger] final(self).spec_db().spec_trace(nm) == old(self).spec_db().spec_trace(nm) + batch_for(
                    items@,
                    nm,
                ),
            forall|nm: Seq<char>|
                !old(self).spec_db().spec_contains_name(nm) && batch_for(items@, nm).len() > 0
                    ==> final(self).spec_db().spec_contains_name(nm) && #[trigger] final(self).spec_db().spec_trace(nm) == batch_for(items@, nm),
            final(self).spec_subscriber_count() == old(self).spec_subscriber_count(),
            items@.len() == 0 ==> forall|q: int|
                0 <= q < old(self).spec_subscriber_count() ==> #[trigger] final(self).spec_queue(q)
                    == old(self).spec_queue(q),
            items@.len() > 0 ==> forall|q: int|
                0 <= q < old(self).spec_subscriber_count() ==> {
                    &&& (#[trigger] final(self).spec_queue(q)).len() == old(self).spec_queue(q).len()
                        + 1
                    &&& final(self).spec_queue(q).drop_last() == old(self).spec_queue(q)
                    &&& (forall|a: int, b: int|
                        0 <= a < b < final(self).spec_queue(q).last().spec_names().len()
                            ==> final(self).spec_queue(q).last().spec_names()[a] != final(self).spec_queue(q).last().spec_names()[b])
                    &&& (forall|i: int|
                        0 <= i < items@.len() ==> seq_has(
                            final(self).spec_queue(q).last().spec_names(),
                            #[trigger] batch_names(items@)[i],
                        ))
                    &&& (forall|x: int|
                        0 <= x < final(self).spec_queue(q).last().spec_names().len()
                            ==> seq_has(
                            batch_names(items@),
                            #[trigger] final(self).spec_queue(q).last().spec_names()[x],
                        ))
                },
    {
        let n = items.len();
        if n == 0 {
            proof {
                assert forall|nm: Seq<char>|
                    old(self).spec_db().spec_contains_name(nm) implies #[trigger] final(self).spec_db().spec_trace(nm) == old(self).spec_db().spec_trace(nm) + batch_for(items@, nm) by {
                    assert(batch_for(items@, nm) =~= Seq::<Observation>::empty());
                    assert(old(self).spec_db().spec_trace(nm) + batch_for(items@, nm)
                        =~= old(self).spec_db().spec_trace(nm));
                }
            }
            return ;
        }
        let names = distinct_names(&items);
        let mut i: usize = 0;
        proof {
            assert forall|nm: Seq<char>|
                old(self).spec_db().spec_contains_name(nm) implies #[trigger] self.db.spec_trace(
                nm,
            ) == old(self).spec_db().spec_trace(nm) + batch_for(items@.take(0), nm) by {
                assert(batch_for(items@.take(0), nm) =~= Seq::<Observation>::empty());
                assert(old(self).spec_db().spec_trace(nm) + batch_for(items@.take(0), nm)
                    =~= old(self).spec_db().spec_trace(nm));
            }
        }
        while i < n
            invariant
                i <= n,
                n == items@.len(),
                self.db.wf(),
                batch_bounded(items@),
                forall|x: int|
                    0 <= x < i ==> self.db.spec_contains_name(#[trigger] batch_names(items@)[x]),
                forall|nm: Seq<char>|
                    old(self).spec_db().spec_contains_name(nm) ==> self.db.spec_contains_name(nm)
                        && #[trigger] self.db.spec_trace(nm) == old(self).spec_db().spec_trace(nm)
                        + batch_for(items@.take(i as int), nm),
                forall|nm: Seq<char>|
                    !old(self).spec_db().spec_contains_name(nm) && batch_for(
                        items@.take(i as int),
                        nm,
                    ).len() > 0 ==> self.db.spec_contains_name(nm) && #[trigger] self.db.spec_trace(
                        nm,
                    ) == batch_for(items@.take(i as int), nm),
                forall|nm: Seq<char>|
                    #[trigger] self.db.spec_contains_name(nm) ==> old(self).spec_db().spec_contains_name(nm) || seq_has(
                        batch_names(items@.take(i as int)),
                        nm,
                    ),
                self.queues@ == old(self).queues@,
            decreases n - i,
        {
            let item = &items[i];
            let ghost dbx = self.db;
            proof {
                // capture the loop invariants as facts about the snapshot
                let ii = i as int;
                assert forall|nm: Seq<char>|
                    #![trigger dbx.spec_trace(nm)]
                    #![trigger dbx.spec_contains_name(nm)]
                    old(self).spec_db().spec_contains_name(nm) implies dbx.spec_contains_name(nm)
                        && dbx.spec_trace(nm) == old(self).spec_db().spec_trace(nm)
                        + batch_for(items@.take(ii), nm) by {
                    assert(self.db.spec_trace(nm) == dbx.spec_trace(nm));
                }
                assert forall|nm: Seq<char>|
                    #![trigger dbx.spec_trace(nm)]
                    #![trigger dbx.spec_contains_name(nm)]
                    !old(self).spec_db().spec_contains_name(nm) && batch_for(
                        items@.take(ii),
                        nm,
                    ).len() > 0 implies dbx.spec_contains_name(nm) && dbx.spec_trace(nm)
                        == batch_for(items@.take(ii), nm) by {
                    assert(self.db.spec_trace(nm) == dbx.spec_trace(nm));
                }
                assert forall|nm: Seq<char>|
                    #[trigger] dbx.spec_contains_name(nm) implies old(self).spec_db().spec_contains_name(nm) || seq_has(
                    batch_names(items@.take(ii)),
                    nm,
                ) by {
                    assert(self.db.spec_contains_name(nm) == dbx.spec_contains_name(nm));
                }
            }
            self.db.add_value(item.0.as_str(), item.1);
            proof {
                let ii = i as int;
                let nmi = batch_names(items@)[ii];
                assert(nmi == (items@[ii].0)@);
                // how the database names changed in this step
                assert forall|x: int| 0 <= x < i + 1 implies self.db.spec_contains_name(
                    #[trigger] batch_names(items@)[x],
                ) by {
                    let n2 = batch_names(items@)[x];
                    if dbx.spec_contains_name(nmi) {
                        assert(self.db.spec_names() == dbx.spec_names());
                        if x < i {
                            assert(dbx.spec_contains_name(n2));
                        }
                    } else {
                        assert(self.db.spec_names() == dbx.spec_names().push(nmi));
                        if x < i {
                            let w = choose|w: int|
                                0 <= w < dbx.spec_names().len() && dbx.spec_names()[w] == n2;
                            assert(self.db.spec_names()[w] == n2);
                        } else {
                            assert(self.db.spec_names().last() == nmi);
                        }
                    }
                }
                // names never disappear, and the new name is in the batch
                assert forall|nm: Seq<char>|
                    #![trigger self.db.spec_contains_name(nm)]
                    dbx.spec_contains_name(nm) implies self.db.spec_contains_name(nm) by {
                    if !dbx.spec_contains_name(nmi) {
                        let w = choose|w: int|
                            0 <= w < dbx.spec_names().len() && dbx.spec_names()[w] == nm;
                        assert(self.db.spec_names()[w] == nm);
                    }
                }
                // traces: existing names gain exactly this step's observation
                assert forall|nm: Seq<char>|
                    #![trigger self.db.spec_trace(nm)]
                    #![trigger self.db.spec_contains_name(nm)]
                    old(self).spec_db().spec_contains_name(nm) implies self.db.spec_trace(nm)
                        == old(self).spec_db().spec_trace(nm) + batch_for(
                        items@.take(ii + 1),
                        nm,
                    ) by {
                    lemma_batch_for_take(items@, ii, nm);
                    assert(dbx.spec_contains_name(nm));
                    if nm == nmi {
                        assert(self.db.spec_trace(nm) == dbx.spec_trace(nm).push(items@[ii].1));
                        assert((old(self).spec_db().spec_trace(nm) + batch_for(
                            items@.take(ii),
                            nm,
                        )).push(items@[ii].1) =~= old(self).spec_db().spec_trace(nm) + batch_for(
                            items@.take(ii),
                            nm,
                        ).push(items@[ii].1));
                    } else {
                        assert(self.db.spec_trace(nm) == dbx.spec_trace(nm));
                    }
                }
                // traces: names new in this batch hold exactly their batch part
                assert forall|nm: Seq<char>|
                    #![trigger self.db.spec_trace(nm)]
                    #![trigger self.db.spec_contains_name(nm)]
                    !old(self).spec_db().spec_contains_name(nm) && batch_for(
                        items@.take(ii + 1),
                        nm,
                    ).len() > 0 implies self.db.spec_contains_name(nm) && self.db.spec_trace(nm)
                        == batch_for(items@.take(ii + 1), nm) by {
                    lemma_batch_for_take(items@, ii, nm);
                    if nm == nmi {
                        if dbx.spec_contains_name(nm) {
                            // it appeared earlier in this batch
                            assert(batch_for(items@.take(ii), nm).len() > 0) by {
                                if batch_for(items@.take(ii), nm).len() == 0 {
                                    lemma_batch_for_positive(items@.take(ii), nm);
                                    assert(!seq_has(batch_names(items@.take(ii)), nm));
                                    assert(false);
                                }
                            }
                            assert(dbx.spec_trace(nm) == batch_for(items@.take(ii), nm));
                            assert(self.db.spec_trace(nm) == dbx.spec_trace(nm).push(
                                items@[ii].1,
                            ));
                        } else {
                            // first appearance: the trace was created now
                            assert(batch_for(items@.take(ii), nm).len() == 0) by {
                                if batch_for(items@.take(ii), nm).len() > 0 {
                                    assert(dbx.spec_contains_name(nm));
                                }
                            }
                            assert(self.db.spec_trace(nm) =~= seq![items@[ii].1]);
                            assert(batch_for(items@.take(ii + 1), nm) =~= batch_for(
                                items@.take(ii),
                                nm,
                            ).push(items@[ii].1));
                        }
                    } else {
                        assert(batch_for(items@.take(ii), nm).len() > 0);
                        assert(dbx.spec_contains_name(nm));
                        assert(dbx.spec_trace(nm) == batch_for(items@.take(ii), nm));
                        assert(self.db.spec_trace(nm) == dbx.spec_trace(nm));
                    }
                }
                // every known name was known before or belongs to the batch
                assert forall|nm: Seq<char>|
                    #![trigger self.db.spec_contains_name(nm)]
                    self.db.spec_contains_name(nm) implies old(self).spec_db().spec_contains_name(
                        nm,
                    ) || seq_has(batch_names(items@.take(ii + 1)), nm) by {
                    if dbx.spec_contains_name(nm) {
                        if !old(self).spec_db().spec_contains_name(nm) {
                            let x = lemma_seq_has_index(batch_names(items@.take(ii)), nm);
                            assert(batch_names(items@.take(ii + 1))[x] == nm);
                            assert(seq_has(batch_names(items@.take(ii + 1)), nm));
                        }
                    } else {
                        // only this step's name can be new
                        let w = choose|w: int|
                            0 <= w < self.db.spec_names().len() && self.db.spec_names()[w] == nm;
                        assert(self.db.spec_names() == dbx.spec_names().push(nmi));
                        if w < dbx.spec_names().len() {
                            assert(dbx.spec_contains_name(nm));
                            assert(false);
                        }
                        assert(nm == nmi);
                        assert(batch_names(items@.take(ii + 1))[ii] == nm);
                        assert(seq_has(batch_names(items@.take(ii + 1)), nm));
                    }
                }
            }
            i = i + 1;
        }
        let ghost dbf = self.db;
        proof {
            assert(items@.take(n as int) =~= items@);
            assert forall|nm: Seq<char>|
                #![trigger dbf.spec_trace(nm)]
                #![trigger dbf.spec_contains_name(nm)]
                (old(self).spec_db().spec_contains_name(nm) ==> dbf.spec_contains_name(nm)
                    && dbf.spec_trace(nm) == old(self).spec_db().spec_trace(nm) + batch_for(
                    items@,
                    nm,
                )) && (!old(self).spec_db().spec_contains_name(nm) && batch_for(items@, nm).len()
                    > 0 ==> dbf.spec_contains_name(nm) && dbf.spec_trace(nm) == batch_for(
                    items@,
                    nm,
                )) by {
                assert(self.db.spec_trace(nm) == dbf.spec_trace(nm));
                assert(batch_for(items@.take(n as int), nm) == batch_for(items@, nm));
            }
        }
        self.notify_all(&names);
        proof {
            assert(self.db == dbf);
            assert forall|nm: Seq<char>|
                old(self).spec_db().spec_contains_name(nm) implies #[trigger] final(self).spec_db().spec_trace(nm) == old(self).spec_db().spec_trace(nm) + batch_for(items@, nm) by {
                assert(final(self).spec_db() == dbf);
                assert(dbf.spec_trace(nm) == final(self).spec_db().spec_trace(nm));
            }
            assert forall|nm: Seq<char>|
                !old(self).spec_db().spec_contains_name(nm) && batch_for(items@, nm).len() > 0
                    implies final(self).spec_db().spec_contains_name(nm) && #[trigger] final(self).spec_db().spec_trace(nm) == batch_for(items@, nm) by {
                assert(final(self).spec_db() == dbf);
                assert(dbf.spec_trace(nm) == final(self).spec_db().spec_trace(nm));
                assert(dbf.spec_contains_name(nm) == final(self).spec_db().spec_contains_name(nm));
            }
        }
        proof {
            let ns = batch_names(items@);
            let m = Seq::new(names@.len(), |x: int| (names@[x])@);
            assert forall|q: int| 0 <= q < old(self).spec_subscriber_count() implies {
                let evn = (#[trigger] final(self).spec_queue(q)).last().spec_names();
                &&& (forall|a: int, b: int| 0 <= a < b < evn.len() ==> evn[a] != evn[b])
                &&& (forall|i2: int| 0 <= i2 < items@.len() ==> seq_has(evn, #[trigger] ns[i2]))
                &&& (forall|x: int| 0 <= x < evn.len() ==> seq_has(ns, #[trigger] evn[x]))
            } by {
                let evn = final(self).spec_queue(q).last().spec_names();
                assert(evn =~= m);
                assert forall|a: int, b: int| 0 <= a < b < evn.len() implies evn[a] != evn[b] by {
                    assert((names@[a])@ != (names@[b])@);
                }
                assert forall|i2: int| 0 <= i2 < items@.len() implies seq_has(
                    evn,
                    #[trigger] ns[i2],
                ) by {
                    let j = lemma_names_has_index(names@, ns[i2]);
                    assert(evn[j] == ns[i2]);
                }
                assert forall|x: int| 0 <= x < evn.len() implies seq_has(
                    ns,
                    #[trigger] evn[x],
                ) by {
                    assert(evn[x] == (names@[x])@);
                }
            }
        }
    }

    /// The known signal names.
    pub fn get_signal_names(&self) -> (r: Vec<String>)
        requires
            self.spec_db().wf(),
        ensures
            r@.len() == self.spec_db().spec_names().len(),
            forall|i: int|
                0 <= i < r@.len() ==> (#[trigger] r@[i])@ == self.spec_db().spec_names()[i],
    {
        self.db.get_signal_names()
    }

    /// Query the named trace; see [`TsDb::query`].
    pub fn query(&self, name: &str, query: Query) -> (r: Result<QueryResult, QueryError>)
        requires
            self.spec_db().wf(),
        ensures
            (r is Err) <==> !query.spec_valid(),
            r matches Err(e) ==> e == QueryError::InvalidRange,
            r matches Ok(qr) ==> qr.query == query && (if self.spec_db().spec_contains_name(
                name@,
            ) {
                query_result_ok(
                    select_range(self.spec_db().spec_trace(name@), query.interval),
                    query.amount as int,
                    qr.inner,
                ) && qr.spec_len() == crate::tsdb::trace::spec_result_len(
                    select_range(self.spec_db().spec_trace(name@), query.interval).len() as int,
                    query.amount as int,
                )
            } else {
                qr.inner is None
            }),
    {
        self.db.query(name, query)
    }

    /// Summarize the named trace; see [`TsDb::summary`].
    pub fn summary(&self, name: &str, timespan: Option<&TimeSpan>) -> (r: Option<Aggregation>)
        requires
            self.spec_db().wf(),
        ensures
            self.spec_db().spec_contains_name(name@) ==> {
                &&& (r is None) <==> summary_target(
                    self.spec_db().spec_trace(name@),
                    timespan,
                ).len() == 0
                &&& (r matches Some(a) ==> entry_wf(
                    a,
                    summary_target(self.spec_db().spec_trace(name@), timespan),
                ))
            },
            !self.spec_db().spec_contains_name(name@) ==> r is None,
    {
        self.db.summary(name, timespan)
    }
}

} // verus!
