use vstd::prelude::*;
use vstd::string::StringExecFns;

use crate::extract::lemma_skip_succ;
use crate::record::{MittyUpdate, UpdateView};

verus! {

/// Whether some entry in `s` has body `b`.
pub open spec fn contains_body(s: Seq<UpdateView>, b: Seq<char>) -> bool {
    exists|i: int| 0 <= i < s.len() && s[i].body == b
}

/// The persisted store: the entries notified in earlier runs, queryable by
/// exact body. It is append-only and is the sole state carried between runs.
pub struct Store {
    records: Vec<MittyUpdate>,
}

impl View for Store {
    type V = Seq<UpdateView>;

    closed spec fn view(&self) -> Seq<UpdateView> {
        self.records.deep_view()
    }
}

/// What an insert leaves behind: the store grows by the entry exactly when
/// no entry with its body is present yet.
pub open spec fn insert_one(store: Seq<UpdateView>, r: UpdateView) -> Seq<UpdateView> {
    if contains_body(store, r.body) {
        store
    } else {
        store.push(r)
    }
}

/// The store after inserting each entry of `recs`, in order.
pub open spec fn insert_all(store: Seq<UpdateView>, recs: Seq<UpdateView>) -> Seq<UpdateView>
    decreases recs.len(),
{
    if recs.len() == 0 {
        store
    } else {
        insert_one(insert_all(store, recs.drop_last()), recs.last())
    }
}

impl Store {
    /// The store's invariant: no two entries share a body.
    pub open spec fn wf(&self) -> bool {
        forall|i: int, j: int| 0 <= i < j < self@.len() ==> self@[i].body != self@[j].body
    }

    /// An empty store, as created once before the first run.
    pub fn new() -> (s: Store)
        ensures
            s.wf(),
            s@ == Seq::<UpdateView>::empty(),
    {
        let s = Store { records: Vec::new() };
        proof {
            assert(s@ =~= Seq::<UpdateView>::empty());
        }
        s
    }

    /// The Differ's query: whether an entry with exactly this body was
    /// already notified in an earlier run.
    pub fn lookup(&self, body: &String) -> (r: bool)
        ensures
            r == contains_body(self@, body@),
    {
        let n = self.records.len();
        let mut i: usize = 0;
        while i < n
            invariant
                i <= n,
                n == self.records.len(),
                forall|k: int| 0 <= k < i ==> self@[k].body != body@,
            decreases n - i,
        {
            if self.records[i].body == *body {
                proof {
                    assert(self@[i as int].body == body@);
                }
                return true;
            }
            i += 1;
        }
        false
    }

    /// The Persister's write: append the entry unless an entry with its
    /// body is already present, keeping bodies unique.
    pub fn insert_if_absent(&mut self, rec: MittyUpdate)
        requires
            old(self).wf(),
        ensures
            final(self).wf(),
            final(self)@ == insert_one(old(self)@, rec.deep_view()),
    {
        let present = self.lookup(&rec.body);
        if !present {
            let ghost oldv = self@;
            let ghost rv = rec.deep_view();
            self.records.push(rec);
            proof {
                assert(self@ =~= oldv.push(rv));
            }
        }
    }

    /// All entries, oldest first; what a reader of the store sees.
    pub fn entries(&self) -> (r: Vec<MittyUpdate>)
        ensures
            r.deep_view() == self@,
    {
        let n = self.records.len();
        let mut r: Vec<MittyUpdate> = Vec::new();
        let mut i: usize = 0;
        while i < n
            invariant
                i <= n,
                n == self.records.len(),
                r.deep_view().len() == i,
                forall|k: int| 0 <= k < i ==> r.deep_view()[k] == self@[k],
            decreases n - i,
        {
            let ghost oldr = r.deep_view();
            r.push(self.records[i].clone());
            proof {
                assert(r.deep_view() =~= oldr.push(self@[i as int]));
            }
            i += 1;
        }
        proof {
            assert(r.deep_view() =~= self@);
        }
        r
    }
}

/// The extraction order reversed: the document lists entries newest-first,
/// and the pipeline acts oldest-first.
pub fn oldest_first(v: &Vec<MittyUpdate>) -> (r: Vec<MittyUpdate>)
    ensures
        r.deep_view() == v.deep_view().reverse(),
{
    let n = v.len();
    let mut r: Vec<MittyUpdate> = Vec::new();
    let mut i: usize = 0;
    while i < n
        invariant
            i <= n,
            n == v.len(),
            r.deep_view().len() == i,
            forall|k: int| 0 <= k < i ==> r.deep_view()[k] == v.deep_view()[n - 1 - k],
        decreases n - i,
    {
        let ghost oldr = r.deep_view();
        r.push(v[n - 1 - i].clone());
        proof {
            assert(r.deep_view() =~= oldr.push(v.deep_view()[n - 1 - i]));
        }
        i += 1;
    }
    proof {
        assert(r.deep_view() =~= v.deep_view().reverse());
    }
    r
}

/// The candidates the store does not yet hold, in candidate order: the
/// records the run will notify.
pub open spec fn novel_records(cands: Seq<UpdateView>, store: Seq<UpdateView>) -> Seq<UpdateView>
    decreases cands.len(),
{
    if cands.len() == 0 {
        Seq::empty()
    } else if contains_body(store, cands[0].body) {
        novel_records(cands.drop_first(), store)
    } else {
        seq![cands[0]] + novel_records(cands.drop_first(), store)
    }
}

/// The same plan computed from per-candidate lookup answers instead of the
/// store itself: `seen[i]` answers the lookup for `cands[i]`.
pub open spec fn plan_by_flags(cands: Seq<UpdateView>, seen: Seq<bool>) -> Seq<UpdateView>
    recommends
        seen.len() == cands.len(),
    decreases cands.len(),
{
    if cands.len() == 0 {
        Seq::empty()
    } else if seen[0] {
        plan_by_flags(cands.drop_first(), seen.drop_first())
    } else {
        seq![cands[0]] + plan_by_flags(cands.drop_first(), seen.drop_first())
    }
}

/// Lookup answers that agree with the store give the same plan as the
/// store itself.
pub proof fn lemma_plan_matches_novel(
    cands: Seq<UpdateView>,
    seen: Seq<bool>,
    store: Seq<UpdateView>,
)
    requires
        seen.len() == cands.len(),
        forall|i: int| 0 <= i < cands.len() ==> seen[i] == contains_body(store, cands[i].body),
    ensures
        plan_by_flags(cands, seen) == novel_records(cands, store),
    decreases cands.len(),
{
    if cands.len() > 0 {
        assert(seen[0] == contains_body(store, cands[0].body));
        assert forall|i: int|
            0 <= i < cands.drop_first().len() implies seen.drop_first()[i] == contains_body(
            store,
            cands.drop_first()[i].body,
        ) by {
            assert(cands.drop_first()[i] == cands[i + 1]);
            assert(seen.drop_first()[i] == seen[i + 1]);
        }
        lemma_plan_matches_novel(cands.drop_first(), seen.drop_first(), store);
    }
}

/// The plan is never longer than the candidate list.
pub proof fn lemma_plan_len(cands: Seq<UpdateView>, seen: Seq<bool>)
    ensures
        plan_by_flags(cands, seen).len() <= cands.len(),
    decreases cands.len(),
{
    if cands.len() > 0 {
        lemma_plan_len(cands.drop_first(), seen.drop_first());
    }
}

/// The Differ's sequential walk made explicit: which candidates are novel,
/// answered from the given lookup flags.
pub fn plan_notifications(cands: &Vec<MittyUpdate>, seen: &Vec<bool>) -> (r: Vec<MittyUpdate>)
    requires
        seen.len() == cands.len(),
    ensures
        r.deep_view() == plan_by_flags(cands.deep_view(), seen@),
{
    let ghost cv = cands.deep_view();
    let ghost sv = seen@;
    let n = cands.len();
    let mut r: Vec<MittyUpdate> = Vec::new();
    let mut i: usize = 0;
    proof {
        assert(cv.skip(0) =~= cv);
        assert(sv.skip(0) =~= sv);
        assert(r.deep_view() =~= Seq::<UpdateView>::empty());
    }
    while i < n
        invariant
            i <= n,
            n == cands.len(),
            n == seen.len(),
            cv == cands.deep_view(),
            sv == seen@,
            sv.len() == cv.len(),
            plan_by_flags(cv, sv) == r.deep_view() + plan_by_flags(
                cv.skip(i as int),
                sv.skip(i as int),
            ),
        decreases n - i,
    {
        proof {
            lemma_skip_succ(cv, i as int);
            lemma_skip_succ(sv, i as int);
        }
        let ghost oldr = r.deep_view();
        if !seen[i] {
            r.push(cands[i].clone());
            proof {
                assert(r.deep_view() =~= oldr.push(cv[i as int]));
                assert(oldr.push(cv[i as int]) + plan_by_flags(cv.skip(i + 1), sv.skip(i + 1))
                    =~= oldr + (seq![cv[i as int]] + plan_by_flags(
                    cv.skip(i + 1),
                    sv.skip(i + 1),
                )));
            }
        }
        i += 1;
    }
    proof {
        assert(cv.skip(n as int) =~= Seq::<UpdateView>::empty());
        assert(sv.skip(n as int) =~= Seq::<bool>::empty());
        assert(r.deep_view() + plan_by_flags(cv.skip(n as int), sv.skip(n as int))
            =~= r.deep_view());
    }
    r
}

/// How many deliveries succeed before the first failure: the index of the
/// first `false`, or the whole length when none fails.
pub open spec fn first_failure(outcomes: Seq<bool>) -> int
    decreases outcomes.len(),
{
    if outcomes.len() == 0 {
        0
    } else if !outcomes[0] {
        0
    } else {
        1 + first_failure(outcomes.drop_first())
    }
}

/// The records a run actually delivers: the longest prefix of the plan
/// whose deliveries all succeed.
pub open spec fn delivered_records(plan: Seq<UpdateView>, outcomes: Seq<bool>) -> Seq<UpdateView> {
    plan.take(
        if first_failure(outcomes) < plan.len() {
            first_failure(outcomes)
        } else {
            plan.len() as int
        },
    )
}

pub proof fn lemma_first_failure_bounds(outcomes: Seq<bool>)
    ensures
        0 <= first_failure(outcomes) <= outcomes.len(),
    decreases outcomes.len(),
{
    if outcomes.len() > 0 && outcomes[0] {
        lemma_first_failure_bounds(outcomes.drop_first());
    }
}

/// Pin down `first_failure` from a prefix of successes.
pub proof fn lemma_first_failure_at(outcomes: Seq<bool>, i: int)
    requires
        0 <= i <= outcomes.len(),
        forall|k: int| 0 <= k < i ==> outcomes[k],
    ensures
        first_failure(outcomes) >= i,
        i < outcomes.len() && !outcomes[i] ==> first_failure(outcomes) == i,
    decreases i,
{
    lemma_first_failure_bounds(outcomes);
    if i > 0 {
        assert(outcomes[0]);
        assert forall|k: int| 0 <= k < i - 1 implies outcomes.drop_first()[k] by {
            assert(outcomes.drop_first()[k] == outcomes[k + 1]);
        }
        lemma_first_failure_at(outcomes.drop_first(), i - 1);
        if i < outcomes.len() && !outcomes[i] {
            assert(outcomes.drop_first()[i - 1] == outcomes[i]);
        }
    }
}

/// One run's outcome, as the operator sees it.
pub struct RunReport {
    /// The records delivered, oldest first; exactly these were persisted.
    pub delivered: Vec<MittyUpdate>,
    /// Deliveries attempted: the successes, plus the one failure if any.
    pub attempts: usize,
    /// Whether a delivery failed and cut the walk short.
    pub delivery_failed: bool,
}

/// The Differ / Notifier / Persister pipeline of one run against an
/// in-memory store. `extracted` is the Extractor's newest-first output;
/// `outcomes[k]` stands for the outcome of the Notifier's `k`-th delivery
/// attempt. Novelty is judged against the store as it was when the run
/// began; only delivered records are persisted, and a failed delivery
/// stops the walk so nothing later is delivered or persisted.
pub fn run_pipeline(extracted: &Vec<MittyUpdate>, store: Store, outcomes: &Vec<bool>) -> (r: (
    RunReport,
    Store,
))
    requires
        store.wf(),
        outcomes.len() >= extracted.len(),
    ensures
        r.1.wf(),
        r.0.delivered.deep_view() == delivered_records(
            novel_records(extracted.deep_view().reverse(), store@),
            outcomes@,
        ),
        r.1@ == insert_all(store@, r.0.delivered.deep_view()),
        r.0.delivery_failed == (first_failure(outcomes@) < novel_records(
            extracted.deep_view().reverse(),
            store@,
        ).len()),
        r.0.attempts == r.0.delivered.len() + (if r.0.delivery_failed {
            1int
        } else {
            0int
        }),
{
    let ghost store0 = store@;
    let mut store = store;
    let oldest = oldest_first(extracted);
    let ghost cv = oldest.deep_view();
    let n = oldest.len();
    // Differ: one lookup per candidate. Lookups are independent; the host
    // may fan them out concurrently and join before the walk.
    let mut seen: Vec<bool> = Vec::new();
    let mut i: usize = 0;
    while i < n
        invariant
            i <= n,
            n == oldest.len(),
            cv == oldest.deep_view(),
            store@ == store0,
            store.wf(),
            seen@.len() == i,
            forall|k: int| 0 <= k < i ==> seen@[k] == contains_body(store0, cv[k].body),
        decreases n - i,
    {
        let b = store.lookup(&oldest[i].body);
        seen.push(b);
        i += 1;
    }
    let plan = plan_notifications(&oldest, &seen);
    proof {
        lemma_plan_matches_novel(cv, seen@, store0);
        lemma_plan_len(cv, seen@);
    }
    let ghost novelg = novel_records(cv, store0);
    let m = plan.len();
    // Notifier: strictly sequential, oldest first, stop at the first
    // failure so no later record is delivered out of order.
    let mut delivered: Vec<MittyUpdate> = Vec::new();
    let mut k: usize = 0;
    let mut failed = false;
    proof {
        assert(delivered.deep_view() =~= novelg.take(0));
    }
    while k < m && !failed
        invariant
            k <= m,
            m == plan.len(),
            m <= outcomes.len(),
            plan.deep_view() == novelg,
            store@ == store0,
            store.wf(),
            delivered.deep_view() == novelg.take(k as int),
            delivered.len() == k,
            forall|t: int| 0 <= t < k ==> outcomes@[t],
            failed ==> k < m && !outcomes@[k as int],
        decreases m - k + (if failed {
            0int
        } else {
            1int
        }),
    {
        if outcomes[k] {
            let ghost od = delivered.deep_view();
            delivered.push(plan[k].clone());
            proof {
                assert(delivered.deep_view() =~= od.push(novelg[k as int]));
                assert(od.push(novelg[k as int]) =~= novelg.take(k + 1));
            }
            k += 1;
        } else {
            failed = true;
        }
    }
    let attempts = if failed {
        k + 1
    } else {
        k
    };
    proof {
        lemma_first_failure_at(outcomes@, k as int);
        if !failed {
            assert(novelg.take(m as int) =~= novelg);
        }
        assert(delivered.deep_view() == delivered_records(novelg, outcomes@));
    }
    // Persister: write each delivered entry; deferred until after the walk
    // so nothing is marked seen before its notification went out.
    let d = delivered.len();
    let mut p: usize = 0;
    proof {
        assert(delivered.deep_view().take(0) =~= Seq::<UpdateView>::empty());
    }
    while p < d
        invariant
            p <= d,
            d == delivered.len(),
            store.wf(),
            store@ == insert_all(store0, delivered.deep_view().take(p as int)),
        decreases d - p,
    {
        let rec = delivered[p].clone();
        store.insert_if_absent(rec);
        proof {
            let dv = delivered.deep_view();
            assert(dv.take(p + 1).drop_last() =~= dv.take(p as int));
            assert(dv.take(p + 1).last() == dv[p as int]);
        }
        p += 1;
    }
    proof {
        assert(delivered.deep_view().take(d as int) =~= delivered.deep_view());
    }
    (RunReport { delivered, attempts, delivery_failed: failed }, store)
}

/// If the store already holds every candidate's body, nothing is novel and
/// the run delivers nothing, whatever the delivery outcomes.
pub proof fn lemma_all_seen_no_notifications(
    cands: Seq<UpdateView>,
    store: Seq<UpdateView>,
    outcomes: Seq<bool>,
)
    requires
        forall|i: int| 0 <= i < cands.len() ==> contains_body(store, cands[i].body),
    ensures
        novel_records(cands, store).len() == 0,
        delivered_records(novel_records(cands, store), outcomes).len() == 0,
    decreases cands.len(),
{
    lemma_first_failure_bounds(outcomes);
    if cands.len() > 0 {
        assert(contains_body(store, cands[0].body));
        assert forall|i: int|
            0 <= i < cands.drop_first().len() implies contains_body(
            store,
            cands.drop_first()[i].body,
        ) by {
            assert(cands.drop_first()[i] == cands[i + 1]);
        }
        lemma_all_seen_no_notifications(cands.drop_first(), store, outcomes);
    }
}

/// A body the store already holds is never notified again: no record of
/// the plan carries it.
pub proof fn lemma_no_renotification(cands: Seq<UpdateView>, store: Seq<UpdateView>, b: Seq<char>)
    requires
        contains_body(store, b),
    ensures
        forall|j: int|
            0 <= j < novel_records(cands, store).len() ==> novel_records(cands, store)[j].body
                != b,
    decreases cands.len(),
{
    if cands.len() > 0 {
        lemma_no_renotification(cands.drop_first(), store, b);
        if !contains_body(store, cands[0].body) {
            assert(cands[0].body != b);
            assert forall|j: int|
                0 <= j < novel_records(cands, store).len() implies novel_records(
                cands,
                store,
            )[j].body != b by {
                if j > 0 {
                    assert(novel_records(cands, store)[j] == novel_records(
                        cands.drop_first(),
                        store,
                    )[j - 1]);
                }
            }
        }
    }
}

/// Membership after a batch of inserts: exactly the old bodies plus the
/// batch's bodies, nothing else.
pub proof fn lemma_insert_all_contains(
    store: Seq<UpdateView>,
    recs: Seq<UpdateView>,
    b: Seq<char>,
)
    ensures
        contains_body(insert_all(store, recs), b) <==> (contains_body(store, b) || exists|i: int|
            0 <= i < recs.len() && recs[i].body == b),
    decreases recs.len(),
{
    if recs.len() > 0 {
        lemma_insert_all_contains(store, recs.drop_last(), b);
        let s1 = insert_all(store, recs.drop_last());
        let r = recs.last();
        assert(contains_body(insert_one(s1, r), b) <==> (contains_body(s1, b) || r.body == b))
            by {
            if contains_body(s1, r.body) {
                if r.body == b {
                    assert(contains_body(s1, b));
                }
            } else {
                if contains_body(s1, b) {
                    let i = choose|i: int| 0 <= i < s1.len() && s1[i].body == b;
                    assert(s1.push(r)[i].body == b);
                }
                if r.body == b {
                    assert(s1.push(r)[s1.len() as int].body == b);
                }
                if contains_body(s1.push(r), b) {
                    let i = choose|i: int| 0 <= i < s1.push(r).len() && s1.push(r)[i].body == b;
                    if i < s1.len() {
                        assert(s1[i].body == b);
                    } else {
                        assert(s1.push(r)[i] == r);
                    }
                }
            }
        }
        assert((exists|i: int| 0 <= i < recs.len() && recs[i].body == b) <==> ((exists|i: int|
            0 <= i < recs.drop_last().len() && recs.drop_last()[i].body == b) || r.body == b))
            by {
            if exists|i: int| 0 <= i < recs.len() && recs[i].body == b {
                let i = choose|i: int| 0 <= i < recs.len() && recs[i].body == b;
                if i < recs.len() - 1 {
                    assert(recs.drop_last()[i].body == b);
                } else {
                    assert(recs[recs.len() - 1] == r);
                }
            }
            if exists|i: int| 0 <= i < recs.drop_last().len() && recs.drop_last()[i].body == b {
                let i = choose|i: int|
                    0 <= i < recs.drop_last().len() && recs.drop_last()[i].body == b;
                assert(recs[i].body == b);
            }
            if r.body == b {
                assert(recs[recs.len() - 1].body == b);
            }
        }
    }
}

/// Across two sequential runs over the same store, a record delivered and
/// persisted by the first run is not delivered again by the second,
/// whatever either page held and however deliveries went.
pub proof fn lemma_no_redelivery_across_runs(
    store0: Seq<UpdateView>,
    cands1: Seq<UpdateView>,
    outcomes1: Seq<bool>,
    cands2: Seq<UpdateView>,
    outcomes2: Seq<bool>,
    j: int,
)
    requires
        0 <= j < delivered_records(novel_records(cands1, store0), outcomes1).len(),
    ensures
        forall|k: int|
            0 <= k < delivered_records(
                novel_records(
                    cands2,
                    insert_all(
                        store0,
                        delivered_records(novel_records(cands1, store0), outcomes1),
                    ),
                ),
                outcomes2,
            ).len() ==> delivered_records(
                novel_records(
                    cands2,
                    insert_all(
                        store0,
                        delivered_records(novel_records(cands1, store0), outcomes1),
                    ),
                ),
                outcomes2,
            )[k].body != delivered_records(novel_records(cands1, store0), outcomes1)[j].body,
{
    let deliv1 = delivered_records(novel_records(cands1, store0), outcomes1);
    let store1 = insert_all(store0, deliv1);
    lemma_insert_all_contains(store0, deliv1, deliv1[j].body);
    assert(contains_body(store1, deliv1[j].body));
    lemma_no_renotification(cands2, store1, deliv1[j].body);
    let novel2 = novel_records(cands2, store1);
    let deliv2 = delivered_records(novel2, outcomes2);
    lemma_first_failure_bounds(outcomes2);
    assert forall|k: int| 0 <= k < deliv2.len() implies deliv2[k].body != deliv1[j].body by {
        assert(0 <= k < novel2.len());
        assert(deliv2[k] == novel2[k]);
    }
}

/// What is actually delivered is a prefix of the plan: a failure never
/// reorders anything, it only cuts the tail off.
pub proof fn lemma_delivered_prefix_of_plan(plan: Seq<UpdateView>, outcomes: Seq<bool>)
    ensures
        delivered_records(plan, outcomes).len() <= plan.len(),
        forall|k: int|
            0 <= k < delivered_records(plan, outcomes).len() ==> delivered_records(
                plan,
                outcomes,
            )[k] == plan[k],
{
    lemma_first_failure_bounds(outcomes);
}

/// Where the `j`-th record to notify stands in the candidate sequence.
pub open spec fn novel_source_index(cands: Seq<UpdateView>, store: Seq<UpdateView>, j: int) -> int
    decreases cands.len(),
{
    if cands.len() == 0 {
        0
    } else if contains_body(store, cands[0].body) {
        1 + novel_source_index(cands.drop_first(), store, j)
    } else if j == 0 {
        0
    } else {
        1 + novel_source_index(cands.drop_first(), store, j - 1)
    }
}

/// Notification order is chronological: each record of the plan stands in
/// the oldest-first candidate sequence, and successive notifications come
/// from strictly later candidates.
pub proof fn lemma_notification_order(cands: Seq<UpdateView>, store: Seq<UpdateView>, j: int)
    requires
        0 <= j < novel_records(cands, store).len(),
    ensures
        0 <= novel_source_index(cands, store, j) < cands.len(),
        cands[novel_source_index(cands, store, j)] == novel_records(cands, store)[j],
        j > 0 ==> novel_source_index(cands, store, j - 1) < novel_source_index(cands, store, j),
    decreases cands.len(),
{
    let rest = cands.drop_first();
    if contains_body(store, cands[0].body) {
        lemma_notification_order(rest, store, j);
        assert(cands[1 + novel_source_index(rest, store, j)] == rest[novel_source_index(
            rest,
            store,
            j,
        )]);
    } else {
        if j == 0 {
            assert(novel_records(cands, store)[0] == cands[0]);
        } else {
            assert(novel_records(cands, store)[j] == novel_records(rest, store)[j - 1]);
            lemma_notification_order(rest, store, j - 1);
            assert(cands[1 + novel_source_index(rest, store, j - 1)] == rest[novel_source_index(
                rest,
                store,
                j - 1,
            )]);
        }
    }
}

/// The Notifier's message for one entry: the role mention, then the entry
/// in its human-readable form.
pub fn compose_message(roleid: &str, update: &MittyUpdate) -> (r: String)
    ensures
        r@ == "New transmission from Mitty received <@&"@ + roleid@ + ">\n>>> **"@
            + update.title@ + "**: "@ + update.body@,
{
    let mut s = String::from_str("New transmission from Mitty received <@&");
    s.append(roleid);
    s.append(">\n>>> **");
    s.append(update.title.as_str());
    s.append("**: ");
    s.append(update.body.as_str());
    s
}

} // verus!
