//! The accumulating map from owner id to every process id seen for it.
use crate::parse::{listing_records, parse_ps_output, ProcessRecord};
use std::collections::HashSet;
use vstd::prelude::*;

verus! {

broadcast use vstd::std_specs::hash::group_hash_axioms;

/// Number of distinct processes seen for one owner, as reported to readers.
#[derive(Clone, Copy, Debug, PartialEq, Eq, Structural)]
pub struct UserProcessCount {
    pub uid: usize,
    pub process_count: usize,
}

/// One owner with the set of process ids seen for it.
struct UserEntry {
    uid: usize,
    pids: HashSet<usize>,
}

/// Owner id to the set of process ids ever observed for that owner. Entries
/// are kept in strictly descending order of owner id, which is the order a
/// snapshot reports them in.
pub struct Aggregate {
    entries: Vec<UserEntry>,
}

/// The map after one record is merged: the owner is present, and its set
/// holds the process id.
pub open spec fn merge_record(m: Map<usize, Set<usize>>, r: ProcessRecord) -> Map<usize, Set<usize>> {
    if m.contains_key(r.uid) {
        m.insert(r.uid, m[r.uid].insert(r.pid))
    } else {
        m.insert(r.uid, set![r.pid])
    }
}

/// The map after each record of `rs` is merged, in order.
pub open spec fn merge_records(m: Map<usize, Set<usize>>, rs: Seq<ProcessRecord>) -> Map<
    usize,
    Set<usize>,
>
    decreases rs.len(),
{
    if rs.len() == 0 {
        m
    } else {
        merge_record(merge_records(m, rs.drop_last()), rs.last())
    }
}

/// Number of process ids seen for `uid`, `0` for an owner never seen.
pub open spec fn process_count(m: Map<usize, Set<usize>>, uid: usize) -> nat {
    if m.contains_key(uid) {
        m[uid].len()
    } else {
        0
    }
}

/// Every owner's set of process ids is finite.
pub open spec fn pids_finite(m: Map<usize, Set<usize>>) -> bool {
    forall|u: usize| #[trigger] m.contains_key(u) ==> m[u].finite()
}

/// `s` lists every owner of `m` once, in strictly descending order of owner
/// id, each with the size of its set.
pub open spec fn is_snapshot_of(s: Seq<UserProcessCount>, m: Map<usize, Set<usize>>) -> bool {
    &&& forall|i: int, j: int| 0 <= i < j < s.len() ==> s[i].uid > s[j].uid
    &&& forall|i: int|
        0 <= i < s.len() ==> m.contains_key(#[trigger] s[i].uid) && s[i].process_count
            == m[s[i].uid].len()
    &&& forall|u: usize| #[trigger]
        m.contains_key(u) ==> exists|i: int| 0 <= i < s.len() && s[i].uid == u
}

spec fn has_uid(es: Seq<UserEntry>, u: usize) -> bool {
    exists|i: int| 0 <= i < es.len() && es[i].uid == u
}

spec fn entries_view(es: Seq<UserEntry>) -> Map<usize, Set<usize>> {
    Map::new(
        |u: usize| has_uid(es, u),
        |u: usize| es[choose|i: int| 0 <= i < es.len() && es[i].uid == u].pids@,
    )
}

spec fn entries_wf(es: Seq<UserEntry>) -> bool {
    &&& forall|i: int, j: int| 0 <= i < j < es.len() ==> es[i].uid > es[j].uid
    &&& forall|i: int| 0 <= i < es.len() ==> (#[trigger] es[i]).pids@.finite()
}

proof fn lemma_view_at(es: Seq<UserEntry>, i: int)
    requires
        entries_wf(es),
        0 <= i < es.len(),
    ensures
        entries_view(es).contains_key(es[i].uid),
        entries_view(es)[es[i].uid] == es[i].pids@,
{
    let u = es[i].uid;
    assert(has_uid(es, u));
    let k = choose|k: int| 0 <= k < es.len() && es[k].uid == u;
    if k < i {
        assert(es[k].uid > es[i].uid);
    } else if i < k {
        assert(es[i].uid > es[k].uid);
    }
}

/// Adds one record: the owner is created with an empty set if absent, and
/// the process id joins its set.
fn merge_one(entries: &mut Vec<UserEntry>, r: ProcessRecord)
    requires
        entries_wf(old(entries)@),
    ensures
        entries_wf(final(entries)@),
        entries_view(final(entries)@) == merge_record(entries_view(old(entries)@), r),
{
    let ghost es = entries@;
    let len = entries.len();
    let mut i: usize = 0;
    while i < len && entries[i].uid > r.uid
        invariant
            i <= len == entries@.len(),
            entries@ == es,
            forall|k: int| 0 <= k < i ==> es[k].uid > r.uid,
        decreases len - i,
    {
        i = i + 1;
    }
    if i < len && entries[i].uid == r.uid {
        let mut e = entries.remove(i);
        let ghost old_pids = e.pids@;
        e.pids.insert(r.pid);
        entries.insert(i, e);
        let ghost es2 = entries@;
        assert(es2 =~= es.update(i as int, e));
        proof {
            lemma_view_at(es, i as int);
            lemma_view_at(es2, i as int);
            assert forall|u: usize| #[trigger]
                entries_view(es2).contains_key(u) == merge_record(entries_view(es), r).contains_key(u)
                    && (entries_view(es2).contains_key(u) ==> entries_view(es2)[u]
                    == merge_record(entries_view(es), r)[u]) by {
                if u != r.uid {
                    if has_uid(es, u) {
                        let k = choose|k: int| 0 <= k < es.len() && es[k].uid == u;
                        lemma_view_at(es, k);
                        lemma_view_at(es2, k);
                    }
                    if has_uid(es2, u) {
                        let k = choose|k: int| 0 <= k < es2.len() && es2[k].uid == u;
                        lemma_view_at(es, k);
                    }
                }
            }
            assert(entries_view(es2) =~= merge_record(entries_view(es), r));
        }
    } else {
        let mut p: HashSet<usize> = HashSet::new();
        p.insert(r.pid);
        let e = UserEntry { uid: r.uid, pids: p };
        entries.insert(i, e);
        let ghost es2 = entries@;
        assert(es2 =~= es.insert(i as int, e));
        proof {
            assert(!has_uid(es, r.uid)) by {
                if has_uid(es, r.uid) {
                    let k = choose|k: int| 0 <= k < es.len() && es[k].uid == r.uid;
                    if k >= i {
                        assert(es[i as int].uid < r.uid);
                    }
                }
            }
            assert forall|a: int, b: int| 0 <= a < b < es2.len() implies es2[a].uid
                > es2[b].uid by {
                if b == i {
                } else if a == i {
                    assert(es[i as int].uid < r.uid);
                }
            }
            lemma_view_at(es2, i as int);
            assert forall|u: usize| #[trigger]
                entries_view(es2).contains_key(u) == merge_record(entries_view(es), r).contains_key(u)
                    && (entries_view(es2).contains_key(u) ==> entries_view(es2)[u]
                    == merge_record(entries_view(es), r)[u]) by {
                if u != r.uid {
                    if has_uid(es, u) {
                        let k = choose|k: int| 0 <= k < es.len() && es[k].uid == u;
                        lemma_view_at(es, k);
                        if k < i {
                            lemma_view_at(es2, k);
                        } else {
                            lemma_view_at(es2, k + 1);
                        }
                    }
                    if has_uid(es2, u) {
                        let k = choose|k: int| 0 <= k < es2.len() && es2[k].uid == u;
                        if k < i {
                            lemma_view_at(es, k);
                        } else if k > i {
                            lemma_view_at(es, k - 1);
                        }
                    }
                }
            }
            assert(entries_view(es2) =~= merge_record(entries_view(es), r));
        }
    }
}

proof fn lemma_entries_finite(es: Seq<UserEntry>)
    requires
        entries_wf(es),
    ensures
        pids_finite(entries_view(es)),
{
    assert forall|u: usize| #[trigger] entries_view(es).contains_key(u) implies entries_view(
        es,
    )[u].finite() by {
        let k = choose|k: int| 0 <= k < es.len() && es[k].uid == u;
        lemma_view_at(es, k);
    }
}

impl View for Aggregate {
    type V = Map<usize, Set<usize>>;

    closed spec fn view(&self) -> Map<usize, Set<usize>> {
        entries_view(self.entries@)
    }
}

impl Aggregate {
    /// The aggregate's invariant: owners unique and ordered, sets finite.
    #[verifier::type_invariant]
    spec fn wf(&self) -> bool {
        entries_wf(self.entries@)
    }

    /// An empty aggregate.
    pub fn new() -> (r: Aggregate)
        ensures
            r@ == Map::<usize, Set<usize>>::empty(),
    {
        let r = Aggregate { entries: Vec::new() };
        assert(r@ =~= Map::<usize, Set<usize>>::empty());
        r
    }

    /// Merges a batch of records, in order, as one step: every owner's set
    /// gains the process ids the batch holds for it.
    pub fn merge(&mut self, records: &[ProcessRecord])
        ensures
            final(self)@ == merge_records(old(self)@, records@),
            pids_finite(final(self)@),
    {
        proof {
            use_type_invariant(&*self);
        }
        let mut entries: Vec<UserEntry> = Vec::new();
        std::mem::swap(&mut entries, &mut self.entries);
        let ghost start = entries_view(entries@);
        let mut i: usize = 0;
        while i < records.len()
            invariant
                i <= records@.len(),
                entries_wf(entries@),
                entries_view(entries@) == merge_records(start, records@.take(i as int)),
            decreases records@.len() - i,
        {
            merge_one(&mut entries, records[i]);
            assert(records@.take(i + 1).drop_last() =~= records@.take(i as int));
            i = i + 1;
        }
        assert(records@.take(i as int) =~= records@);
        proof {
            lemma_entries_finite(entries@);
        }
        self.entries = entries;
    }

    /// The owners with their process counts, in descending order of owner id.
    /// The counts are copies: later merges do not change them.
    pub fn snapshot(&self) -> (r: Vec<UserProcessCount>)
        ensures
            is_snapshot_of(r@, self@),
    {
        proof {
            use_type_invariant(self);
        }
        let mut out: Vec<UserProcessCount> = Vec::new();
        let len = self.entries.len();
        let mut i: usize = 0;
        while i < len
            invariant
                i <= len == self.entries@.len(),
                out@.len() == i,
                forall|k: int|
                    0 <= k < i ==> (#[trigger] out@[k]).uid == self.entries@[k].uid
                        && out@[k].process_count == self.entries@[k].pids@.len(),
            decreases len - i,
        {
            let e = &self.entries[i];
            out.push(UserProcessCount { uid: e.uid, process_count: e.pids.len() });
            i = i + 1;
        }
        proof {
            let es = self.entries@;
            assert forall|k: int| 0 <= k < out@.len() implies self@.contains_key(
                #[trigger] out@[k].uid,
            ) && out@[k].process_count == self@[out@[k].uid].len() by {
                lemma_view_at(es, k);
            }
            assert forall|u: usize| #[trigger] self@.contains_key(u) implies exists|k: int|
                0 <= k < out@.len() && out@[k].uid == u by {
                let k = choose|k: int| 0 <= k < es.len() && es[k].uid == u;
                assert(out@[k].uid == u);
            }
        }
        out
    }
}

/// The process ids that the records of `rs` carry for owner `uid`.
pub open spec fn pids_in(rs: Seq<ProcessRecord>, uid: usize) -> Set<usize> {
    Set::new(|p: usize| exists|i: int| 0 <= i < rs.len() && rs[i].uid == uid && rs[i].pid == p)
}

/// Merging the same record twice leaves the map, and so every count, as
/// merging it once does.
pub proof fn lemma_merge_idempotent(m: Map<usize, Set<usize>>, r: ProcessRecord)
    ensures
        merge_records(m, seq![r, r]) == merge_records(m, seq![r]),
        forall|u: usize|
            process_count(merge_records(m, seq![r, r]), u) == process_count(
                merge_records(m, seq![r]),
                u,
            ),
{
    assert(seq![r, r].drop_last() =~= seq![r]);
    assert(seq![r].drop_last() =~= Seq::<ProcessRecord>::empty());
    assert(merge_records(m, Seq::<ProcessRecord>::empty()) == m);
    let once = merge_record(m, r);
    assert(merge_records(m, seq![r]) == once);
    assert(once[r.uid].insert(r.pid) =~= once[r.uid]);
    assert(merge_record(once, r) =~= once);
    assert(merge_records(m, seq![r, r]) == merge_record(once, r));
}

/// Merging is a union: after a batch, an owner is present exactly when it
/// was before or some record names it, and its set is its former set joined
/// with the process ids the batch carries for it.
pub proof fn lemma_merge_union(m: Map<usize, Set<usize>>, rs: Seq<ProcessRecord>, uid: usize)
    ensures
        merge_records(m, rs).contains_key(uid) <==> (m.contains_key(uid) || exists|i: int|
            0 <= i < rs.len() && rs[i].uid == uid),
        merge_records(m, rs).contains_key(uid) ==> merge_records(m, rs)[uid] == (if m.contains_key(
            uid,
        ) {
            m[uid]
        } else {
            Set::<usize>::empty()
        }).union(pids_in(rs, uid)),
    decreases rs.len(),
{
    if rs.len() > 0 {
        let init = rs.drop_last();
        let r = rs.last();
        lemma_merge_union(m, init, uid);
        let base = if m.contains_key(uid) {
            m[uid]
        } else {
            Set::<usize>::empty()
        };
        if r.uid == uid {
            assert(pids_in(rs, uid) =~= pids_in(init, uid).insert(r.pid)) by {
                assert forall|p: usize| pids_in(rs, uid).contains(p) implies #[trigger] pids_in(
                    init,
                    uid,
                ).insert(r.pid).contains(p) by {
                    let i = choose|i: int| 0 <= i < rs.len() && rs[i].uid == uid && rs[i].pid == p;
                    if i < rs.len() - 1 {
                        assert(init[i] == rs[i]);
                    }
                }
                assert forall|p: usize| #[trigger] pids_in(init, uid).contains(p) implies pids_in(
                    rs,
                    uid,
                ).contains(p) by {
                    let i = choose|i: int|
                        0 <= i < init.len() && init[i].uid == uid && init[i].pid == p;
                    assert(rs[i] == init[i]);
                }
                assert(rs[rs.len() - 1] == r);
            }
            assert(merge_records(m, rs)[uid] =~= base.union(pids_in(rs, uid)));
            assert(rs[rs.len() - 1].uid == uid);
        } else {
            assert(pids_in(rs, uid) =~= pids_in(init, uid)) by {
                assert forall|p: usize| pids_in(rs, uid).contains(p) implies #[trigger] pids_in(
                    init,
                    uid,
                ).contains(p) by {
                    let i = choose|i: int| 0 <= i < rs.len() && rs[i].uid == uid && rs[i].pid == p;
                    assert(init[i] == rs[i]);
                }
                assert forall|p: usize| #[trigger] pids_in(init, uid).contains(p) implies pids_in(
                    rs,
                    uid,
                ).contains(p) by {
                    let i = choose|i: int|
                        0 <= i < init.len() && init[i].uid == uid && init[i].pid == p;
                    assert(rs[i] == init[i]);
                }
            }
            if exists|i: int| 0 <= i < rs.len() && rs[i].uid == uid {
                let i = choose|i: int| 0 <= i < rs.len() && rs[i].uid == uid;
                assert(init[i] == rs[i]);
            }
            if exists|i: int| 0 <= i < init.len() && init[i].uid == uid {
                let i = choose|i: int| 0 <= i < init.len() && init[i].uid == uid;
                assert(init[i] == rs[i]);
            }
        }
    } else {
        assert(pids_in(rs, uid) =~= Set::<usize>::empty());
        if m.contains_key(uid) {
            assert(m[uid].union(Set::<usize>::empty()) =~= m[uid]);
        }
    }
}

/// Counts never shrink: for every owner, the count after a batch is at least
/// the count before it, and the sets stay finite.
pub proof fn lemma_merge_monotone(m: Map<usize, Set<usize>>, rs: Seq<ProcessRecord>, uid: usize)
    requires
        pids_finite(m),
    ensures
        pids_finite(merge_records(m, rs)),
        process_count(m, uid) <= process_count(merge_records(m, rs), uid),
    decreases rs.len(),
{
    if rs.len() > 0 {
        let init = rs.drop_last();
        let r = rs.last();
        lemma_merge_monotone(m, init, uid);
        let mid = merge_records(m, init);
        let next = merge_records(m, rs);
        assert forall|u: usize| #[trigger] next.contains_key(u) implies next[u].finite() by {
            if u == r.uid && mid.contains_key(u) {
                assert(mid[u].finite());
            }
        }
        if mid.contains_key(uid) && uid == r.uid {
            vstd::set_lib::lemma_len_subset(mid[uid], next[uid]);
        }
    }
}

/// One sampling pass on a process listing already read: its records are
/// parsed and merged into the aggregate.
pub fn update_users(users: &mut Aggregate, ps_output: &[u8])
    ensures
        final(users)@ == merge_records(old(users)@, listing_records(ps_output@)),
        pids_finite(final(users)@),
{
    let records = parse_ps_output(ps_output);
    users.merge(records.as_slice());
}

} // verus!
