//! The time-ordered merge of history entries from many files.
//!
//! All entries are parsed first, in file order and line order, and then
//! stable-sorted by start time: an entry never overtakes an earlier-arrived
//! entry with the same start time, so ties keep their arrival order.

use vstd::prelude::*;

use crate::history::HistoryEntry;

verus! {

/// Place `e` behind every stored entry whose start time is at most its own:
/// the insertion step of a stable sort by start time.
pub open spec fn stable_insert(s: Seq<HistoryEntry>, e: HistoryEntry) -> Seq<HistoryEntry>
    decreases s.len(),
{
    if s.len() == 0 {
        seq![e]
    } else if s.last().start_time <= e.start_time {
        s.push(e)
    } else {
        stable_insert(s.drop_last(), e).push(s.last())
    }
}

/// The stable sort of `s` by start time: entries are taken in arrival order
/// and each goes after all earlier arrivals with an equal or smaller key.
pub open spec fn merge_spec(s: Seq<HistoryEntry>) -> Seq<HistoryEntry>
    decreases s.len(),
{
    if s.len() == 0 {
        Seq::empty()
    } else {
        stable_insert(merge_spec(s.drop_last()), s.last())
    }
}

/// Ordered by start time.
pub open spec fn sorted_by_start(s: Seq<HistoryEntry>) -> bool {
    forall|i: int, j: int| 0 <= i < j < s.len() ==> s[i].start_time <= s[j].start_time
}

/// Inserting at the position found by scanning back over the strictly later
/// entries is exactly the stable insertion.
proof fn lemma_stable_insert_at(s: Seq<HistoryEntry>, e: HistoryEntry, j: int)
    requires
        0 <= j <= s.len(),
        forall|k: int| j <= k < s.len() ==> s[k].start_time > e.start_time,
        j > 0 ==> s[j - 1].start_time <= e.start_time,
    ensures
        stable_insert(s, e) == s.insert(j, e),
    decreases s.len(),
{
    if j == s.len() {
        if s.len() == 0 {
            assert(stable_insert(s, e) =~= s.insert(j, e));
        } else {
            assert(s.last().start_time <= e.start_time);
            assert(s.push(e) =~= s.insert(j, e));
        }
    } else {
        assert(s.last().start_time > e.start_time);
        lemma_stable_insert_at(s.drop_last(), e, j);
        assert(stable_insert(s.drop_last(), e).push(s.last()) =~= s.drop_last().insert(j, e).push(
            s.last(),
        ));
        assert(s.drop_last().insert(j, e).push(s.last()) =~= s.insert(j, e));
    }
}

/// A stable insertion grows the sequence by one.
proof fn lemma_stable_insert_len(s: Seq<HistoryEntry>, e: HistoryEntry)
    ensures
        stable_insert(s, e).len() == s.len() + 1,
    decreases s.len(),
{
    if s.len() > 0 && s.last().start_time > e.start_time {
        lemma_stable_insert_len(s.drop_last(), e);
    }
}

/// Every entry of a stable insertion is the inserted one or one of the old
/// ones.
proof fn lemma_stable_insert_member(s: Seq<HistoryEntry>, e: HistoryEntry, a: int)
    requires
        0 <= a < stable_insert(s, e).len(),
    ensures
        stable_insert(s, e).len() == s.len() + 1,
        stable_insert(s, e)[a] == e || exists|k: int|
            0 <= k < s.len() && stable_insert(s, e)[a] == #[trigger] s[k],
    decreases s.len(),
{
    lemma_stable_insert_len(s, e);
    if s.len() == 0 {
    } else if s.last().start_time <= e.start_time {
        if a < s.len() {
            assert(stable_insert(s, e)[a] == s[a]);
        }
    } else {
        let u = stable_insert(s.drop_last(), e);
        if a < u.len() {
            lemma_stable_insert_member(s.drop_last(), e, a);
            assert(stable_insert(s, e)[a] == u[a]);
            if u[a] != e {
                let k = choose|k: int|
                    0 <= k < s.drop_last().len() && u[a] == #[trigger] s.drop_last()[k];
                assert(s.drop_last()[k] == s[k]);
                assert(stable_insert(s, e)[a] == s[k]);
            }
        } else {
            assert(stable_insert(s, e)[a] == s[s.len() - 1]);
        }
    }
}

/// Stable insertion keeps the order.
proof fn lemma_stable_insert_sorted(s: Seq<HistoryEntry>, e: HistoryEntry)
    requires
        sorted_by_start(s),
    ensures
        sorted_by_start(stable_insert(s, e)),
    decreases s.len(),
{
    if s.len() == 0 {
    } else if s.last().start_time <= e.start_time {
    } else {
        assert(sorted_by_start(s.drop_last()));
        lemma_stable_insert_sorted(s.drop_last(), e);
        let u = stable_insert(s.drop_last(), e);
        let t = u.push(s.last());
        assert(stable_insert(s, e) == t);
        assert forall|a: int, b: int| 0 <= a < b < t.len() implies t[a].start_time
            <= t[b].start_time by {
            if b == t.len() - 1 {
                assert(t[b] == s.last());
                assert(t[a] == u[a]);
                lemma_stable_insert_member(s.drop_last(), e, a);
                if u[a] != e {
                    let k = choose|k: int|
                        0 <= k < s.drop_last().len() && u[a] == #[trigger] s.drop_last()[k];
                    assert(s.drop_last()[k] == s[k]);
                    assert(s[k].start_time <= s[s.len() - 1].start_time);
                }
            } else {
                assert(t[a] == u[a] && t[b] == u[b]);
            }
        }
    }
}

/// The entries of `s` whose start time is `t`, in their order in `s`.
pub open spec fn entries_at(s: Seq<HistoryEntry>, t: u64) -> Seq<HistoryEntry> {
    s.filter(|e: HistoryEntry| e.start_time == t)
}

/// Filtering one key out of a stable insertion: an entry with that key joins
/// at the end of the key's run, any other entry leaves the run unchanged.
proof fn lemma_stable_insert_filter(s: Seq<HistoryEntry>, e: HistoryEntry, t: u64)
    ensures
        entries_at(stable_insert(s, e), t) == if e.start_time == t {
            entries_at(s, t).push(e)
        } else {
            entries_at(s, t)
        },
    decreases s.len(),
{
    reveal(Seq::filter);
    if s.len() == 0 {
        assert(stable_insert(s, e).drop_last() =~= s);
    } else if s.last().start_time <= e.start_time {
        assert(s.push(e).drop_last() =~= s);
    } else {
        lemma_stable_insert_filter(s.drop_last(), e, t);
        let u = stable_insert(s.drop_last(), e);
        assert(stable_insert(s, e) == u.push(s.last()));
        assert(u.push(s.last()).drop_last() =~= u);
        assert(s.drop_last().push(s.last()) =~= s);
    }
}

/// Stability: for every start time, the merged order holds exactly the
/// arrivals with that start time, still in arrival order.
pub proof fn lemma_merge_spec_stable(s: Seq<HistoryEntry>, t: u64)
    ensures
        entries_at(merge_spec(s), t) == entries_at(s, t),
    decreases s.len(),
{
    reveal(Seq::filter);
    if s.len() == 0 {
    } else {
        lemma_merge_spec_stable(s.drop_last(), t);
        lemma_stable_insert_filter(merge_spec(s.drop_last()), s.last(), t);
        assert(s.drop_last().push(s.last()) =~= s);
    }
}

/// The merged order is sorted by start time.
pub proof fn lemma_merge_spec_sorted(s: Seq<HistoryEntry>)
    ensures
        sorted_by_start(merge_spec(s)),
    decreases s.len(),
{
    if s.len() == 0 {
    } else {
        lemma_merge_spec_sorted(s.drop_last());
        lemma_stable_insert_sorted(merge_spec(s.drop_last()), s.last());
    }
}

/// Stable-sort parsed entries by start time: the in-memory step of merging
/// many history files whose entries arrive in file order.
pub fn merge_entries(entries: Vec<HistoryEntry>) -> (r: Vec<HistoryEntry>)
    ensures
        r@ == merge_spec(entries@),
        sorted_by_start(r@),
{
    let ghost orig = entries@;
    let mut rest = entries;
    let mut out: Vec<HistoryEntry> = Vec::new();
    proof {
        assert(orig.take(0) =~= Seq::<HistoryEntry>::empty());
        assert(out@ =~= merge_spec(orig.take(0)));
    }
    let ghost done: int = 0;
    while rest.len() > 0
        invariant
            0 <= done <= orig.len(),
            rest@ == orig.skip(done),
            out@ == merge_spec(orig.take(done)),
        decreases rest@.len(),
    {
        let e = rest.remove(0);
        proof {
            assert(orig.skip(done).len() > 0);
            assert(e == orig[done]);
            assert(rest@ =~= orig.skip(done + 1));
        }
        let mut j = out.len();
        while j > 0 && out[j - 1].start_time > e.start_time
            invariant
                j <= out@.len(),
                forall|k: int| j <= k < out@.len() ==> out@[k].start_time > e.start_time,
            ensures
                j <= out@.len(),
                forall|k: int| j <= k < out@.len() ==> out@[k].start_time > e.start_time,
                j > 0 ==> out@[j - 1].start_time <= e.start_time,
            decreases j,
        {
            j -= 1;
        }
        let ghost out0 = out@;
        out.insert(j, e);
        proof {
            lemma_stable_insert_at(out0, e, j as int);
            assert(orig.take(done + 1).drop_last() =~= orig.take(done));
            assert(orig.take(done + 1).last() == orig[done]);
            assert(out@ == stable_insert(merge_spec(orig.take(done)), e));
        }
        proof {
            done = done + 1;
        }
    }
    proof {
        assert(orig.take(done) =~= orig);
        lemma_merge_spec_sorted(orig);
    }
    out
}

} // verus!
