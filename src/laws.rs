use vstd::prelude::*;
use crate::render::{page, page_head, row, rows};
use crate::table::{
    insertion_point, lemma_insertion_point, lemma_submit_keeps_ranking, ranked_insert, submit,
    submit_all, views, well_formed, EntryView, HighScoreEntry, HighScoreTable, CAPACITY,
};

verus! {

broadcast use vstd::seq_lib::group_to_multiset_ensures, vstd::multiset::group_multiset_axioms;

/// However many submissions are made, one after another, the leaderboard
/// holds at most `CAPACITY` entries and stays ranked after each of them.
pub proof fn lemma_submissions_keep_ranking(s: Seq<EntryView>, subs: Seq<EntryView>)
    requires
        well_formed(s),
    ensures
        forall|k: int| 0 <= k <= subs.len() ==> #[trigger] well_formed(submit_all(s, subs.take(k))),
    decreases subs.len(),
{
    assert forall|k: int| 0 <= k <= subs.len() implies #[trigger] well_formed(
        submit_all(s, subs.take(k)),
    ) by {
        lemma_submit_all_keeps_ranking(s, subs.take(k));
    }
}

proof fn lemma_submit_all_keeps_ranking(s: Seq<EntryView>, subs: Seq<EntryView>)
    requires
        well_formed(s),
    ensures
        well_formed(submit_all(s, subs)),
    decreases subs.len(),
{
    if subs.len() > 0 {
        lemma_submit_all_keeps_ranking(s, subs.drop_last());
        lemma_submit_keeps_ranking(submit_all(s, subs.drop_last()), subs.last());
    }
}

/// A full leaderboard is left as it was by a submission that scores below
/// every entry it holds.
pub proof fn lemma_low_score_discarded(s: Seq<EntryView>, e: EntryView)
    requires
        well_formed(s),
        s.len() == CAPACITY,
        forall|i: int| 0 <= i < s.len() ==> e.score < #[trigger] s[i].score,
    ensures
        submit(s, e) == s,
{
    assert(s.last().score >= e.score);
    assert(insertion_point(s, e.score) == s.len());
    assert(s.skip(s.len() as int) =~= Seq::<EntryView>::empty());
    assert(s.take(s.len() as int) =~= s);
    assert(submit(s, e) =~= s);
}

/// One submission: the entries afterwards are some of those before it and
/// the one submitted, and none is lost but what exceeds `CAPACITY`.
proof fn lemma_submit_conserves(s: Seq<EntryView>, e: EntryView)
    requires
        well_formed(s),
    ensures
        submit(s, e).to_multiset().subset_of(s.to_multiset().insert(e)),
        submit(s, e).len() == if s.len() + 1 > CAPACITY { CAPACITY as nat } else { s.len() + 1 },
{
    lemma_insertion_point(s, e.score);
    let k = insertion_point(s, e.score);
    let r = ranked_insert(s, e);
    vstd::seq_lib::lemma_multiset_commutative(s.take(k).push(e), s.skip(k));
    vstd::seq_lib::lemma_multiset_commutative(s.take(k), s.skip(k));
    assert(s.take(k) + s.skip(k) =~= s);
    assert(r.to_multiset() =~= s.to_multiset().insert(e));
    if r.len() > CAPACITY {
        let c = CAPACITY as int;
        vstd::seq_lib::lemma_multiset_commutative(r.take(c), r.skip(c));
        assert(r.take(c) + r.skip(c) =~= r);
    }
}

/// Submissions made one after another, in whatever order a lock lets them
/// through: the leaderboard then holds only entries that were there or were
/// submitted, each at most as often as it was, and exactly as many as fit.
pub proof fn lemma_submissions_conserve_entries(s: Seq<EntryView>, subs: Seq<EntryView>)
    requires
        well_formed(s),
    ensures
        submit_all(s, subs).to_multiset().subset_of(s.to_multiset().add(subs.to_multiset())),
        submit_all(s, subs).len() == if s.len() + subs.len() > CAPACITY {
            CAPACITY as nat
        } else {
            s.len() + subs.len()
        },
    decreases subs.len(),
{
    if subs.len() > 0 {
        let init = subs.drop_last();
        let prev = submit_all(s, init);
        lemma_submissions_conserve_entries(s, init);
        lemma_submit_all_keeps_ranking(s, init);
        lemma_submit_conserves(prev, subs.last());
        assert(init.push(subs.last()) =~= subs);
        assert(subs.to_multiset() =~= init.to_multiset().insert(subs.last()));
    }
}

/// The library's half of saving and reloading: entries read back with the
/// values of a leaderboard's entries, in the same order, form a leaderboard,
/// so `HighScoreTable::from_entries` takes them over unchanged.
pub proof fn lemma_saved_entries_reload(t: HighScoreTable, saved: Seq<HighScoreEntry>)
    requires
        t.wf(),
        views(saved) == t@,
    ensures
        well_formed(views(saved)),
{
}

/// Where the row of entry `i` of `s` starts in the rendered leaderboard.
pub open spec fn row_start(s: Seq<EntryView>, i: int) -> int {
    (page_head().len() + rows(s.take(i)).len()) as int
}

proof fn lemma_rows_concat(a: Seq<EntryView>, b: Seq<EntryView>)
    ensures
        rows(a + b) == rows(a) + rows(b),
    decreases b.len(),
{
    if b.len() == 0 {
        assert(a + b =~= a);
        assert(rows(a) + rows(b) =~= rows(a));
    } else {
        lemma_rows_concat(a, b.drop_last());
        assert((a + b).drop_last() =~= a + b.drop_last());
        assert((a + b).last() == b.last());
        assert(rows(a + b) =~= rows(a) + rows(b));
    }
}

/// The rendered leaderboard lists the entries of the leaderboard, and only
/// them, in the same order: after the header, the row of each entry follows
/// the row of the one before it, and the closing tag follows the last.
pub proof fn lemma_rendered_rows_match_entries(s: Seq<EntryView>)
    ensures
        row_start(s, 0) == page_head().len(),
        forall|i: int|
            0 <= i < s.len() ==> row_start(s, i + 1) == row_start(s, i) + row(s[i]).len()
                && page(s).subrange(row_start(s, i), row_start(s, i + 1)) == row(#[trigger] s[i]),
        page(s) == page_head() + rows(s) + "</table>"@,
        page(s).len() == row_start(s, s.len() as int) + "</table>"@.len(),
{
    assert(s.take(0) =~= Seq::<EntryView>::empty());
    assert(s.take(s.len() as int) =~= s);
    assert forall|i: int| 0 <= i < s.len() implies row_start(s, i + 1) == row_start(s, i) + row(
        s[i],
    ).len() && page(s).subrange(row_start(s, i), row_start(s, i + 1)) == row(
        #[trigger] s[i],
    ) by {
        let head = s.take(i);
        let rest = s.skip(i + 1);
        assert(s.take(i + 1).drop_last() =~= head);
        assert(s.take(i + 1) + rest =~= s);
        lemma_rows_concat(s.take(i + 1), rest);
        let p = page(s);
        let a = page_head() + rows(head);
        assert(p =~= a + row(s[i]) + (rows(rest) + "</table>"@));
        assert(p.subrange(a.len() as int, (a.len() + row(s[i]).len()) as int) =~= row(s[i]));
    }
}

} // verus!
