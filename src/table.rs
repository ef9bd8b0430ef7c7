use vstd::prelude::*;

verus! {

/// How many entries a leaderboard keeps.
pub const CAPACITY: usize = 10;

/// One submitted score.
#[derive(Clone, Debug, PartialEq, Eq)]
pub struct HighScoreEntry {
    pub name: String,
    pub score: u32,
}

/// The mathematical value of an entry.
pub struct EntryView {
    pub name: Seq<char>,
    pub score: u32,
}

impl View for HighScoreEntry {
    type V = EntryView;

    open spec fn view(&self) -> EntryView {
        EntryView { name: self.name@, score: self.score }
    }
}

/// Scores never rise from one entry to a later one.
pub open spec fn ranked(s: Seq<EntryView>) -> bool {
    forall|i: int, j: int| 0 <= i < j < s.len() ==> s[i].score >= s[j].score
}

/// What a leaderboard may hold: at most `CAPACITY` entries, ranked.
pub open spec fn well_formed(s: Seq<EntryView>) -> bool {
    s.len() <= CAPACITY && ranked(s)
}

/// Where a new entry with `score` joins `s`: just after the last entry that
/// scores at least as much, so that equal scores keep their arrival order.
pub open spec fn insertion_point(s: Seq<EntryView>, score: u32) -> int
    decreases s.len(),
{
    if s.len() == 0 {
        0
    } else if s.last().score >= score {
        s.len() as int
    } else {
        insertion_point(s.drop_last(), score)
    }
}

/// `s` with `e` placed at its rank.
pub open spec fn ranked_insert(s: Seq<EntryView>, e: EntryView) -> Seq<EntryView> {
    let k = insertion_point(s, e.score);
    s.take(k).push(e) + s.skip(k)
}

/// The leaderboard after one submission: `e` placed at its rank, then all but
/// the first `CAPACITY` entries dropped.
pub open spec fn submit(s: Seq<EntryView>, e: EntryView) -> Seq<EntryView> {
    let r = ranked_insert(s, e);
    if r.len() > CAPACITY {
        r.take(CAPACITY as int)
    } else {
        r
    }
}

/// The leaderboard after the submissions `subs`, made one after another.
pub open spec fn submit_all(s: Seq<EntryView>, subs: Seq<EntryView>) -> Seq<EntryView>
    decreases subs.len(),
{
    if subs.len() == 0 {
        s
    } else {
        submit(submit_all(s, subs.drop_last()), subs.last())
    }
}

/// The ranked collection of the best scores submitted so far.
pub struct HighScoreTable {
    entries: Vec<HighScoreEntry>,
}

impl View for HighScoreTable {
    type V = Seq<EntryView>;

    closed spec fn view(&self) -> Seq<EntryView> {
        views(self.entries@)
    }
}

/// Why a list of entries is not a leaderboard.
#[derive(Clone, Copy, Debug, PartialEq, Eq)]
pub enum StateError {
    /// More than `CAPACITY` entries.
    TooManyEntries,
    /// A score higher than the one before it.
    NotRanked,
}

/// The values of a list of entries.
pub open spec fn views(v: Seq<HighScoreEntry>) -> Seq<EntryView> {
    v.map_values(|e: HighScoreEntry| e@)
}

impl HighScoreTable {
    /// Every leaderboard is well formed.
    #[verifier::type_invariant]
    spec fn inv(&self) -> bool {
        well_formed(views(self.entries@))
    }

    /// The leaderboard is well formed (which its type invariant keeps true).
    pub open spec fn wf(&self) -> bool {
        well_formed(self@)
    }

    /// An empty leaderboard.
    pub fn new() -> (t: HighScoreTable)
        ensures
            t@ == Seq::<EntryView>::empty(),
            t.wf(),
    {
        let t = HighScoreTable { entries: Vec::new() };
        assert(t@ =~= Seq::<EntryView>::empty());
        t
    }

    /// Takes over a stored list of entries, as is, if it is a leaderboard.
    pub fn from_entries(entries: Vec<HighScoreEntry>) -> (r: Result<HighScoreTable, StateError>)
        ensures
            match r {
                Ok(t) => t@ == views(entries@) && t.wf(),
                Err(StateError::TooManyEntries) => entries@.len() > CAPACITY,
                Err(StateError::NotRanked) => entries@.len() <= CAPACITY && !ranked(views(entries@)),
            },
            r is Ok <==> well_formed(views(entries@)),
    {
        if entries.len() > CAPACITY {
            return Err(StateError::TooManyEntries);
        }
        let ghost s = views(entries@);
        let mut i: usize = 1;
        while i < entries.len()
            invariant
                s == views(entries@),
                1 <= i,
                entries@.len() <= CAPACITY,
                forall|a: int, b: int| 0 <= a < b < i && b < s.len() ==> s[a].score >= s[b].score,
            decreases entries.len() - i,
        {
            if entries[i - 1].score < entries[i].score {
                assert(!ranked(s)) by {
                    assert(s[i - 1].score < s[i as int].score);
                }
                return Err(StateError::NotRanked);
            }
            assert forall|a: int, b: int| 0 <= a < b < i + 1 && b < s.len() implies s[a].score
                >= s[b].score by {
                if b == i && a < i - 1 {
                    assert(s[a].score >= s[i - 1].score);
                }
            }
            i = i + 1;
        }
        Ok(HighScoreTable { entries })
    }

    /// The entries, best first.
    pub fn entries(&self) -> (r: &Vec<HighScoreEntry>)
        ensures
            views(r@) == self@,
    {
        &self.entries
    }

    /// A copy of the entries, best first.
    pub fn snapshot(&self) -> (r: Vec<HighScoreEntry>)
        ensures
            views(r@) == self@,
    {
        let mut r: Vec<HighScoreEntry> = Vec::new();
        let mut i: usize = 0;
        while i < self.entries.len()
            invariant
                i <= self.entries@.len(),
                r@.len() == i,
                views(r@) == self@.take(i as int),
            decreases self.entries.len() - i,
        {
            let e = &self.entries[i];
            let copy = HighScoreEntry { name: e.name.clone(), score: e.score };
            assert(copy@ == self@[i as int]);
            let ghost before = r@;
            r.push(copy);
            assert(r@ == before.push(copy));
            assert forall|j: int| 0 <= j < i + 1 implies views(r@)[j] == self@.take(i + 1)[j] by {
                if j < i {
                    assert(r@[j] == before[j]);
                    assert(views(before)[j] == self@.take(i as int)[j]);
                }
            }
            assert(views(r@) =~= self@.take(i + 1));
            i = i + 1;
        }
        assert(self@.take(i as int) =~= self@);
        r
    }

    /// Places `entry` at its rank and keeps the first `CAPACITY` entries.
    /// Saving the result is the caller's part.
    pub fn add_entry(&mut self, entry: HighScoreEntry)
        ensures
            final(self)@ == submit(old(self)@, entry@),
            final(self).wf(),
    {
        proof {
            use_type_invariant(&*self);
        }
        let ghost s = self@;
        let mut i: usize = self.entries.len();
        assert(s.take(i as int) =~= s);
        while i > 0 && self.entries[i - 1].score < entry.score
            invariant
                self@ == s,
                i <= s.len(),
                insertion_point(s, entry.score) == insertion_point(s.take(i as int), entry.score),
            decreases i,
        {
            assert(s.take(i as int).drop_last() =~= s.take(i - 1));
            i = i - 1;
        }
        proof {
            if i > 0 {
                assert(s.take(i as int).last() == s[i - 1]);
            } else {
                assert(s.take(0) =~= Seq::<EntryView>::empty());
            }
            lemma_submit_keeps_ranking(s, entry@);
        }
        let mut entries = self.snapshot();
        entries.insert(i, entry);
        assert(views(entries@) =~= ranked_insert(s, entry@));
        entries.truncate(CAPACITY);
        assert(views(entries@) =~= submit(s, entry@));
        *self = HighScoreTable { entries };
    }
}

/// In a ranked sequence the insertion point splits the entries that score at
/// least `score` from those that score less.
pub proof fn lemma_insertion_point(s: Seq<EntryView>, score: u32)
    requires
        ranked(s),
    ensures
        0 <= insertion_point(s, score) <= s.len(),
        forall|i: int| 0 <= i < insertion_point(s, score) ==> s[i].score >= score,
        forall|i: int| insertion_point(s, score) <= i < s.len() ==> s[i].score < score,
    decreases s.len(),
{
    if s.len() > 0 && s.last().score < score {
        let t = s.drop_last();
        assert(ranked(t));
        lemma_insertion_point(t, score);
        assert forall|i: int| insertion_point(s, score) <= i < s.len() implies s[i].score
            < score by {
            if i < t.len() {
                assert(s[i] == t[i]);
            }
        }
        assert forall|i: int| 0 <= i < insertion_point(s, score) implies s[i].score
            >= score by {
            assert(s[i] == t[i]);
        }
    }
}

/// One submission keeps a leaderboard well formed.
pub proof fn lemma_submit_keeps_ranking(s: Seq<EntryView>, e: EntryView)
    requires
        well_formed(s),
    ensures
        well_formed(submit(s, e)),
{
    lemma_insertion_point(s, e.score);
    let k = insertion_point(s, e.score);
    let r = ranked_insert(s, e);
    assert forall|i: int, j: int| 0 <= i < j < r.len() implies r[i].score >= r[j].score by {
        if j < k {
        } else if j == k {
        } else if i < k {
            assert(r[j] == s[j - 1]);
        } else if i == k {
            assert(r[j] == s[j - 1]);
        } else {
            assert(r[i] == s[i - 1]);
            assert(r[j] == s[j - 1]);
        }
    }
}

} // verus!
