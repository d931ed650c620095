//! The tally facade: collects rankings per voter, commits them all at once,
//! and determines the winner.

use vstd::prelude::*;
use crate::codec::{candidates_of, message_text, ranking_verdict, validate, VoteErrorKind};
use crate::pending::PendingVotes;
use crate::tally::{election_winner, BallotBox};

verus! {

/// The error of the first of `rankings` that is rejected, if any is.
pub open spec fn first_failure(rankings: Seq<Seq<i32>>) -> Option<VoteErrorKind>
    decreases rankings.len(),
{
    if rankings.len() == 0 {
        None
    } else {
        match ranking_verdict(rankings[0]) {
            Err(e) => Some(e),
            Ok(_) => first_failure(rankings.drop_first()),
        }
    }
}

/// The candidate lists that committing `rankings` adds to the ballots that
/// rank someone, in order.
pub open spec fn ranked_lists(rankings: Seq<Seq<i32>>) -> Seq<Seq<u32>>
    decreases rankings.len(),
{
    if rankings.len() == 0 {
        Seq::empty()
    } else {
        let rest = ranked_lists(rankings.drop_last());
        let c = candidates_of(rankings.last());
        if c.len() == 0 {
            rest
        } else {
            rest.push(c)
        }
    }
}

/// What probing a raw ranking reports: whether it is valid, and the text of
/// its error (empty when valid).
pub open spec fn probe_outcome(raw: Seq<i32>) -> (bool, Seq<char>) {
    match ranking_verdict(raw) {
        Ok(_) => (true, Seq::empty()),
        Err(e) => (false, message_text(e)),
    }
}

/// Collects ranked ballots and tallies them.
pub struct VotesAggregator {
    raw_votes_cache: PendingVotes,
    rcv: BallotBox,
}

impl VotesAggregator {
    /// The voters with a pending ranking, in order of their first entry.
    pub closed spec fn pending_voters(&self) -> Seq<u64> {
        self.raw_votes_cache.voters()
    }

    /// The pending raw rankings, aligned with `pending_voters`.
    pub closed spec fn pending_rankings(&self) -> Seq<Seq<i32>> {
        self.raw_votes_cache.rankings()
    }

    /// The candidate lists of the committed ballots that rank someone.
    pub closed spec fn committed(&self) -> Seq<Seq<u32>> {
        self.rcv.ballots()
    }

    /// How many ballots were committed.
    pub closed spec fn committed_count(&self) -> nat {
        self.rcv.count()
    }

    /// Committed ballots plus voters with a pending ranking.
    pub open spec fn num_votes(&self) -> nat {
        self.committed_count() + self.pending_voters().len()
    }

    pub closed spec fn parts_wf(&self) -> bool {
        &&& self.raw_votes_cache.wf()
        &&& self.rcv.wf()
    }

    pub open spec fn wf(&self) -> bool {
        &&& self.parts_wf()
        &&& self.num_votes() <= u64::MAX
    }

    pub proof fn lemma_wf(&self)
        requires
            self.wf(),
        ensures
            self.pending_voters().len() == self.pending_rankings().len(),
            self.pending_voters().no_duplicates(),
            self.committed().len() <= self.committed_count(),
    {
        self.raw_votes_cache.lemma_wf();
        self.rcv.lemma_ballots_counted();
    }

    /// `b` is `a` after `value` was appended to the ranking of `voter`.
    pub open spec fn ranking_appended(a: Self, b: Self, voter: u64, value: i32) -> bool {
        &&& b.committed() == a.committed()
        &&& b.committed_count() == a.committed_count()
        &&& if a.pending_voters().contains(voter) {
            &&& b.pending_voters() == a.pending_voters()
            &&& b.pending_rankings().len() == a.pending_rankings().len()
            &&& forall|i: int|
                0 <= i < a.pending_rankings().len() ==> #[trigger] b.pending_rankings()[i]
                    == if a.pending_voters()[i] == voter {
                    a.pending_rankings()[i].push(value)
                } else {
                    a.pending_rankings()[i]
                }
        } else {
            &&& b.pending_voters() == a.pending_voters().push(voter)
            &&& b.pending_rankings() == a.pending_rankings().push(seq![value])
        }
    }

    /// `b` is `a` after a flush that returned `r`: all or nothing.
    pub open spec fn flush_outcome(a: Self, b: Self, r: Result<bool, VoteErrorKind>) -> bool {
        match first_failure(a.pending_rankings()) {
            Some(e) => r == Err::<bool, VoteErrorKind>(e) && b == a,
            None => {
                &&& r == Ok::<bool, VoteErrorKind>(a.pending_voters().len() > 0)
                &&& b.pending_voters() == Seq::<u64>::empty()
                &&& b.pending_rankings() == Seq::<Seq<i32>>::empty()
                &&& b.committed() == a.committed() + ranked_lists(a.pending_rankings())
                &&& b.committed_count() == a.committed_count() + a.pending_voters().len()
                &&& a.pending_voters().len() == 0 ==> b == a
            },
        }
    }

    /// `b` is `a` after determining the winner returned `r`.
    pub open spec fn determine_outcome(
        a: Self,
        b: Self,
        r: Result<Option<u32>, VoteErrorKind>,
    ) -> bool {
        match first_failure(a.pending_rankings()) {
            Some(e) => r == Err::<Option<u32>, VoteErrorKind>(e) && b == a,
            None => {
                &&& Self::flush_outcome(a, b, Ok(a.pending_voters().len() > 0))
                &&& r == Ok::<Option<u32>, VoteErrorKind>(
                    election_winner(b.committed(), b.committed_count()),
                )
            },
        }
    }

    pub fn new() -> (r: VotesAggregator)
        ensures
            r.wf(),
            r.pending_voters() == Seq::<u64>::empty(),
            r.pending_rankings() == Seq::<Seq<i32>>::empty(),
            r.committed() == Seq::<Seq<u32>>::empty(),
            r.committed_count() == 0,
    {
        VotesAggregator { raw_votes_cache: PendingVotes::new(), rcv: BallotBox::new() }
    }

    /// Appends `vote_ranking` to the pending ranking of voter `vote_id`.
    pub fn insert_vote_ranking(&mut self, vote_id: u64, vote_ranking: i32)
        requires
            old(self).wf(),
            old(self).pending_voters().contains(vote_id) || old(self).num_votes() < u64::MAX,
        ensures
            final(self).wf(),
            Self::ranking_appended(*old(self), *final(self), vote_id, vote_ranking),
            final(self).num_votes() == old(self).num_votes() + if old(self).pending_voters().contains(
                vote_id,
            ) {
                0nat
            } else {
                1nat
            },
    {
        self.raw_votes_cache.append(vote_id, vote_ranking);
    }

    /// Commits `num_votes` withhold-only ballots, for registered voters who
    /// did not vote.
    pub fn insert_empty_votes(&mut self, num_votes: u64) -> (r: bool)
        requires
            old(self).wf(),
            old(self).num_votes() + num_votes <= u64::MAX,
        ensures
            r,
            final(self).wf(),
            final(self).pending_voters() == old(self).pending_voters(),
            final(self).pending_rankings() == old(self).pending_rankings(),
            final(self).committed() == old(self).committed(),
            final(self).committed_count() == old(self).committed_count() + num_votes,
            final(self).num_votes() == old(self).num_votes() + num_votes,
    {
        self.rcv.commit_unranked(num_votes);
        true
    }

    /// Committed ballots plus voters with a pending ranking.
    pub fn get_num_votes(&self) -> (r: u64)
        requires
            self.wf(),
        ensures
            r == self.num_votes(),
    {
        self.rcv.committed_count() + self.raw_votes_cache.pending_voter_count() as u64
    }

    /// Checks a raw ranking without committing it: whether it is valid, and
    /// the text of its error, empty when it is valid.
    pub fn validate_raw_vote(&self, rankings: Vec<i32>) -> (r: (bool, String))
        ensures
            r.0 == probe_outcome(rankings@).0,
            r.1@ == probe_outcome(rankings@).1,
    {
        match validate(&rankings) {
            Ok(_) => (true, String::new()),
            Err(e) => (false, e.to_error_message()),
        }
    }

    /// Validates every pending ranking and, if all are valid, commits them
    /// and empties the cache; otherwise changes nothing and reports the error
    /// of the first rejected ranking. Returns whether anything was committed.
    pub fn flush_votes(&mut self) -> (r: Result<bool, VoteErrorKind>)
        requires
            old(self).wf(),
        ensures
            final(self).wf(),
            Self::flush_outcome(*old(self), *final(self), r),
    {
        proof {
            self.lemma_wf();
        }
        let n = self.raw_votes_cache.pending_voter_count();
        if n == 0 {
            assert(self.pending_voters() =~= Seq::<u64>::empty());
            assert(self.pending_rankings() =~= Seq::<Seq<i32>>::empty());
            assert(self.committed() + ranked_lists(self.pending_rankings()) =~= self.committed());
            return Ok(false);
        }
        let ghost rs = self.pending_rankings();
        let mut i: usize = 0;
        assert(rs.subrange(0, n as int) =~= rs);
        while i < n
            invariant
                self.wf(),
                *self == *old(self),
                rs == self.pending_rankings(),
                n == rs.len(),
                n == self.pending_voters().len(),
                i <= n,
                first_failure(rs.subrange(i as int, n as int)) == first_failure(rs),
                forall|j: int| 0 <= j < i ==> ranking_verdict(#[trigger] rs[j]) is Ok,
            decreases n - i,
        {
            let ghost tail = rs.subrange(i as int, n as int);
            assert(tail[0] == rs[i as int]);
            assert(tail.drop_first() =~= rs.subrange(i + 1, n as int));
            match validate(self.raw_votes_cache.ranking(i)) {
                Err(e) => {
                    return Err(e);
                },
                Ok(_) => {},
            }
            i = i + 1;
        }
        assert(rs.subrange(n as int, n as int) =~= Seq::<Seq<i32>>::empty());
        let ghost committed0 = self.committed();
        let ghost count0 = self.committed_count();
        let mut j: usize = 0;
        assert(rs.take(0) =~= Seq::<Seq<i32>>::empty());
        assert(committed0 + ranked_lists(rs.take(0)) =~= committed0);
        while j < n
            invariant
                self.parts_wf(),
                rs == self.pending_rankings(),
                self.pending_voters() == old(self).pending_voters(),
                n == rs.len(),
                n == self.pending_voters().len(),
                j <= n,
                forall|k: int| 0 <= k < n ==> ranking_verdict(#[trigger] rs[k]) is Ok,
                count0 + n <= u64::MAX,
                self.committed_count() == count0 + j,
                self.committed() == committed0 + ranked_lists(rs.take(j as int)),
            decreases n - j,
        {
            assert(ranking_verdict(rs[j as int]) is Ok);
            match validate(self.raw_votes_cache.ranking(j)) {
                Ok(b) => {
                    assert(rs.take(j + 1).drop_last() =~= rs.take(j as int));
                    assert(rs.take(j + 1).last() == rs[j as int]);
                    self.rcv.commit(b.candidates);
                    assert(committed0 + ranked_lists(rs.take(j + 1)) =~= self.committed());
                },
                Err(_) => {
                    assert(false);
                },
            }
            j = j + 1;
        }
        assert(rs.take(n as int) =~= rs);
        self.raw_votes_cache.clear();
        Ok(true)
    }

    /// Flushes the pending rankings, failing as a flush does, then runs the
    /// elimination rounds over every committed ballot.
    pub fn determine_winner(&mut self) -> (r: Result<Option<u32>, VoteErrorKind>)
        requires
            old(self).wf(),
        ensures
            final(self).wf(),
            Self::determine_outcome(*old(self), *final(self), r),
    {
        match self.flush_votes() {
            Err(e) => Err(e),
            Ok(_) => Ok(self.rcv.run_tally()),
        }
    }
}

proof fn lemma_appends_of_one_voter(states: Seq<VotesAggregator>, voter: u64, values: Seq<i32>, i: int)
    requires
        values.len() >= 1,
        states.len() == values.len() + 1,
        !states[0].pending_voters().contains(voter),
        forall|k: int|
            0 <= k < values.len() ==> VotesAggregator::ranking_appended(
                #[trigger] states[k],
                states[k + 1],
                voter,
                values[k],
            ),
        1 <= i < states.len(),
    ensures
        states[i].num_votes() == states[0].num_votes() + 1,
        states[i].pending_voters().contains(voter),
    decreases i,
{
    if i == 1 {
        assert(VotesAggregator::ranking_appended(states[0], states[1], voter, values[0]));
        let p = states[0].pending_voters();
        assert(states[1].pending_voters()[p.len() as int] == voter);
    } else {
        lemma_appends_of_one_voter(states, voter, values, i - 1);
        assert(VotesAggregator::ranking_appended(states[i - 1], states[i], voter, values[i - 1]));
    }
}

/// Appending any number of values (at least one) to the ranking of a voter
/// with nothing pending, then flushing with success, adds exactly one vote.
pub proof fn repeated_rankings_count_one_voter(
    states: Seq<VotesAggregator>,
    voter: u64,
    values: Seq<i32>,
    flushed: VotesAggregator,
    r: Result<bool, VoteErrorKind>,
)
    requires
        values.len() >= 1,
        states.len() == values.len() + 1,
        !states[0].pending_voters().contains(voter),
        forall|k: int|
            0 <= k < values.len() ==> VotesAggregator::ranking_appended(
                #[trigger] states[k],
                states[k + 1],
                voter,
                values[k],
            ),
        VotesAggregator::flush_outcome(states.last(), flushed, r),
        r is Ok,
    ensures
        flushed.num_votes() == states[0].num_votes() + 1,
{
    lemma_appends_of_one_voter(states, voter, values, states.len() - 1);
}

/// Flushing an empty cache returns `false` and changes nothing.
pub proof fn flush_of_empty_cache_changes_nothing(
    a: VotesAggregator,
    b: VotesAggregator,
    r: Result<bool, VoteErrorKind>,
)
    requires
        a.wf(),
        a.pending_voters().len() == 0,
        VotesAggregator::flush_outcome(a, b, r),
    ensures
        r == Ok::<bool, VoteErrorKind>(false),
        b == a,
{
    a.lemma_wf();
}

/// A flush right after a successful flush returns `false` and changes
/// nothing.
pub proof fn second_flush_changes_nothing(
    a: VotesAggregator,
    b: VotesAggregator,
    c: VotesAggregator,
    r1: Result<bool, VoteErrorKind>,
    r2: Result<bool, VoteErrorKind>,
)
    requires
        VotesAggregator::flush_outcome(a, b, r1),
        r1 is Ok,
        VotesAggregator::flush_outcome(b, c, r2),
    ensures
        r2 == Ok::<bool, VoteErrorKind>(false),
        c == b,
{
}

/// A failed flush leaves the state, and so the vote count, as it was.
pub proof fn failed_flush_keeps_votes(
    a: VotesAggregator,
    b: VotesAggregator,
    r: Result<bool, VoteErrorKind>,
)
    requires
        VotesAggregator::flush_outcome(a, b, r),
        r is Err,
    ensures
        b == a,
        b.num_votes() == a.num_votes(),
{
}

/// With no committed ballots and nothing pending there is no winner.
pub proof fn no_votes_no_winner(
    a: VotesAggregator,
    b: VotesAggregator,
    r: Result<Option<u32>, VoteErrorKind>,
)
    requires
        a.wf(),
        a.num_votes() == 0,
        VotesAggregator::determine_outcome(a, b, r),
    ensures
        r == Ok::<Option<u32>, VoteErrorKind>(None),
{
    a.lemma_wf();
    assert(a.committed() =~= Seq::<Seq<u32>>::empty());
    assert(a.pending_rankings() =~= Seq::<Seq<i32>>::empty());
}

} // verus!
