//! Committed ballots and the instant-runoff elimination engine.

use vstd::prelude::*;
use crate::trie::BallotTrie;

verus! {

/// The highest-ranked entry of ballot `b` that is still in `rem`.
pub open spec fn top_choice(b: Seq<u32>, rem: Seq<u32>) -> Option<u32>
    decreases b.len(),
{
    if b.len() == 0 {
        None
    } else if rem.contains(b[0]) {
        Some(b[0])
    } else {
        top_choice(b.drop_first(), rem)
    }
}

/// How many of `ballots` rank `c` highest among the candidates in `rem`.
pub open spec fn first_choice_count(ballots: Seq<Seq<u32>>, rem: Seq<u32>, c: u32) -> nat
    decreases ballots.len(),
{
    if ballots.len() == 0 {
        0
    } else {
        first_choice_count(ballots.drop_last(), rem, c) + if top_choice(ballots.last(), rem)
            == Some(c) {
            1nat
        } else {
            0nat
        }
    }
}

/// The first of `rem[0..n]` whose count strictly exceeds half of `total`.
pub open spec fn first_majority(ballots: Seq<Seq<u32>>, total: nat, rem: Seq<u32>, n: int) -> Option<
    u32,
>
    decreases n,
{
    if n <= 0 {
        None
    } else {
        match first_majority(ballots, total, rem, n - 1) {
            Some(c) => Some(c),
            None => if first_choice_count(ballots, rem, rem[n - 1]) > total / 2 {
                Some(rem[n - 1])
            } else {
                None
            },
        }
    }
}

/// Candidate `c1` with count `s1` is weaker than `c2` with count `s2`: a lower
/// count, or the same count and a lower id.
pub open spec fn weaker(s1: nat, c1: u32, s2: nat, c2: u32) -> bool {
    s1 < s2 || (s1 == s2 && c1 < c2)
}

/// The index, among `rem[0..n]`, of the weakest candidate.
pub open spec fn weakest_upto(ballots: Seq<Seq<u32>>, rem: Seq<u32>, n: int) -> int
    decreases n,
{
    if n <= 1 {
        0
    } else {
        let w = weakest_upto(ballots, rem, n - 1);
        if weaker(
            first_choice_count(ballots, rem, rem[n - 1]),
            rem[n - 1],
            first_choice_count(ballots, rem, rem[w]),
            rem[w],
        ) {
            n - 1
        } else {
            w
        }
    }
}

/// The elimination rounds run from the remaining candidates `rem`, against
/// `total` ballots in all.
pub open spec fn runoff(ballots: Seq<Seq<u32>>, total: nat, rem: Seq<u32>) -> Option<u32>
    decreases rem.len(),
{
    if rem.len() == 0 {
        None
    } else if rem.len() == 1 {
        Some(rem[0])
    } else {
        match first_majority(ballots, total, rem, rem.len() as int) {
            Some(c) => Some(c),
            None => {
                let w = weakest_upto(ballots, rem, rem.len() as int);
                if 0 <= w < rem.len() {
                    runoff(ballots, total, rem.remove(w))
                } else {
                    None
                }
            },
        }
    }
}

/// Every entry of every ballot, ballot after ballot.
pub open spec fn all_entries(ballots: Seq<Seq<u32>>) -> Seq<u32>
    decreases ballots.len(),
{
    if ballots.len() == 0 {
        Seq::empty()
    } else {
        all_entries(ballots.drop_last()) + ballots.last()
    }
}

/// The distinct values of `s`, in order of first appearance.
pub open spec fn first_appearances(s: Seq<u32>) -> Seq<u32>
    decreases s.len(),
{
    if s.len() == 0 {
        Seq::empty()
    } else {
        let r = first_appearances(s.drop_last());
        if r.contains(s.last()) {
            r
        } else {
            r.push(s.last())
        }
    }
}

/// The candidates that some ballot ranks, in order of first appearance.
pub open spec fn initial_candidates(ballots: Seq<Seq<u32>>) -> Seq<u32> {
    first_appearances(all_entries(ballots))
}

/// The winner of the election over `ballots`, with `total` ballots cast in all.
pub open spec fn election_winner(ballots: Seq<Seq<u32>>, total: nat) -> Option<u32> {
    runoff(ballots, total, initial_candidates(ballots))
}

proof fn lemma_first_appearances_distinct(s: Seq<u32>)
    ensures
        first_appearances(s).no_duplicates(),
        forall|x: u32| first_appearances(s).contains(x) <==> s.contains(x),
    decreases s.len(),
{
    if s.len() > 0 {
        lemma_first_appearances_distinct(s.drop_last());
        assert(s =~= s.drop_last().push(s.last()));
        assert forall|x: u32| s.contains(x) <==> (s.drop_last().contains(x) || x == s.last()) by {
            if s.contains(x) {
                let i = choose|i: int| 0 <= i < s.len() && s[i] == x;
                if i < s.len() - 1 {
                    assert(s.drop_last()[i] == x);
                }
            }
            if x == s.last() {
                assert(s[s.len() - 1] == x);
            }
            if s.drop_last().contains(x) {
                let i = choose|i: int| 0 <= i < s.len() - 1 && s.drop_last()[i] == x;
                assert(s[i] == x);
            }
        }
        let r = first_appearances(s.drop_last());
        if !r.contains(s.last()) {
            assert forall|x: u32| r.push(s.last()).contains(x) <==> (r.contains(x) || x == s.last()) by {
                if r.push(s.last()).contains(x) {
                    let i = choose|i: int| 0 <= i < r.len() + 1 && r.push(s.last())[i] == x;
                    if i < r.len() {
                        assert(r[i] == x);
                    }
                }
                if r.contains(x) {
                    let i = choose|i: int| 0 <= i < r.len() && r[i] == x;
                    assert(r.push(s.last())[i] == x);
                }
                if x == s.last() {
                    assert(r.push(s.last())[r.len() as int] == x);
                }
            }
        }
    }
}

/// Whether `v` holds `c`, and where.
pub(crate) fn index_of(v: &Vec<u32>, c: u32) -> (r: Option<usize>)
    ensures
        match r {
            Some(i) => i < v.len() && v@[i as int] == c,
            None => !v@.contains(c),
        },
{
    let mut i: usize = 0;
    while i < v.len()
        invariant
            i <= v.len(),
            forall|j: int| 0 <= j < i ==> v@[j] != c,
        decreases v.len() - i,
    {
        if v[i] == c {
            return Some(i);
        }
        i = i + 1;
    }
    None
}

proof fn lemma_first_majority_settled(
    ballots: Seq<Seq<u32>>,
    total: nat,
    rem: Seq<u32>,
    n: int,
    m: int,
)
    requires
        n <= m,
        first_majority(ballots, total, rem, n) is Some,
    ensures
        first_majority(ballots, total, rem, m) == first_majority(ballots, total, rem, n),
    decreases m - n,
{
    if n < m {
        lemma_first_majority_settled(ballots, total, rem, n, m - 1);
    }
}

/// The first remaining candidate whose count strictly exceeds `half`.
fn find_majority(rem: &Vec<u32>, scores: &Vec<u64>, half: u64, ballots: Ghost<Seq<Seq<u32>>>, total: Ghost<nat>) -> (r: Option<u32>)
    requires
        scores.len() == rem.len(),
        half == total@ / 2,
        forall|i: int|
            0 <= i < rem.len() ==> scores@[i] == first_choice_count(ballots@, rem@, rem@[i]),
    ensures
        r == first_majority(ballots@, total@, rem@, rem.len() as int),
{
    let mut i: usize = 0;
    while i < rem.len()
        invariant
            i <= rem.len(),
            scores.len() == rem.len(),
            half == total@ / 2,
            forall|i: int|
                0 <= i < rem.len() ==> scores@[i] == first_choice_count(ballots@, rem@, rem@[i]),
            first_majority(ballots@, total@, rem@, i as int) is None,
        decreases rem.len() - i,
    {
        if scores[i] > half {
            proof {
                lemma_first_majority_settled(ballots@, total@, rem@, i + 1, rem.len() as int);
            }
            return Some(rem[i]);
        }
        i = i + 1;
    }
    None
}

/// The position of the weakest remaining candidate.
fn find_weakest(rem: &Vec<u32>, scores: &Vec<u64>, ballots: Ghost<Seq<Seq<u32>>>) -> (w: usize)
    requires
        rem.len() > 0,
        scores.len() == rem.len(),
        forall|i: int|
            0 <= i < rem.len() ==> scores@[i] == first_choice_count(ballots@, rem@, rem@[i]),
    ensures
        w < rem.len(),
        w == weakest_upto(ballots@, rem@, rem.len() as int),
{
    let mut w: usize = 0;
    let mut i: usize = 1;
    while i < rem.len()
        invariant
            1 <= i <= rem.len(),
            w < i,
            scores.len() == rem.len(),
            w == weakest_upto(ballots@, rem@, i as int),
            forall|i: int|
                0 <= i < rem.len() ==> scores@[i] == first_choice_count(ballots@, rem@, rem@[i]),
        decreases rem.len() - i,
    {
        if scores[i] < scores[w] || (scores[i] == scores[w] && rem[i] < rem[w]) {
            w = i;
        }
        i = i + 1;
    }
    w
}

/// Appends to `cands` each entry of `b` that it does not hold yet, in order:
/// the first appearances of `entries` then become those of `entries + b`.
fn note_candidates(cands: &mut Vec<u32>, b: &Vec<u32>, entries: Ghost<Seq<u32>>)
    requires
        old(cands)@ == first_appearances(entries@),
    ensures
        final(cands)@ == first_appearances(entries@ + b@),
{
    assert(entries@ + b@.take(0) =~= entries@);
    let mut k: usize = 0;
    while k < b.len()
        invariant
            k <= b.len(),
            cands@ == first_appearances(entries@ + b@.take(k as int)),
        decreases b.len() - k,
    {
        let c = b[k];
        let ghost t = entries@ + b@.take(k + 1);
        assert(t.drop_last() =~= entries@ + b@.take(k as int));
        assert(t.last() == c);
        if index_of(cands, c).is_none() {
            cands.push(c);
        }
        k = k + 1;
    }
    assert(b@.take(b.len() as int) =~= b@);
}

/// The ballots committed so far. A ballot that ranks no candidate (a lone
/// special vote) is only counted: it never scores for anyone.
pub struct BallotBox {
    trie: BallotTrie,
    /// How many committed ballots rank someone.
    ranked: u64,
    unranked: u64,
    /// The candidates ranked on some committed ballot, in order of first
    /// appearance.
    candidates: Vec<u32>,
}

impl BallotBox {
    /// The candidate lists of the committed ballots that rank someone.
    pub closed spec fn ballots(&self) -> Seq<Seq<u32>> {
        self.trie.ballots()
    }

    /// How many ballots were committed, ranked or not.
    pub closed spec fn count(&self) -> nat {
        (self.ranked + self.unranked) as nat
    }

    pub closed spec fn parts_wf(&self) -> bool {
        &&& self.trie.wf()
        &&& self.ranked == self.trie.ballots().len()
        &&& self.candidates@ == initial_candidates(self.trie.ballots())
    }

    pub open spec fn wf(&self) -> bool {
        &&& self.parts_wf()
        &&& self.count() <= u64::MAX
    }

    /// Ballots that rank someone are among those counted.
    pub proof fn lemma_ballots_counted(&self)
        requires
            self.wf(),
        ensures
            self.ballots().len() <= self.count(),
    {
    }

    pub fn new() -> (r: BallotBox)
        ensures
            r.wf(),
            r.ballots() == Seq::<Seq<u32>>::empty(),
            r.count() == 0,
    {
        let r = BallotBox { trie: BallotTrie::new(), ranked: 0, unranked: 0, candidates: Vec::new() };
        assert(r.candidates@ =~= initial_candidates(r.trie.ballots()));
        r
    }

    /// Commits a ballot with the candidate list `candidates`.
    pub fn commit(&mut self, candidates: Vec<u32>)
        requires
            old(self).wf(),
            old(self).count() < u64::MAX,
        ensures
            final(self).wf(),
            final(self).count() == old(self).count() + 1,
            final(self).ballots() == if candidates@.len() == 0 {
                old(self).ballots()
            } else {
                old(self).ballots().push(candidates@)
            },
    {
        if candidates.len() == 0 {
            self.unranked = self.unranked + 1;
        } else {
            let ghost bs = self.trie.ballots();
            self.trie.insert(&candidates);
            self.ranked = self.ranked + 1;
            note_candidates(&mut self.candidates, &candidates, Ghost(all_entries(bs)));
            assert(bs.push(candidates@).drop_last() =~= bs);
        }
    }

    /// Commits `n` ballots that rank no candidate.
    pub fn commit_unranked(&mut self, n: u64)
        requires
            old(self).wf(),
            old(self).count() + n <= u64::MAX,
        ensures
            final(self).wf(),
            final(self).count() == old(self).count() + n,
            final(self).ballots() == old(self).ballots(),
    {
        self.unranked = self.unranked + n;
    }

    pub fn committed_count(&self) -> (r: u64)
        requires
            self.wf(),
        ensures
            r == self.count(),
    {
        self.ranked + self.unranked
    }

    /// Runs the elimination rounds over the committed ballots and returns
    /// the winner, if there is one.
    pub fn run_tally(&self) -> (r: Option<u32>)
        requires
            self.wf(),
        ensures
            r == election_winner(self.ballots(), self.count()),
    {
        let total = self.committed_count();
        let half = total / 2;
        let ghost bs = self.ballots();
        let mut rem: Vec<u32> = Vec::new();
        let mut i: usize = 0;
        while i < self.candidates.len()
            invariant
                i <= self.candidates.len(),
                rem@ == self.candidates@.take(i as int),
            decreases self.candidates.len() - i,
        {
            rem.push(self.candidates[i]);
            assert(rem@ =~= self.candidates@.take(i + 1));
            i = i + 1;
        }
        assert(rem@ =~= self.candidates@);
        proof {
            lemma_first_appearances_distinct(all_entries(bs));
        }
        loop
            invariant
                self.wf(),
                bs == self.ballots(),
                total == self.count(),
                half == total / 2,
                rem@.no_duplicates(),
                runoff(bs, total as nat, rem@) == election_winner(bs, total as nat),
            decreases rem.len(),
        {
            if rem.len() == 0 {
                return None;
            }
            if rem.len() == 1 {
                return Some(rem[0]);
            }
            let scores = self.trie.first_choice_scores(&rem);
            let m = find_majority(&rem, &scores, half, Ghost(bs), Ghost(total as nat));
            if m.is_some() {
                return m;
            }
            let w = find_weakest(&rem, &scores, Ghost(bs));
            let ghost before = rem@;
            rem.remove(w);
            assert forall|i: int, j: int| 0 <= i < j < rem.len() implies rem@[i] != rem@[j] by {
                let i0 = if i < w { i } else { i + 1 };
                let j0 = if j < w { j } else { j + 1 };
                assert(rem@[i] == before[i0]);
                assert(rem@[j] == before[j0]);
            }
        }
    }
}

} // verus!
