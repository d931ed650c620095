//! Rankings that voters are still building, entry by entry.

use std::collections::HashMap;
use vstd::prelude::*;

verus! {

broadcast use vstd::std_specs::hash::group_hash_axioms;

/// Raw rankings per voter id, in order of each voter's first entry. Nothing
/// here is validated.
pub struct PendingVotes {
    voters: Vec<u64>,
    rankings: Vec<Vec<i32>>,
    /// The position of each pending voter in `voters`.
    index: HashMap<u64, usize>,
}

impl PendingVotes {
    /// The pending voter ids, in order of their first entry.
    pub closed spec fn voters(&self) -> Seq<u64> {
        self.voters@
    }

    /// The raw ranking of each pending voter, aligned with `voters`.
    pub closed spec fn rankings(&self) -> Seq<Seq<i32>> {
        self.rankings@.map_values(|r: Vec<i32>| r@)
    }

    pub closed spec fn wf(&self) -> bool {
        &&& self.voters.len() == self.rankings.len()
        &&& self.voters@.no_duplicates()
        &&& forall|k: u64| #[trigger] self.index@.contains_key(k) <==> self.voters@.contains(k)
        &&& forall|k: u64|
            #[trigger] self.index@.contains_key(k) ==> {
                &&& self.index@[k] < self.voters.len()
                &&& self.voters@[self.index@[k] as int] == k
            }
    }

    pub proof fn lemma_wf(&self)
        requires
            self.wf(),
        ensures
            self.voters().len() == self.rankings().len(),
            self.voters().no_duplicates(),
    {
    }

    pub fn new() -> (r: PendingVotes)
        ensures
            r.wf(),
            r.voters() == Seq::<u64>::empty(),
            r.rankings() == Seq::<Seq<i32>>::empty(),
    {
        let r = PendingVotes { voters: Vec::new(), rankings: Vec::new(), index: HashMap::new() };
        assert(r.rankings() =~= Seq::<Seq<i32>>::empty());
        r
    }

    /// Appends `value` to the ranking of `voter`, starting one if it has none.
    pub fn append(&mut self, voter: u64, value: i32)
        requires
            old(self).wf(),
        ensures
            final(self).wf(),
            old(self).voters().contains(voter) ==> {
                &&& final(self).voters() == old(self).voters()
                &&& final(self).rankings().len() == old(self).rankings().len()
                &&& forall|i: int|
                    0 <= i < old(self).rankings().len() ==> #[trigger] final(self).rankings()[i]
                        == if old(self).voters()[i] == voter {
                        old(self).rankings()[i].push(value)
                    } else {
                        old(self).rankings()[i]
                    }
            },
            !old(self).voters().contains(voter) ==> {
                &&& final(self).voters() == old(self).voters().push(voter)
                &&& final(self).rankings() == old(self).rankings().push(seq![value])
            },
    {
        let found: Option<usize> = match self.index.get(&voter) {
            Some(i) => Some(*i),
            None => None,
        };
        match found {
            Some(i) => {
                assert(old(self).voters()[i as int] == voter);
                let ghost before = self.rankings();
                self.rankings[i].push(value);
                assert forall|j: int| 0 <= j < before.len() implies #[trigger] self.rankings()[j]
                    == if self.voters@[j] == voter {
                    before[j].push(value)
                } else {
                    before[j]
                } by {
                    if j != i {
                        assert(self.voters@[j] != self.voters@[i as int]);
                    }
                }
            },
            None => {
                let ghost before = self.rankings();
                let ghost old_voters = self.voters@;
                assert(!old_voters.contains(voter));
                self.index.insert(voter, self.voters.len());
                self.voters.push(voter);
                let fresh = vec![value];
                assert(fresh@ =~= seq![value]);
                self.rankings.push(fresh);
                assert(self.rankings() =~= before.push(seq![value]));
                assert forall|a: int, b: int| 0 <= a < b < self.voters.len() implies self.voters@[a]
                    != self.voters@[b] by {
                    if b == self.voters.len() - 1 {
                        assert(old_voters[a] == self.voters@[a]);
                    }
                }
                assert forall|k: u64| #[trigger] self.index@.contains_key(k) <==> self.voters@.contains(k) by {
                    if self.voters@.contains(k) && k != voter {
                        let j = choose|j: int| 0 <= j < self.voters@.len() && self.voters@[j] == k;
                        assert(old_voters[j] == k);
                    }
                    if old_voters.contains(k) {
                        let j = choose|j: int| 0 <= j < old_voters.len() && old_voters[j] == k;
                        assert(self.voters@[j] == k);
                    }
                    if k == voter {
                        assert(self.voters@[old_voters.len() as int] == k);
                    }
                }
            },
        }
    }

    /// How many voters have a pending ranking.
    pub fn pending_voter_count(&self) -> (r: usize)
        requires
            self.wf(),
        ensures
            r == self.voters().len(),
    {
        self.voters.len()
    }

    /// The raw ranking of the `i`-th pending voter.
    pub fn ranking(&self, i: usize) -> (r: &Vec<i32>)
        requires
            self.wf(),
            i < self.voters().len(),
        ensures
            r@ == self.rankings()[i as int],
    {
        &self.rankings[i]
    }

    /// Drops every pending ranking.
    pub fn clear(&mut self)
        ensures
            final(self).wf(),
            final(self).voters() == Seq::<u64>::empty(),
            final(self).rankings() == Seq::<Seq<i32>>::empty(),
    {
        self.voters = Vec::new();
        self.rankings = Vec::new();
        self.index = HashMap::new();
        assert(self.rankings() =~= Seq::<Seq<i32>>::empty());
    }
}

} // verus!
