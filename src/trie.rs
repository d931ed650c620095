//! Committed ballots in a shared-prefix tree: ballots with the same leading
//! candidates share the nodes for those candidates.

use vstd::prelude::*;
use crate::tally::{first_choice_count, index_of, top_choice};

verus! {

/// How many of `ballots` satisfy `f`.
pub open spec fn count_matching(ballots: Seq<Seq<u32>>, f: spec_fn(Seq<u32>) -> bool) -> nat
    decreases ballots.len(),
{
    if ballots.len() == 0 {
        0
    } else {
        count_matching(ballots.drop_last(), f) + if f(ballots.last()) {
            1nat
        } else {
            0nat
        }
    }
}

/// The ballots that end at each of the first `n` nodes, counted where the
/// node's path satisfies `f`.
pub open spec fn weighted_matching(
    paths: Seq<Seq<u32>>,
    ends: Seq<u64>,
    f: spec_fn(Seq<u32>) -> bool,
    n: int,
) -> nat
    decreases n,
{
    if n <= 0 {
        0
    } else {
        weighted_matching(paths, ends, f, n - 1) + if f(paths[n - 1]) {
            ends[n - 1] as nat
        } else {
            0nat
        }
    }
}

/// Ballots whose top remaining choice among `rem` is `c`.
pub open spec fn tops_at(rem: Seq<u32>, c: u32) -> spec_fn(Seq<u32>) -> bool {
    |b: Seq<u32>| top_choice(b, rem) == Some(c)
}

proof fn lemma_weighted_prefix(
    p1: Seq<Seq<u32>>,
    e1: Seq<u64>,
    p2: Seq<Seq<u32>>,
    e2: Seq<u64>,
    f: spec_fn(Seq<u32>) -> bool,
    n: int,
)
    requires
        0 <= n <= p1.len(),
        n <= e1.len(),
        n <= p2.len(),
        n <= e2.len(),
        forall|i: int| 0 <= i < n ==> p1[i] == p2[i] && e1[i] == e2[i],
    ensures
        weighted_matching(p1, e1, f, n) == weighted_matching(p2, e2, f, n),
    decreases n,
{
    if n > 0 {
        lemma_weighted_prefix(p1, e1, p2, e2, f, n - 1);
    }
}

proof fn lemma_weighted_bump(
    paths: Seq<Seq<u32>>,
    ends: Seq<u64>,
    f: spec_fn(Seq<u32>) -> bool,
    n: int,
    k: int,
)
    requires
        0 <= k < ends.len(),
        0 <= n <= ends.len(),
        ends[k] < u64::MAX,
    ensures
        weighted_matching(paths, ends.update(k, (ends[k] + 1) as u64), f, n) == weighted_matching(
            paths,
            ends,
            f,
            n,
        ) + if k < n && f(paths[k]) {
            1nat
        } else {
            0nat
        },
    decreases n,
{
    if n > 0 {
        lemma_weighted_bump(paths, ends, f, n - 1, k);
    }
}

proof fn lemma_weighted_mono(
    paths: Seq<Seq<u32>>,
    ends: Seq<u64>,
    f: spec_fn(Seq<u32>) -> bool,
    n: int,
    m: int,
)
    requires
        0 <= n <= m,
    ensures
        weighted_matching(paths, ends, f, n) <= weighted_matching(paths, ends, f, m),
    decreases m - n,
{
    if n < m {
        lemma_weighted_mono(paths, ends, f, n, m - 1);
    }
}

proof fn lemma_count_le_len(ballots: Seq<Seq<u32>>, f: spec_fn(Seq<u32>) -> bool)
    ensures
        count_matching(ballots, f) <= ballots.len(),
    decreases ballots.len(),
{
    if ballots.len() > 0 {
        lemma_count_le_len(ballots.drop_last(), f);
    }
}

proof fn lemma_first_choice_is_count(ballots: Seq<Seq<u32>>, rem: Seq<u32>, c: u32)
    ensures
        first_choice_count(ballots, rem, c) == count_matching(ballots, tops_at(rem, c)),
    decreases ballots.len(),
{
    if ballots.len() > 0 {
        lemma_first_choice_is_count(ballots.drop_last(), rem, c);
    }
}

proof fn lemma_top_choice_push(p: Seq<u32>, x: u32, rem: Seq<u32>)
    ensures
        top_choice(p.push(x), rem) == match top_choice(p, rem) {
            Some(c) => Some(c),
            None => if rem.contains(x) {
                Some(x)
            } else {
                None
            },
        },
    decreases p.len(),
{
    if p.len() == 0 {
        assert(p.push(x).drop_first() =~= Seq::<u32>::empty());
    } else {
        assert(p.push(x).drop_first() =~= p.drop_first().push(x));
        lemma_top_choice_push(p.drop_first(), x, rem);
    }
}

/// One node of the tree: the candidate on the edge from its parent, and how
/// many committed ballots end here.
pub struct TrieNode {
    candidate: u32,
    parent: usize,
    ends: u64,
    children: Vec<usize>,
}

/// An arena of nodes addressed by index; node 0 is the root, whose path is
/// empty, and every other node's path is its parent's path followed by its
/// candidate.
pub struct BallotTrie {
    nodes: Vec<TrieNode>,
    paths: Ghost<Seq<Seq<u32>>>,
    ballots: Ghost<Seq<Seq<u32>>>,
}

impl BallotTrie {
    /// The committed ballots, in order of commitment.
    pub closed spec fn ballots(&self) -> Seq<Seq<u32>> {
        self.ballots@
    }

    pub closed spec fn ends(&self) -> Seq<u64> {
        self.nodes@.map_values(|n: TrieNode| n.ends)
    }

    pub closed spec fn wf(&self) -> bool {
        &&& self.nodes.len() >= 1
        &&& self.paths@.len() == self.nodes.len()
        &&& self.paths@[0] == Seq::<u32>::empty()
        &&& forall|n: int|
            1 <= n < self.nodes.len() ==> {
                &&& (#[trigger] self.nodes@[n]).parent < n
                &&& self.paths@[n] == self.paths@[self.nodes@[n].parent as int].push(
                    self.nodes@[n].candidate,
                )
            }
        &&& forall|n: int, j: int|
            0 <= n < self.nodes.len() && 0 <= j < self.nodes@[n].children.len() ==> {
                &&& 0 < #[trigger] self.nodes@[n].children@[j] < self.nodes.len()
                &&& self.nodes@[self.nodes@[n].children@[j] as int].parent == n
            }
        &&& forall|f: spec_fn(Seq<u32>) -> bool|
            weighted_matching(self.paths@, self.ends(), f, self.nodes.len() as int)
                == #[trigger] count_matching(self.ballots@, f)
    }

    pub fn new() -> (r: BallotTrie)
        ensures
            r.wf(),
            r.ballots() == Seq::<Seq<u32>>::empty(),
    {
        let mut nodes: Vec<TrieNode> = Vec::new();
        nodes.push(TrieNode { candidate: 0, parent: 0, ends: 0, children: Vec::new() });
        let ghost root_paths = seq![Seq::<u32>::empty()];
        let ghost no_ballots = Seq::<Seq<u32>>::empty();
        let r = BallotTrie { nodes, paths: Ghost(root_paths), ballots: Ghost(no_ballots) };
        assert forall|f: spec_fn(Seq<u32>) -> bool|
            weighted_matching(r.paths@, r.ends(), f, 1) == #[trigger] count_matching(
                r.ballots@,
                f,
            ) by {
            assert(weighted_matching(r.paths@, r.ends(), f, 0) == 0);
        }
        r
    }

    /// The child of node `cur` reached by candidate `c`, if there is one.
    fn find_child(&self, cur: usize, c: u32) -> (r: Option<usize>)
        requires
            self.wf(),
            cur < self.nodes.len(),
        ensures
            r matches Some(ch) ==> ch < self.nodes.len() && self.nodes@[ch as int].parent == cur
                && self.nodes@[ch as int].candidate == c && ch >= 1,
    {
        let children = &self.nodes[cur].children;
        let mut j: usize = 0;
        while j < children.len()
            invariant
                self.wf(),
                cur < self.nodes.len(),
                children == &self.nodes@[cur as int].children,
                j <= children.len(),
            decreases children.len() - j,
        {
            let ch = children[j];
            assert(0 < self.nodes@[cur as int].children@[j as int] < self.nodes.len());
            if self.nodes[ch].candidate == c {
                return Some(ch);
            }
            j = j + 1;
        }
        None
    }

    /// Adds a ballot, sharing the nodes of its longest prefix already present.
    pub fn insert(&mut self, b: &Vec<u32>)
        requires
            old(self).wf(),
            old(self).ballots().len() < u64::MAX,
        ensures
            final(self).wf(),
            final(self).ballots() == old(self).ballots().push(b@),
    {
        let mut cur: usize = 0;
        let mut k: usize = 0;
        assert(b@.take(0) =~= Seq::<u32>::empty());
        while k < b.len()
            invariant
                self.wf(),
                self.ballots@ == old(self).ballots@,
                cur < self.nodes.len(),
                k <= b.len(),
                self.paths@[cur as int] == b@.take(k as int),
            decreases b.len() - k,
        {
            let c = b[k];
            match self.find_child(cur, c) {
                Some(ch) => {
                    cur = ch;
                },
                None => {
                    let idx = self.nodes.len();
                    let ghost old_paths = self.paths@;
                    let ghost old_ends = self.ends();
                    let ghost old_nodes = self.nodes@;
                    self.nodes.push(TrieNode { candidate: c, parent: cur, ends: 0, children: Vec::new() });
                    let ghost new_paths = self.paths@.push(self.paths@[cur as int].push(c));
                    self.paths = Ghost(new_paths);
                    self.nodes[cur].children.push(idx);
                    assert forall|n: int| 1 <= n < self.nodes.len() implies {
                        &&& (#[trigger] self.nodes@[n]).parent < n
                        &&& self.paths@[n] == self.paths@[self.nodes@[n].parent as int].push(
                            self.nodes@[n].candidate,
                        )
                    } by {
                        if n < idx {
                            assert(self.nodes@[n].parent == old_nodes[n].parent);
                            assert(self.nodes@[n].candidate == old_nodes[n].candidate);
                        }
                    }
                    assert forall|n: int, j: int|
                        0 <= n < self.nodes.len() && 0 <= j < self.nodes@[n].children.len() implies {
                        &&& 0 < #[trigger] self.nodes@[n].children@[j] < self.nodes.len()
                        &&& self.nodes@[self.nodes@[n].children@[j] as int].parent == n
                    } by {
                        if n != cur && n < idx {
                            assert(self.nodes@[n].children == old_nodes[n].children);
                            let ch = old_nodes[n].children@[j];
                            assert(0 < ch < idx);
                            assert(self.nodes@[ch as int].parent == old_nodes[ch as int].parent);
                        } else if n == cur && j < old_nodes[n].children.len() {
                            let ch = old_nodes[n].children@[j];
                            assert(self.nodes@[n].children@[j] == ch);
                            assert(0 < ch < idx);
                            assert(self.nodes@[ch as int].parent == old_nodes[ch as int].parent);
                        }
                    }
                    assert(self.ends() =~= old_ends.push(0));
                    assert forall|f: spec_fn(Seq<u32>) -> bool|
                        weighted_matching(self.paths@, self.ends(), f, self.nodes.len() as int)
                            == #[trigger] count_matching(self.ballots@, f) by {
                        lemma_weighted_prefix(
                            self.paths@,
                            self.ends(),
                            old_paths,
                            old_ends,
                            f,
                            idx as int,
                        );
                    }
                    cur = idx;
                },
            }
            assert(b@.take(k + 1) =~= b@.take(k as int).push(c));
            k = k + 1;
        }
        assert(b@.take(k as int) =~= b@);
        let ghost old_paths = self.paths@;
        let ghost old_ends = self.ends();
        let ghost old_ballots = self.ballots@;
        let ghost same = |p: Seq<u32>| p == b@;
        proof {
            assert(count_matching(old_ballots, same) == weighted_matching(
                old_paths,
                old_ends,
                same,
                self.nodes.len() as int,
            ));
            lemma_weighted_mono(old_paths, old_ends, same, cur + 1, self.nodes.len() as int);
            lemma_count_le_len(old_ballots, same);
        }
        self.nodes[cur].ends = self.nodes[cur].ends + 1;
        let ghost new_ballots = self.ballots@.push(b@);
        self.ballots = Ghost(new_ballots);
        assert(self.ends() =~= old_ends.update(cur as int, (old_ends[cur as int] + 1) as u64));
        assert forall|f: spec_fn(Seq<u32>) -> bool|
            weighted_matching(self.paths@, self.ends(), f, self.nodes.len() as int)
                == #[trigger] count_matching(self.ballots@, f) by {
            assert(count_matching(old_ballots, f) == weighted_matching(
                old_paths,
                old_ends,
                f,
                self.nodes.len() as int,
            ));
            lemma_weighted_bump(old_paths, old_ends, f, self.nodes.len() as int, cur as int);
            assert(self.ballots@.drop_last() =~= old_ballots);
        }
        assert forall|n: int| 1 <= n < self.nodes.len() implies {
            &&& (#[trigger] self.nodes@[n]).parent < n
            &&& self.paths@[n] == self.paths@[self.nodes@[n].parent as int].push(
                self.nodes@[n].candidate,
            )
        } by {}
    }
    /// Each remaining candidate's count of first choices, in one pass over
    /// the nodes, parents before children: a node's top remaining choice is
    /// its parent's, or else its own candidate if that remains.
    pub fn first_choice_scores(&self, rem: &Vec<u32>) -> (s: Vec<u64>)
        requires
            self.wf(),
            self.ballots().len() <= u64::MAX,
            rem@.no_duplicates(),
        ensures
            s.len() == rem.len(),
            forall|i: int|
                0 <= i < rem.len() ==> s@[i] == first_choice_count(self.ballots(), rem@, rem@[i]),
    {
        let mut s: Vec<u64> = Vec::new();
        while s.len() < rem.len()
            invariant
                s.len() <= rem.len(),
                forall|i: int| 0 <= i < s.len() ==> s@[i] == 0,
            decreases rem.len() - s.len(),
        {
            s.push(0);
        }
        let ghost paths = self.paths@;
        let ghost ends = self.ends();
        let ghost len = self.nodes.len() as int;
        let mut tops: Vec<Option<usize>> = Vec::new();
        let mut n: usize = 0;
        while n < self.nodes.len()
            invariant
                self.wf(),
                self.ballots().len() <= u64::MAX,
                rem@.no_duplicates(),
                paths == self.paths@,
                ends == self.ends(),
                len == self.nodes.len(),
                s.len() == rem.len(),
                tops.len() == n,
                n <= self.nodes.len(),
                forall|m: int|
                    0 <= m < n ==> match top_choice(paths[m], rem@) {
                        Some(c) => (#[trigger] tops@[m]) matches Some(i) && i < rem.len() && rem@[i as int]
                            == c,
                        None => tops@[m] is None,
                    },
                forall|i: int|
                    0 <= i < rem.len() ==> s@[i] == weighted_matching(
                        paths,
                        ends,
                        tops_at(rem@, rem@[i]),
                        n as int,
                    ),
            decreases self.nodes.len() - n,
        {
            let t: Option<usize> = if n == 0 {
                None
            } else {
                let p = self.nodes[n].parent;
                proof {
                    lemma_top_choice_push(paths[p as int], self.nodes@[n as int].candidate, rem@);
                    assert(tops@[p as int] == tops@[p as int]);
                }
                match tops[p] {
                    Some(i) => Some(i),
                    None => index_of(rem, self.nodes[n].candidate),
                }
            };
            let e = self.nodes[n].ends;
            assert(ends[n as int] == e);
            match t {
                Some(i) => {
                    proof {
                        let f = tops_at(rem@, rem@[i as int]);
                        assert(count_matching(self.ballots(), f) == weighted_matching(
                            paths,
                            ends,
                            f,
                            len,
                        ));
                        lemma_weighted_mono(paths, ends, f, n + 1, len);
                        lemma_count_le_len(self.ballots(), f);
                    }
                    s[i] = s[i] + e;
                },
                None => {},
            }
            tops.push(t);
            assert forall|i: int|
                0 <= i < rem.len() implies s@[i] == weighted_matching(
                paths,
                ends,
                tops_at(rem@, rem@[i]),
                n + 1,
            ) by {
                if n == 0 {
                    assert(paths[0] =~= Seq::<u32>::empty());
                }
                match t {
                    Some(k) => {
                        if i != k {
                            assert(rem@[i] != rem@[k as int]);
                        }
                    },
                    None => {},
                }
            }
            n = n + 1;
        }
        assert forall|i: int|
            0 <= i < rem.len() implies s@[i] == first_choice_count(self.ballots(), rem@, rem@[i]) by {
            let f = tops_at(rem@, rem@[i]);
            assert(count_matching(self.ballots(), f) == weighted_matching(paths, ends, f, len));
            lemma_first_choice_is_count(self.ballots(), rem@, rem@[i]);
        }
        s
    }
}

} // verus!
