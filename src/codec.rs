//! Validation of raw rankings and their encoding as ballots.

use vstd::prelude::*;
use trie_rcv::{RankedVote, VoteErrors};

verus! {

/// Raw value of the "withhold" special vote.
pub const WITHHOLD_VOTE_VAL: i32 = -1;

/// Raw value of the "abstain" special vote.
pub const ABSTAIN_VOTE_VAL: i32 = -2;

/// Why a raw ranking was rejected.
#[derive(Clone, Copy, Debug, PartialEq, Eq, Structural)]
pub enum VoteErrorKind {
    InvalidCastToCandidate,
    InvalidCastToSpecialVote,
    ReadOutOfBounds,
    NonFinalSpecialVote,
    DuplicateVotes,
    VoteIsEmpty,
}

/// A special vote, which may only stand last on a ballot.
#[derive(Clone, Copy, Debug, PartialEq, Eq, Structural)]
pub enum SpecialVote {
    Withhold,
    Abstain,
}

/// A validated ballot: distinct candidates in order of preference, optionally
/// followed by one special vote.
pub struct Ballot {
    pub candidates: Vec<u32>,
    pub special: Option<SpecialVote>,
}

pub open spec fn is_sentinel(v: i32) -> bool {
    v == WITHHOLD_VOTE_VAL || v == ABSTAIN_VOTE_VAL
}

pub open spec fn sentinel_value(s: SpecialVote) -> i32 {
    match s {
        SpecialVote::Withhold => WITHHOLD_VOTE_VAL,
        SpecialVote::Abstain => ABSTAIN_VOTE_VAL,
    }
}

/// Entry `k` of `raw` breaks no rule: it does not repeat an earlier entry, and
/// if it is negative it is a special vote standing last.
pub open spec fn entry_ok(raw: Seq<i32>, k: int) -> bool {
    &&& !raw.subrange(0, k).contains(raw[k])
    &&& raw[k] < 0 ==> (k == raw.len() - 1 && is_sentinel(raw[k]))
}

/// The error reported for entry `k` of `raw` when it breaks a rule.
pub open spec fn entry_error(raw: Seq<i32>, k: int) -> VoteErrorKind {
    if raw.subrange(0, k).contains(raw[k]) {
        VoteErrorKind::DuplicateVotes
    } else if k != raw.len() - 1 {
        VoteErrorKind::NonFinalSpecialVote
    } else {
        VoteErrorKind::InvalidCastToSpecialVote
    }
}

/// The outcome of checking `raw` from entry `k` on: the error of the first
/// entry that breaks a rule, or emptiness of the whole ranking.
pub open spec fn verdict_from(raw: Seq<i32>, k: int) -> Result<(), VoteErrorKind>
    decreases raw.len() - k,
{
    if k >= raw.len() {
        if raw.len() == 0 {
            Err(VoteErrorKind::VoteIsEmpty)
        } else {
            Ok(())
        }
    } else if !entry_ok(raw, k) {
        Err(entry_error(raw, k))
    } else {
        verdict_from(raw, k + 1)
    }
}

/// The outcome of checking a whole raw ranking.
pub open spec fn ranking_verdict(raw: Seq<i32>) -> Result<(), VoteErrorKind> {
    verdict_from(raw, 0)
}

/// A raw ranking that breaks no rule.
pub open spec fn valid_ranking(raw: Seq<i32>) -> bool {
    raw.len() > 0 && forall|k: int| 0 <= k < raw.len() ==> entry_ok(raw, k)
}

proof fn lemma_verdict_from(raw: Seq<i32>, k: int)
    requires
        0 <= k <= raw.len(),
        forall|j: int| 0 <= j < k ==> entry_ok(raw, j),
    ensures
        (verdict_from(raw, k) is Ok) <==> valid_ranking(raw),
    decreases raw.len() - k,
{
    if k < raw.len() && entry_ok(raw, k) {
        lemma_verdict_from(raw, k + 1);
    }
}

/// A ranking is accepted exactly when it is non-empty and breaks no rule.
pub proof fn lemma_verdict_ok_iff_valid(raw: Seq<i32>)
    ensures
        (ranking_verdict(raw) is Ok) <==> valid_ranking(raw),
{
    lemma_verdict_from(raw, 0);
}

/// The candidates of a valid raw ranking, without its special vote.
pub open spec fn candidates_of(raw: Seq<i32>) -> Seq<u32> {
    let body = if raw.len() > 0 && is_sentinel(raw.last()) {
        raw.drop_last()
    } else {
        raw
    };
    body.map_values(|v: i32| v as u32)
}

/// The fixed text that describes each error.
pub open spec fn message_text(e: VoteErrorKind) -> Seq<char> {
    match e {
        VoteErrorKind::InvalidCastToCandidate => "Invalid candidate"@,
        VoteErrorKind::InvalidCastToSpecialVote => "Invalid cast to special vote"@,
        VoteErrorKind::ReadOutOfBounds => "Read out of bounds"@,
        VoteErrorKind::NonFinalSpecialVote =>
            "Special vote value can only be ranked once as the last choice"@,
        VoteErrorKind::DuplicateVotes => "Duplicate vote rankings"@,
        VoteErrorKind::VoteIsEmpty => "Vote is empty"@,
    }
}

impl VoteErrorKind {
    /// The human-readable text of this error.
    pub fn to_error_message(&self) -> (r: String)
        ensures
            r@ == message_text(*self),
    {
        match self {
            VoteErrorKind::InvalidCastToCandidate => "Invalid candidate".to_owned(),
            VoteErrorKind::InvalidCastToSpecialVote => "Invalid cast to special vote".to_owned(),
            VoteErrorKind::ReadOutOfBounds => "Read out of bounds".to_owned(),
            VoteErrorKind::NonFinalSpecialVote =>
                "Special vote value can only be ranked once as the last choice".to_owned(),
            VoteErrorKind::DuplicateVotes => "Duplicate vote rankings".to_owned(),
            VoteErrorKind::VoteIsEmpty => "Vote is empty".to_owned(),
        }
    }
}

impl Ballot {
    /// The ballot written out as raw values, special vote last.
    pub open spec fn entries(&self) -> Seq<i32> {
        let cs = self.candidates@.map_values(|c: u32| c as i32);
        match self.special {
            Some(s) => cs.push(sentinel_value(s)),
            None => cs,
        }
    }
}

/// A non-empty ranking whose entries are distinct, all non-negative but the
/// last, and whose last entry is non-negative or a special vote, is accepted;
/// `validate` then encodes it with its entries in the same order.
pub proof fn well_formed_ranking_is_accepted(raw: Seq<i32>)
    requires
        raw.len() > 0,
        raw.no_duplicates(),
        forall|k: int| 0 <= k < raw.len() - 1 ==> raw[k] >= 0,
        raw.last() >= 0 || is_sentinel(raw.last()),
    ensures
        ranking_verdict(raw) is Ok,
{
    assert forall|k: int| 0 <= k < raw.len() implies entry_ok(raw, k) by {
        if raw.subrange(0, k).contains(raw[k]) {
            let j = choose|j: int| 0 <= j < k && raw.subrange(0, k)[j] == raw[k];
            assert(raw[j] == raw[k]);
        }
    }
    lemma_verdict_ok_iff_valid(raw);
}

/// Relies on trie_rcv's `RankedVote::from_vector`, which walks the entries in
/// order and fails at the first one that repeats an earlier entry
/// (`DuplicateVotes`), is negative but not last (`NonFinalSpecialVote`), or is
/// negative, last and neither -1 nor -2 (`InvalidCastToSpecialVote`), and
/// fails with `VoteIsEmpty` on an empty ranking.
#[verifier::external_body]
fn cast_ranked_vote(raw: &Vec<i32>) -> (r: Result<(), VoteErrorKind>)
    ensures
        r == ranking_verdict(raw@),
{
    match RankedVote::from_vector(raw) {
        Ok(_) => Ok(()),
        Err(VoteErrors::InvalidCastToCandidate) => Err(VoteErrorKind::InvalidCastToCandidate),
        Err(VoteErrors::InvalidCastToSpecialVote) => Err(VoteErrorKind::InvalidCastToSpecialVote),
        Err(VoteErrors::ReadOutOfBounds) => Err(VoteErrorKind::ReadOutOfBounds),
        Err(VoteErrors::NonFinalSpecialVote) => Err(VoteErrorKind::NonFinalSpecialVote),
        Err(VoteErrors::DuplicateVotes) => Err(VoteErrorKind::DuplicateVotes),
        Err(VoteErrors::VoteIsEmpty) => Err(VoteErrorKind::VoteIsEmpty),
    }
}

/// Checks a raw ranking and encodes it as a ballot that holds the same
/// entries in the same order.
pub fn validate(raw: &Vec<i32>) -> (r: Result<Ballot, VoteErrorKind>)
    ensures
        match r {
            Ok(b) => {
                &&& ranking_verdict(raw@) is Ok
                &&& b.entries() == raw@
                &&& b.candidates@ == candidates_of(raw@)
            },
            Err(e) => ranking_verdict(raw@) == Err::<(), VoteErrorKind>(e),
        },
        (r is Ok) <==> valid_ranking(raw@),
{
    proof {
        lemma_verdict_ok_iff_valid(raw@);
    }
    match cast_ranked_vote(raw) {
        Err(e) => Err(e),
        Ok(()) => {
            let n = raw.len();
            let mut candidates: Vec<u32> = Vec::new();
            let mut i: usize = 0;
            while i + 1 < n
                invariant
                    valid_ranking(raw@),
                    n == raw@.len(),
                    n > 0,
                    i < n,
                    candidates@.map_values(|c: u32| c as i32) == raw@.subrange(0, i as int),
                    candidates@ == raw@.subrange(0, i as int).map_values(|v: i32| v as u32),
                decreases n - i,
            {
                let v = raw[i];
                assert(entry_ok(raw@, i as int));
                candidates.push(v as u32);
                assert(raw@.subrange(0, i + 1) =~= raw@.subrange(0, i as int).push(v));
                assert(candidates@.map_values(|c: u32| c as i32) =~= raw@.subrange(0, i + 1));
                assert(candidates@ =~= raw@.subrange(0, i + 1).map_values(|v: i32| v as u32));
                i = i + 1;
            }
            let last = raw[n - 1];
            assert(entry_ok(raw@, n - 1));
            let special = if last == WITHHOLD_VOTE_VAL {
                Some(SpecialVote::Withhold)
            } else if last == ABSTAIN_VOTE_VAL {
                Some(SpecialVote::Abstain)
            } else {
                candidates.push(last as u32);
                None
            };
            assert(raw@ =~= raw@.subrange(0, n - 1).push(last));
            assert(raw@.drop_last() =~= raw@.subrange(0, n - 1));
            assert(candidates@ =~= candidates_of(raw@));
            let b = Ballot { candidates, special };
            assert(b.entries() =~= raw@);
            Ok(b)
        },
    }
}

} // verus!
