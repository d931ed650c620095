use ranked_choice_vote::aggregator::VotesAggregator;
use ranked_choice_vote::codec::{validate, SpecialVote, VoteErrorKind, ABSTAIN_VOTE_VAL, WITHHOLD_VOTE_VAL};

fn cast(agg: &mut VotesAggregator, voter: u64, ranking: &[i32]) {
    for value in ranking {
        agg.insert_vote_ranking(voter, *value);
    }
}

#[test]
fn valid_ranking_keeps_its_order() {
    let ballot = validate(&vec![3, 1, 2, WITHHOLD_VOTE_VAL]).unwrap();
    assert_eq!(ballot.candidates, vec![3, 1, 2]);
    assert_eq!(ballot.special, Some(SpecialVote::Withhold));

    let ballot = validate(&vec![7, 0, 5]).unwrap();
    assert_eq!(ballot.candidates, vec![7, 0, 5]);
    assert_eq!(ballot.special, None);

    let ballot = validate(&vec![4, ABSTAIN_VOTE_VAL]).unwrap();
    assert_eq!(ballot.candidates, vec![4]);
    assert_eq!(ballot.special, Some(SpecialVote::Abstain));
}

#[test]
fn withhold_only_ranking_is_valid() {
    let ballot = validate(&vec![WITHHOLD_VOTE_VAL]).unwrap();
    assert!(ballot.candidates.is_empty());
    assert_eq!(ballot.special, Some(SpecialVote::Withhold));
}

#[test]
fn empty_ranking_is_rejected() {
    assert_eq!(validate(&vec![]).err(), Some(VoteErrorKind::VoteIsEmpty));
    let agg = VotesAggregator::new();
    assert_eq!(agg.validate_raw_vote(vec![]), (false, "Vote is empty".to_string()));
}

#[test]
fn duplicate_candidate_is_rejected() {
    assert_eq!(validate(&vec![1, 2, 1]).err(), Some(VoteErrorKind::DuplicateVotes));
    let agg = VotesAggregator::new();
    assert_eq!(
        agg.validate_raw_vote(vec![1, 2, 1]),
        (false, "Duplicate vote rankings".to_string())
    );
}

#[test]
fn duplicate_candidate_fails_flush() {
    let mut agg = VotesAggregator::new();
    cast(&mut agg, 9, &[1, 2, 1]);
    assert_eq!(agg.flush_votes(), Err(VoteErrorKind::DuplicateVotes));
}

#[test]
fn non_final_special_vote_is_rejected() {
    assert_eq!(
        validate(&vec![WITHHOLD_VOTE_VAL, 1]).err(),
        Some(VoteErrorKind::NonFinalSpecialVote)
    );
    let agg = VotesAggregator::new();
    assert_eq!(
        agg.validate_raw_vote(vec![WITHHOLD_VOTE_VAL, 1]),
        (
            false,
            "Special vote value can only be ranked once as the last choice".to_string()
        )
    );
    let mut agg = VotesAggregator::new();
    cast(&mut agg, 1, &[WITHHOLD_VOTE_VAL, 1]);
    assert_eq!(agg.flush_votes(), Err(VoteErrorKind::NonFinalSpecialVote));
}

#[test]
fn repeated_special_vote_is_rejected() {
    assert_eq!(
        validate(&vec![2, WITHHOLD_VOTE_VAL, WITHHOLD_VOTE_VAL]).err(),
        Some(VoteErrorKind::NonFinalSpecialVote)
    );
}

#[test]
fn unknown_negative_value_is_rejected() {
    assert_eq!(
        validate(&vec![1, -5]).err(),
        Some(VoteErrorKind::InvalidCastToSpecialVote)
    );
    let agg = VotesAggregator::new();
    assert_eq!(
        agg.validate_raw_vote(vec![1, -5]),
        (false, "Invalid cast to special vote".to_string())
    );
}

#[test]
fn error_messages_are_fixed() {
    assert_eq!(VoteErrorKind::InvalidCastToCandidate.to_error_message(), "Invalid candidate");
    assert_eq!(
        VoteErrorKind::InvalidCastToSpecialVote.to_error_message(),
        "Invalid cast to special vote"
    );
    assert_eq!(VoteErrorKind::ReadOutOfBounds.to_error_message(), "Read out of bounds");
    assert_eq!(
        VoteErrorKind::NonFinalSpecialVote.to_error_message(),
        "Special vote value can only be ranked once as the last choice"
    );
    assert_eq!(VoteErrorKind::DuplicateVotes.to_error_message(), "Duplicate vote rankings");
    assert_eq!(VoteErrorKind::VoteIsEmpty.to_error_message(), "Vote is empty");
}

#[test]
fn probe_is_pure_and_repeatable() {
    let mut agg = VotesAggregator::new();
    cast(&mut agg, 1, &[1, 2]);
    let first = agg.validate_raw_vote(vec![3, 1, 3]);
    let second = agg.validate_raw_vote(vec![3, 1, 3]);
    assert_eq!(first, second);
    assert_eq!(agg.validate_raw_vote(vec![3, 1]), (true, String::new()));
    assert_eq!(agg.get_num_votes(), 1);
    assert_eq!(agg.flush_votes(), Ok(true));
    assert_eq!(agg.get_num_votes(), 1);
}

#[test]
fn repeated_rankings_count_as_one_voter() {
    let mut agg = VotesAggregator::new();
    agg.insert_empty_votes(2);
    let before = agg.get_num_votes();
    cast(&mut agg, 42, &[3, 1, 2, 5]);
    assert_eq!(agg.get_num_votes(), before + 1);
    assert_eq!(agg.flush_votes(), Ok(true));
    assert_eq!(agg.get_num_votes(), before + 1);
}

#[test]
fn empty_votes_count_at_once() {
    let mut agg = VotesAggregator::new();
    cast(&mut agg, 1, &[1]);
    assert!(agg.insert_empty_votes(5));
    assert_eq!(agg.get_num_votes(), 6);
    assert!(agg.insert_empty_votes(0));
    assert_eq!(agg.get_num_votes(), 6);
}

#[test]
fn flush_of_empty_cache_is_false() {
    let mut agg = VotesAggregator::new();
    assert_eq!(agg.flush_votes(), Ok(false));
    assert_eq!(agg.flush_votes(), Ok(false));
    assert_eq!(agg.get_num_votes(), 0);
    cast(&mut agg, 3, &[2, 1]);
    assert_eq!(agg.flush_votes(), Ok(true));
    assert_eq!(agg.flush_votes(), Ok(false));
    assert_eq!(agg.get_num_votes(), 1);
}

#[test]
fn failed_flush_keeps_everything_pending() {
    let mut agg = VotesAggregator::new();
    cast(&mut agg, 1, &[1, 2]);
    cast(&mut agg, 2, &[2, 2]);
    cast(&mut agg, 3, &[3]);
    assert_eq!(agg.get_num_votes(), 3);
    assert_eq!(agg.flush_votes(), Err(VoteErrorKind::DuplicateVotes));
    assert_eq!(agg.get_num_votes(), 3);
    assert_eq!(agg.flush_votes(), Err(VoteErrorKind::DuplicateVotes));
    assert_eq!(agg.determine_winner(), Err(VoteErrorKind::DuplicateVotes));
    assert_eq!(agg.get_num_votes(), 3);
}

#[test]
fn first_rejected_voter_decides_the_error() {
    let mut agg = VotesAggregator::new();
    cast(&mut agg, 5, &[WITHHOLD_VOTE_VAL, 4]);
    cast(&mut agg, 6, &[]);
    cast(&mut agg, 6, &[1, 1]);
    assert_eq!(agg.flush_votes(), Err(VoteErrorKind::NonFinalSpecialVote));
}

#[test]
fn no_votes_no_winner() {
    let mut agg = VotesAggregator::new();
    assert_eq!(agg.determine_winner(), Ok(None));
    assert_eq!(agg.get_num_votes(), 0);
}

#[test]
fn runoff_redistributes_eliminated_votes() {
    let mut agg = VotesAggregator::new();
    let mut voter: u64 = 0;
    for _ in 0..4 {
        cast(&mut agg, voter, &[1, 2, 3]);
        voter += 1;
    }
    for _ in 0..3 {
        cast(&mut agg, voter, &[2, 3, 1]);
        voter += 1;
    }
    for _ in 0..3 {
        cast(&mut agg, voter, &[3, 1, 2]);
        voter += 1;
    }
    assert_eq!(agg.get_num_votes(), 10);
    assert_eq!(agg.determine_winner(), Ok(Some(3)));
    assert_eq!(agg.get_num_votes(), 10);
}

#[test]
fn withhold_only_ballot_has_no_winner() {
    let mut agg = VotesAggregator::new();
    agg.insert_empty_votes(1);
    assert_eq!(agg.get_num_votes(), 1);
    assert_eq!(agg.determine_winner(), Ok(None));
}

#[test]
fn withheld_ranking_from_voter_has_no_winner() {
    let mut agg = VotesAggregator::new();
    cast(&mut agg, 8, &[WITHHOLD_VOTE_VAL]);
    assert_eq!(agg.get_num_votes(), 1);
    assert_eq!(agg.determine_winner(), Ok(None));
    assert_eq!(agg.get_num_votes(), 1);
}

#[test]
fn first_round_majority_wins() {
    let mut agg = VotesAggregator::new();
    cast(&mut agg, 1, &[2, 1]);
    cast(&mut agg, 2, &[2]);
    cast(&mut agg, 3, &[1, 2]);
    assert_eq!(agg.determine_winner(), Ok(Some(2)));
}

#[test]
fn tie_for_last_eliminates_lowest_id() {
    let mut agg = VotesAggregator::new();
    cast(&mut agg, 1, &[4, 6]);
    cast(&mut agg, 2, &[5, 7]);
    cast(&mut agg, 3, &[6]);
    cast(&mut agg, 4, &[7]);
    assert_eq!(agg.determine_winner(), Ok(Some(7)));
}

#[test]
fn heavy_withholding_leaves_last_candidate_standing() {
    let mut agg = VotesAggregator::new();
    cast(&mut agg, 1, &[1]);
    cast(&mut agg, 2, &[1]);
    cast(&mut agg, 3, &[2]);
    agg.insert_empty_votes(3);
    assert_eq!(agg.get_num_votes(), 6);
    assert_eq!(agg.determine_winner(), Ok(Some(1)));
}

#[test]
fn single_candidate_wins() {
    let mut agg = VotesAggregator::new();
    cast(&mut agg, 1, &[7, WITHHOLD_VOTE_VAL]);
    assert_eq!(agg.determine_winner(), Ok(Some(7)));
}

#[test]
fn votes_accumulate_across_flushes() {
    let mut agg = VotesAggregator::new();
    cast(&mut agg, 1, &[1, 2]);
    assert_eq!(agg.flush_votes(), Ok(true));
    cast(&mut agg, 1, &[2, 1]);
    cast(&mut agg, 2, &[2]);
    assert_eq!(agg.get_num_votes(), 3);
    assert_eq!(agg.determine_winner(), Ok(Some(2)));
}

#[test]
fn shared_prefixes_transfer_to_next_choice() {
    let mut agg = VotesAggregator::new();
    cast(&mut agg, 1, &[1, 2]);
    cast(&mut agg, 2, &[1, 3]);
    cast(&mut agg, 3, &[2, 3]);
    cast(&mut agg, 4, &[3, 2]);
    cast(&mut agg, 5, &[3, 1]);
    assert_eq!(agg.determine_winner(), Ok(Some(3)));
}

#[test]
fn exhausted_ballots_stop_counting() {
    let mut agg = VotesAggregator::new();
    cast(&mut agg, 1, &[1, WITHHOLD_VOTE_VAL]);
    cast(&mut agg, 2, &[2]);
    cast(&mut agg, 3, &[2]);
    cast(&mut agg, 4, &[3, 1]);
    cast(&mut agg, 5, &[3, 1]);
    cast(&mut agg, 6, &[3, 1]);
    cast(&mut agg, 7, &[4, 2]);
    assert_eq!(agg.determine_winner(), Ok(Some(3)));
}
