use proposal_ledger::date::date_to_timestamp;
use proposal_ledger::service::GovernanceService;
use proposal_ledger::types::ErrorKind;
use proposal_ledger::types::ProposalStatus;

const ALICE: u64 = 1;
const BOB: u64 = 2;

/// Epoch seconds of 01-01-2030, used as a far-future window start.
const START_2030: u64 = 1_893_456_000;
/// Epoch seconds of 02-01-2030.
const END_2030: u64 = START_2030 + 86_400;

/// A time well before the 2030 window: noon on 15-06-2025.
fn noon_2025() -> u64 {
    date_to_timestamp(2025, 6, 15) + 12 * 3600
}

fn create_2030_proposal(gov: &mut GovernanceService, creator: u64, now: u64) -> u64 {
    let p = gov
        .create_proposal(
            creator,
            now,
            String::from("title"),
            String::from("description"),
            "01-01-2030",
            "02-01-2030",
        )
        .unwrap();
    assert_eq!(p.start_date, START_2030);
    assert_eq!(p.end_date, END_2030);
    p.id
}

#[test]
fn create_assigns_fresh_ids_and_fields() {
    let mut gov = GovernanceService::new();
    let now = noon_2025();
    let p = gov
        .create_proposal(
            ALICE,
            now,
            String::from("expand the garden"),
            String::from("plant more trees"),
            "01-01-2030",
            "02-01-2030",
        )
        .unwrap();
    assert_eq!(p.id, 1);
    assert_eq!(p.creator, ALICE);
    assert_eq!(p.created_at, now);
    assert_eq!(p.title, "expand the garden");
    assert_eq!(p.description, "plant more trees");
    assert_eq!(p.votes_for, 0);
    assert_eq!(p.votes_against, 0);
    let q = gov
        .create_proposal(
            BOB,
            now,
            String::from("second"),
            String::from("second"),
            "05-03-2031",
            "09-03-2031",
        )
        .unwrap();
    assert_eq!(q.id, 2);
}

#[test]
fn create_rejects_empty_window() {
    let mut gov = GovernanceService::new();
    let now = noon_2025();
    let e = gov
        .create_proposal(
            ALICE,
            now,
            String::from("t"),
            String::from("d"),
            "02-01-2030",
            "01-01-2030",
        )
        .unwrap_err();
    assert_eq!(e.kind(), ErrorKind::InvalidInput);
    let e = gov
        .create_proposal(
            ALICE,
            now,
            String::from("t"),
            String::from("d"),
            "01-01-2030",
            "01-01-2030",
        )
        .unwrap_err();
    assert_eq!(e.kind(), ErrorKind::InvalidInput);
}

#[test]
fn create_rejects_start_in_the_past() {
    let mut gov = GovernanceService::new();
    let now = noon_2025();
    let e = gov
        .create_proposal(
            ALICE,
            now,
            String::from("t"),
            String::from("d"),
            "14-06-2025",
            "01-01-2030",
        )
        .unwrap_err();
    assert_eq!(e.kind(), ErrorKind::InvalidInput);
    // Starting on the current day is allowed: only strictly past starts are
    // rejected, at day granularity.
    assert!(gov
        .create_proposal(
            ALICE,
            now,
            String::from("t"),
            String::from("d"),
            "15-06-2025",
            "01-01-2030",
        )
        .is_ok());
}

#[test]
fn create_rejects_malformed_dates() {
    let mut gov = GovernanceService::new();
    let now = noon_2025();
    let e = gov
        .create_proposal(
            ALICE,
            now,
            String::from("t"),
            String::from("d"),
            "2030-01-01",
            "02-01-2030",
        )
        .unwrap_err();
    assert_eq!(e.kind(), ErrorKind::InvalidInput);
}

#[test]
fn get_proposal_status_follows_the_clock() {
    let mut gov = GovernanceService::new();
    let now = noon_2025();
    let id = create_2030_proposal(&mut gov, ALICE, now);
    let before = gov.get_proposal(START_2030 - 1, id).unwrap();
    assert!(matches!(before.status, ProposalStatus::Pending));
    let at_start = gov.get_proposal(START_2030, id).unwrap();
    assert!(matches!(at_start.status, ProposalStatus::Active));
    let at_end = gov.get_proposal(END_2030, id).unwrap();
    assert!(matches!(at_end.status, ProposalStatus::Active));
    let after = gov.get_proposal(END_2030 + 1, id).unwrap();
    assert!(matches!(after.status, ProposalStatus::Ended));
}

#[test]
fn get_proposal_rejects_id_zero_and_unknown_ids() {
    let gov = GovernanceService::new();
    assert_eq!(gov.get_proposal(noon_2025(), 0).unwrap_err().kind(), ErrorKind::InvalidInput);
    assert_eq!(gov.get_proposal(noon_2025(), 7).unwrap_err().kind(), ErrorKind::NotFound);
}

#[test]
fn pending_proposal_refuses_votes() {
    // Scenario: window 01-01-2030 to 02-01-2030; before the window the
    // proposal shows Pending and a vote fails VotingNotStarted.
    let mut gov = GovernanceService::new();
    let now = noon_2025();
    let id = create_2030_proposal(&mut gov, ALICE, now);
    let p = gov.get_proposal(now, id).unwrap();
    assert!(matches!(p.status, ProposalStatus::Pending));
    let e = gov.vote(BOB, now, id, true, 1).unwrap_err();
    assert_eq!(e.kind(), ErrorKind::VotingNotStarted);
    assert_eq!(gov.get_results(id).unwrap(), (0, 0));
    assert_eq!(gov.get_balance(BOB), 3);
}

#[test]
fn first_vote_succeeds_second_fails() {
    let mut gov = GovernanceService::new();
    let id = create_2030_proposal(&mut gov, ALICE, noon_2025());
    let during = START_2030 + 3600;
    gov.vote(BOB, during, id, true, 2).unwrap();
    assert_eq!(gov.get_results(id).unwrap(), (2, 0));
    assert_eq!(gov.get_balance(BOB), 1);
    let e = gov.vote(BOB, during, id, false, 1).unwrap_err();
    assert_eq!(e.kind(), ErrorKind::AlreadyExists);
    // The tally and the balance reflect exactly one contribution.
    assert_eq!(gov.get_results(id).unwrap(), (2, 0));
    assert_eq!(gov.get_balance(BOB), 1);
}

#[test]
fn votes_by_different_users_accumulate() {
    let mut gov = GovernanceService::new();
    let id = create_2030_proposal(&mut gov, ALICE, noon_2025());
    let during = START_2030 + 3600;
    gov.vote(ALICE, during, id, true, 3).unwrap();
    gov.vote(BOB, during, id, false, 2).unwrap();
    assert_eq!(gov.get_results(id).unwrap(), (3, 2));
}

#[test]
fn vote_with_insufficient_tokens_changes_nothing() {
    let mut gov = GovernanceService::new();
    let id = create_2030_proposal(&mut gov, ALICE, noon_2025());
    let during = START_2030 + 3600;
    let e = gov.vote(BOB, during, id, true, 4).unwrap_err();
    assert_eq!(e.kind(), ErrorKind::InsufficientTokens);
    assert_eq!(gov.get_results(id).unwrap(), (0, 0));
    assert_eq!(gov.get_balance(BOB), 3);
    // The refused vote left no record: voting again still works.
    gov.vote(BOB, during, id, true, 3).unwrap();
    assert_eq!(gov.get_results(id).unwrap(), (3, 0));
    assert_eq!(gov.get_balance(BOB), 0);
}

#[test]
fn vote_outside_the_window_changes_nothing() {
    let mut gov = GovernanceService::new();
    let id = create_2030_proposal(&mut gov, ALICE, noon_2025());
    let e = gov.vote(BOB, START_2030 - 1, id, true, 1).unwrap_err();
    assert_eq!(e.kind(), ErrorKind::VotingNotStarted);
    let e = gov.vote(BOB, END_2030 + 1, id, true, 1).unwrap_err();
    assert_eq!(e.kind(), ErrorKind::VotingEnded);
    assert_eq!(gov.get_results(id).unwrap(), (0, 0));
    assert_eq!(gov.get_balance(BOB), 3);
}

#[test]
fn vote_boundary_instants_are_inside_the_window() {
    let mut gov = GovernanceService::new();
    let id = create_2030_proposal(&mut gov, ALICE, noon_2025());
    gov.vote(ALICE, START_2030, id, true, 1).unwrap();
    gov.vote(BOB, END_2030, id, false, 1).unwrap();
    assert_eq!(gov.get_results(id).unwrap(), (1, 1));
}

#[test]
fn vote_rejects_id_zero_and_unknown_proposals() {
    let mut gov = GovernanceService::new();
    let now = noon_2025();
    assert_eq!(gov.vote(BOB, now, 0, true, 1).unwrap_err().kind(), ErrorKind::InvalidInput);
    assert_eq!(gov.vote(BOB, now, 9, true, 1).unwrap_err().kind(), ErrorKind::NotFound);
}

#[test]
fn delete_rules() {
    let mut gov = GovernanceService::new();
    let now = noon_2025();
    let id = create_2030_proposal(&mut gov, ALICE, now);
    let e = gov.delete_proposal(BOB, now, id).unwrap_err();
    assert_eq!(e.kind(), ErrorKind::NotAuthorized);
    let e = gov.delete_proposal(ALICE, START_2030, id).unwrap_err();
    assert_eq!(e.kind(), ErrorKind::ProposalAlreadyStarted);
    gov.delete_proposal(ALICE, now, id).unwrap();
    assert_eq!(gov.get_proposal(now, id).unwrap_err().kind(), ErrorKind::NotFound);
    assert_eq!(gov.delete_proposal(ALICE, now, id).unwrap_err().kind(), ErrorKind::NotFound);
}

#[test]
fn deleted_ids_are_never_reused() {
    let mut gov = GovernanceService::new();
    let now = noon_2025();
    let id = create_2030_proposal(&mut gov, ALICE, now);
    gov.delete_proposal(ALICE, now, id).unwrap();
    let id2 = create_2030_proposal(&mut gov, ALICE, now);
    assert!(id2 > id);
}

#[test]
fn update_replaces_only_the_text() {
    let mut gov = GovernanceService::new();
    let now = noon_2025();
    let id = create_2030_proposal(&mut gov, ALICE, now);
    let during = START_2030 + 1;
    gov.vote(BOB, during, id, true, 2).unwrap();
    // No authorization guard applies to updates, unlike deletion.
    gov.update_proposal(id, String::from("new title"), String::from("new text")).unwrap();
    let p = gov.get_proposal(now, id).unwrap();
    assert_eq!(p.title, "new title");
    assert_eq!(p.description, "new text");
    assert_eq!(p.creator, ALICE);
    assert_eq!(p.start_date, START_2030);
    assert_eq!(p.end_date, END_2030);
    assert_eq!(p.votes_for, 2);
    let e = gov
        .update_proposal(99, String::from("x"), String::from("y"))
        .unwrap_err();
    assert_eq!(e.kind(), ErrorKind::NotFound);
}

#[test]
fn get_results_errors() {
    let gov = GovernanceService::new();
    assert_eq!(gov.get_results(0).unwrap_err().kind(), ErrorKind::InvalidInput);
    assert_eq!(gov.get_results(5).unwrap_err().kind(), ErrorKind::NotFound);
}

#[test]
fn new_user_gets_the_default_allotment() {
    let mut gov = GovernanceService::new();
    assert_eq!(gov.get_balance(ALICE), 3);
    // The allotment is an initial grant, not an answer re-issued on every
    // read after spending.
    let id = create_2030_proposal(&mut gov, BOB, noon_2025());
    gov.vote(ALICE, START_2030, id, true, 2).unwrap();
    assert_eq!(gov.get_balance(ALICE), 1);
}

#[test]
fn grant_tokens_credits_on_top_of_the_default() {
    let mut gov = GovernanceService::new();
    assert_eq!(gov.grant_tokens(ALICE, 10), 13);
    assert_eq!(gov.get_balance(ALICE), 13);
    assert_eq!(gov.grant_tokens(ALICE, 0), 13);
    assert_eq!(gov.grant_tokens(ALICE, u64::MAX), u64::MAX);
}

#[test]
fn listing_partitions_by_the_clock() {
    let mut gov = GovernanceService::new();
    let now = noon_2025();
    let early = create_2030_proposal(&mut gov, ALICE, now);
    let late = gov
        .create_proposal(
            ALICE,
            now,
            String::from("later"),
            String::from("later"),
            "01-01-2031",
            "02-01-2031",
        )
        .unwrap()
        .id;
    let during_first = START_2030 + 3600;
    let all = gov.list_all(during_first);
    assert_eq!(all.len(), 2);
    assert_eq!(all[0].id, early);
    assert_eq!(all[1].id, late);
    assert!(matches!(all[0].status, ProposalStatus::Active));
    assert!(matches!(all[1].status, ProposalStatus::Pending));
    let active = gov.list_active(during_first);
    assert_eq!(active.len(), 1);
    assert_eq!(active[0].id, early);
    let inactive = gov.list_inactive(during_first);
    assert_eq!(inactive.len(), 0);
    // At the very instant the first window closes, the proposal is already
    // out of the active list but deliberately not yet in the inactive one.
    let at_end = END_2030;
    assert_eq!(gov.list_active(at_end).len(), 1);
    assert_eq!(gov.list_inactive(at_end).len(), 0);
    let past_end = END_2030 + 1;
    assert_eq!(gov.list_active(past_end).len(), 0);
    let inactive = gov.list_inactive(past_end);
    assert_eq!(inactive.len(), 1);
    assert_eq!(inactive[0].id, early);
    assert!(matches!(inactive[0].status, ProposalStatus::Ended));
}

#[test]
fn zero_token_votes_are_recorded() {
    let mut gov = GovernanceService::new();
    let id = create_2030_proposal(&mut gov, ALICE, noon_2025());
    gov.vote(BOB, START_2030, id, true, 0).unwrap();
    assert_eq!(gov.get_results(id).unwrap(), (0, 0));
    assert_eq!(gov.get_balance(BOB), 3);
    let e = gov.vote(BOB, START_2030, id, true, 1).unwrap_err();
    assert_eq!(e.kind(), ErrorKind::AlreadyExists);
}

#[test]
fn deletion_keeps_the_other_proposals_in_order() {
    let mut gov = GovernanceService::new();
    let now = noon_2025();
    let a = create_2030_proposal(&mut gov, ALICE, now);
    let b = create_2030_proposal(&mut gov, ALICE, now);
    let c = create_2030_proposal(&mut gov, ALICE, now);
    gov.delete_proposal(ALICE, now, b).unwrap();
    let all = gov.list_all(now);
    assert_eq!(all.len(), 2);
    assert_eq!(all[0].id, a);
    assert_eq!(all[1].id, c);
}

#[test]
fn voting_on_a_deleted_proposal_fails_not_found() {
    let mut gov = GovernanceService::new();
    let now = noon_2025();
    let id = create_2030_proposal(&mut gov, ALICE, now);
    gov.delete_proposal(ALICE, now, id).unwrap();
    let e = gov.vote(BOB, START_2030, id, true, 1).unwrap_err();
    assert_eq!(e.kind(), ErrorKind::NotFound);
}

#[test]
fn error_messages_are_carried() {
    let gov = GovernanceService::new();
    let e = gov.get_proposal(noon_2025(), 7).unwrap_err();
    assert_eq!(e.message().as_str(), "Proposal not found");
}
