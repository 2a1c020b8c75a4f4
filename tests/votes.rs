use governance_votes::ledger::Votes;
use governance_votes::{AccountId, GovernanceError};

const A: AccountId = [1u8; 32];
const B: AccountId = [2u8; 32];
const C: AccountId = [3u8; 32];
const D: AccountId = [4u8; 32];

fn sum_votes(v: &Votes, ids: &[AccountId]) -> u128 {
    ids.iter().map(|a| v.get_votes(*a)).sum()
}

#[test]
fn delegate_then_transfer_scenario() {
    let mut v = Votes::new();
    assert_eq!(v.move_voting_power(None, Some(A), 100, 1), Ok(()));
    assert_eq!(v.get_votes(A), 100);
    assert_eq!(v.delegates(A), None);
    assert_eq!(v.delegate(A, B, 2), Ok(()));
    assert_eq!(v.get_votes(B), 100);
    assert_eq!(v.get_votes(A), 0);
    assert_eq!(v.delegates(A), Some(B));
    assert_eq!(v.move_voting_power(Some(A), Some(C), 40, 3), Ok(()));
    assert_eq!(v.get_votes(B), 60);
    assert_eq!(v.get_votes(C), 40);
    assert_eq!(v.get_votes(A), 0);
    assert_eq!(v.voting_units(A), 60);
    assert_eq!(v.voting_units(C), 40);
    assert_eq!(v.effective_delegate(C), C);
}

#[test]
fn total_supply_after_mint_and_burn() {
    let mut v = Votes::new();
    assert_eq!(v.move_voting_power(None, Some(A), 100, 10), Ok(()));
    assert_eq!(v.move_voting_power(Some(A), None, 30, 20), Ok(()));
    assert_eq!(v.get_past_total_supply(10, 25), Ok(100));
    assert_eq!(v.get_past_total_supply(20, 25), Ok(70));
    assert_eq!(v.get_past_total_supply(25, 25), Ok(70));
    assert_eq!(v.get_past_total_supply(15, 25), Ok(100));
    assert_eq!(v.get_past_total_supply(26, 25), Err(GovernanceError::FutureLookup));
    assert_eq!(v.total_supply(), 70);
}

#[test]
fn past_queries_reject_only_the_future() {
    let mut v = Votes::new();
    assert_eq!(v.get_past_votes(A, 0, 0), Ok(0));
    assert_eq!(v.get_past_total_supply(0, 0), Ok(0));
    assert_eq!(v.move_voting_power(None, Some(A), 100, 10), Ok(()));
    assert_eq!(v.get_past_votes(A, 5, 10), Ok(0));
    assert_eq!(v.get_past_votes(A, 10, 10), Ok(100));
    assert_eq!(v.get_past_votes(A, 11, 10), Err(GovernanceError::FutureLookup));
    assert_eq!(v.get_past_votes(D, 10, 10), Ok(0));
    assert_eq!(v.get_past_total_supply(9, 10), Ok(0));
    assert_eq!(v.get_past_total_supply(u64::MAX, 10), Err(GovernanceError::FutureLookup));
}

#[test]
fn votes_add_up_to_supply_through_any_sequence() {
    let ids = [A, B, C, D];
    let mut v = Votes::new();
    let mut t: u64 = 1;
    let steps: Vec<Box<dyn Fn(&mut Votes, u64) -> Result<(), GovernanceError>>> = vec![
        Box::new(|v: &mut Votes, t: u64| v.move_voting_power(None, Some(A), 500, t)),
        Box::new(|v: &mut Votes, t: u64| v.move_voting_power(None, Some(B), 300, t)),
        Box::new(|v: &mut Votes, t: u64| v.delegate(A, C, t)),
        Box::new(|v: &mut Votes, t: u64| v.move_voting_power(Some(A), Some(B), 120, t)),
        Box::new(|v: &mut Votes, t: u64| v.delegate(B, C, t)),
        Box::new(|v: &mut Votes, t: u64| v.move_voting_power(Some(B), None, 50, t)),
        Box::new(|v: &mut Votes, t: u64| v.delegate(A, D, t)),
        Box::new(|v: &mut Votes, t: u64| v.move_voting_power(Some(C), Some(A), 0, t)),
        Box::new(|v: &mut Votes, t: u64| v.delegate(B, B, t)),
        Box::new(|v: &mut Votes, t: u64| v.move_voting_power(Some(A), Some(A), 10, t)),
        Box::new(|v: &mut Votes, t: u64| v.move_voting_power(None, Some(D), 7, t)),
    ];
    for step in steps.iter() {
        assert_eq!(step(&mut v, t), Ok(()));
        assert_eq!(sum_votes(&v, &ids), v.total_supply());
        t += 1;
    }
    assert_eq!(v.total_supply(), 757);
    assert_eq!(v.get_votes(D), 380 + 7);
    assert_eq!(v.get_votes(B), 370);
    assert_eq!(v.get_votes(C), 0);
}

#[test]
fn redelegating_to_current_delegate_writes_nothing() {
    let mut v = Votes::new();
    assert_eq!(v.move_voting_power(None, Some(A), 100, 1), Ok(()));
    assert_eq!(v.delegate(A, B, 2), Ok(()));
    let before_a = v.num_checkpoints(A);
    let before_b = v.num_checkpoints(B);
    assert_eq!(v.delegate(A, B, 3), Ok(()));
    assert_eq!(v.num_checkpoints(A), before_a);
    assert_eq!(v.num_checkpoints(B), before_b);
    assert_eq!(v.get_votes(B), 100);
    assert_eq!(v.get_past_votes(B, 2, 3), Ok(100));
    assert_eq!(v.delegate(C, C, 4), Ok(()));
    assert_eq!(v.num_checkpoints(C), 0);
}

#[test]
fn same_time_writes_overwrite_in_ledger() {
    let mut v = Votes::new();
    assert_eq!(v.move_voting_power(None, Some(A), 10, 5), Ok(()));
    assert_eq!(v.move_voting_power(None, Some(A), 20, 5), Ok(()));
    assert_eq!(v.num_checkpoints(A), 1);
    let c = v.checkpoints(A, 0).unwrap();
    assert_eq!((c.timestamp, c.value), (5, 30));
    assert_eq!(v.checkpoints(A, 1), None);
}

#[test]
fn transfer_beyond_units_is_refused() {
    let mut v = Votes::new();
    assert_eq!(v.move_voting_power(Some(A), Some(B), 1, 1), Err(GovernanceError::InsufficientBalance));
    assert_eq!(v.move_voting_power(None, Some(A), 10, 1), Ok(()));
    assert_eq!(v.move_voting_power(Some(A), None, 11, 2), Err(GovernanceError::InsufficientBalance));
    assert_eq!(v.get_votes(A), 10);
    assert_eq!(v.total_supply(), 10);
    assert_eq!(v.last_write_time(), 1);
}

#[test]
fn mint_past_largest_supply_is_refused() {
    let mut v = Votes::new();
    assert_eq!(v.move_voting_power(None, Some(A), u128::MAX, 1), Ok(()));
    assert_eq!(v.move_voting_power(None, Some(B), 1, 2), Err(GovernanceError::Overflow));
    assert_eq!(v.get_votes(A), u128::MAX);
    assert_eq!(v.move_voting_power(Some(A), Some(B), u128::MAX, 3), Ok(()));
    assert_eq!(v.get_votes(B), u128::MAX);
}

#[test]
fn nonces_are_consumed_in_order() {
    let mut v = Votes::new();
    assert_eq!(v.nonces(A), 0);
    assert_eq!(v.use_checked_nonce(A, 1), Err(GovernanceError::InvalidAccountNonce));
    assert_eq!(v.use_checked_nonce(A, 0), Ok(()));
    assert_eq!(v.nonces(A), 1);
    assert_eq!(v.use_checked_nonce(A, 0), Err(GovernanceError::InvalidAccountNonce));
    assert_eq!(v.use_checked_nonce(A, 1), Ok(()));
    assert_eq!(v.nonces(A), 2);
    assert_eq!(v.nonces(B), 0);
}

#[test]
fn authorized_delegation_checks_in_order() {
    let mut v = Votes::new();
    assert_eq!(v.move_voting_power(None, Some(A), 100, 1), Ok(()));
    assert_eq!(v.delegate_authorized(A, B, 0, 5, true, 6), Err(GovernanceError::ExpiredSignature));
    assert_eq!(v.delegate_authorized(A, B, 9, 5, false, 6), Err(GovernanceError::ExpiredSignature));
    assert_eq!(v.delegate_authorized(A, B, 9, 10, false, 6), Err(GovernanceError::InvalidSignature));
    assert_eq!(v.nonces(A), 0);
    assert_eq!(v.delegate_authorized(A, B, 1, 10, true, 6), Err(GovernanceError::InvalidAccountNonce));
    assert_eq!(v.get_votes(B), 0);
    assert_eq!(v.delegate_authorized(A, B, 0, 10, true, 6), Ok(()));
    assert_eq!(v.nonces(A), 1);
    assert_eq!(v.get_votes(B), 100);
    assert_eq!(v.delegate_authorized(A, C, 0, 10, true, 7), Err(GovernanceError::InvalidAccountNonce));
    assert_eq!(v.get_votes(C), 0);
}
