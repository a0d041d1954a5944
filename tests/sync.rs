use grpc_helpers::address::{AccountAddress, AddressMap};
use grpc_helpers::state::AccountStatus;
use grpc_helpers::sync::{RoundOutcome, SyncState};
use grpc_helpers::MAX_WAIT_COMMIT_ITERATIONS;

fn addr(n: u128) -> AccountAddress {
    AccountAddress::new(n, 0)
}

fn states(pairs: &[(AccountAddress, u64)]) -> AddressMap<(u64, AccountStatus)> {
    let mut m = AddressMap::new();
    for (a, s) in pairs {
        m.insert(*a, (*s, AccountStatus::Persisted));
    }
    m
}

#[test]
fn accounts_converge_over_rounds() {
    let mut sync = SyncState::new(&[(addr(1), 3), (addr(2), 5)]);
    assert!(sync.has_rounds_left());
    let mut pending = sync.pending_addresses();
    pending.sort_by_key(|a| a.high);
    assert_eq!(pending, vec![addr(1), addr(2)]);

    assert_eq!(sync.record_round(&states(&[(addr(1), 3), (addr(2), 4)])), RoundOutcome::Pending);
    assert_eq!(sync.pending_addresses(), vec![addr(2)]);

    assert_eq!(sync.record_round(&states(&[])), RoundOutcome::Pending);
    assert_eq!(sync.pending_addresses(), vec![addr(2)]);

    assert_eq!(sync.record_round(&states(&[(addr(2), 5)])), RoundOutcome::Converged);
    assert!(sync.pending_addresses().is_empty());
    let result = sync.into_result();
    assert_eq!(result.len(), 2);
    assert_eq!(result.get(&addr(1)), Some(3));
    assert_eq!(result.get(&addr(2)), Some(5));
}

#[test]
fn budget_is_spent_when_no_account_reaches_its_target() {
    let mut sync = SyncState::new(&[(addr(1), 3), (addr(2), 5)]);
    let mut rounds: u64 = 0;
    while sync.has_rounds_left() {
        let outcome = sync.record_round(&states(&[(addr(1), 2)]));
        assert_eq!(outcome, RoundOutcome::Pending);
        rounds += 1;
    }
    assert_eq!(rounds, MAX_WAIT_COMMIT_ITERATIONS);
    let result = sync.into_result();
    assert_eq!(result.len(), 2);
    assert_eq!(result.get(&addr(1)), Some(2));
    assert_eq!(result.get(&addr(2)), Some(0));
}

#[test]
fn silent_accounts_stay_at_zero_while_others_converge() {
    let mut sync = SyncState::new(&[(addr(1), 3), (addr(2), 5), (addr(3), 1)]);
    let mut rounds: u64 = 0;
    while sync.has_rounds_left() {
        let reported = if rounds == 0 {
            states(&[(addr(1), 1)])
        } else {
            states(&[(addr(1), 3), (addr(3), 1)])
        };
        if sync.record_round(&reported) == RoundOutcome::Converged {
            break;
        }
        rounds += 1;
    }
    assert_eq!(rounds, MAX_WAIT_COMMIT_ITERATIONS);
    let result = sync.into_result();
    assert_eq!(result.len(), 3);
    assert_eq!(result.get(&addr(1)), Some(3));
    assert_eq!(result.get(&addr(3)), Some(1));
    assert_eq!(result.get(&addr(2)), Some(0));
}

#[test]
fn empty_sync_converges_in_first_round() {
    let mut sync = SyncState::new(&[]);
    assert!(sync.pending_addresses().is_empty());
    assert_eq!(sync.record_round(&states(&[])), RoundOutcome::Converged);
    assert_eq!(sync.into_result().len(), 0);
}

#[test]
fn repeated_account_never_counts_as_converged() {
    let mut sync = SyncState::new(&[(addr(1), 2), (addr(1), 4)]);
    assert_eq!(sync.pending_addresses(), vec![addr(1)]);
    assert_eq!(sync.record_round(&states(&[(addr(1), 4)])), RoundOutcome::Pending);
    assert!(sync.pending_addresses().is_empty());
    let result = sync.into_result();
    assert_eq!(result.len(), 1);
    assert_eq!(result.get(&addr(1)), Some(4));
}

#[test]
fn states_of_accounts_already_done_are_ignored() {
    let mut sync = SyncState::new(&[(addr(1), 2), (addr(2), 2)]);
    assert_eq!(sync.record_round(&states(&[(addr(1), 2)])), RoundOutcome::Pending);
    assert_eq!(sync.record_round(&states(&[(addr(1), 7), (addr(9), 1)])), RoundOutcome::Pending);
    assert_eq!(sync.pending_addresses(), vec![addr(2)]);
    let result = sync.into_result();
    assert_eq!(result.get(&addr(1)), Some(2));
    assert_eq!(result.get(&addr(2)), Some(0));
    assert_eq!(result.get(&addr(9)), None);
}
