use grpc_helpers::address::AccountAddress;
use grpc_helpers::state::{
    collect_account_states, first_item_state, handle_account_state_response, AccountStateError,
    AccountStateReply, AccountStatus,
};

fn addr(n: u128) -> AccountAddress {
    AccountAddress::new(0, n)
}

#[test]
fn state_of_each_item_kind() {
    assert_eq!(
        handle_account_state_response(AccountStateReply::Resource { sequence_number: 12 }),
        Ok((12, AccountStatus::Persisted))
    );
    assert_eq!(
        handle_account_state_response(AccountStateReply::Missing),
        Err(AccountStateError::AccountMissing)
    );
    assert_eq!(
        handle_account_state_response(AccountStateReply::Invalid),
        Err(AccountStateError::InvalidItem)
    );
}

#[test]
fn empty_response_is_an_error_and_only_first_item_counts() {
    assert_eq!(first_item_state(&vec![]), Err(AccountStateError::EmptyResponse));
    let items = vec![
        AccountStateReply::Resource { sequence_number: 5 },
        AccountStateReply::Resource { sequence_number: 9 },
    ];
    assert_eq!(first_item_state(&items), Ok((5, AccountStatus::Persisted)));
    let items = vec![AccountStateReply::Missing, AccountStateReply::Resource { sequence_number: 9 }];
    assert_eq!(first_item_state(&items), Err(AccountStateError::AccountMissing));
}

#[test]
fn failed_accounts_are_left_out_of_the_states() {
    let outcomes = vec![
        Some((addr(1), vec![AccountStateReply::Resource { sequence_number: 3 }])),
        None,
        Some((addr(2), vec![])),
        Some((addr(3), vec![AccountStateReply::Missing])),
        Some((addr(4), vec![AccountStateReply::Invalid])),
        Some((addr(5), vec![AccountStateReply::Resource { sequence_number: 0 }])),
    ];
    let states = collect_account_states(&outcomes);
    assert_eq!(states.len(), 2);
    assert_eq!(states.get(&addr(1)), Some((3, AccountStatus::Persisted)));
    assert_eq!(states.get(&addr(5)), Some((0, AccountStatus::Persisted)));
    assert_eq!(states.get(&addr(2)), None);
    assert_eq!(states.get(&addr(3)), None);
    assert_eq!(states.get(&addr(4)), None);
}

#[test]
fn collecting_in_another_order_gives_the_same_states() {
    let a = Some((addr(1), vec![AccountStateReply::Resource { sequence_number: 3 }]));
    let b = Some((addr(2), vec![AccountStateReply::Resource { sequence_number: 8 }]));
    let c = Some((addr(3), vec![AccountStateReply::Missing]));
    let first = collect_account_states(&vec![a.clone(), b.clone(), None, c.clone()]);
    let second = collect_account_states(&vec![c, None, b, a]);
    assert_eq!(first.len(), second.len());
    for k in [addr(1), addr(2), addr(3)] {
        assert_eq!(first.get(&k), second.get(&k));
    }
}
