use vstd::prelude::*;
use crate::address::{AccountAddress, AddressMap};

verus! {

/// Where an account's state was read from.
#[derive(Clone, Copy, Debug, PartialEq, Eq, Hash, Structural)]
pub enum AccountStatus {
    Local,
    Persisted,
    Unknown,
}

/// One decoded item of a state query for an account.
#[derive(Clone, Copy, Debug, PartialEq, Eq, Hash, Structural)]
pub enum AccountStateReply {
    /// The item is not an account-state answer, or its blob did not decode.
    Invalid,
    /// The account does not exist: no state blob came back.
    Missing,
    /// The account's resource, decoded from its state blob.
    Resource { sequence_number: u64 },
}

/// Why no state could be read for an account.
#[derive(Clone, Copy, Debug, PartialEq, Eq, Hash, Structural)]
pub enum AccountStateError {
    EmptyResponse,
    InvalidItem,
    AccountMissing,
}

/// The state read from one decoded item.
pub open spec fn item_state(item: AccountStateReply) -> Result<(u64, AccountStatus), AccountStateError> {
    match item {
        AccountStateReply::Invalid => Err(AccountStateError::InvalidItem),
        AccountStateReply::Missing => Err(AccountStateError::AccountMissing),
        AccountStateReply::Resource { sequence_number } => Ok(
            (sequence_number, AccountStatus::Persisted),
        ),
    }
}

/// The state read from the items of one response: the first item only.
pub open spec fn response_state(items: Seq<AccountStateReply>) -> Result<
    (u64, AccountStatus),
    AccountStateError,
> {
    if items.len() == 0 {
        Err(AccountStateError::EmptyResponse)
    } else {
        item_state(items[0])
    }
}

/// The states collected from a list of call outcomes, a failed call (`None`)
/// or a response without a readable state adding nothing.
pub open spec fn collected_states(
    outcomes: Seq<Option<(AccountAddress, Vec<AccountStateReply>)>>,
) -> Map<AccountAddress, (u64, AccountStatus)>
    decreases outcomes.len(),
{
    if outcomes.len() == 0 {
        Map::empty()
    } else {
        let m = collected_states(outcomes.drop_last());
        match outcomes.last() {
            Some((a, items)) => match response_state(items@) {
                Ok(v) => m.insert(a, v),
                Err(_) => m,
            },
            None => m,
        }
    }
}

/// The account and state that one call outcome contributes, if any.
pub open spec fn readable_state(o: Option<(AccountAddress, Vec<AccountStateReply>)>) -> Option<
    (AccountAddress, (u64, AccountStatus)),
> {
    match o {
        Some((a, items)) => match response_state(items@) {
            Ok(v) => Some((a, v)),
            Err(_) => None,
        },
        None => None,
    }
}

/// No two outcomes contribute a state for the same account.
pub open spec fn distinct_accounts(outcomes: Seq<Option<(AccountAddress, Vec<AccountStateReply>)>>) -> bool {
    forall|i: int, j: int|
        0 <= i < outcomes.len() && 0 <= j < outcomes.len() && i != j
            && (#[trigger] readable_state(outcomes[i])).is_some() && (#[trigger] readable_state(
            outcomes[j],
        )).is_some() ==> readable_state(outcomes[i]).unwrap().0 != readable_state(
            outcomes[j],
        ).unwrap().0
}

proof fn lemma_collected_states_members(
    outcomes: Seq<Option<(AccountAddress, Vec<AccountStateReply>)>>,
)
    ensures
        forall|a: AccountAddress| #[trigger]
            collected_states(outcomes).contains_key(a) ==> exists|i: int|
                0 <= i < outcomes.len() && #[trigger] readable_state(outcomes[i]) == Some(
                    (a, collected_states(outcomes)[a]),
                ),
        distinct_accounts(outcomes) ==> forall|i: int|
            0 <= i < outcomes.len() && (#[trigger] readable_state(outcomes[i])).is_some()
                ==> collected_states(outcomes).contains_key(readable_state(outcomes[i]).unwrap().0)
                && collected_states(outcomes)[readable_state(outcomes[i]).unwrap().0]
                == readable_state(outcomes[i]).unwrap().1,
    decreases outcomes.len(),
{
    if outcomes.len() > 0 {
        let init = outcomes.drop_last();
        let last = outcomes.len() - 1;
        lemma_collected_states_members(init);
        assert forall|a: AccountAddress| #[trigger]
            collected_states(outcomes).contains_key(a) implies exists|i: int|
                0 <= i < outcomes.len() && #[trigger] readable_state(outcomes[i]) == Some(
                    (a, collected_states(outcomes)[a]),
                ) by {
            if readable_state(outcomes[last]).is_some() && readable_state(outcomes[last]).unwrap().0
                == a {
                assert(readable_state(outcomes[last]) == Some((a, collected_states(outcomes)[a])));
            } else {
                let i = choose|i: int|
                    0 <= i < init.len() && #[trigger] readable_state(init[i]) == Some(
                        (a, collected_states(init)[a]),
                    );
                assert(readable_state(outcomes[i]) == readable_state(init[i]));
            }
        }
        if distinct_accounts(outcomes) {
            assert(distinct_accounts(init)) by {
                assert forall|i: int, j: int|
                    0 <= i < init.len() && 0 <= j < init.len() && i != j && (#[trigger] readable_state(
                        init[i],
                    )).is_some() && (#[trigger] readable_state(init[j])).is_some() implies readable_state(
                    init[i],
                ).unwrap().0 != readable_state(init[j]).unwrap().0 by {
                    assert(readable_state(outcomes[i]) == readable_state(init[i]));
                    assert(readable_state(outcomes[j]) == readable_state(init[j]));
                }
            }
            assert forall|i: int|
                0 <= i < outcomes.len() && (#[trigger] readable_state(outcomes[i])).is_some()
                    implies collected_states(outcomes).contains_key(
                readable_state(outcomes[i]).unwrap().0,
            ) && collected_states(outcomes)[readable_state(outcomes[i]).unwrap().0]
                == readable_state(outcomes[i]).unwrap().1 by {
                if i < last {
                    assert(readable_state(outcomes[i]) == readable_state(init[i]));
                }
            }
        }
    }
}

/// Collecting the same call outcomes in another completion order gives the
/// same states, when no two outcomes report on the same account.
pub proof fn lemma_collected_states_order_free(
    first: Seq<Option<(AccountAddress, Vec<AccountStateReply>)>>,
    second: Seq<Option<(AccountAddress, Vec<AccountStateReply>)>>,
)
    requires
        first.to_multiset() == second.to_multiset(),
        distinct_accounts(first),
        distinct_accounts(second),
    ensures
        collected_states(first) == collected_states(second),
{
    broadcast use vstd::seq_lib::group_to_multiset_ensures;

    lemma_collected_states_members(first);
    lemma_collected_states_members(second);
    let c1 = collected_states(first);
    let c2 = collected_states(second);
    assert forall|a: AccountAddress| #[trigger] c1.contains_key(a) implies c2.contains_key(a)
        && c2[a] == c1[a] by {
        let i = choose|i: int|
            0 <= i < first.len() && #[trigger] readable_state(first[i]) == Some((a, c1[a]));
        assert(first.contains(first[i]));
        assert(first.to_multiset().count(first[i]) > 0);
        assert(second.to_multiset().count(first[i]) > 0);
        assert(second.contains(first[i]));
        let j = choose|j: int| 0 <= j < second.len() && second[j] == first[i];
        assert(readable_state(second[j]) == Some((a, c1[a])));
    }
    assert forall|a: AccountAddress| #[trigger] c2.contains_key(a) implies c1.contains_key(a) by {
        let j = choose|j: int|
            0 <= j < second.len() && #[trigger] readable_state(second[j]) == Some((a, c2[a]));
        assert(second.contains(second[j]));
        assert(second.to_multiset().count(second[j]) > 0);
        assert(first.to_multiset().count(second[j]) > 0);
        assert(first.contains(second[j]));
        let i = choose|i: int| 0 <= i < first.len() && first[i] == second[j];
        assert(readable_state(first[i]) == Some((a, c2[a])));
    }
    assert(c1 =~= c2);
}

/// Read an account's sequence number from a decoded item.
pub fn handle_account_state_response(resp: AccountStateReply) -> (r: Result<
    (u64, AccountStatus),
    AccountStateError,
>)
    ensures
        r == item_state(resp),
{
    match resp {
        AccountStateReply::Invalid => Err(AccountStateError::InvalidItem),
        AccountStateReply::Missing => Err(AccountStateError::AccountMissing),
        AccountStateReply::Resource { sequence_number } => Ok(
            (sequence_number, AccountStatus::Persisted),
        ),
    }
}

/// Read an account's state from the items of a response, using the first one.
pub fn first_item_state(items: &Vec<AccountStateReply>) -> (r: Result<
    (u64, AccountStatus),
    AccountStateError,
>)
    ensures
        r == response_state(items@),
{
    if items.len() == 0 {
        Err(AccountStateError::EmptyResponse)
    } else {
        handle_account_state_response(items[0])
    }
}

/// Collect the states of the accounts whose query succeeded.
pub fn collect_account_states(
    outcomes: &Vec<Option<(AccountAddress, Vec<AccountStateReply>)>>,
) -> (r: AddressMap<(u64, AccountStatus)>)
    ensures
        r.wf(),
        r@ == collected_states(outcomes@),
{
    let mut states = AddressMap::new();
    let mut i: usize = 0;
    while i < outcomes.len()
        invariant
            i <= outcomes@.len(),
            states.wf(),
            states@ == collected_states(outcomes@.subrange(0, i as int)),
        decreases outcomes@.len() - i,
    {
        proof {
            assert(outcomes@.subrange(0, i as int + 1).drop_last() =~= outcomes@.subrange(
                0,
                i as int,
            ));
        }
        match &outcomes[i] {
            Some((address, items)) => match first_item_state(items) {
                Ok(v) => states.insert(*address, v),
                Err(_) => {},
            },
            None => {},
        }
        i = i + 1;
    }
    assert(outcomes@.subrange(0, outcomes@.len() as int) =~= outcomes@);
    states
}

} // verus!
