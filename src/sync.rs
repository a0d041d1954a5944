use vstd::prelude::*;
use crate::address::{
    AccountAddress, AddressMap, lemma_pairs_to_map_len, pair_addresses, pairs_to_map,
};
use crate::state::AccountStatus;
use crate::MAX_WAIT_COMMIT_ITERATIONS;

verus! {

/// The abstract state of a synchronisation: the target sequence number of
/// each account, the accounts still pending with their last observed
/// sequence number, the accounts done with the sequence number at which they
/// reached their target, the number of rounds counted so far, and the number
/// of (account, target) pairs the synchronisation was started with.
pub struct SyncModel {
    pub targets: Map<AccountAddress, u64>,
    pub pending: Map<AccountAddress, u64>,
    pub done: Map<AccountAddress, u64>,
    pub rounds: nat,
    pub num_senders: nat,
}

/// The states reported for one round of queries.
pub type RoundStates = Map<AccountAddress, (u64, AccountStatus)>;

/// The model before the first round: every target account pending at zero.
pub open spec fn initial_model(pairs: Seq<(AccountAddress, u64)>) -> SyncModel {
    SyncModel {
        targets: pairs_to_map(pairs),
        pending: Map::new(|k: AccountAddress| pairs_to_map(pairs).contains_key(k), |k: AccountAddress| 0u64),
        done: Map::empty(),
        rounds: 0,
        num_senders: pairs.len(),
    }
}

/// Pending and done accounts are disjoint and together are the target
/// accounts, of which there are finitely many, no more than the pairs given.
pub open spec fn partitioned(m: SyncModel) -> bool {
    &&& m.targets.dom().finite()
    &&& m.targets.dom().len() <= m.num_senders
    &&& m.pending.dom().disjoint(m.done.dom())
    &&& m.pending.dom().union(m.done.dom()) == m.targets.dom()
}

/// In a round's states, `k` is reported at its target sequence number.
pub open spec fn reaches_target(m: SyncModel, states: RoundStates, k: AccountAddress) -> bool {
    states.contains_key(k) && states[k].0 == m.targets[k]
}

/// The pending accounts once the states of the accounts in `seen` are taken
/// in: those that reached their target leave, the others take the observed
/// sequence number, and those without a reported state keep their value.
pub open spec fn pending_after(m: SyncModel, states: RoundStates, seen: Set<AccountAddress>) -> Map<
    AccountAddress,
    u64,
> {
    Map::new(
        |k: AccountAddress| m.pending.contains_key(k) && !(seen.contains(k) && reaches_target(m, states, k)),
        |k: AccountAddress|
            if seen.contains(k) && states.contains_key(k) {
                states[k].0
            } else {
                m.pending[k]
            },
    )
}

/// The done accounts once the states of the accounts in `seen` are taken in:
/// the pending ones that reached their target join at that sequence number.
pub open spec fn done_after(m: SyncModel, states: RoundStates, seen: Set<AccountAddress>) -> Map<
    AccountAddress,
    u64,
> {
    Map::new(
        |k: AccountAddress|
            m.done.contains_key(k) || (m.pending.contains_key(k) && seen.contains(k)
                && reaches_target(m, states, k)),
        |k: AccountAddress|
            if m.done.contains_key(k) {
                m.done[k]
            } else {
                states[k].0
            },
    )
}

/// As many accounts are done as pairs were given.
pub open spec fn converged(m: SyncModel) -> bool {
    m.done.dom().len() == m.num_senders
}

/// One round: the states of every pending account are taken in; unless the
/// synchronisation converged, the round is counted.
pub open spec fn after_round(m: SyncModel, states: RoundStates) -> SyncModel {
    let next = SyncModel {
        pending: pending_after(m, states, m.pending.dom()),
        done: done_after(m, states, m.pending.dom()),
        ..m
    };
    if converged(next) {
        next
    } else {
        SyncModel { rounds: m.rounds + 1, ..next }
    }
}

/// The states reported in round `i`; none when the list has no entry for it.
pub open spec fn response_at(responses: Seq<RoundStates>, i: nat) -> RoundStates {
    if i < responses.len() {
        responses[i as int]
    } else {
        Map::empty()
    }
}

/// The model at the end of a synchronisation in which round `i` reports
/// `response_at(responses, i)`: rounds run until convergence or until the
/// round budget is spent.
pub open spec fn run(m: SyncModel, responses: Seq<RoundStates>) -> SyncModel
    decreases MAX_WAIT_COMMIT_ITERATIONS - m.rounds,
{
    if m.rounds >= MAX_WAIT_COMMIT_ITERATIONS {
        m
    } else {
        let next = after_round(m, response_at(responses, m.rounds));
        if converged(next) {
            next
        } else {
            run(next, responses)
        }
    }
}

/// What a synchronisation returns: the done accounts and the pending ones at
/// their last observed sequence number.
pub open spec fn sync_result(m: SyncModel) -> Map<AccountAddress, u64> {
    m.done.union_prefer_right(m.pending)
}

/// The model before the first round is partitioned.
pub proof fn lemma_initial_partitioned(pairs: Seq<(AccountAddress, u64)>)
    ensures
        partitioned(initial_model(pairs)),
{
    lemma_pairs_to_map_len(pairs);
    let m = initial_model(pairs);
    assert(m.pending.dom().union(m.done.dom()) =~= m.targets.dom());
    assert(m.pending.dom().disjoint(m.done.dom()));
}

/// A round keeps pending and done accounts disjoint and their union equal to
/// the target accounts, whatever states it reports.
pub proof fn lemma_round_keeps_partition(m: SyncModel, states: RoundStates)
    requires
        partitioned(m),
    ensures
        partitioned(after_round(m, states)),
        after_round(m, states).targets == m.targets,
        after_round(m, states).num_senders == m.num_senders,
{
    let n = after_round(m, states);
    assert(n.pending.dom().union(n.done.dom()) =~= m.targets.dom()) by {
        assert forall|k: AccountAddress| #[trigger] m.targets.dom().contains(k) implies n.pending.dom().union(
            n.done.dom(),
        ).contains(k) by {
            assert(m.pending.dom().union(m.done.dom()).contains(k));
        }
    }
    assert(n.pending.dom().disjoint(n.done.dom()));
}

/// Once converged, every target account is done and none is pending.
pub proof fn lemma_converged_all_done(m: SyncModel)
    requires
        partitioned(m),
        converged(m),
    ensures
        m.done.dom() == m.targets.dom(),
        m.pending.dom().is_empty(),
{
    assert(m.done.dom().subset_of(m.targets.dom()));
    vstd::set_lib::lemma_len_subset(m.done.dom(), m.targets.dom());
    vstd::set_lib::lemma_subset_equality(m.done.dom(), m.targets.dom());
    assert(m.pending.dom() =~= Set::empty()) by {
        assert forall|k: AccountAddress| !m.pending.dom().contains(k) by {
            if m.pending.dom().contains(k) {
                assert(m.targets.dom().contains(k));
            }
        }
    }
}

/// The set of the first `i + 1` items of a sequence is that of the first `i`
/// with item `i` added, which it did not hold when the sequence has no
/// duplicates.
proof fn lemma_prefix_set_step(s: Seq<AccountAddress>, i: int)
    requires
        0 <= i < s.len(),
    ensures
        s.subrange(0, i + 1).to_set() == s.subrange(0, i).to_set().insert(s[i]),
        s.no_duplicates() ==> !s.subrange(0, i).to_set().contains(s[i]),
{
    let a = s.subrange(0, i);
    let b = s.subrange(0, i + 1);
    assert forall|x: AccountAddress| b.contains(x) implies a.to_set().insert(s[i]).contains(x) by {
        let j = choose|j: int| 0 <= j < i + 1 && #[trigger] b[j] == x;
        if j < i {
            assert(a[j] == x);
        }
    }
    assert forall|x: AccountAddress| a.to_set().insert(s[i]).contains(x) implies b.contains(x) by {
        if x == s[i] {
            assert(b[i] == x);
        } else {
            let j = choose|j: int| 0 <= j < i && #[trigger] a[j] == x;
            assert(b[j] == x);
        }
    }
    assert(b.to_set() =~= a.to_set().insert(s[i]));
    if s.no_duplicates() && a.contains(s[i]) {
        let j = choose|j: int| 0 <= j < i && #[trigger] a[j] == s[i];
        assert(s[j] == s[i]);
    }
}

/// Some round from `from` on, within the budget, reports `k` at its target.
pub open spec fn reported_at_target(
    responses: Seq<RoundStates>,
    targets: Map<AccountAddress, u64>,
    k: AccountAddress,
    from: nat,
) -> bool {
    exists|i: nat|
        from <= i < MAX_WAIT_COMMIT_ITERATIONS && #[trigger] response_at(responses, i).contains_key(k)
            && response_at(responses, i)[k].0 == targets[k]
}

/// A run that starts with rounds left ends either converged before the
/// budget is spent, or unconverged with the budget spent; it stays
/// partitioned throughout.
pub proof fn lemma_run_shape(m: SyncModel, responses: Seq<RoundStates>)
    requires
        partitioned(m),
        m.rounds < MAX_WAIT_COMMIT_ITERATIONS,
    ensures
        partitioned(run(m, responses)),
        run(m, responses).targets == m.targets,
        run(m, responses).num_senders == m.num_senders,
        (converged(run(m, responses)) && run(m, responses).rounds < MAX_WAIT_COMMIT_ITERATIONS)
            || (!converged(run(m, responses)) && run(m, responses).rounds
            == MAX_WAIT_COMMIT_ITERATIONS),
    decreases MAX_WAIT_COMMIT_ITERATIONS - m.rounds,
{
    let n = after_round(m, response_at(responses, m.rounds));
    lemma_round_keeps_partition(m, response_at(responses, m.rounds));
    if !converged(n) {
        if n.rounds < MAX_WAIT_COMMIT_ITERATIONS {
            lemma_run_shape(n, responses);
        } else {
            assert(run(n, responses) == n);
        }
    }
}

proof fn lemma_never_done(m: SyncModel, responses: Seq<RoundStates>)
    requires
        partitioned(m),
        m.done.dom().is_empty(),
        m.num_senders > 0,
        m.rounds <= MAX_WAIT_COMMIT_ITERATIONS,
        forall|i: nat, k: AccountAddress|
            #[trigger] response_at(responses, i).contains_key(k) && m.targets.contains_key(k)
                ==> response_at(responses, i)[k].0 != m.targets[k],
    ensures
        partitioned(run(m, responses)),
        run(m, responses).targets == m.targets,
        run(m, responses).num_senders == m.num_senders,
        run(m, responses).done.dom().is_empty(),
        run(m, responses).rounds == MAX_WAIT_COMMIT_ITERATIONS,
    decreases MAX_WAIT_COMMIT_ITERATIONS - m.rounds,
{
    if m.rounds < MAX_WAIT_COMMIT_ITERATIONS {
        let st = response_at(responses, m.rounds);
        let n = after_round(m, st);
        lemma_round_keeps_partition(m, st);
        assert(done_after(m, st, m.pending.dom()).dom() =~= Set::empty()) by {
            assert forall|k: AccountAddress| !done_after(m, st, m.pending.dom()).dom().contains(k) by {
                if st.contains_key(k) && m.pending.contains_key(k) {
                    assert(m.pending.dom().union(m.done.dom()).contains(k));
                    assert(m.targets.contains_key(k));
                }
            }
        }
        assert(n.done.dom().len() == 0);
        lemma_never_done(n, responses);
    }
}

/// When no round ever reports an account at its target, a synchronisation of
/// a non-empty list of pairs spends exactly the whole round budget, and its
/// result holds every account given, once.
pub proof fn lemma_budget_exhaustion(
    pairs: Seq<(AccountAddress, u64)>,
    responses: Seq<RoundStates>,
)
    requires
        pairs.len() > 0,
        forall|i: nat, k: AccountAddress|
            #[trigger] response_at(responses, i).contains_key(k) && pairs_to_map(pairs).contains_key(k)
                ==> response_at(responses, i)[k].0 != pairs_to_map(pairs)[k],
    ensures
        run(initial_model(pairs), responses).rounds == MAX_WAIT_COMMIT_ITERATIONS,
        !converged(run(initial_model(pairs), responses)),
        sync_result(run(initial_model(pairs), responses)).dom() == pairs_to_map(pairs).dom(),
{
    let m = initial_model(pairs);
    lemma_initial_partitioned(pairs);
    assert(m.done.dom() =~= Set::empty());
    lemma_never_done(m, responses);
    let f = run(m, responses);
    assert(f.done.dom() =~= Set::empty());
    assert(sync_result(f).dom() =~= f.pending.dom().union(f.done.dom()));
}

/// Accounts outside `failing` keep being reported at their target in some
/// round still to come, and accounts in `failing` are never reported; then
/// the run ends with exactly the `failing` accounts pending, at zero, and
/// every done account at its target.
proof fn lemma_run_settles(m: SyncModel, responses: Seq<RoundStates>, failing: Set<AccountAddress>)
    requires
        partitioned(m),
        m.rounds <= MAX_WAIT_COMMIT_ITERATIONS,
        forall|k: AccountAddress| #[trigger] m.done.contains_key(k) ==> m.done[k] == m.targets[k],
        forall|k: AccountAddress|
            #[trigger] m.pending.contains_key(k) && !failing.contains(k) ==> reported_at_target(
                responses,
                m.targets,
                k,
                m.rounds,
            ),
        forall|k: AccountAddress| #[trigger]
            failing.contains(k) ==> m.pending.contains_key(k) && m.pending[k] == 0,
        forall|i: nat, k: AccountAddress|
            failing.contains(k) ==> !(#[trigger] response_at(responses, i).contains_key(k)),
    ensures
        partitioned(run(m, responses)),
        run(m, responses).targets == m.targets,
        forall|k: AccountAddress| #[trigger]
            run(m, responses).done.contains_key(k) ==> run(m, responses).done[k] == m.targets[k],
        forall|k: AccountAddress| #[trigger]
            run(m, responses).pending.contains_key(k) ==> failing.contains(k),
        forall|k: AccountAddress| #[trigger]
            failing.contains(k) ==> run(m, responses).pending.contains_key(k) && run(
                m,
                responses,
            ).pending[k] == 0,
    decreases MAX_WAIT_COMMIT_ITERATIONS - m.rounds,
{
    if m.rounds >= MAX_WAIT_COMMIT_ITERATIONS {
        assert forall|k: AccountAddress| #[trigger] m.pending.contains_key(k) implies failing.contains(k) by {
            if !failing.contains(k) {
                assert(reported_at_target(responses, m.targets, k, m.rounds));
            }
        }
    } else {
        let st = response_at(responses, m.rounds);
        let n = after_round(m, st);
        lemma_round_keeps_partition(m, st);
        assert forall|k: AccountAddress| #[trigger] n.done.contains_key(k) implies n.done[k] == n.targets[k] by {
            if !m.done.contains_key(k) {
                assert(reaches_target(m, st, k));
            }
        }
        assert forall|k: AccountAddress| #[trigger]
            failing.contains(k) implies n.pending.contains_key(k) && n.pending[k] == 0 by {
            assert(!st.contains_key(k));
        }
        if converged(n) {
            lemma_converged_all_done(n);
            assert forall|k: AccountAddress| #[trigger] n.pending.contains_key(k) implies failing.contains(k) by {
                assert(n.pending.dom().contains(k));
            }
        } else {
            assert forall|k: AccountAddress|
                #[trigger] n.pending.contains_key(k) && !failing.contains(k) implies reported_at_target(
                responses,
                n.targets,
                k,
                n.rounds,
            ) by {
                assert(m.pending.contains_key(k));
                let i = choose|i: nat|
                    m.rounds <= i < MAX_WAIT_COMMIT_ITERATIONS && #[trigger] response_at(
                        responses,
                        i,
                    ).contains_key(k) && response_at(responses, i)[k].0 == m.targets[k];
                if i == m.rounds {
                    assert(reaches_target(m, st, k));
                    assert(!n.pending.contains_key(k));
                }
                assert(response_at(responses, i).contains_key(k));
            }
            lemma_run_settles(n, responses, failing);
        }
    }
}

/// When every account is reported at its target in some round within the
/// budget, a synchronisation of distinct accounts converges before the budget
/// is spent, and returns every account at its target.
pub proof fn lemma_convergence(pairs: Seq<(AccountAddress, u64)>, responses: Seq<RoundStates>)
    requires
        pair_addresses(pairs).no_duplicates(),
        forall|k: AccountAddress| #[trigger]
            pairs_to_map(pairs).contains_key(k) ==> reported_at_target(
                responses,
                pairs_to_map(pairs),
                k,
                0,
            ),
    ensures
        converged(run(initial_model(pairs), responses)),
        run(initial_model(pairs), responses).rounds < MAX_WAIT_COMMIT_ITERATIONS,
        sync_result(run(initial_model(pairs), responses)) == pairs_to_map(pairs),
{
    let m = initial_model(pairs);
    lemma_initial_partitioned(pairs);
    lemma_pairs_to_map_len(pairs);
    lemma_run_settles(m, responses, Set::empty());
    lemma_run_shape(m, responses);
    let f = run(m, responses);
    assert(f.pending.dom() =~= Set::empty());
    assert(f.done.dom() =~= m.targets.dom()) by {
        assert forall|k: AccountAddress| #[trigger] m.targets.dom().contains(k) implies f.done.dom().contains(k) by {
            assert(f.pending.dom().union(f.done.dom()).contains(k));
        }
    }
    assert(sync_result(f) =~= pairs_to_map(pairs));
}

/// When the accounts in `failing` never answer and every other account is
/// reported at its target in some round within the budget, the others end
/// done at their target, and the failing ones are returned at zero.
pub proof fn lemma_partial_failure(
    pairs: Seq<(AccountAddress, u64)>,
    responses: Seq<RoundStates>,
    failing: Set<AccountAddress>,
)
    requires
        failing.subset_of(pairs_to_map(pairs).dom()),
        forall|i: nat, k: AccountAddress|
            failing.contains(k) ==> !(#[trigger] response_at(responses, i).contains_key(k)),
        forall|k: AccountAddress|
            #[trigger] pairs_to_map(pairs).contains_key(k) && !failing.contains(k)
                ==> reported_at_target(responses, pairs_to_map(pairs), k, 0),
    ensures
        sync_result(run(initial_model(pairs), responses)).dom() == pairs_to_map(pairs).dom(),
        forall|k: AccountAddress|
            #[trigger] pairs_to_map(pairs).contains_key(k) && !failing.contains(k) ==> run(
                initial_model(pairs),
                responses,
            ).done.contains_key(k) && sync_result(run(initial_model(pairs), responses))[k]
                == pairs_to_map(pairs)[k],
        forall|k: AccountAddress| #[trigger]
            failing.contains(k) ==> sync_result(run(initial_model(pairs), responses))[k] == 0,
{
    let m = initial_model(pairs);
    lemma_initial_partitioned(pairs);
    lemma_run_settles(m, responses, failing);
    let f = run(m, responses);
    assert(sync_result(f).dom() =~= f.pending.dom().union(f.done.dom()));
    assert forall|k: AccountAddress|
        #[trigger] pairs_to_map(pairs).contains_key(k) && !failing.contains(k) implies f.done.contains_key(k)
            && sync_result(f)[k] == pairs_to_map(pairs)[k] by {
        assert(f.pending.dom().union(f.done.dom()).contains(k));
    }
}

/// What a round decided.
#[derive(Clone, Copy, Debug, PartialEq, Eq, Hash, Structural)]
pub enum RoundOutcome {
    /// Every account reached its target: stop polling.
    Converged,
    /// Some account is still pending: wait, then poll again if rounds are left.
    Pending,
}

/// The state of a synchronisation of accounts' sequence numbers with their
/// targets. The caller polls the pending accounts, hands each round's states
/// to `record_round`, and stops on convergence or when no round is left.
pub struct SyncState {
    targets: AddressMap<u64>,
    unfinished: AddressMap<u64>,
    finished: AddressMap<u64>,
    num_iters: u64,
    num_senders: usize,
}

impl View for SyncState {
    type V = SyncModel;

    closed spec fn view(&self) -> SyncModel {
        SyncModel {
            targets: self.targets@,
            pending: self.unfinished@,
            done: self.finished@,
            rounds: self.num_iters as nat,
            num_senders: self.num_senders as nat,
        }
    }
}

impl SyncState {
    pub closed spec fn wf(&self) -> bool {
        &&& self.targets.wf()
        &&& self.unfinished.wf()
        &&& self.finished.wf()
        &&& partitioned(self@)
        &&& self.num_iters <= MAX_WAIT_COMMIT_ITERATIONS
    }

    /// Start a synchronisation of the given accounts with their target
    /// sequence numbers; every account starts pending at zero.
    pub fn new(senders_and_sequence_numbers: &[(AccountAddress, u64)]) -> (r: SyncState)
        ensures
            r.wf(),
            r@ == initial_model(senders_and_sequence_numbers@),
    {
        let ghost pairs = senders_and_sequence_numbers@;
        let targets = AddressMap::from_pairs(senders_and_sequence_numbers);
        let keys = targets.keys();
        let mut unfinished: AddressMap<u64> = AddressMap::new();
        let mut i: usize = 0;
        while i < keys.len()
            invariant
                i <= keys@.len(),
                unfinished.wf(),
                unfinished@ == Map::new(
                    |k: AccountAddress| keys@.subrange(0, i as int).contains(k),
                    |k: AccountAddress| 0u64,
                ),
            decreases keys@.len() - i,
        {
            let ghost prev = unfinished@;
            unfinished.insert(keys[i], 0);
            i = i + 1;
            proof {
                assert forall|k: AccountAddress|
                    keys@.subrange(0, i as int).contains(k) implies prev.insert(keys@[i - 1], 0u64).contains_key(k) by {
                    let j = choose|j: int| 0 <= j < i && keys@.subrange(0, i as int)[j] == k;
                    if j < i - 1 {
                        assert(keys@.subrange(0, i - 1)[j] == k);
                    }
                }
                assert forall|k: AccountAddress|
                    prev.insert(keys@[i - 1], 0u64).contains_key(k) implies keys@.subrange(0, i as int).contains(k) by {
                    if k == keys@[i - 1] {
                        assert(keys@.subrange(0, i as int)[i - 1] == k);
                    } else {
                        let j = choose|j: int| 0 <= j < i - 1 && #[trigger] keys@.subrange(0, i - 1)[j] == k;
                        assert(keys@.subrange(0, i as int)[j] == k);
                    }
                }
                assert(unfinished@ =~= Map::new(
                    |k: AccountAddress| keys@.subrange(0, i as int).contains(k),
                    |k: AccountAddress| 0u64,
                ));
            }
        }
        let r = SyncState {
            targets,
            unfinished,
            finished: AddressMap::new(),
            num_iters: 0,
            num_senders: senders_and_sequence_numbers.len(),
        };
        proof {
            assert(keys@.subrange(0, keys@.len() as int) =~= keys@);
            assert(r@.pending =~= initial_model(pairs).pending);
            lemma_initial_partitioned(pairs);
        }
        r
    }

    /// The accounts to poll in the next round, each once.
    pub fn pending_addresses(&self) -> (r: Vec<AccountAddress>)
        requires
            self.wf(),
        ensures
            r@.no_duplicates(),
            r@.to_set() == self@.pending.dom(),
    {
        self.unfinished.keys()
    }

    /// Whether the round budget allows another round.
    pub fn has_rounds_left(&self) -> (r: bool)
        ensures
            r == (self@.rounds < MAX_WAIT_COMMIT_ITERATIONS),
    {
        self.num_iters < MAX_WAIT_COMMIT_ITERATIONS
    }

    /// Take in the states reported in one round.
    pub fn record_round(&mut self, states: &AddressMap<(u64, AccountStatus)>) -> (r: RoundOutcome)
        requires
            old(self).wf(),
            states.wf(),
            old(self)@.rounds < MAX_WAIT_COMMIT_ITERATIONS,
        ensures
            final(self).wf(),
            final(self)@ == after_round(old(self)@, states@),
            r == RoundOutcome::Converged <==> converged(final(self)@),
    {
        let ghost m0 = self@;
        let keys = self.unfinished.keys();
        let mut i: usize = 0;
        while i < keys.len()
            invariant
                i <= keys@.len(),
                keys@.no_duplicates(),
                keys@.to_set() == m0.pending.dom(),
                partitioned(m0),
                self.targets.wf(),
                self.unfinished.wf(),
                self.finished.wf(),
                states.wf(),
                self.targets@ == m0.targets,
                self.num_iters == m0.rounds,
                self.num_senders == m0.num_senders,
                self.unfinished@ == pending_after(m0, states@, keys@.subrange(0, i as int).to_set()),
                self.finished@ == done_after(m0, states@, keys@.subrange(0, i as int).to_set()),
            decreases keys@.len() - i,
        {
            let k = keys[i];
            let ghost seen = keys@.subrange(0, i as int).to_set();
            let ghost seen2 = keys@.subrange(0, i as int + 1).to_set();
            proof {
                lemma_prefix_set_step(keys@, i as int);
                assert(keys@.to_set().contains(k));
                assert(m0.pending.contains_key(k));
                assert(m0.targets.contains_key(k)) by {
                    assert(m0.pending.dom().union(m0.done.dom()).contains(k));
                }
            }
            match states.get(&k) {
                Some(st) => {
                    match self.targets.get(&k) {
                        Some(target) => {
                            if st.0 == target {
                                self.finished.insert(k, st.0);
                                self.unfinished.remove(&k);
                            } else {
                                self.unfinished.insert(k, st.0);
                            }
                        },
                        None => {},
                    }
                },
                None => {},
            }
            i = i + 1;
            proof {
                assert(self.unfinished@ =~= pending_after(m0, states@, seen2));
                assert(self.finished@ =~= done_after(m0, states@, seen2));
            }
        }
        proof {
            assert(keys@.subrange(0, keys@.len() as int) =~= keys@);
            lemma_round_keeps_partition(m0, states@);
        }
        if self.finished.len() == self.num_senders {
            RoundOutcome::Converged
        } else {
            self.num_iters = self.num_iters + 1;
            RoundOutcome::Pending
        }
    }

    /// The result of the synchronisation: every account, at the sequence
    /// number at which it reached its target, or else at the last one
    /// observed (zero if none was).
    pub fn into_result(self) -> (r: AddressMap<u64>)
        requires
            self.wf(),
        ensures
            r.wf(),
            r@ == sync_result(self@),
    {
        let ghost m = self@;
        let keys = self.unfinished.keys();
        let mut result = self.finished;
        let mut i: usize = 0;
        while i < keys.len()
            invariant
                i <= keys@.len(),
                keys@.to_set() == m.pending.dom(),
                self.unfinished.wf(),
                self.unfinished@ == m.pending,
                result.wf(),
                result@ == m.done.union_prefer_right(
                    m.pending.restrict(keys@.subrange(0, i as int).to_set()),
                ),
            decreases keys@.len() - i,
        {
            let k = keys[i];
            let ghost seen = keys@.subrange(0, i as int).to_set();
            let ghost seen2 = keys@.subrange(0, i as int + 1).to_set();
            proof {
                lemma_prefix_set_step(keys@, i as int);
                assert(keys@.to_set().contains(k));
            }
            match self.unfinished.get(&k) {
                Some(v) => result.insert(k, v),
                None => {},
            }
            i = i + 1;
            proof {
                assert(result@ =~= m.done.union_prefer_right(m.pending.restrict(seen2)));
            }
        }
        proof {
            assert(keys@.subrange(0, keys@.len() as int) =~= keys@);
            assert(m.pending.restrict(keys@.to_set()) =~= m.pending);
        }
        result
    }
}

} // verus!
