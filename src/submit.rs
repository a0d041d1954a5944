use vstd::prelude::*;

verus! {

/// Status codes of the admission-control stage.
#[derive(Clone, Copy, Debug, PartialEq, Eq, Hash, Structural)]
pub enum AdmissionControlStatusCode {
    Accepted,
    Blacklisted,
    Rejected,
}

/// The status fields of a decoded submission response. At most one of them
/// is expected to be set; they are read in this order.
#[derive(Clone, Copy, Debug, PartialEq, Eq, Hash, Structural)]
pub struct SubmitResponseStatus {
    pub ac_status: Option<AdmissionControlStatusCode>,
    pub vm_status: Option<u64>,
    pub mempool_status: Option<u64>,
}

/// How a submission response is counted.
#[derive(Clone, Copy, Debug, PartialEq, Eq, Hash, Structural)]
pub enum SubmitClassification {
    Accepted,
    AdmissionControl(AdmissionControlStatusCode),
    Vm(u64),
    Mempool(u64),
    Unknown,
}

/// A decoded submission response together with the value handed back to
/// the caller when it is accepted.
pub struct SubmitReply<R> {
    pub status: SubmitResponseStatus,
    pub response: R,
}

/// The classification of a response: the admission-control status first,
/// then the execution status, then the mempool status, else unknown.
pub open spec fn classify(s: SubmitResponseStatus) -> SubmitClassification {
    match s.ac_status {
        Some(code) => if code == AdmissionControlStatusCode::Accepted {
            SubmitClassification::Accepted
        } else {
            SubmitClassification::AdmissionControl(code)
        },
        None => match s.vm_status {
            Some(v) => SubmitClassification::Vm(v),
            None => match s.mempool_status {
                Some(m) => SubmitClassification::Mempool(m),
                None => SubmitClassification::Unknown,
            },
        },
    }
}

/// A submission outcome is kept when the call completed and its response
/// was accepted.
pub open spec fn is_accepted<R>(o: Option<SubmitReply<R>>) -> bool {
    match o {
        Some(reply) => classify(reply.status) == SubmitClassification::Accepted,
        None => false,
    }
}

/// The responses of the accepted outcomes, in the order given.
pub open spec fn accepted_responses<R>(outcomes: Seq<Option<SubmitReply<R>>>) -> Seq<R>
    decreases outcomes.len(),
{
    if outcomes.len() == 0 {
        Seq::empty()
    } else {
        let rest = accepted_responses(outcomes.drop_first());
        match outcomes.first() {
            Some(reply) => if classify(reply.status) == SubmitClassification::Accepted {
                seq![reply.response].add(rest)
            } else {
                rest
            },
            None => rest,
        }
    }
}

proof fn lemma_accepted_concat<R>(a: Seq<Option<SubmitReply<R>>>, b: Seq<Option<SubmitReply<R>>>)
    ensures
        accepted_responses(a + b) == accepted_responses(a) + accepted_responses(b),
    decreases a.len(),
{
    if a.len() == 0 {
        assert(a + b =~= b);
        assert(accepted_responses(a) + accepted_responses(b) =~= accepted_responses(b));
    } else {
        assert((a + b).drop_first() =~= a.drop_first() + b);
        assert((a + b).first() == a.first());
        lemma_accepted_concat(a.drop_first(), b);
        let rest = accepted_responses(a.drop_first());
        match a.first() {
            Some(reply) => {
                assert(seq![reply.response].add(rest + accepted_responses(b)) =~= seq![
                    reply.response,
                ].add(rest) + accepted_responses(b));
            },
            None => {},
        }
    }
}

/// The accepted responses do not depend on the order in which the outcomes
/// completed: outcomes that are a reordering of each other give the same
/// responses, each as many times.
pub proof fn lemma_accepted_order_free<R>(
    first: Seq<Option<SubmitReply<R>>>,
    second: Seq<Option<SubmitReply<R>>>,
)
    requires
        first.to_multiset() == second.to_multiset(),
    ensures
        accepted_responses(first).to_multiset() == accepted_responses(second).to_multiset(),
    decreases first.len(),
{
    broadcast use vstd::seq_lib::group_to_multiset_ensures;
    broadcast use vstd::multiset::group_multiset_axioms;

    if first.len() == 0 {
        assert(first.to_multiset().len() == 0);
        assert(second.to_multiset().len() == second.len());
        assert(second.len() == 0);
        assert(first =~= second);
    } else {
        let x = first.first();
        assert(first.to_multiset().count(x) > 0);
        assert(second.contains(x));
        let j = choose|j: int| 0 <= j < second.len() && second[j] == x;
        let left = second.subrange(0, j);
        let right = second.subrange(j + 1, second.len() as int);
        let shorter = second.remove(j);
        assert(shorter =~= left + right);
        assert(second =~= left + (seq![x] + right));
        assert(first.remove(0) =~= first.drop_first());
        assert(first.drop_first().to_multiset() =~= shorter.to_multiset());
        lemma_accepted_order_free(first.drop_first(), shorter);
        lemma_accepted_concat(left, right);
        lemma_accepted_concat(seq![x], right);
        lemma_accepted_concat(left, seq![x] + right);
        lemma_accepted_concat(seq![x], first.drop_first());
        assert(seq![x] + first.drop_first() =~= first);
        let one = accepted_responses(seq![x]);
        let al = accepted_responses(left);
        let ar = accepted_responses(right);
        let ad = accepted_responses(first.drop_first());
        vstd::seq_lib::lemma_multiset_commutative(one, ad);
        vstd::seq_lib::lemma_multiset_commutative(al, ar);
        vstd::seq_lib::lemma_multiset_commutative(one, ar);
        vstd::seq_lib::lemma_multiset_commutative(al, one + ar);
        assert(accepted_responses(first).to_multiset() =~= accepted_responses(second).to_multiset());
    }
}

/// Classify a submission response by its status fields, in priority order.
pub fn check_ac_response(resp: &SubmitResponseStatus) -> (r: SubmitClassification)
    ensures
        r == classify(*resp),
{
    match resp.ac_status {
        Some(code) => {
            if code == AdmissionControlStatusCode::Accepted {
                SubmitClassification::Accepted
            } else {
                SubmitClassification::AdmissionControl(code)
            }
        },
        None => match resp.vm_status {
            Some(v) => SubmitClassification::Vm(v),
            None => match resp.mempool_status {
                Some(m) => SubmitClassification::Mempool(m),
                None => SubmitClassification::Unknown,
            },
        },
    }
}

/// Keep the responses of the accepted submissions, dropping calls that
/// failed (`None`) and responses that were rejected or not understood.
pub fn collect_accepted<R>(outcomes: Vec<Option<SubmitReply<R>>>) -> (r: Vec<R>)
    ensures
        r@ == accepted_responses(outcomes@),
{
    let ghost all = outcomes@;
    let mut rest = outcomes;
    let mut r: Vec<R> = Vec::new();
    while rest.len() > 0
        invariant
            r@ + accepted_responses(rest@) == accepted_responses(all),
        decreases rest@.len(),
    {
        let ghost before = rest@;
        let o = rest.remove(0);
        assert(rest@ =~= before.drop_first());
        match o {
            Some(reply) => {
                if check_ac_response(&reply.status) == SubmitClassification::Accepted {
                    let ghost prev = r@;
                    r.push(reply.response);
                    assert(prev + (seq![reply.response].add(accepted_responses(rest@))) =~= r@
                        + accepted_responses(rest@));
                }
            },
            None => {},
        }
    }
    assert(r@ + accepted_responses(rest@) =~= r@);
    r
}

} // verus!
