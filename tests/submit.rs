use grpc_helpers::submit::{
    check_ac_response, collect_accepted, AdmissionControlStatusCode, SubmitClassification,
    SubmitReply, SubmitResponseStatus,
};

fn status(
    ac: Option<AdmissionControlStatusCode>,
    vm: Option<u64>,
    mempool: Option<u64>,
) -> SubmitResponseStatus {
    SubmitResponseStatus { ac_status: ac, vm_status: vm, mempool_status: mempool }
}

fn reply(s: SubmitResponseStatus, id: u32) -> Option<SubmitReply<u32>> {
    Some(SubmitReply { status: s, response: id })
}

#[test]
fn classification_follows_priority_order() {
    let accepted = status(Some(AdmissionControlStatusCode::Accepted), Some(3), Some(4));
    assert_eq!(check_ac_response(&accepted), SubmitClassification::Accepted);
    let blacklisted = status(Some(AdmissionControlStatusCode::Blacklisted), Some(3), None);
    assert_eq!(
        check_ac_response(&blacklisted),
        SubmitClassification::AdmissionControl(AdmissionControlStatusCode::Blacklisted)
    );
    let rejected = status(Some(AdmissionControlStatusCode::Rejected), None, None);
    assert_eq!(
        check_ac_response(&rejected),
        SubmitClassification::AdmissionControl(AdmissionControlStatusCode::Rejected)
    );
    assert_eq!(check_ac_response(&status(None, Some(3), Some(4))), SubmitClassification::Vm(3));
    assert_eq!(check_ac_response(&status(None, None, Some(4))), SubmitClassification::Mempool(4));
    assert_eq!(check_ac_response(&status(None, None, None)), SubmitClassification::Unknown);
}

#[test]
fn only_accepted_responses_are_kept() {
    let ok = status(Some(AdmissionControlStatusCode::Accepted), None, None);
    let outcomes = vec![
        reply(ok, 1),
        None,
        reply(status(Some(AdmissionControlStatusCode::Rejected), None, None), 2),
        reply(ok, 3),
        reply(status(None, Some(10), None), 4),
        reply(status(None, None, Some(2)), 5),
        reply(status(None, None, None), 6),
        reply(ok, 7),
    ];
    assert_eq!(collect_accepted(outcomes), vec![1, 3, 7]);
}

#[test]
fn accepted_count_does_not_depend_on_completion_order() {
    let ok = status(Some(AdmissionControlStatusCode::Accepted), None, None);
    let bad = status(None, Some(1), None);
    let first = vec![reply(ok, 1), reply(bad, 2), None, reply(ok, 3)];
    let second = vec![None, reply(ok, 3), reply(bad, 2), reply(ok, 1)];
    let mut a = collect_accepted(first);
    let mut b = collect_accepted(second);
    assert_eq!(a.len(), 2);
    assert_eq!(b.len(), 2);
    a.sort();
    b.sort();
    assert_eq!(a, b);
}

#[test]
fn nothing_accepted_gives_empty_list() {
    let outcomes: Vec<Option<SubmitReply<u32>>> = vec![None, None];
    assert!(collect_accepted(outcomes).is_empty());
    assert!(collect_accepted(Vec::<Option<SubmitReply<u32>>>::new()).is_empty());
}
