use tacticalmesh::link::derive_stream_id;
use tacticalmesh::priority::Priority;
use tacticalmesh::scheduler::Queues;

const PRIORITIES: [Priority; 4] = [Priority::Emergency, Priority::Critical, Priority::High, Priority::Bulk];

#[test]
fn stream_id_deterministic() {
    let key = [42u8; 32];
    let a = derive_stream_id(&key, 0, Priority::Emergency);
    let b = derive_stream_id(&key, 0, Priority::Emergency);
    assert_eq!(a, b, "same inputs must produce same stream_id");
}

#[test]
fn stream_id_differs_by_priority() {
    let key = [42u8; 32];
    let ids: Vec<u32> = PRIORITIES.iter().map(|&p| derive_stream_id(&key, 0, p)).collect();
    for i in 0..ids.len() {
        for j in (i + 1)..ids.len() {
            assert_ne!(ids[i], ids[j], "priorities {:?} and {:?} must differ", PRIORITIES[i], PRIORITIES[j]);
        }
    }
}

#[test]
fn stream_id_differs_by_epoch() {
    let key = [7u8; 32];
    let a = derive_stream_id(&key, 0, Priority::High);
    let b = derive_stream_id(&key, 1, Priority::High);
    assert_ne!(a, b, "epoch rotation must change stream_id");
}

#[test]
fn stream_id_differs_by_session_key() {
    let a = derive_stream_id(&[0u8; 32], 0, Priority::Emergency);
    let b = derive_stream_id(&[1u8; 32], 0, Priority::Emergency);
    assert_ne!(a, b, "different session keys must produce different stream_ids");
}

#[test]
fn priority_from_u8_round_trip() {
    for v in 0u8..4 {
        let p = Priority::from_u8(v).unwrap();
        assert_eq!(p as u8, v);
    }
    assert!(Priority::from_u8(4).is_none());
}

#[test]
fn strict_priority_p0_before_p3() {
    let mut q = Queues::new();
    q.push(vec![3], Priority::Bulk);
    q.push(vec![0], Priority::Emergency);
    q.push(vec![2], Priority::High);
    q.push(vec![1], Priority::Critical);

    let mut order: Vec<Vec<u8>> = Vec::new();
    while let Some((f, _)) = q.pop_next() {
        order.push(f);
    }

    assert_eq!(order, vec![vec![0], vec![1], vec![2], vec![3]]);
}
