use stream_dump::driver::{output_path_for, run_replicas, ReplicaInput, ReplicaOutcome};

#[test]
fn output_paths_follow_the_replica_index() {
    assert_eq!(output_path_for(0), b"stream_0.dat".to_vec());
    assert_eq!(output_path_for(1), b"stream_1.dat".to_vec());
    assert_eq!(output_path_for(10), b"stream_10.dat".to_vec());
}

#[test]
fn one_failing_replica_does_not_touch_the_others() {
    let inputs = vec![
        ReplicaInput { status: 200, chunks: vec![b"first".to_vec(), b"-body".to_vec()] },
        ReplicaInput { status: 401, chunks: vec![b"ignored".to_vec()] },
        ReplicaInput { status: 200, chunks: vec![b"third-body".to_vec()] },
    ];
    let outcomes = run_replicas(&inputs);
    assert_eq!(outcomes.len(), 3);
    match &outcomes[0] {
        ReplicaOutcome::Dumped(bytes) => assert_eq!(bytes, &b"first-body".to_vec()),
        ReplicaOutcome::Refused(_) => panic!("replica 0 must succeed"),
    }
    match &outcomes[1] {
        ReplicaOutcome::Dumped(_) => panic!("replica 1 must be refused"),
        ReplicaOutcome::Refused(code) => assert_eq!(*code, 401),
    }
    match &outcomes[2] {
        ReplicaOutcome::Dumped(bytes) => assert_eq!(bytes, &b"third-body".to_vec()),
        ReplicaOutcome::Refused(_) => panic!("replica 2 must succeed"),
    }
}

#[test]
fn a_refused_replica_never_yields_a_stream() {
    let inputs = vec![ReplicaInput { status: 401, chunks: vec![b"data".to_vec()] }];
    let outcomes = run_replicas(&inputs);
    assert!(matches!(outcomes[0], ReplicaOutcome::Refused(401)));
}
