use deadlock_detect::detector::DeadlockDetector;
use deadlock_detect::detector::RagError;

#[test]
fn test_deadlock_detection() {
    let mut detector = DeadlockDetector::new();

    detector.add_process("procA");
    detector.add_process("procB");
    detector.add_resource("resC");
    detector.add_resource("resD");

    assert!(detector.request("procA", "resC").unwrap());
    assert!(detector.request("procB", "resD").unwrap());
    assert!(detector.request("procA", "resD").unwrap());
    assert!(!detector.request("procB", "resC").unwrap());
}

#[test]
fn scenario_cycle_rejected_and_rolled_back() {
    let mut d = DeadlockDetector::new();
    d.add_process("A");
    d.add_process("B");
    d.add_resource("R1");
    d.add_resource("R2");

    assert_eq!(d.request("A", "R1"), Ok(true));
    assert_eq!(d.request("B", "R2"), Ok(true));
    assert_eq!(d.request("A", "R2"), Ok(true));
    assert_eq!(d.request("B", "R1"), Ok(false));

    // The refused request left nothing behind: no request edge of B on R1,
    // no queue entry.
    assert_eq!(d.waiters_of("R1"), Vec::<String>::new());
    assert_eq!(d.holder_of("R1"), Some("A".to_string()));
    assert_eq!(d.holder_of("R2"), Some("B".to_string()));
    assert_eq!(d.waiters_of("R2"), vec!["A".to_string()]);
}

#[test]
fn release_with_empty_queue_frees_resource() {
    let mut d = DeadlockDetector::new();
    d.add_process("A");
    d.add_resource("R1");
    assert_eq!(d.request("A", "R1"), Ok(true));
    assert_eq!(d.release("A", "R1", None), Ok(true));
    assert_eq!(d.holder_of("R1"), None);
    assert_eq!(d.waiters_of("R1"), Vec::<String>::new());
}

#[test]
fn release_grants_to_queue_head() {
    let mut d = DeadlockDetector::new();
    d.add_process("A");
    d.add_process("B");
    d.add_resource("R2");
    assert_eq!(d.request("B", "R2"), Ok(true));
    assert_eq!(d.request("A", "R2"), Ok(true));
    assert_eq!(d.release("B", "R2", Some("A")), Ok(true));
    // The cycle check ran against the granted state, found nothing, and the
    // grant stood.
    assert_eq!(d.holder_of("R2"), Some("A".to_string()));
    assert_eq!(d.waiters_of("R2"), Vec::<String>::new());
    assert!(!d.can_deadlock("A"));
}

#[test]
fn release_without_next_grants_head() {
    let mut d = DeadlockDetector::new();
    d.add_process("A");
    d.add_process("B");
    d.add_process("C");
    d.add_resource("R");
    assert_eq!(d.request("A", "R"), Ok(true));
    assert_eq!(d.request("B", "R"), Ok(true));
    assert_eq!(d.request("C", "R"), Ok(true));
    assert_eq!(d.release("A", "R", None), Ok(true));
    assert_eq!(d.holder_of("R"), Some("B".to_string()));
    assert_eq!(d.waiters_of("R"), vec!["C".to_string()]);
}

#[test]
fn fifo_release_to_non_head_fails() {
    let mut d = DeadlockDetector::new();
    d.add_process("H");
    d.add_process("W1");
    d.add_process("W2");
    d.add_resource("R");
    assert_eq!(d.request("H", "R"), Ok(true));
    assert_eq!(d.request("W1", "R"), Ok(true));
    assert_eq!(d.request("W2", "R"), Ok(true));
    // W1 is the head; naming W2 violates FIFO order and fails.
    assert_eq!(d.release("H", "R", Some("W2")), Ok(false));
    // The holder's own edges were still released, but no grant happened.
    assert_eq!(d.holder_of("R"), None);
    assert_eq!(d.waiters_of("R"), vec!["W1".to_string(), "W2".to_string()]);
}

#[test]
fn fifo_release_to_head_succeeds() {
    let mut d = DeadlockDetector::new();
    d.add_process("H");
    d.add_process("W1");
    d.add_process("W2");
    d.add_resource("R");
    assert_eq!(d.request("H", "R"), Ok(true));
    assert_eq!(d.request("W1", "R"), Ok(true));
    assert_eq!(d.request("W2", "R"), Ok(true));
    assert_eq!(d.release("H", "R", Some("W1")), Ok(true));
    assert_eq!(d.holder_of("R"), Some("W1".to_string()));
    assert_eq!(d.waiters_of("R"), vec!["W2".to_string()]);
}

#[test]
fn unknown_nodes_are_distinct_errors() {
    let mut d = DeadlockDetector::new();
    d.add_process("A");
    d.add_resource("R");
    assert_eq!(d.request("ghost", "R"), Err(RagError::UnknownProcess));
    assert_eq!(d.request("A", "ghost"), Err(RagError::UnknownResource));
    assert_eq!(d.release("ghost", "R", None), Err(RagError::UnknownProcess));
    assert_eq!(d.release("A", "ghost", None), Err(RagError::UnknownResource));
    // The failed calls changed nothing.
    assert_eq!(d.holder_of("R"), None);
    assert_eq!(d.waiters_of("R"), Vec::<String>::new());
}

#[test]
fn registration_is_idempotent() {
    let mut d = DeadlockDetector::new();
    d.add_process("A");
    d.add_process("A");
    d.add_resource("R");
    d.add_resource("R");
    assert_eq!(d.request("A", "R"), Ok(true));
    // Re-registering a held resource is a no-op: it neither frees the
    // resource nor clears its queue.
    d.add_resource("R");
    d.add_process("A");
    assert_eq!(d.holder_of("R"), Some("A".to_string()));
}

#[test]
fn duplicate_request_is_refused() {
    let mut d = DeadlockDetector::new();
    d.add_process("A");
    d.add_process("B");
    d.add_resource("R");
    assert_eq!(d.request("B", "R"), Ok(true));
    assert_eq!(d.request("A", "R"), Ok(true));
    assert_eq!(d.request("A", "R"), Ok(false));
    assert_eq!(d.waiters_of("R"), vec!["A".to_string()]);
}

#[test]
fn reentrant_request_is_refused() {
    let mut d = DeadlockDetector::new();
    d.add_process("A");
    d.add_resource("R");
    assert_eq!(d.request("A", "R"), Ok(true));
    // A already holds R: waiting for it would deadlock A with itself.
    assert_eq!(d.request("A", "R"), Ok(false));
    assert_eq!(d.holder_of("R"), Some("A".to_string()));
    assert_eq!(d.waiters_of("R"), Vec::<String>::new());
}

#[test]
fn release_by_non_holder_changes_nothing() {
    let mut d = DeadlockDetector::new();
    d.add_process("A");
    d.add_process("B");
    d.add_resource("R");
    assert_eq!(d.request("B", "R"), Ok(true));
    assert_eq!(d.release("A", "R", None), Ok(false));
    assert_eq!(d.holder_of("R"), Some("B".to_string()));
}

#[test]
fn can_deadlock_is_false_on_committed_states() {
    let mut d = DeadlockDetector::new();
    d.add_process("A");
    d.add_process("B");
    d.add_resource("R1");
    d.add_resource("R2");
    assert!(!d.can_deadlock("A"));
    assert!(!d.can_deadlock("unregistered"));
    assert_eq!(d.request("A", "R1"), Ok(true));
    assert_eq!(d.request("B", "R2"), Ok(true));
    assert_eq!(d.request("A", "R2"), Ok(true));
    assert!(!d.can_deadlock("A"));
    assert!(!d.can_deadlock("B"));
}

#[test]
fn free_resource_with_waiters_still_checked() {
    let mut d = DeadlockDetector::new();
    d.add_process("H");
    d.add_process("A");
    d.add_process("B");
    d.add_resource("R");
    d.add_resource("R2");

    // A holds R2; R ends up free while A still waits for it.
    assert_eq!(d.request("A", "R2"), Ok(true));
    assert_eq!(d.request("H", "R"), Ok(true));
    assert_eq!(d.request("A", "R"), Ok(true));
    assert_eq!(d.release("H", "R", Some("B")), Ok(false));
    assert_eq!(d.holder_of("R"), None);
    assert_eq!(d.waiters_of("R"), vec!["A".to_string()]);

    // B waits for R2 (held by A), then asks for the free R: granting would
    // close the cycle R -> B -> R2 -> A -> R, so the request is refused.
    assert_eq!(d.request("B", "R2"), Ok(true));
    assert_eq!(d.request("B", "R"), Ok(false));
    assert_eq!(d.holder_of("R"), None);
    assert_eq!(d.waiters_of("R"), vec!["A".to_string()]);
}
