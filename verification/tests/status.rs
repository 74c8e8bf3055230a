use guest_call::status::Status;

#[test]
fn new_keeps_the_fields_exactly_as_given() {
    let status = Status::new(2, 5, vec![3, 1, 4]);
    assert_eq!(status.version, 2);
    assert_eq!(status.ready_nodes, 5);
    assert_eq!(status.enqueued_codes, vec![3, 1, 4]);
}

#[test]
fn new_accepts_an_empty_queue() {
    let status = Status::new(0, 0, Vec::new());
    assert_eq!(status.version, 0);
    assert_eq!(status.ready_nodes, 0);
    assert!(status.enqueued_codes.is_empty());
}
