use chuangshi::replication::{ReplicationError, ReplicationManager};

#[test]
fn unknown_peer_is_not_found() {
    let r = ReplicationManager::new();
    assert_eq!(r.replicate_file_to_node("n1"), Err(ReplicationError::NodeNotFound));
}

#[test]
fn registered_peer_is_selected() {
    let mut r = ReplicationManager::new();
    r.add_remote_node("n1", "http://10.0.0.1:50053");
    r.add_remote_node("n2", "http://10.0.0.2:50053");
    r.add_remote_node("n1", "http://10.0.0.9:50053");
    assert_eq!(r.replicate_file_to_node("n1"), Ok("http://10.0.0.9:50053".to_string()));
    assert_eq!(r.replicate_file_to_node("n2"), Ok("http://10.0.0.2:50053".to_string()));
}
