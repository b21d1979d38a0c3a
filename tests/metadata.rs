use chuangshi::metadata::{FileMeta, MetadataManager, MetadataStore, NodeInfo, NodeStatus};

fn meta(path: &str, node: &str, size: u64, replicas: &[&str]) -> FileMeta {
    FileMeta {
        path: path.to_string(),
        size,
        chunks: vec![],
        created_at: 0,
        updated_at: 0,
        node_id: node.to_string(),
        replicas: replicas.iter().map(|s| s.to_string()).collect(),
    }
}

fn stamped(mut m: FileMeta, created: i64, updated: i64) -> FileMeta {
    m.created_at = created;
    m.updated_at = updated;
    m
}

#[test]
fn create_twice_overwrites_and_restamps() {
    let mut c = MetadataManager::new("meta.json", None);
    let r1 = meta("/p", "n1", 10, &["n2"]);
    let r2 = meta("/p", "n3", 20, &["n4", "n5"]);
    assert!(c.create_file_at("/p", r1, 100));
    assert!(c.create_file_at("/p", r2.clone(), 200));
    assert_eq!(c.get_file("/p"), Some(stamped(r2, 200, 200)));
}

#[test]
fn create_with_clock_sets_equal_stamps() {
    let mut c = MetadataManager::new("meta.json", None);
    assert!(c.create_file("/q", meta("/q", "n1", 1, &[])));
    let got = c.get_file("/q").unwrap();
    assert_eq!(got.created_at, got.updated_at);
    assert!(got.created_at > 0);
    assert_eq!(got.size, 1);
}

#[test]
fn update_unknown_path_changes_nothing() {
    let mut c = MetadataManager::new("meta.json", None);
    c.create_file_at("/a", meta("/a", "n1", 1, &[]), 5);
    let before = c.snapshot().clone();
    assert!(!c.update_file_at("/b", meta("/b", "n1", 2, &[]), 9));
    assert!(!c.update_file("/b", meta("/b", "n1", 2, &[])));
    assert_eq!(c.snapshot(), &before);
    assert_eq!(c.get_file("/b"), None);
}

#[test]
fn update_keeps_creation_time() {
    let mut c = MetadataManager::new("meta.json", None);
    c.create_file_at("/a", meta("/a", "n1", 1, &[]), 5);
    assert!(c.update_file_at("/a", meta("/a", "n2", 7, &["n3"]), 9));
    assert_eq!(c.get_file("/a"), Some(stamped(meta("/a", "n2", 7, &["n3"]), 5, 9)));
    assert!(c.update_file_at("/a", meta("/a", "n2", 7, &[]), 3));
    assert_eq!(c.get_file("/a").unwrap().updated_at, 5);
}

#[test]
fn replicas_are_listed_once() {
    let mut c = MetadataManager::new("meta.json", None);
    c.create_file_at("/a", meta("/a", "n1", 1, &["n2", "n3", "n2", "n3", "n4"]), 1);
    assert_eq!(c.get_file("/a").unwrap().replicas, vec!["n2", "n3", "n4"]);
}

#[test]
fn delete_reports_whether_removed() {
    let mut c = MetadataManager::new("meta.json", None);
    c.create_file_at("/a", meta("/a", "n1", 1, &[]), 1);
    assert!(c.delete_file("/a"));
    assert!(!c.delete_file("/a"));
    assert_eq!(c.get_file("/a"), None);
}

#[test]
fn reload_from_snapshot_reproduces_catalog() {
    let mut c = MetadataManager::new("meta.json", None);
    c.create_file_at("/a", meta("/a", "n1", 1, &["n2"]), 1);
    c.create_file_at("/b", meta("/b", "n2", 2, &[]), 2);
    c.register_node_at("n1", "10.0.0.1:7000", 3);
    c.delete_file("/b");
    let doc = c.snapshot().clone();
    let d = MetadataManager::new(c.storage_path(), Some(doc.clone()));
    assert_eq!(d.snapshot(), &doc);
    assert_eq!(d.get_file("/a"), c.get_file("/a"));
    assert_eq!(d.get_file("/b"), None);
    assert_eq!(d.storage_path(), "meta.json");
}

#[test]
fn repeated_key_document_loads_empty() {
    let dup = MetadataStore {
        files: vec![
            ("/a".to_string(), meta("/a", "n1", 1, &[])),
            ("/a".to_string(), meta("/a", "n2", 2, &[])),
        ],
        nodes: vec![],
    };
    let c = MetadataManager::new("m", Some(dup));
    assert_eq!(c.get_file("/a"), None);
    assert!(MetadataManager::new("m", None).snapshot().files.is_empty());
}

#[test]
fn unsound_records_are_repaired_on_load() {
    let doc = MetadataStore {
        files: vec![
            ("/a".to_string(), stamped(meta("/a", "n1", 1, &[]), 9, 3)),
            ("/b".to_string(), stamped(meta("/b", "n1", 2, &["x", "y", "x"]), 1, 2)),
        ],
        nodes: vec![],
    };
    let c = MetadataManager::new("m", Some(doc));
    assert_eq!(c.get_file("/a"), Some(stamped(meta("/a", "n1", 1, &[]), 9, 9)));
    assert_eq!(c.get_file("/b"), Some(stamped(meta("/b", "n1", 2, &["x", "y"]), 1, 2)));
}

#[test]
fn reregistering_never_moves_heartbeat_back() {
    let mut c = MetadataManager::new("meta.json", None);
    c.register_node_at("n1", "host:1", 50);
    c.register_node_at("n1", "host:2", 20);
    let doc = c.snapshot();
    assert_eq!(doc.nodes[0].1.last_heartbeat, 50);
    assert_eq!(doc.nodes[0].1.address, "host:2");
    c.register_node_at("n1", "host:3", 70);
    assert_eq!(c.snapshot().nodes[0].1.last_heartbeat, 70);
}

#[test]
fn files_by_node_filters_owner() {
    let mut c = MetadataManager::new("meta.json", None);
    c.create_file_at("/z", meta("/z", "n2", 1, &[]), 1);
    c.create_file_at("/a", meta("/a", "n1", 1, &[]), 1);
    c.create_file_at("/m", meta("/m", "n2", 3, &["n1"]), 1);
    let mut got: Vec<String> = c.get_files_by_node("n2").into_iter().map(|f| f.path).collect();
    got.sort();
    assert_eq!(got, vec!["/m", "/z"]);
    assert_eq!(c.get_files_by_node("n1").len(), 1);
    assert!(c.get_files_by_node("n9").is_empty());
}

#[test]
fn nodes_register_and_heartbeat() {
    let mut c = MetadataManager::new("meta.json", None);
    assert!(!c.heartbeat_at("n1", 5));
    assert!(c.register_node_at("n1", "host:1", 10));
    assert!(c.heartbeat_at("n1", 20));
    assert!(c.heartbeat_at("n1", 15));
    let doc = c.snapshot();
    assert_eq!(
        doc.nodes,
        vec![(
            "n1".to_string(),
            NodeInfo {
                id: "n1".to_string(),
                address: "host:1".to_string(),
                last_heartbeat: 20,
                status: NodeStatus::Online,
            }
        )]
    );
    assert!(c.register_node("n2", "host:2"));
    assert!(c.heartbeat("n2"));
    assert!(!c.heartbeat("n3"));
}
