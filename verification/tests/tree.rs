use libsraid::tree::{DirEntry, DirNode, FileInfo};

fn file(name: &str, size: u64) -> DirEntry {
    DirEntry::File(FileInfo { name: name.to_string(), path: format!("/src/{name}"), size })
}

#[test]
fn counts_and_sizes_through_subdirectories() {
    let mut root = DirNode::new("root".to_string());
    assert_eq!(root.file_count(), 0);
    assert_eq!(root.total_size(), 0);
    root.add_child(file("a", 10));
    let mut sub = DirNode::new("sub".to_string());
    sub.add_child(file("b", 20));
    sub.add_child(file("c", 30));
    let mut empty = DirNode::new("empty".to_string());
    empty.add_child(DirEntry::Dir(DirNode::new("deeper".to_string())));
    sub.add_child(DirEntry::Dir(empty));
    root.add_child(DirEntry::Dir(sub));
    root.add_child(file("d", 5));
    assert_eq!(root.name, "root");
    assert_eq!(root.children.len(), 3);
    assert_eq!(root.file_count(), 4);
    assert_eq!(root.total_size(), 65);
}
