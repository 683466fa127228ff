use fileshare::client_string::ClientString;
use fileshare::content::filesystem::{LocalFilesystem, RemoteFilesystem};
use fileshare::content::item::{LocalItem, RemoteItem, TreeError};

fn file(name: &str, ts: u64) -> LocalItem {
    LocalItem::new(ClientString::from_client(name), true, ts, None, 1)
}

fn dir(name: &str) -> LocalItem {
    LocalItem::new(ClientString::from_client(name), false, 0, None, 0)
}

fn remote(id: u64, parent: Option<u64>, name: &str, is_file: bool, ts: u64) -> RemoteItem {
    RemoteItem {
        id,
        name: ClientString::from_client(name),
        is_regular_file: is_file,
        parent_item: parent,
        size: Some(if is_file { 1 } else { 0 }),
        mimetype: None,
        timestamp: Some(ts),
    }
}

fn path(parts: &[&str]) -> Vec<ClientString> {
    parts.iter().map(|p| ClientString::from_client(p)).collect()
}

#[test]
fn add_child_replaces_same_name() {
    let mut d = dir("docs");
    d.add_child(file("a", 1));
    d.add_child(file("a", 9));
    assert_eq!(d.children().len(), 1);
    assert_eq!(d.children()[0].timestamp(), 9);
}

#[test]
fn remove_child_reports_missing() {
    let mut d = dir("docs");
    d.add_child(file("a", 1));
    assert!(d.remove_child(&ClientString::from_client("a")).is_ok());
    assert_eq!(
        d.remove_child(&ClientString::from_client("a")),
        Err(TreeError::NotFound)
    );
}

#[test]
fn set_and_find_and_remove_by_path() {
    let mut fs = LocalFilesystem::new();
    let mut d = dir("docs");
    d.add_child(file("a", 1));
    fs.add_to_root(d);
    fs.set_at_path(&path(&["docs", "b"]), file("b", 7)).unwrap();
    let found = fs.find_from_path(&path(&["docs", "b"])).unwrap();
    assert_eq!(found.timestamp(), 7);
    fs.remove_at_path(&path(&["docs", "a"])).unwrap();
    assert!(fs.find_from_path(&path(&["docs", "a"])).is_none());
    assert!(fs.find_from_path(&path(&["docs", "b"])).is_some());
}

#[test]
fn set_below_missing_directory_fails() {
    let mut fs = LocalFilesystem::new();
    let r = fs.set_at_path(&path(&["docs", "b"]), file("b", 7));
    assert_eq!(r, Err(TreeError::NotFound));
}

#[test]
fn set_below_file_fails() {
    let mut fs = LocalFilesystem::new();
    fs.add_to_root(file("a", 1));
    let r = fs.set_at_path(&path(&["a", "b"]), file("b", 7));
    assert_eq!(r, Err(TreeError::NotFound));
}

#[test]
fn remote_add_replaces_same_id() {
    let mut rf = RemoteFilesystem::new();
    rf.add_item(remote(1, None, "a", true, 1));
    rf.add_item(remote(1, None, "a2", true, 2));
    let it = rf.find_item(&1).unwrap();
    assert_eq!(it.name.encoded(), "a2");
    assert!(rf.find_item(&2).is_none());
}

#[test]
fn remote_children_keep_listing_order() {
    let mut rf = RemoteFilesystem::new();
    rf.add_item(remote(1, None, "d", false, 0));
    rf.add_item(remote(2, Some(1), "x", true, 1));
    rf.add_item(remote(3, Some(1), "y", true, 2));
    rf.add_item(remote(4, None, "z", true, 3));
    let kids = rf.get_children(&1);
    assert_eq!(kids.len(), 2);
    assert_eq!(kids[0].id, 2);
    assert_eq!(kids[1].id, 3);
    let roots = rf.get_roots();
    assert_eq!(roots.len(), 2);
    assert_eq!(roots[0].id, 1);
    assert_eq!(roots[1].id, 4);
}

#[test]
fn remote_find_from_path_descends() {
    let mut rf = RemoteFilesystem::new();
    rf.add_item(remote(1, None, "d", false, 0));
    rf.add_item(remote(2, Some(1), "x", true, 1));
    let found = rf.find_from_path(&path(&["d", "x"])).unwrap();
    assert_eq!(found.id, 2);
    assert!(rf.find_from_path(&path(&["d", "missing"])).is_none());
}

#[test]
fn remote_resolves_to_forest() {
    let mut rf = RemoteFilesystem::new();
    rf.add_item(remote(1, None, "d", false, 0));
    rf.add_item(remote(2, Some(1), "x", true, 10));
    rf.add_item(remote(3, None, "a", true, 5));
    let forest = rf.to_forest().unwrap();
    assert_eq!(forest.len(), 2);
    assert_eq!(forest[0].name().encoded(), "d");
    assert_eq!(forest[0].children().len(), 1);
    assert_eq!(forest[0].children()[0].timestamp(), 10);
    assert_eq!(forest[0].size(), 0);
    assert_eq!(forest[1].name().encoded(), "a");
}

#[test]
fn remote_cyclic_entries_are_never_reached() {
    let mut rf = RemoteFilesystem::new();
    rf.add_item(remote(1, Some(2), "a", false, 0));
    rf.add_item(remote(2, Some(1), "b", false, 0));
    rf.add_item(remote(3, None, "c", false, 0));
    // the two cyclic entries name each other as parent, so no root
    // leads to them and the forest resolves without them
    let forest = rf.to_forest().unwrap();
    assert_eq!(forest.len(), 1);
    assert_eq!(forest[0].name().encoded(), "c");
}

#[test]
fn remote_duplicate_siblings_are_rejected() {
    let mut rf = RemoteFilesystem::new();
    rf.add_item(remote(1, None, "same", true, 1));
    rf.add_item(remote(2, None, "same", true, 2));
    match rf.to_forest() {
        Err(e) => assert_eq!(e, TreeError::DuplicateName),
        Ok(_) => panic!("duplicate sibling names must be rejected"),
    }
}
