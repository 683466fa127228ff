use fileshare::client_string::ClientString;
use fileshare::content::filesystem::LocalFilesystem;
use fileshare::content::item::LocalItem;
use fileshare::snapshot::{load, save};

fn file(name: &str, ts: u64, mime: Option<&str>, size: u64) -> LocalItem {
    LocalItem::new(
        ClientString::from_client(name),
        true,
        ts,
        mime.map(ClientString::from_client),
        size,
    )
}

fn dir(name: &str) -> LocalItem {
    LocalItem::new(ClientString::from_client(name), false, 0, None, 0)
}

#[test]
fn empty_tree_round_trips() {
    let fs = LocalFilesystem::new();
    let bytes = save(&fs);
    assert_eq!(std::str::from_utf8(&bytes).unwrap(), "{\"roots\":[]}");
    let back = load(&bytes).unwrap();
    assert_eq!(back.get_roots().len(), 0);
}

#[test]
fn one_file_round_trips() {
    let mut fs = LocalFilesystem::new();
    fs.add_to_root(file("a.txt", 100, Some("text/plain"), 42));
    let bytes = save(&fs);
    assert_eq!(
        std::str::from_utf8(&bytes).unwrap(),
        "{\"roots\":[{\"name\":\"a.txt\",\"is_regular_file\":true,\"timestamp\":100,\"mime_type\":\"text/plain\",\"size\":42,\"children\":[]}]}"
    );
    let back = load(&bytes).unwrap();
    let roots = back.get_roots();
    assert_eq!(roots.len(), 1);
    assert_eq!(roots[0].name().encoded(), "a.txt");
    assert_eq!(roots[0].timestamp(), 100);
    assert_eq!(roots[0].size(), 42);
    assert_eq!(roots[0].mime_type().encoded(), "text/plain");
}

#[test]
fn nested_tree_round_trips() {
    let mut d = dir("docs");
    d.add_child(file("a", 1, None, 3));
    let mut sub = dir("sub");
    sub.add_child(file("deep \u{e9}", 9, Some("text/plain"), 7));
    d.add_child(sub);
    let mut fs = LocalFilesystem::new();
    fs.add_to_root(d);
    fs.add_to_root(file("top", 5, None, 1));
    let bytes = save(&fs);
    let back = load(&bytes).unwrap();
    let again = save(&back);
    assert_eq!(bytes, again);
    let roots = back.get_roots();
    assert_eq!(roots.len(), 2);
    assert_eq!(roots[0].children().len(), 2);
    assert_eq!(roots[0].children()[1].children()[0].timestamp(), 9);
}

#[test]
fn junk_is_rejected() {
    assert!(load(b"").is_none());
    assert!(load(b"{\"roots\":[}").is_none());
    assert!(load(b"{\"roots\":[]} ").is_none());
    assert!(load(b"[1,2,3]").is_none());
}

#[test]
fn timestamp_overflow_is_rejected() {
    let good = load(b"{\"roots\":[{\"name\":\"a\",\"is_regular_file\":true,\"timestamp\":18446744073709551615,\"mime_type\":null,\"size\":0,\"children\":[]}]}");
    assert!(good.is_some());
    let bad = load(b"{\"roots\":[{\"name\":\"a\",\"is_regular_file\":true,\"timestamp\":18446744073709551616,\"mime_type\":null,\"size\":0,\"children\":[]}]}");
    assert!(bad.is_none());
}
