use fileshare::client_string::ClientString;
use fileshare::repository::{
    chunk_sizes, content_path_header, upload_advance, Repository, UploadError, UploadStep,
    CHUNK_SIZE,
};

#[test]
fn remote_url_parses_and_formats_back() {
    let mut repo = Repository::new();
    repo.set_remote_url(String::from("http://example.com/user/repo")).unwrap();
    assert_eq!(repo.remote_origin, "http://example.com");
    assert_eq!(repo.remote_user, "user");
    assert_eq!(repo.remote_repository, "repo");
    assert_eq!(repo.get_remote_url().unwrap(), "http://example.com/user/repo");
    assert_eq!(repo.repos_path().unwrap(), "user/repo/");
}

#[test]
fn remote_url_rejects_junk() {
    let mut repo = Repository::new();
    assert!(repo.set_remote_url(String::from("not a url")).is_err());
    assert!(repo.get_remote_url().is_err());
    assert!(repo.repos_path().is_err());
}

#[test]
fn editor_command_round_trips() {
    let mut repo = Repository::new();
    assert_eq!(repo.get_editor_command(), "");
    repo.set_editor_command(String::from("vi"));
    assert_eq!(repo.get_editor_command(), "vi");
}

#[test]
fn chunk_plan_of_empty_file() {
    assert_eq!(chunk_sizes(0), [0]);
}

#[test]
fn chunk_plan_of_small_file() {
    assert_eq!(chunk_sizes(1234), [1234]);
}

#[test]
fn chunk_plan_of_large_file() {
    let plan = chunk_sizes(CHUNK_SIZE * 2 + 5);
    assert_eq!(plan, [CHUNK_SIZE, CHUNK_SIZE, 5]);
    let total: u64 = plan.iter().sum();
    assert_eq!(total, CHUNK_SIZE * 2 + 5);
}

#[test]
fn upload_steps() {
    assert!(matches!(
        upload_advance(0, None, None),
        Ok(UploadStep::Done)
    ));
    assert!(matches!(
        upload_advance(10, Some(String::from("s1")), None),
        Ok(UploadStep::SendNext(t)) if t == "s1"
    ));
    assert!(matches!(
        upload_advance(10, None, Some(String::new())),
        Err(UploadError::MissingStreamId)
    ));
    assert!(matches!(
        upload_advance(10, Some(String::from("s1")), Some(String::from("rejected"))),
        Err(UploadError::ServerMessage(m)) if m == "rejected"
    ));
}

#[test]
fn content_path_of_root_is_slash() {
    let parent: Vec<ClientString> = vec![];
    assert_eq!(content_path_header(&parent), b"/");
}

#[test]
fn content_path_joins_encoded_components() {
    let parent = vec![
        ClientString::from_client("my docs"),
        ClientString::from_client("sub"),
    ];
    assert_eq!(content_path_header(&parent), b"my%20docs/sub");
}
