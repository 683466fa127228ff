use fileshare::actions::{ActionPull, ActionPush, ActionStatus, ActionSync};
use fileshare::client_string::ClientString;
use fileshare::content::diff::{Action, Diff};
use fileshare::content::filesystem::LocalFilesystem;
use fileshare::content::item::LocalItem;
use fileshare::repository::Repository;

fn file(name: &str, ts: u64) -> LocalItem {
    LocalItem::new(ClientString::from_client(name), true, ts, None, 1)
}

fn dir(name: &str) -> LocalItem {
    LocalItem::new(ClientString::from_client(name), false, 0, None, 0)
}

fn forest(items: Vec<LocalItem>) -> LocalFilesystem {
    let mut fs = LocalFilesystem::new();
    for it in items {
        fs.add_to_root(it);
    }
    fs
}

fn path_of(p: &Vec<ClientString>) -> Vec<String> {
    p.iter().map(|c| c.encoded()).collect()
}

#[test]
fn clean_state_emits_nothing() {
    let mut d = dir("docs");
    d.add_child(file("a.txt", 5));
    let t1 = forest(vec![d, file("b.txt", 9)]);
    let mut d2 = dir("docs");
    d2.add_child(file("a.txt", 5));
    let t2 = forest(vec![d2, file("b.txt", 9)]);
    let mut d3 = dir("docs");
    d3.add_child(file("a.txt", 5));
    let t3 = forest(vec![d3, file("b.txt", 9)]);
    let diff = Diff::new(&t1, &t2, &t3);
    assert_eq!(diff.actions().len(), 0);
}

#[test]
fn untracked_equal_trees_resync_roots() {
    let s = forest(vec![file("a.txt", 1), file("b.txt", 2)]);
    let l = forest(vec![]);
    let r = forest(vec![file("a.txt", 1), file("b.txt", 2)]);
    let diff = Diff::new(&s, &l, &r);
    assert_eq!(diff.actions().len(), 2);
    for a in diff.actions() {
        assert!(matches!(a, Action::ResyncLocal(..)));
    }
}

#[test]
fn clean_pull_of_a_new_file() {
    let s = forest(vec![file("a.txt", 100)]);
    let l = forest(vec![]);
    let r = forest(vec![file("a.txt", 100), file("b.txt", 200)]);
    let diff = Diff::new(&s, &l, &r);
    let plan = ActionSync::plan(&diff);
    assert_eq!(plan.len(), 2);
    assert!(matches!(&plan[0], Action::ResyncLocal(p, _) if path_of(p) == ["a.txt"]));
    assert!(matches!(&plan[1], Action::RemoteAdded(p, it) if path_of(p) == ["b.txt"] && it.timestamp == 200));

    let mut repo = Repository::new();
    repo.apply_actions(&plan).unwrap();
    let names: Vec<String> = repo
        .snapshot()
        .get_roots()
        .iter()
        .map(|it| it.name().encoded())
        .collect();
    assert_eq!(names, ["a.txt", "b.txt"]);
}

#[test]
fn local_upgrade_push() {
    let s = forest(vec![file("a.txt", 300)]);
    let l = forest(vec![file("a.txt", 200)]);
    let r = forest(vec![file("a.txt", 200)]);
    let diff = Diff::new(&s, &l, &r);
    let plan = ActionPush::plan(&diff);
    assert_eq!(plan.len(), 1);
    assert!(matches!(&plan[0], Action::LocalUpgraded(p, sv, rv)
        if path_of(p) == ["a.txt"] && sv.timestamp == 300 && rv.timestamp == 200));

    let mut repo = Repository::new();
    repo.set_snapshot(forest(vec![file("a.txt", 200)]));
    repo.apply_actions(&plan).unwrap();
    assert_eq!(repo.snapshot().get_roots()[0].timestamp(), 300);
}

#[test]
fn remote_delete_pull() {
    let s = forest(vec![file("a.txt", 100)]);
    let l = forest(vec![file("a.txt", 100)]);
    let r = forest(vec![]);
    let diff = Diff::new(&s, &l, &r);
    let plan = ActionPull::plan(&diff);
    assert_eq!(plan.len(), 1);
    assert!(matches!(&plan[0], Action::RemoteRemoved(p, _) if path_of(p) == ["a.txt"]));

    let mut repo = Repository::new();
    repo.set_snapshot(forest(vec![file("a.txt", 100)]));
    repo.apply_actions(&plan).unwrap();
    assert_eq!(repo.snapshot().get_roots().len(), 0);
}

#[test]
fn both_upgraded_conflict_is_reported_only() {
    let s = forest(vec![file("a.txt", 300)]);
    let l = forest(vec![file("a.txt", 100)]);
    let r = forest(vec![file("a.txt", 200)]);
    let diff = Diff::new(&s, &l, &r);
    let report = ActionStatus::plan(&diff);
    assert_eq!(report.len(), 1);
    assert!(matches!(&report[0], Action::ConflictBothUpgraded(..)));
    assert!(ActionStatus::is_conflict_action(&report[0]));
    assert_eq!(ActionSync::plan(&diff).len(), 0);
    assert_eq!(ActionPush::plan(&diff).len(), 0);
    assert_eq!(ActionPull::plan(&diff).len(), 0);
}

#[test]
fn directory_added_remotely() {
    let s = forest(vec![]);
    let l = forest(vec![]);
    let mut d = dir("dir");
    d.add_child(file("x.txt", 10));
    d.add_child(file("y.txt", 20));
    let r = forest(vec![d]);
    let diff = Diff::new(&s, &l, &r);
    let plan = ActionPull::plan(&diff);
    assert_eq!(plan.len(), 1);
    match &plan[0] {
        Action::RemoteAdded(p, it) => {
            assert_eq!(path_of(p), ["dir"]);
            assert!(!it.is_regular_file);
            assert_eq!(it.children.len(), 2);
        },
        _ => panic!("expected a remote addition"),
    }
    let mut repo = Repository::new();
    repo.apply_actions(&plan).unwrap();
    let roots = repo.snapshot().get_roots();
    assert_eq!(roots.len(), 1);
    assert_eq!(roots[0].children.len(), 2);
    assert_eq!(roots[0].children[0].name().encoded(), "x.txt");
    assert_eq!(roots[0].children[1].name().encoded(), "y.txt");
}

#[test]
fn nested_recursion_upgrades_in_place() {
    let mut sd = dir("dir");
    sd.add_child(file("a", 1));
    let s = forest(vec![sd]);
    let mut ld = dir("dir");
    ld.add_child(file("a", 1));
    let l = forest(vec![ld]);
    let mut rd = dir("dir");
    rd.add_child(file("a", 2));
    let r = forest(vec![rd]);
    let diff = Diff::new(&s, &l, &r);
    assert_eq!(diff.actions().len(), 1);
    match &diff.actions()[0] {
        Action::RemoteUpgraded(p, sv, rv) => {
            assert_eq!(path_of(p), ["dir", "a"]);
            assert_eq!(sv.timestamp, 1);
            assert_eq!(rv.timestamp, 2);
        },
        _ => panic!("expected a remote upgrade below the directory"),
    }
    let plan = ActionPull::plan(&diff);
    let mut repo = Repository::new();
    let mut snap_dir = dir("dir");
    snap_dir.add_child(file("a", 1));
    repo.set_snapshot(forest(vec![snap_dir]));
    repo.apply_actions(&plan).unwrap();
    let roots = repo.snapshot().get_roots();
    assert_eq!(roots[0].children[0].timestamp(), 2);
}

#[test]
fn ordering_scanned_then_remote_then_snapshot() {
    let s = forest(vec![file("b", 1), file("a", 1)]);
    let l = forest(vec![file("z", 1)]);
    let r = forest(vec![file("m", 1)]);
    let diff = Diff::new(&s, &l, &r);
    let paths: Vec<Vec<String>> = diff.actions().iter().map(|a| match a {
        Action::LocalAdded(p, _) => path_of(p),
        Action::RemoteAdded(p, _) => path_of(p),
        Action::RemovedOnBothSides(p, _) => path_of(p),
        _ => panic!("unexpected kind"),
    }).collect();
    assert_eq!(paths, [["a"], ["b"], ["m"], ["z"]]);
}

#[test]
fn one_action_per_divergent_name() {
    let s = forest(vec![file("a", 3), file("b", 1), file("c", 7)]);
    let l = forest(vec![file("a", 1), file("b", 1), file("d", 4)]);
    let r = forest(vec![file("a", 1), file("b", 1), file("e", 5)]);
    let diff = Diff::new(&s, &l, &r);
    let mut seen: Vec<Vec<String>> = diff.actions().iter().map(|a| match a {
        Action::LocalUpgraded(p, ..) => path_of(p),
        Action::LocalAdded(p, ..) => path_of(p),
        Action::RemovedOnBothSides(p, ..) => path_of(p),
        Action::RemoteAdded(p, ..) => path_of(p),
        other => panic!("unexpected kind {:?}", std::mem::discriminant(other)),
    }).collect();
    seen.sort();
    assert_eq!(seen, [["a"], ["c"], ["d"], ["e"]]);
}

#[test]
fn sync_run_leaves_only_conflicts() {
    let mut s = forest(vec![file("a.txt", 3), file("b.txt", 1), file("c.txt", 2), file("e.txt", 5)]);
    let mut l = forest(vec![file("a.txt", 1), file("b.txt", 1), file("e.txt", 1)]);
    let mut r = forest(vec![file("a.txt", 1), file("b.txt", 1), file("d.txt", 9), file("e.txt", 3)]);
    let diff = Diff::new(&s, &l, &r);
    let plan = ActionSync::plan(&diff);
    for action in &plan {
        match action {
            Action::LocalUpgraded(_, sv, _) | Action::LocalAdded(_, sv) => {
                l.add_to_root(sv.clone());
                r.add_to_root(sv.clone());
            },
            Action::RemoteUpgraded(_, _, rv) | Action::RemoteAdded(_, rv) => {
                s.add_to_root(rv.clone());
                l.add_to_root(rv.clone());
            },
            Action::ResyncLocal(_, sv) => {
                l.add_to_root(sv.clone());
            },
            other => panic!("unexpected kind in this run: {:?}", std::mem::discriminant(other)),
        }
    }
    let after = Diff::new(&s, &l, &r);
    assert_eq!(after.actions().len(), 1);
    assert!(ActionStatus::is_conflict_action(&after.actions()[0]));
    assert!(matches!(&after.actions()[0], Action::ConflictBothUpgraded(p, ..) if path_of(p) == ["e.txt"]));
}

#[test]
fn apply_actions_succeeds_on_fitting_runs() {
    // the same clean-pull run as above: success is owed, not optional
    let s = forest(vec![file("a.txt", 100)]);
    let l = forest(vec![]);
    let r = forest(vec![file("a.txt", 100), file("b.txt", 200)]);
    let diff = Diff::new(&s, &l, &r);
    let plan = ActionSync::plan(&diff);
    let mut repo = Repository::new();
    assert!(repo.apply_actions(&plan).is_ok());
    assert_eq!(repo.snapshot().get_roots().len(), 2);
}

#[test]
fn apply_actions_stops_at_the_first_unfitting_path() {
    // placing under a directory the snapshot does not hold fails, and
    // the actions before the failure stay applied
    let deep_path = vec![
        ClientString::from_client("missing"),
        ClientString::from_client("x.txt"),
    ];
    let plan = vec![
        Action::RemoteAdded(vec![ClientString::from_client("a.txt")], file("a.txt", 1)),
        Action::RemoteAdded(deep_path, file("x.txt", 2)),
        Action::RemoteAdded(vec![ClientString::from_client("b.txt")], file("b.txt", 3)),
    ];
    let mut repo = Repository::new();
    assert!(repo.apply_actions(&plan).is_err());
    let names: Vec<String> = repo
        .snapshot()
        .get_roots()
        .iter()
        .map(|it| it.name().encoded())
        .collect();
    assert_eq!(names, ["a.txt"]);
}

#[test]
fn apply_actions_leaves_conflicts_alone() {
    let plan = vec![Action::ConflictBothUpgraded(
        vec![ClientString::from_client("a.txt")],
        file("a.txt", 3),
        file("a.txt", 1),
        file("a.txt", 2),
    )];
    let mut repo = Repository::new();
    repo.set_snapshot(forest(vec![file("a.txt", 1)]));
    assert!(repo.apply_actions(&plan).is_ok());
    let roots = repo.snapshot().get_roots();
    assert_eq!(roots.len(), 1);
    assert_eq!(roots[0].timestamp(), 1);
}

#[test]
fn downgrade_errors_split_by_subcommand() {
    // remote went back behind the tracked state
    let s = forest(vec![file("a", 5)]);
    let l = forest(vec![file("a", 5)]);
    let r = forest(vec![file("a", 2)]);
    let diff = Diff::new(&s, &l, &r);
    assert_eq!(diff.actions().len(), 1);
    assert!(matches!(&diff.actions()[0], Action::ErrorRemoteDowngraded(..)));
    assert_eq!(ActionPull::plan(&diff).len(), 1);
    assert_eq!(ActionPush::plan(&diff).len(), 0);
    assert_eq!(ActionSync::plan(&diff).len(), 0);
}
