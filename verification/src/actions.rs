//! The per-subcommand action selection.
//!
//! Each subcommand executes only a subset of the emitted action kinds;
//! conflicts are reported and never executed. The selection tables
//! here are the deciding logic; performing the selected actions is the
//! caller's business.

use crate::content::diff::{
    action_model, action_models, classify, diff_forest, diff_keys, level_actions,
    lemma_diff_keys_count, lemma_key_count_member, lemma_key_count_two, rec_actions, recurse_at,
    Action, ActionModel, Diff,
};
use crate::content::item::{
    find_index, find_named, lemma_find_index, lemma_wf_forest_members, lemma_wf_remove,
    lemma_wf_upsert, name_in_forest, remove_named, upsert_child, wf_forest, ItemModel,
};
use vstd::prelude::*;

verus! {

/// True for the kinds every conflict falls under: the kinds that are
/// only ever reported.
pub open spec fn is_conflict(a: ActionModel) -> bool {
    ||| a is ConflictAddLocalNewer
    ||| a is ConflictBothDowngraded
    ||| a is ConflictBothUpgraded
    ||| a is ConflictLocalUpgradedRemoteDowngraded
    ||| a is ConflictAddRemoteNewer
    ||| a is ConflictLocalDowngradedRemoteUpgraded
}

/// The kinds a push run executes.
pub open spec fn push_selected(a: ActionModel) -> bool {
    ||| a is ResyncLocal
    ||| a is LocalUpgraded
    ||| a is LocalAdded
    ||| a is LocalRemoved
    ||| a is RemovedOnBothSides
    ||| a is ErrorLocalDowngraded
}

/// The kinds a pull run executes.
pub open spec fn pull_selected(a: ActionModel) -> bool {
    ||| a is ResyncLocal
    ||| a is RemoteUpgraded
    ||| a is RemoteAdded
    ||| a is RemoteRemoved
    ||| a is RemovedOnBothSides
    ||| a is ErrorRemoteDowngraded
}

/// The kinds a sync run executes: everything except conflicts and the
/// one-sided downgrade errors.
pub open spec fn sync_selected(a: ActionModel) -> bool {
    ||| a is ResyncLocal
    ||| a is LocalUpgraded
    ||| a is RemoteUpgraded
    ||| a is LocalAdded
    ||| a is RemoteAdded
    ||| a is LocalRemoved
    ||| a is RemoteRemoved
    ||| a is RemovedOnBothSides
}

/// The three forests after one completed sync action at a top-level
/// name: adopted entries are placed on the stale sides, removals drop
/// the entry where it was still held, and anything else stands.
pub open spec fn forests_after_action(
    s: Seq<ItemModel>,
    l: Seq<ItemModel>,
    r: Seq<ItemModel>,
    a: ActionModel,
) -> (Seq<ItemModel>, Seq<ItemModel>, Seq<ItemModel>) {
    match a {
        ActionModel::ResyncLocal(_, x) => (s, upsert_child(l, x), r),
        ActionModel::LocalUpgraded(_, x, _) => (s, upsert_child(l, x), upsert_child(r, x)),
        ActionModel::RemoteUpgraded(_, _, y) => (upsert_child(s, y), upsert_child(l, y), r),
        ActionModel::LocalAdded(_, x) => (s, upsert_child(l, x), upsert_child(r, x)),
        ActionModel::RemoteAdded(_, y) => (upsert_child(s, y), upsert_child(l, y), r),
        ActionModel::LocalRemoved(_, x, _) => (
            s,
            remove_named(l, x.name),
            remove_named(r, x.name),
        ),
        ActionModel::RemoteRemoved(_, x) => (
            remove_named(s, x.name),
            remove_named(l, x.name),
            r,
        ),
        ActionModel::RemovedOnBothSides(_, x) => (s, remove_named(l, x.name), r),
        _ => (s, l, r),
    }
}

/// One completed sync action settles its own top-level name and
/// touches no other: afterwards, classifying the name emits nothing,
/// and every other name classifies as before. A resynced directory
/// can still hide divergence below itself, which the next run's
/// descent into it reports.
pub proof fn lemma_sync_action_converges(
    path: Seq<Seq<u8>>,
    s: Seq<ItemModel>,
    l: Seq<ItemModel>,
    r: Seq<ItemModel>,
    k: Seq<u8>,
)
    requires
        wf_forest(s),
        wf_forest(l),
        wf_forest(r),
        classify(path, find_named(s, k), find_named(l, k), find_named(r, k)) matches Some(a)
            && sync_selected(a),
    ensures
        ({
            let a = classify(path, find_named(s, k), find_named(l, k), find_named(r, k))->Some_0;
            let (s2, l2, r2) = forests_after_action(s, l, r, a);
            &&& wf_forest(s2)
            &&& wf_forest(l2)
            &&& wf_forest(r2)
            &&& classify(path, find_named(s2, k), find_named(l2, k), find_named(r2, k)) is None
            &&& forall|k2: Seq<u8>|
                k2 != k ==> find_named(s2, k2) == find_named(s, k2) && find_named(l2, k2)
                    == find_named(l, k2) && find_named(r2, k2) == find_named(r, k2)
        }),
{
    let so = find_named(s, k);
    let lo = find_named(l, k);
    let ro = find_named(r, k);
    lemma_find_index(s, k);
    lemma_find_index(l, k);
    lemma_find_index(r, k);
    lemma_wf_forest_members(s);
    lemma_wf_forest_members(l);
    lemma_wf_forest_members(r);
    let a = classify(path, so, lo, ro)->Some_0;
    match a {
        ActionModel::ResyncLocal(_, x) => {
            lemma_wf_upsert(l, x);
        },
        ActionModel::LocalUpgraded(_, x, _) => {
            lemma_wf_upsert(l, x);
            lemma_wf_upsert(r, x);
        },
        ActionModel::RemoteUpgraded(_, _, y) => {
            lemma_wf_upsert(s, y);
            lemma_wf_upsert(l, y);
        },
        ActionModel::LocalAdded(_, x) => {
            lemma_wf_upsert(l, x);
            lemma_wf_upsert(r, x);
        },
        ActionModel::RemoteAdded(_, y) => {
            lemma_wf_upsert(s, y);
            lemma_wf_upsert(l, y);
        },
        ActionModel::LocalRemoved(_, x, _) => {
            lemma_wf_remove(l, x.name);
            lemma_wf_remove(r, x.name);
        },
        ActionModel::RemoteRemoved(_, x) => {
            lemma_wf_remove(s, x.name);
            lemma_wf_remove(l, x.name);
        },
        ActionModel::RemovedOnBothSides(_, x) => {
            lemma_wf_remove(l, x.name);
        },
        _ => {},
    }
}

/// The classification of one top-level name, below a path.
pub open spec fn classify_at(
    prefix: Seq<Seq<u8>>,
    s: Seq<ItemModel>,
    l: Seq<ItemModel>,
    r: Seq<ItemModel>,
    k: Seq<u8>,
) -> Option<ActionModel> {
    classify(prefix.push(k), find_named(s, k), find_named(l, k), find_named(r, k))
}

/// True when a name no longer calls for work: it classifies to
/// nothing, or to a conflict, which is only ever reported.
pub open spec fn key_settled(
    prefix: Seq<Seq<u8>>,
    s: Seq<ItemModel>,
    l: Seq<ItemModel>,
    r: Seq<ItemModel>,
    k: Seq<u8>,
) -> bool {
    match classify_at(prefix, s, l, r, k) {
        None => true,
        Some(a) => is_conflict(a),
    }
}

/// True when a name classifies to one of the one-sided downgrade
/// errors, which a sync run reports but does not execute.
pub open spec fn key_errs(
    prefix: Seq<Seq<u8>>,
    s: Seq<ItemModel>,
    l: Seq<ItemModel>,
    r: Seq<ItemModel>,
    k: Seq<u8>,
) -> bool {
    match classify_at(prefix, s, l, r, k) {
        None => false,
        Some(a) => a is ErrorLocalDowngraded || a is ErrorRemoteDowngraded,
    }
}

/// True when every member of the forest is a regular file.
pub open spec fn all_files(s: Seq<ItemModel>) -> bool {
    forall|i: int| 0 <= i < s.len() ==> (#[trigger] s[i]).is_regular_file
}

/// True when the key occurs in the list.
pub open spec fn in_keys(k: Seq<u8>, ks: Seq<Seq<u8>>) -> bool {
    exists|j: int| 0 <= j < ks.len() && ks[j] == k
}

/// The three forests after a sync run settles the given names, in
/// order: at each name, the action it classifies to is carried out
/// when the run executes that kind, and nothing happens otherwise.
pub open spec fn settle_keys(
    prefix: Seq<Seq<u8>>,
    s: Seq<ItemModel>,
    l: Seq<ItemModel>,
    r: Seq<ItemModel>,
    ks: Seq<Seq<u8>>,
) -> (Seq<ItemModel>, Seq<ItemModel>, Seq<ItemModel>)
    decreases ks.len(),
{
    if ks.len() == 0 {
        (s, l, r)
    } else {
        let (s1, l1, r1) = settle_keys(prefix, s, l, r, ks.drop_last());
        match classify_at(prefix, s1, l1, r1, ks.last()) {
            Some(a) => if sync_selected(a) {
                forests_after_action(s1, l1, r1, a)
            } else {
                (s1, l1, r1)
            },
            None => (s1, l1, r1),
        }
    }
}

proof fn lemma_all_files_upsert(s: Seq<ItemModel>, x: ItemModel)
    requires
        all_files(s),
        x.is_regular_file,
    ensures
        all_files(upsert_child(s, x)),
{
    lemma_find_index(s, x.name);
    let r = upsert_child(s, x);
    assert forall|i: int| 0 <= i < r.len() implies (#[trigger] r[i]).is_regular_file by {
        if r[i] != x {
            assert(r[i] == s[i]);
        }
    }
}

proof fn lemma_all_files_remove(s: Seq<ItemModel>, n: Seq<u8>)
    requires
        all_files(s),
    ensures
        all_files(remove_named(s, n)),
{
    lemma_find_index(s, n);
    let r = remove_named(s, n);
    assert forall|i: int| 0 <= i < r.len() implies (#[trigger] r[i]).is_regular_file by {
        if find_index(s, n) >= 0 {
            if i < find_index(s, n) {
                assert(r[i] == s[i]);
            } else {
                assert(r[i] == s[i + 1]);
            }
        }
    }
}

proof fn lemma_find_is_file(s: Seq<ItemModel>, k: Seq<u8>)
    requires
        all_files(s),
        find_named(s, k) is Some,
    ensures
        find_named(s, k)->Some_0.is_regular_file,
{
    lemma_find_index(s, k);
}

/// Settling a list of distinct, non-erring names in order keeps the
/// three forests well formed and all-file, settles every listed name,
/// leaves every unlisted name classifying as before, and holds no
/// entry under a name absent from all three original views.
proof fn lemma_settle_keys_run(
    prefix: Seq<Seq<u8>>,
    s: Seq<ItemModel>,
    l: Seq<ItemModel>,
    r: Seq<ItemModel>,
    ks: Seq<Seq<u8>>,
)
    requires
        wf_forest(s),
        wf_forest(l),
        wf_forest(r),
        all_files(s),
        all_files(l),
        all_files(r),
        forall|j1: int, j2: int| 0 <= j1 < j2 < ks.len() ==> ks[j1] != ks[j2],
        forall|j: int| 0 <= j < ks.len() ==> !key_errs(prefix, s, l, r, #[trigger] ks[j]),
    ensures
        ({
            let (s2, l2, r2) = settle_keys(prefix, s, l, r, ks);
            &&& wf_forest(s2) && wf_forest(l2) && wf_forest(r2)
            &&& all_files(s2) && all_files(l2) && all_files(r2)
            &&& forall|j: int| 0 <= j < ks.len() ==> key_settled(prefix, s2, l2, r2, #[trigger] ks[j])
            &&& forall|k: Seq<u8>|
                !in_keys(k, ks) ==> find_named(s2, k) == find_named(s, k) && find_named(l2, k)
                    == find_named(l, k) && find_named(r2, k) == find_named(r, k)
            &&& forall|k: Seq<u8>|
                #![trigger find_named(s2, k)]
                #![trigger find_named(l2, k)]
                #![trigger find_named(r2, k)]
                (find_named(s2, k) is Some || find_named(l2, k) is Some || find_named(r2, k)
                    is Some) ==> (find_named(s, k) is Some || find_named(l, k) is Some
                    || find_named(r, k) is Some)
        }),
    decreases ks.len(),
{
    if ks.len() == 0 {
    } else {
        let sub = ks.drop_last();
        assert forall|j1: int, j2: int| 0 <= j1 < j2 < sub.len() implies sub[j1] != sub[j2] by {
            assert(sub[j1] == ks[j1] && sub[j2] == ks[j2]);
        }
        assert forall|j: int| 0 <= j < sub.len() implies !key_errs(
            prefix,
            s,
            l,
            r,
            #[trigger] sub[j],
        ) by {
            assert(sub[j] == ks[j]);
        }
        lemma_settle_keys_run(prefix, s, l, r, sub);
        let (s1, l1, r1) = settle_keys(prefix, s, l, r, sub);
        let k = ks.last();
        assert(!in_keys(k, sub)) by {
            if in_keys(k, sub) {
                let j = choose|j: int| 0 <= j < sub.len() && sub[j] == k;
                assert(ks[j] == sub[j]);
            }
        }
        assert(find_named(s1, k) == find_named(s, k) && find_named(l1, k) == find_named(l, k)
            && find_named(r1, k) == find_named(r, k));
        assert(classify_at(prefix, s1, l1, r1, k) == classify_at(prefix, s, l, r, k));
        assert(!key_errs(prefix, s, l, r, k)) by {
            assert(ks[ks.len() - 1] == k);
        }
        let (s2, l2, r2) = settle_keys(prefix, s, l, r, ks);
        assert forall|k2: Seq<u8>| !in_keys(k2, ks) implies k2 != k && !in_keys(k2, sub) by {
            assert(ks[ks.len() - 1] == k);
            if in_keys(k2, sub) {
                let j = choose|j: int| 0 <= j < sub.len() && sub[j] == k2;
                assert(ks[j] == sub[j]);
            }
        }
        let stepped = match classify_at(prefix, s1, l1, r1, k) {
            Some(a) => sync_selected(a),
            None => false,
        };
        if stepped {
            let a = classify_at(prefix, s1, l1, r1, k)->Some_0;
            lemma_sync_action_converges(prefix.push(k), s1, l1, r1, k);
            proof_all_files_step(prefix.push(k), s1, l1, r1, k, a);
            assert((s2, l2, r2) == forests_after_action(s1, l1, r1, a));
            assert(key_settled(prefix, s2, l2, r2, k));
            assert forall|j: int| 0 <= j < ks.len() implies key_settled(
                prefix,
                s2,
                l2,
                r2,
                #[trigger] ks[j],
            ) by {
                if j < sub.len() {
                    assert(ks[j] == sub[j]);
                    assert(key_settled(prefix, s1, l1, r1, sub[j]));
                    assert(sub[j] != k);
                    assert(find_named(s2, sub[j]) == find_named(s1, sub[j]));
                    assert(find_named(l2, sub[j]) == find_named(l1, sub[j]));
                    assert(find_named(r2, sub[j]) == find_named(r1, sub[j]));
                } else {
                    assert(ks[j] == k);
                }
            }
            assert forall|k2: Seq<u8>| !in_keys(k2, ks) implies find_named(s2, k2) == find_named(
                s,
                k2,
            ) && find_named(l2, k2) == find_named(l, k2) && find_named(r2, k2) == find_named(
                r,
                k2,
            ) by {
                assert(k2 != k && !in_keys(k2, sub));
                assert(find_named(s2, k2) == find_named(s1, k2));
                assert(find_named(l2, k2) == find_named(l1, k2));
                assert(find_named(r2, k2) == find_named(r1, k2));
            }
            assert forall|k2: Seq<u8>|
                #![trigger find_named(s2, k2)]
                #![trigger find_named(l2, k2)]
                #![trigger find_named(r2, k2)]
                (find_named(s2, k2) is Some || find_named(l2, k2) is Some || find_named(r2, k2)
                    is Some) implies (find_named(s, k2) is Some || find_named(l, k2) is Some
                || find_named(r, k2) is Some) by {
                if k2 != k {
                    assert(find_named(s2, k2) == find_named(s1, k2));
                    assert(find_named(l2, k2) == find_named(l1, k2));
                    assert(find_named(r2, k2) == find_named(r1, k2));
                } else {
                    assert(find_named(s, k) is Some || find_named(l, k) is Some || find_named(
                        r,
                        k,
                    ) is Some);
                }
            }
        } else {
            assert((s2, l2, r2) == (s1, l1, r1));
            assert(key_settled(prefix, s2, l2, r2, k)) by {
                match classify_at(prefix, s1, l1, r1, k) {
                    None => {},
                    Some(a) => {
                        assert(!sync_selected(a) && !(a is ErrorLocalDowngraded
                            || a is ErrorRemoteDowngraded));
                        assert(is_conflict(a));
                    },
                }
            }
            assert forall|j: int| 0 <= j < ks.len() implies key_settled(
                prefix,
                s2,
                l2,
                r2,
                #[trigger] ks[j],
            ) by {
                if j < sub.len() {
                    assert(ks[j] == sub[j]);
                    assert(key_settled(prefix, s1, l1, r1, sub[j]));
                } else {
                    assert(ks[j] == k);
                }
            }
            assert forall|k2: Seq<u8>| !in_keys(k2, ks) implies find_named(s2, k2) == find_named(
                s,
                k2,
            ) && find_named(l2, k2) == find_named(l, k2) && find_named(r2, k2) == find_named(
                r,
                k2,
            ) by {
                assert(!in_keys(k2, sub));
            }
        }
    }
}

/// The forests after one sync action stay all-file: the adopted entry
/// is a member of one of the current views, every one a file.
proof fn proof_all_files_step(
    path: Seq<Seq<u8>>,
    s: Seq<ItemModel>,
    l: Seq<ItemModel>,
    r: Seq<ItemModel>,
    k: Seq<u8>,
    a: ActionModel,
)
    requires
        all_files(s),
        all_files(l),
        all_files(r),
        classify(path, find_named(s, k), find_named(l, k), find_named(r, k)) == Some(a),
        sync_selected(a),
    ensures
        ({
            let (s2, l2, r2) = forests_after_action(s, l, r, a);
            all_files(s2) && all_files(l2) && all_files(r2)
        }),
{
    match a {
        ActionModel::ResyncLocal(_, x) => {
            assert(find_named(s, k) == Some(x));
            lemma_find_is_file(s, k);
            lemma_all_files_upsert(l, x);
        },
        ActionModel::LocalUpgraded(_, x, _) => {
            assert(find_named(s, k) == Some(x));
            lemma_find_is_file(s, k);
            lemma_all_files_upsert(l, x);
            lemma_all_files_upsert(r, x);
        },
        ActionModel::RemoteUpgraded(_, _, y) => {
            assert(find_named(r, k) == Some(y));
            lemma_find_is_file(r, k);
            lemma_all_files_upsert(s, y);
            lemma_all_files_upsert(l, y);
        },
        ActionModel::LocalAdded(_, x) => {
            assert(find_named(s, k) == Some(x));
            lemma_find_is_file(s, k);
            lemma_all_files_upsert(l, x);
            lemma_all_files_upsert(r, x);
        },
        ActionModel::RemoteAdded(_, y) => {
            assert(find_named(r, k) == Some(y));
            lemma_find_is_file(r, k);
            lemma_all_files_upsert(s, y);
            lemma_all_files_upsert(l, y);
        },
        ActionModel::LocalRemoved(_, x, _) => {
            lemma_all_files_remove(l, x.name);
            lemma_all_files_remove(r, x.name);
        },
        ActionModel::RemoteRemoved(_, x) => {
            lemma_all_files_remove(s, x.name);
            lemma_all_files_remove(l, x.name);
        },
        ActionModel::RemovedOnBothSides(_, x) => {
            lemma_all_files_remove(l, x.name);
        },
        _ => {},
    }
}

/// Over forests of regular files nothing is descended into: the
/// subtree half of the diff is empty.
proof fn lemma_rec_flat_empty(
    prefix: Seq<Seq<u8>>,
    ks: Seq<Seq<u8>>,
    s: Seq<ItemModel>,
    l: Seq<ItemModel>,
    r: Seq<ItemModel>,
)
    requires
        wf_forest(s),
        wf_forest(l),
        wf_forest(r),
        all_files(s),
        all_files(l),
        all_files(r),
    ensures
        rec_actions(prefix, ks, s, l, r) == Seq::<ActionModel>::empty(),
    decreases ks.len(),
{
    if ks.len() == 0 {
    } else {
        lemma_rec_flat_empty(prefix, ks.drop_last(), s, l, r);
        let k = ks.last();
        if recurse_at(find_named(s, k), find_named(l, k), find_named(r, k)) {
            lemma_find_index(s, k);
            lemma_find_index(l, k);
            lemma_find_index(r, k);
            lemma_wf_forest_members(s);
            lemma_wf_forest_members(l);
            lemma_wf_forest_members(r);
            assert(find_named(s, k)->Some_0.children =~= Seq::<ItemModel>::empty());
            assert(find_named(l, k)->Some_0.children =~= Seq::<ItemModel>::empty());
            assert(find_named(r, k)->Some_0.children =~= Seq::<ItemModel>::empty());
            crate::content::diff::lemma_diff_clean(prefix.push(k), Seq::<ItemModel>::empty());
        }
        assert(rec_actions(prefix, ks, s, l, r) =~= Seq::<ActionModel>::empty());
    }
}

/// When every listed name is settled, the level emits only conflicts.
proof fn lemma_level_all_conflicts(
    prefix: Seq<Seq<u8>>,
    ks: Seq<Seq<u8>>,
    s: Seq<ItemModel>,
    l: Seq<ItemModel>,
    r: Seq<ItemModel>,
)
    requires
        forall|j: int| 0 <= j < ks.len() ==> key_settled(prefix, s, l, r, #[trigger] ks[j]),
    ensures
        forall|i: int|
            0 <= i < level_actions(prefix, ks, s, l, r).len() ==> is_conflict(
                #[trigger] level_actions(prefix, ks, s, l, r)[i],
            ),
    decreases ks.len(),
{
    if ks.len() == 0 {
    } else {
        assert forall|j: int| 0 <= j < ks.drop_last().len() implies key_settled(
            prefix,
            s,
            l,
            r,
            #[trigger] ks.drop_last()[j],
        ) by {
            assert(ks.drop_last()[j] == ks[j]);
        }
        lemma_level_all_conflicts(prefix, ks.drop_last(), s, l, r);
        let k = ks.last();
        assert(ks[ks.len() - 1] == k);
        assert(key_settled(prefix, s, l, r, k));
        assert forall|i: int| 0 <= i < level_actions(prefix, ks, s, l, r).len() implies is_conflict(
            #[trigger] level_actions(prefix, ks, s, l, r)[i],
        ) by {
            let la = level_actions(prefix, ks.drop_last(), s, l, r);
            if i < la.len() {
                assert(level_actions(prefix, ks, s, l, r)[i] == la[i]);
            }
        }
    }
}

/// A whole sync run over one level of regular files converges: after
/// each name's executed action, taken in emission order, the diff of
/// the three resulting views emits only conflicts. Names classifying
/// to a one-sided downgrade error are ruled out, since a sync run
/// reports them without executing them and they would be re-emitted.
/// A deeper tree settles the same way name by name, but a resynced
/// directory can hide divergence below itself until the next run's
/// descent into it.
pub proof fn lemma_sync_run_converges(
    prefix: Seq<Seq<u8>>,
    s: Seq<ItemModel>,
    l: Seq<ItemModel>,
    r: Seq<ItemModel>,
)
    requires
        wf_forest(s),
        wf_forest(l),
        wf_forest(r),
        all_files(s),
        all_files(l),
        all_files(r),
        forall|k: Seq<u8>| !key_errs(prefix, s, l, r, k),
    ensures
        ({
            let (s2, l2, r2) = settle_keys(prefix, s, l, r, diff_keys(s, l, r));
            forall|i: int|
                0 <= i < diff_forest(prefix, s2, l2, r2).len() ==> is_conflict(
                    #[trigger] diff_forest(prefix, s2, l2, r2)[i],
                )
        }),
{
    let ks = diff_keys(s, l, r);
    assert forall|j1: int, j2: int| 0 <= j1 < j2 < ks.len() implies ks[j1] != ks[j2] by {
        if ks[j1] == ks[j2] {
            lemma_key_count_two(ks, ks[j1], j1, j2);
            lemma_diff_keys_count(s, l, r, ks[j1]);
        }
    }
    lemma_settle_keys_run(prefix, s, l, r, ks);
    let (s2, l2, r2) = settle_keys(prefix, s, l, r, ks);
    let ks2 = diff_keys(s2, l2, r2);
    assert forall|j: int| 0 <= j < ks2.len() implies key_settled(
        prefix,
        s2,
        l2,
        r2,
        #[trigger] ks2[j],
    ) by {
        let k = ks2[j];
        lemma_key_count_member(ks2, k);
        lemma_diff_keys_count(s2, l2, r2, k);
        assert(name_in_forest(k, s2) || name_in_forest(k, l2) || name_in_forest(k, r2));
        lemma_find_index(s2, k);
        lemma_find_index(l2, k);
        lemma_find_index(r2, k);
        assert(find_named(s2, k) is Some || find_named(l2, k) is Some || find_named(r2, k)
            is Some);
        assert(find_named(s, k) is Some || find_named(l, k) is Some || find_named(r, k) is Some);
        lemma_find_index(s, k);
        lemma_find_index(l, k);
        lemma_find_index(r, k);
        assert(name_in_forest(k, s) || name_in_forest(k, l) || name_in_forest(k, r));
        lemma_diff_keys_count(s, l, r, k);
        lemma_key_count_member(ks, k);
        let j2 = choose|j2: int| 0 <= j2 < ks.len() && ks[j2] == k;
        assert(key_settled(prefix, s2, l2, r2, ks[j2]));
    }
    lemma_level_all_conflicts(prefix, ks2, s2, l2, r2);
    lemma_rec_flat_empty(prefix, ks2, s2, l2, r2);
    assert forall|i: int| 0 <= i < diff_forest(prefix, s2, l2, r2).len() implies is_conflict(
        #[trigger] diff_forest(prefix, s2, l2, r2)[i],
    ) by {
        let la = level_actions(prefix, ks2, s2, l2, r2);
        let ra = rec_actions(prefix, ks2, s2, l2, r2);
        assert(diff_forest(prefix, s2, l2, r2) == la + ra);
        assert(ra.len() == 0);
        assert(i < la.len());
        assert(diff_forest(prefix, s2, l2, r2)[i] == la[i]);
    }
}

fn is_conflict_exec(a: &Action) -> (r: bool)
    ensures
        r == is_conflict(action_model(*a)),
{
    match a {
        Action::ConflictAddLocalNewer(..) => true,
        Action::ConflictBothDowngraded(..) => true,
        Action::ConflictBothUpgraded(..) => true,
        Action::ConflictLocalUpgradedRemoteDowngraded(..) => true,
        Action::ConflictAddRemoteNewer(..) => true,
        Action::ConflictLocalDowngradedRemoteUpgraded(..) => true,
        _ => false,
    }
}

fn filter_plan(diff: &Diff, mode: u8) -> (r: Vec<Action>)
    requires
        mode == 0 || mode == 1 || mode == 2,
    ensures
        mode == 0 ==> action_models(r@) == diff@.filter(|a: ActionModel| push_selected(a)),
        mode == 1 ==> action_models(r@) == diff@.filter(|a: ActionModel| pull_selected(a)),
        mode == 2 ==> action_models(r@) == diff@.filter(|a: ActionModel| sync_selected(a)),
{
    broadcast use Seq::filter_distributes_over_add;

    let ghost pred = if mode == 0 {
        |a: ActionModel| push_selected(a)
    } else if mode == 1 {
        |a: ActionModel| pull_selected(a)
    } else {
        |a: ActionModel| sync_selected(a)
    };
    let actions = diff.actions();
    let ghost av = action_models(actions@);
    let mut r: Vec<Action> = Vec::new();
    let mut i: usize = 0;
    proof {
        assert(av.take(0) =~= Seq::<ActionModel>::empty());
        reveal(Seq::filter);
        assert(av.take(0).filter(pred) =~= Seq::<ActionModel>::empty());
        assert(action_models(r@) =~= Seq::<ActionModel>::empty());
    }
    while i < actions.len()
        invariant
            pred == (if mode == 0 {
                |a: ActionModel| push_selected(a)
            } else if mode == 1 {
                |a: ActionModel| pull_selected(a)
            } else {
                |a: ActionModel| sync_selected(a)
            }),
            mode == 0 || mode == 1 || mode == 2,
            av == action_models(actions@),
            av.len() == actions@.len(),
            forall|j: int| 0 <= j < actions@.len() ==> av[j] == action_model(actions@[j]),
            0 <= i <= actions@.len(),
            action_models(r@) == av.take(i as int).filter(pred),
        decreases actions@.len() - i,
    {
        let a = &actions[i];
        let selected = match (mode, a) {
            (0u8, _) => match a {
                Action::ResyncLocal(..) => true,
                Action::LocalUpgraded(..) => true,
                Action::LocalAdded(..) => true,
                Action::LocalRemoved(..) => true,
                Action::RemovedOnBothSides(..) => true,
                Action::ErrorLocalDowngraded(..) => true,
                _ => false,
            },
            (1u8, _) => match a {
                Action::ResyncLocal(..) => true,
                Action::RemoteUpgraded(..) => true,
                Action::RemoteAdded(..) => true,
                Action::RemoteRemoved(..) => true,
                Action::RemovedOnBothSides(..) => true,
                Action::ErrorRemoteDowngraded(..) => true,
                _ => false,
            },
            _ => match a {
                Action::ResyncLocal(..) => true,
                Action::LocalUpgraded(..) => true,
                Action::RemoteUpgraded(..) => true,
                Action::LocalAdded(..) => true,
                Action::RemoteAdded(..) => true,
                Action::LocalRemoved(..) => true,
                Action::RemoteRemoved(..) => true,
                Action::RemovedOnBothSides(..) => true,
                _ => false,
            },
        };
        proof {
            assert(av.take(i + 1 as int).drop_last() =~= av.take(i as int));
            assert(av.take(i + 1 as int).last() == av[i as int]);
            reveal(Seq::filter);
        }
        if selected {
            let ghost r_pre = r@;
            r.push(a.clone_action());
            proof {
                assert(action_models(r@) =~= action_models(r_pre).push(av[i as int]));
            }
        }
        i = i + 1;
    }
    proof {
        assert(av.take(av.len() as int) =~= av);
    }
    r
}

/// The push subcommand's deciding half.
pub struct ActionPush {}

/// The pull subcommand's deciding half.
pub struct ActionPull {}

/// The sync subcommand's deciding half.
pub struct ActionSync {}

/// The status subcommand's deciding half.
pub struct ActionStatus {}

impl ActionPush {
    /// The actions a push run executes, in emission order.
    pub fn plan(diff: &Diff) -> (r: Vec<Action>)
        ensures
            action_models(r@) == diff@.filter(|a: ActionModel| push_selected(a)),
    {
        filter_plan(diff, 0)
    }
}

impl ActionPull {
    /// The actions a pull run executes, in emission order.
    pub fn plan(diff: &Diff) -> (r: Vec<Action>)
        ensures
            action_models(r@) == diff@.filter(|a: ActionModel| pull_selected(a)),
    {
        filter_plan(diff, 1)
    }
}

impl ActionSync {
    /// The actions a sync run executes, in emission order.
    pub fn plan(diff: &Diff) -> (r: Vec<Action>)
        ensures
            action_models(r@) == diff@.filter(|a: ActionModel| sync_selected(a)),
    {
        filter_plan(diff, 2)
    }
}

impl ActionStatus {
    /// The actions a status run reports: every one.
    pub fn plan(diff: &Diff) -> (r: Vec<Action>)
        ensures
            action_models(r@) == diff@,
    {
        let actions = diff.actions();
        let ghost av = action_models(actions@);
        let mut r: Vec<Action> = Vec::new();
        let mut i: usize = 0;
        proof {
            assert(action_models(r@) =~= av.take(0));
        }
        while i < actions.len()
            invariant
                av == action_models(actions@),
                av.len() == actions@.len(),
                forall|j: int| 0 <= j < actions@.len() ==> av[j] == action_model(actions@[j]),
                0 <= i <= actions@.len(),
                action_models(r@) == av.take(i as int),
            decreases actions@.len() - i,
        {
            let ghost r_pre = r@;
            r.push(actions[i].clone_action());
            proof {
                assert(action_models(r@) =~= action_models(r_pre).push(av[i as int]));
                assert(av.take(i + 1 as int) =~= av.take(i as int).push(av[i as int]));
            }
            i = i + 1;
        }
        proof {
            assert(av.take(av.len() as int) =~= av);
        }
        r
    }

    /// True for an action that only reports a conflict.
    pub fn is_conflict_action(a: &Action) -> (r: bool)
        ensures
            r == is_conflict(action_model(*a)),
    {
        is_conflict_exec(a)
    }
}

} // verus!
