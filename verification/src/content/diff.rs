//! The three-way diff engine.
//!
//! Given the scanned tree, the snapshot tree and the resolved remote
//! tree, the engine walks the three level by level, classifies every
//! name present in any of them into an action, and descends only into
//! directories present in all three. Within a level it emits the names
//! present in the scanned tree first, then those only remote, then
//! those only in the snapshot, each group in lexicographic order of
//! encoded names.

use crate::client_string::{lex_le_bytes, ClientString};
use crate::content::item::{
    clone_item, find_index, find_named, forest_model, item_model, lemma_find_index,
    lemma_forest_model, lemma_wf_forest_members, name_in_forest, wf_forest, wf_item, ItemModel,
    LocalItem,
};
use crate::content::filesystem::LocalFilesystem;
use vstd::prelude::*;

verus! {

/// The number of nodes of a forest, its subtrees included.
pub open spec fn forest_size(s: Seq<ItemModel>) -> nat
    decreases s,
{
    if s.len() == 0 {
        0
    } else {
        1 + forest_size(s[0].children) + forest_size(s.drop_first())
    }
}

/// A member's children form a strictly smaller forest.
pub proof fn lemma_member_children_size(s: Seq<ItemModel>, k: Seq<u8>)
    requires
        find_named(s, k) is Some,
    ensures
        forest_size(find_named(s, k)->Some_0.children) < forest_size(s),
    decreases s,
{
    lemma_find_index(s, k);
    if s.len() == 0 {
    } else if s[0].name == k {
    } else {
        lemma_member_children_size(s.drop_first(), k);
        lemma_find_index(s.drop_first(), k);
        assert(find_named(s, k) == find_named(s.drop_first(), k)) by {
            assert(s[find_index(s, k)] == s.drop_first()[find_index(s.drop_first(), k)]);
        }
    }
}

/// The names of a forest's members, in member order.
pub open spec fn names_of(s: Seq<ItemModel>) -> Seq<Seq<u8>> {
    s.map_values(|m: ItemModel| m.name)
}

/// Insert a key into a sorted key list, before the first key it is
/// lexicographically at or below.
pub open spec fn insert_key(k: Seq<u8>, ks: Seq<Seq<u8>>) -> Seq<Seq<u8>>
    decreases ks.len(),
{
    if ks.len() == 0 {
        seq![k]
    } else if lex_le_bytes(k, ks[0]) {
        seq![k] + ks
    } else {
        seq![ks[0]] + insert_key(k, ks.drop_first())
    }
}

/// Sort a key list by insertion, taking keys from the back.
pub open spec fn sort_keys(ks: Seq<Seq<u8>>) -> Seq<Seq<u8>>
    decreases ks.len(),
{
    if ks.len() == 0 {
        Seq::<Seq<u8>>::empty()
    } else {
        insert_key(ks.last(), sort_keys(ks.drop_last()))
    }
}

/// The keys of the list that name no member of the forest.
pub open spec fn keys_not_in(ks: Seq<Seq<u8>>, s: Seq<ItemModel>) -> Seq<Seq<u8>>
    decreases ks.len(),
{
    if ks.len() == 0 {
        Seq::<Seq<u8>>::empty()
    } else if name_in_forest(ks[0], s) {
        keys_not_in(ks.drop_first(), s)
    } else {
        seq![ks[0]] + keys_not_in(ks.drop_first(), s)
    }
}

/// The order a level is classified in: the scanned names, then the
/// names only remote, then the names only in the snapshot, each group
/// sorted by encoded name.
pub open spec fn diff_keys(s: Seq<ItemModel>, l: Seq<ItemModel>, r: Seq<ItemModel>) -> Seq<
    Seq<u8>,
> {
    sort_keys(names_of(s)) + sort_keys(keys_not_in(names_of(r), s)) + sort_keys(
        keys_not_in(keys_not_in(names_of(l), s), r),
    )
}

/// The model of an emitted action: its kind, the path it concerns, and
/// the views the involved items had when the diff ran.
pub enum ActionModel {
    ResyncLocal(Seq<Seq<u8>>, ItemModel),
    ConflictAddLocalNewer(Seq<Seq<u8>>, ItemModel, ItemModel),
    ErrorRemoteDowngraded(Seq<Seq<u8>>, ItemModel, ItemModel),
    LocalUpgraded(Seq<Seq<u8>>, ItemModel, ItemModel),
    ConflictBothDowngraded(Seq<Seq<u8>>, ItemModel, ItemModel, ItemModel),
    ConflictBothUpgraded(Seq<Seq<u8>>, ItemModel, ItemModel, ItemModel),
    ConflictLocalUpgradedRemoteDowngraded(Seq<Seq<u8>>, ItemModel, ItemModel, ItemModel),
    ConflictAddRemoteNewer(Seq<Seq<u8>>, ItemModel, ItemModel),
    RemoteUpgraded(Seq<Seq<u8>>, ItemModel, ItemModel),
    ErrorLocalDowngraded(Seq<Seq<u8>>, ItemModel, ItemModel),
    ConflictLocalDowngradedRemoteUpgraded(Seq<Seq<u8>>, ItemModel, ItemModel, ItemModel),
    RemoteRemoved(Seq<Seq<u8>>, ItemModel),
    LocalAdded(Seq<Seq<u8>>, ItemModel),
    LocalRemoved(Seq<Seq<u8>>, ItemModel, ItemModel),
    RemoteAdded(Seq<Seq<u8>>, ItemModel),
    RemovedOnBothSides(Seq<Seq<u8>>, ItemModel),
}

/// The path an action concerns.
pub open spec fn action_path(a: ActionModel) -> Seq<Seq<u8>> {
    match a {
        ActionModel::ResyncLocal(p, ..) => p,
        ActionModel::ConflictAddLocalNewer(p, ..) => p,
        ActionModel::ErrorRemoteDowngraded(p, ..) => p,
        ActionModel::LocalUpgraded(p, ..) => p,
        ActionModel::ConflictBothDowngraded(p, ..) => p,
        ActionModel::ConflictBothUpgraded(p, ..) => p,
        ActionModel::ConflictLocalUpgradedRemoteDowngraded(p, ..) => p,
        ActionModel::ConflictAddRemoteNewer(p, ..) => p,
        ActionModel::RemoteUpgraded(p, ..) => p,
        ActionModel::ErrorLocalDowngraded(p, ..) => p,
        ActionModel::ConflictLocalDowngradedRemoteUpgraded(p, ..) => p,
        ActionModel::RemoteRemoved(p, ..) => p,
        ActionModel::LocalAdded(p, ..) => p,
        ActionModel::LocalRemoved(p, ..) => p,
        ActionModel::RemoteAdded(p, ..) => p,
        ActionModel::RemovedOnBothSides(p, ..) => p,
    }
}

/// True when the scanned and remote entries count as equal: both are
/// directories, or their timestamps agree.
pub open spec fn entries_equal(s: ItemModel, r: ItemModel) -> bool {
    (!s.is_regular_file && !r.is_regular_file) || s.timestamp == r.timestamp
}

/// The classification of one name, given its presence in the three
/// views. `None` stands for the one case that emits nothing: the entry
/// is present and equal on both sides and already tracked.
pub open spec fn classify(
    path: Seq<Seq<u8>>,
    s: Option<ItemModel>,
    l: Option<ItemModel>,
    r: Option<ItemModel>,
) -> Option<ActionModel> {
    match (s, l, r) {
        (Some(sv), None, None) => Some(ActionModel::LocalAdded(path, sv)),
        (Some(sv), Some(lv), None) => Some(ActionModel::RemoteRemoved(path, sv)),
        (None, Some(lv), None) => Some(ActionModel::RemovedOnBothSides(path, lv)),
        (None, Some(lv), Some(rv)) => Some(ActionModel::LocalRemoved(path, lv, rv)),
        (None, None, Some(rv)) => Some(ActionModel::RemoteAdded(path, rv)),
        (None, None, None) => None,
        (Some(sv), lo, Some(rv)) => if entries_equal(sv, rv) {
            match lo {
                None => Some(ActionModel::ResyncLocal(path, sv)),
                Some(_) => None,
            }
        } else if sv.timestamp > rv.timestamp {
            match lo {
                None => Some(ActionModel::ConflictAddLocalNewer(path, sv, rv)),
                Some(lv) => if lv.timestamp == sv.timestamp {
                    Some(ActionModel::ErrorRemoteDowngraded(path, sv, rv))
                } else if lv.timestamp == rv.timestamp {
                    Some(ActionModel::LocalUpgraded(path, sv, rv))
                } else if lv.timestamp > sv.timestamp {
                    Some(ActionModel::ConflictBothDowngraded(path, sv, lv, rv))
                } else if lv.timestamp < rv.timestamp {
                    Some(ActionModel::ConflictBothUpgraded(path, sv, lv, rv))
                } else {
                    Some(ActionModel::ConflictLocalUpgradedRemoteDowngraded(path, sv, lv, rv))
                },
            }
        } else {
            match lo {
                None => Some(ActionModel::ConflictAddRemoteNewer(path, sv, rv)),
                Some(lv) => if lv.timestamp == sv.timestamp {
                    Some(ActionModel::RemoteUpgraded(path, sv, rv))
                } else if lv.timestamp == rv.timestamp {
                    Some(ActionModel::ErrorLocalDowngraded(path, sv, rv))
                } else if lv.timestamp < sv.timestamp {
                    Some(ActionModel::ConflictBothUpgraded(path, sv, lv, rv))
                } else if lv.timestamp > rv.timestamp {
                    Some(ActionModel::ConflictBothDowngraded(path, sv, lv, rv))
                } else {
                    Some(ActionModel::ConflictLocalDowngradedRemoteUpgraded(path, sv, lv, rv))
                },
            }
        },
    }
}

/// True when the diff descends under a name: the entry is present in
/// all three views and the scanned and remote entries count as equal.
pub open spec fn recurse_at(
    s: Option<ItemModel>,
    l: Option<ItemModel>,
    r: Option<ItemModel>,
) -> bool {
    match (s, l, r) {
        (Some(sv), Some(lv), Some(rv)) => entries_equal(sv, rv),
        _ => false,
    }
}

/// The actions a level emits for the given keys, in key order.
pub open spec fn level_actions(
    prefix: Seq<Seq<u8>>,
    keys: Seq<Seq<u8>>,
    s: Seq<ItemModel>,
    l: Seq<ItemModel>,
    r: Seq<ItemModel>,
) -> Seq<ActionModel>
    decreases keys.len(),
{
    if keys.len() == 0 {
        Seq::<ActionModel>::empty()
    } else {
        level_actions(prefix, keys.drop_last(), s, l, r) + match classify(
            prefix.push(keys.last()),
            find_named(s, keys.last()),
            find_named(l, keys.last()),
            find_named(r, keys.last()),
        ) {
            Some(a) => seq![a],
            None => Seq::<ActionModel>::empty(),
        }
    }
}

/// The actions of the subtrees the diff descends into, in key order,
/// each subtree's actions after one another.
pub open spec fn rec_actions(
    prefix: Seq<Seq<u8>>,
    keys: Seq<Seq<u8>>,
    s: Seq<ItemModel>,
    l: Seq<ItemModel>,
    r: Seq<ItemModel>,
) -> Seq<ActionModel>
    decreases forest_size(s) + forest_size(l) + forest_size(r), 0int, keys.len(),
        via rec_actions_decreases
{
    if keys.len() == 0 {
        Seq::<ActionModel>::empty()
    } else {
        rec_actions(prefix, keys.drop_last(), s, l, r) + {
            let k = keys.last();
            if recurse_at(find_named(s, k), find_named(l, k), find_named(r, k)) {
                diff_forest(
                    prefix.push(k),
                    find_named(s, k)->Some_0.children,
                    find_named(l, k)->Some_0.children,
                    find_named(r, k)->Some_0.children,
                )
            } else {
                Seq::<ActionModel>::empty()
            }
        }
    }
}

#[via_fn]
proof fn rec_actions_decreases(
    prefix: Seq<Seq<u8>>,
    keys: Seq<Seq<u8>>,
    s: Seq<ItemModel>,
    l: Seq<ItemModel>,
    r: Seq<ItemModel>,
) {
    if keys.len() > 0 {
        let k = keys.last();
        if recurse_at(find_named(s, k), find_named(l, k), find_named(r, k)) {
            lemma_member_children_size(s, k);
            lemma_member_children_size(l, k);
            lemma_member_children_size(r, k);
        }
    }
}

/// Every action of the three-way diff of the given forests, below the
/// given path: first the level's own classifications, then the
/// descents.
pub open spec fn diff_forest(
    prefix: Seq<Seq<u8>>,
    s: Seq<ItemModel>,
    l: Seq<ItemModel>,
    r: Seq<ItemModel>,
) -> Seq<ActionModel>
    decreases forest_size(s) + forest_size(l) + forest_size(r), 1int, 0int,
{
    level_actions(prefix, diff_keys(s, l, r), s, l, r) + rec_actions(
        prefix,
        diff_keys(s, l, r),
        s,
        l,
        r,
    )
}

/// The model of a sequence of names.
pub open spec fn names_view(p: Seq<ClientString>) -> Seq<Seq<u8>> {
    p.map_values(|c: ClientString| c@)
}

/// The first member with the given name, if any.
fn forest_get<'a>(items: &'a Vec<LocalItem>, name: &ClientString) -> (r: Option<&'a LocalItem>)
    ensures
        match r {
            Some(item) => find_named(forest_model(items@), name@) == Some(item@),
            None => find_named(forest_model(items@), name@) is None,
        },
{
    let ghost s = forest_model(items@);
    proof {
        lemma_forest_model(items@);
    }
    let mut i: usize = 0;
    while i < items.len()
        invariant
            s == forest_model(items@),
            0 <= i <= items@.len(),
            s.len() == items@.len(),
            forall|j: int| 0 <= j < items@.len() ==> s[j] == item_model(items@[j]),
            forall|j: int| 0 <= j < i ==> s[j].name != name@,
        decreases items@.len() - i,
    {
        if items[i].name.eq_name(name) {
            proof {
                assert(s[i as int].name == name@);
                lemma_find_index(s, name@);
                assert(find_index(s, name@) == i);
            }
            return Some(&items[i]);
        }
        i = i + 1;
    }
    proof {
        lemma_find_index(s, name@);
    }
    None
}

/// Splitting an insertion at the first key at or above the inserted
/// one.
proof fn lemma_insert_key_at(ks: Seq<Seq<u8>>, k: Seq<u8>, p: int)
    requires
        0 <= p <= ks.len(),
        forall|j: int| 0 <= j < p ==> !lex_le_bytes(k, #[trigger] ks[j]),
        p < ks.len() ==> lex_le_bytes(k, ks[p]),
    ensures
        insert_key(k, ks) == ks.take(p) + seq![k] + ks.skip(p),
    decreases p,
{
    if p == 0 {
        if ks.len() == 0 {
            assert(insert_key(k, ks) =~= ks.take(0) + seq![k] + ks.skip(0));
        } else {
            assert(insert_key(k, ks) =~= ks.take(0) + seq![k] + ks.skip(0));
        }
    } else {
        lemma_insert_key_at(ks.drop_first(), k, p - 1);
        assert(ks.drop_first().take(p - 1) =~= ks.take(p).drop_first());
        assert(ks.drop_first().skip(p - 1) =~= ks.skip(p));
        assert(insert_key(k, ks) =~= ks.take(p) + seq![k] + ks.skip(p));
    }
}

/// Insert a name into a sorted name list.
fn sorted_insert(v: &mut Vec<ClientString>, k: ClientString)
    ensures
        names_view(final(v)@) == insert_key(k@, names_view(old(v)@)),
{
    let ghost ks = names_view(old(v)@);
    let mut p: usize = 0;
    while p < v.len() && !k.le_name(&v[p])
        invariant
            v@ == old(v)@,
            ks == names_view(v@),
            ks.len() == v@.len(),
            forall|j: int| 0 <= j < v@.len() ==> ks[j] == v@[j]@,
            0 <= p <= v@.len(),
            forall|j: int| 0 <= j < p ==> !lex_le_bytes(k@, #[trigger] ks[j]),
        decreases v@.len() - p,
    {
        p = p + 1;
    }
    proof {
        lemma_insert_key_at(ks, k@, p as int);
    }
    v.insert(p, k);
    proof {
        assert(names_view(v@) =~= ks.take(p as int) + seq![k@] + ks.skip(p as int));
    }
}

/// The names of the given nodes, in order.
fn names_vec(items: &Vec<LocalItem>) -> (r: Vec<ClientString>)
    ensures
        names_view(r@) == names_of(forest_model(items@)),
{
    let ghost s = forest_model(items@);
    proof {
        lemma_forest_model(items@);
    }
    let mut r: Vec<ClientString> = Vec::new();
    let mut i: usize = 0;
    while i < items.len()
        invariant
            s == forest_model(items@),
            0 <= i <= items@.len(),
            s.len() == items@.len(),
            forall|j: int| 0 <= j < items@.len() ==> s[j] == item_model(items@[j]),
            r@.len() == i,
            forall|j: int| 0 <= j < i ==> r@[j]@ == s[j].name,
        decreases items@.len() - i,
    {
        r.push(items[i].name.clone());
        i = i + 1;
    }
    proof {
        assert(names_view(r@) =~= names_of(s));
    }
    r
}

/// The names of the list that name no member of the forest, in order.
fn filter_names(ks: &Vec<ClientString>, s: &Vec<LocalItem>) -> (r: Vec<ClientString>)
    ensures
        names_view(r@) == keys_not_in(names_view(ks@), forest_model(s@)),
{
    let ghost kv = names_view(ks@);
    let ghost sm = forest_model(s@);
    let mut r: Vec<ClientString> = Vec::new();
    let mut i: usize = 0;
    proof {
        assert(kv.skip(0) =~= kv);
        assert(names_view(r@) =~= Seq::<Seq<u8>>::empty());
    }
    while i < ks.len()
        invariant
            kv == names_view(ks@),
            sm == forest_model(s@),
            kv.len() == ks@.len(),
            forall|j: int| 0 <= j < ks@.len() ==> kv[j] == ks@[j]@,
            0 <= i <= ks@.len(),
            keys_not_in(kv, sm) == names_view(r@) + keys_not_in(kv.skip(i as int), sm),
        decreases ks@.len() - i,
    {
        let ghost rest = kv.skip(i as int);
        proof {
            assert(rest[0] == kv[i as int]);
            assert(rest.drop_first() =~= kv.skip(i + 1 as int));
        }
        if !crate::content::item::forest_has_name(s, &ks[i]) {
            let ghost r_pre = r@;
            r.push(ks[i].clone());
            proof {
                assert(names_view(r@) =~= names_view(r_pre).push(kv[i as int]));
                assert(names_view(r_pre) + (seq![rest[0]] + keys_not_in(rest.drop_first(), sm))
                    =~= names_view(r@) + keys_not_in(rest.drop_first(), sm));
            }
        }
        i = i + 1;
    }
    proof {
        assert(kv.skip(kv.len() as int) =~= Seq::<Seq<u8>>::empty());
        assert(keys_not_in(Seq::<Seq<u8>>::empty(), sm) =~= Seq::<Seq<u8>>::empty());
        assert(names_view(r@) + Seq::<Seq<u8>>::empty() =~= names_view(r@));
    }
    r
}

/// Sort a name list by encoded name.
fn sort_names(ks: Vec<ClientString>) -> (r: Vec<ClientString>)
    ensures
        names_view(r@) == sort_keys(names_view(ks@)),
{
    let ghost kv = names_view(ks@);
    let mut r: Vec<ClientString> = Vec::new();
    let mut i: usize = 0;
    proof {
        assert(kv.take(0) =~= Seq::<Seq<u8>>::empty());
        assert(sort_keys(kv.take(0)) =~= Seq::<Seq<u8>>::empty());
        assert(names_view(r@) =~= Seq::<Seq<u8>>::empty());
    }
    while i < ks.len()
        invariant
            kv == names_view(ks@),
            kv.len() == ks@.len(),
            forall|j: int| 0 <= j < ks@.len() ==> kv[j] == ks@[j]@,
            0 <= i <= ks@.len(),
            names_view(r@) == sort_keys(kv.take(i as int)),
        decreases ks@.len() - i,
    {
        sorted_insert(&mut r, ks[i].clone());
        proof {
            assert(kv.take(i + 1 as int).drop_last() =~= kv.take(i as int));
            assert(kv.take(i + 1 as int).last() == kv[i as int]);
        }
        i = i + 1;
    }
    proof {
        assert(kv.take(kv.len() as int) =~= kv);
    }
    r
}

/// The keys of a level, in emission order.
fn build_keys(s: &Vec<LocalItem>, l: &Vec<LocalItem>, r: &Vec<LocalItem>) -> (keys: Vec<
    ClientString,
>)
    ensures
        names_view(keys@) == diff_keys(forest_model(s@), forest_model(l@), forest_model(r@)),
{
    let s_names = names_vec(s);
    let mut keys = sort_names(s_names);
    let r_names = names_vec(r);
    let mut g2 = sort_names(filter_names(&r_names, s));
    let l_names = names_vec(l);
    let mut g3 = sort_names(filter_names(&filter_names(&l_names, s), r));
    let ghost k1 = names_view(keys@);
    let ghost k2 = names_view(g2@);
    let ghost k3 = names_view(g3@);
    keys.append(&mut g2);
    keys.append(&mut g3);
    proof {
        assert(names_view(keys@) =~= k1 + k2 + k3);
    }
    keys
}

/// One emitted divergence: the kind, the path it concerns, and copies
/// of the involved items, scanned before snapshot before remote.
pub enum Action {
    /// The entry agrees on both sides but the snapshot misses it.
    ResyncLocal(Vec<ClientString>, LocalItem),
    /// Added on both sides, untracked, and the scanned entry is newer.
    ConflictAddLocalNewer(Vec<ClientString>, LocalItem, LocalItem),
    /// The remote entry went back behind the tracked state.
    ErrorRemoteDowngraded(Vec<ClientString>, LocalItem, LocalItem),
    /// The scanned entry moved ahead of the tracked state.
    LocalUpgraded(Vec<ClientString>, LocalItem, LocalItem),
    /// Both sides went back behind the tracked state.
    ConflictBothDowngraded(Vec<ClientString>, LocalItem, LocalItem, LocalItem),
    /// Both sides moved ahead of the tracked state.
    ConflictBothUpgraded(Vec<ClientString>, LocalItem, LocalItem, LocalItem),
    /// The scanned entry moved ahead while the remote went back.
    ConflictLocalUpgradedRemoteDowngraded(Vec<ClientString>, LocalItem, LocalItem, LocalItem),
    /// Added on both sides, untracked, and the remote entry is newer.
    ConflictAddRemoteNewer(Vec<ClientString>, LocalItem, LocalItem),
    /// The remote entry moved ahead of the tracked state.
    RemoteUpgraded(Vec<ClientString>, LocalItem, LocalItem),
    /// The scanned entry went back behind the tracked state.
    ErrorLocalDowngraded(Vec<ClientString>, LocalItem, LocalItem),
    /// The scanned entry went back while the remote moved ahead.
    ConflictLocalDowngradedRemoteUpgraded(Vec<ClientString>, LocalItem, LocalItem, LocalItem),
    /// Tracked and still on disk, but gone on the remote.
    RemoteRemoved(Vec<ClientString>, LocalItem),
    /// On disk only: a fresh local addition.
    LocalAdded(Vec<ClientString>, LocalItem),
    /// Tracked and still remote, but gone from disk.
    LocalRemoved(Vec<ClientString>, LocalItem, LocalItem),
    /// On the remote only: a fresh remote addition.
    RemoteAdded(Vec<ClientString>, LocalItem),
    /// Tracked, but gone from both sides.
    RemovedOnBothSides(Vec<ClientString>, LocalItem),
}

/// The model of an emitted action.
pub open spec fn action_model(a: Action) -> ActionModel {
    match a {
        Action::ResyncLocal(p, x) => ActionModel::ResyncLocal(names_view(p@), x@),
        Action::ConflictAddLocalNewer(p, x, y) => ActionModel::ConflictAddLocalNewer(
            names_view(p@),
            x@,
            y@,
        ),
        Action::ErrorRemoteDowngraded(p, x, y) => ActionModel::ErrorRemoteDowngraded(
            names_view(p@),
            x@,
            y@,
        ),
        Action::LocalUpgraded(p, x, y) => ActionModel::LocalUpgraded(names_view(p@), x@, y@),
        Action::ConflictBothDowngraded(p, x, y, z) => ActionModel::ConflictBothDowngraded(
            names_view(p@),
            x@,
            y@,
            z@,
        ),
        Action::ConflictBothUpgraded(p, x, y, z) => ActionModel::ConflictBothUpgraded(
            names_view(p@),
            x@,
            y@,
            z@,
        ),
        Action::ConflictLocalUpgradedRemoteDowngraded(
            p,
            x,
            y,
            z,
        ) => ActionModel::ConflictLocalUpgradedRemoteDowngraded(names_view(p@), x@, y@, z@),
        Action::ConflictAddRemoteNewer(p, x, y) => ActionModel::ConflictAddRemoteNewer(
            names_view(p@),
            x@,
            y@,
        ),
        Action::RemoteUpgraded(p, x, y) => ActionModel::RemoteUpgraded(names_view(p@), x@, y@),
        Action::ErrorLocalDowngraded(p, x, y) => ActionModel::ErrorLocalDowngraded(
            names_view(p@),
            x@,
            y@,
        ),
        Action::ConflictLocalDowngradedRemoteUpgraded(
            p,
            x,
            y,
            z,
        ) => ActionModel::ConflictLocalDowngradedRemoteUpgraded(names_view(p@), x@, y@, z@),
        Action::RemoteRemoved(p, x) => ActionModel::RemoteRemoved(names_view(p@), x@),
        Action::LocalAdded(p, x) => ActionModel::LocalAdded(names_view(p@), x@),
        Action::LocalRemoved(p, x, y) => ActionModel::LocalRemoved(names_view(p@), x@, y@),
        Action::RemoteAdded(p, x) => ActionModel::RemoteAdded(names_view(p@), x@),
        Action::RemovedOnBothSides(p, x) => ActionModel::RemovedOnBothSides(names_view(p@), x@),
    }
}

/// The models of a sequence of actions.
pub open spec fn action_models(v: Seq<Action>) -> Seq<ActionModel> {
    v.map_values(|a: Action| action_model(a))
}

/// The model of an optional borrowed item.
pub open spec fn opt_model(o: Option<&LocalItem>) -> Option<ItemModel> {
    match o {
        None => None,
        Some(x) => Some(x@),
    }
}

/// A copy of a name list, carrying the same model.
fn clone_names(p: &Vec<ClientString>) -> (r: Vec<ClientString>)
    ensures
        names_view(r@) == names_view(p@),
{
    let mut r: Vec<ClientString> = Vec::new();
    let mut i: usize = 0;
    while i < p.len()
        invariant
            0 <= i <= p@.len(),
            r@.len() == i,
            forall|j: int| 0 <= j < i ==> r@[j]@ == p@[j]@,
        decreases p@.len() - i,
    {
        r.push(p[i].clone());
        i = i + 1;
    }
    proof {
        assert(names_view(r@) =~= names_view(p@));
    }
    r
}

impl Action {
    /// A copy carrying the same model.
    pub fn clone_action(&self) -> (r: Action)
        ensures
            action_model(r) == action_model(*self),
    {
        match self {
            Action::ResyncLocal(p, x) => Action::ResyncLocal(clone_names(p), clone_item(x)),
            Action::ConflictAddLocalNewer(p, x, y) => Action::ConflictAddLocalNewer(
                clone_names(p),
                clone_item(x),
                clone_item(y),
            ),
            Action::ErrorRemoteDowngraded(p, x, y) => Action::ErrorRemoteDowngraded(
                clone_names(p),
                clone_item(x),
                clone_item(y),
            ),
            Action::LocalUpgraded(p, x, y) => Action::LocalUpgraded(
                clone_names(p),
                clone_item(x),
                clone_item(y),
            ),
            Action::ConflictBothDowngraded(p, x, y, z) => Action::ConflictBothDowngraded(
                clone_names(p),
                clone_item(x),
                clone_item(y),
                clone_item(z),
            ),
            Action::ConflictBothUpgraded(p, x, y, z) => Action::ConflictBothUpgraded(
                clone_names(p),
                clone_item(x),
                clone_item(y),
                clone_item(z),
            ),
            Action::ConflictLocalUpgradedRemoteDowngraded(
                p,
                x,
                y,
                z,
            ) => Action::ConflictLocalUpgradedRemoteDowngraded(
                clone_names(p),
                clone_item(x),
                clone_item(y),
                clone_item(z),
            ),
            Action::ConflictAddRemoteNewer(p, x, y) => Action::ConflictAddRemoteNewer(
                clone_names(p),
                clone_item(x),
                clone_item(y),
            ),
            Action::RemoteUpgraded(p, x, y) => Action::RemoteUpgraded(
                clone_names(p),
                clone_item(x),
                clone_item(y),
            ),
            Action::ErrorLocalDowngraded(p, x, y) => Action::ErrorLocalDowngraded(
                clone_names(p),
                clone_item(x),
                clone_item(y),
            ),
            Action::ConflictLocalDowngradedRemoteUpgraded(
                p,
                x,
                y,
                z,
            ) => Action::ConflictLocalDowngradedRemoteUpgraded(
                clone_names(p),
                clone_item(x),
                clone_item(y),
                clone_item(z),
            ),
            Action::RemoteRemoved(p, x) => Action::RemoteRemoved(clone_names(p), clone_item(x)),
            Action::LocalAdded(p, x) => Action::LocalAdded(clone_names(p), clone_item(x)),
            Action::LocalRemoved(p, x, y) => Action::LocalRemoved(
                clone_names(p),
                clone_item(x),
                clone_item(y),
            ),
            Action::RemoteAdded(p, x) => Action::RemoteAdded(clone_names(p), clone_item(x)),
            Action::RemovedOnBothSides(p, x) => Action::RemovedOnBothSides(
                clone_names(p),
                clone_item(x),
            ),
        }
    }
}

/// The path extended by one name.
fn path_push(prefix: &Vec<ClientString>, key: &ClientString) -> (r: Vec<ClientString>)
    ensures
        names_view(r@) == names_view(prefix@).push(key@),
{
    let mut r: Vec<ClientString> = Vec::new();
    let mut i: usize = 0;
    while i < prefix.len()
        invariant
            0 <= i <= prefix@.len(),
            r@.len() == i,
            forall|j: int| 0 <= j < i ==> r@[j]@ == prefix@[j]@,
        decreases prefix@.len() - i,
    {
        r.push(prefix[i].clone());
        i = i + 1;
    }
    r.push(key.clone());
    proof {
        assert(names_view(r@) =~= names_view(prefix@).push(key@));
    }
    r
}

/// The classification of one name, as an executable step.
fn classify_one(
    prefix: &Vec<ClientString>,
    key: &ClientString,
    so: Option<&LocalItem>,
    lo: Option<&LocalItem>,
    ro: Option<&LocalItem>,
) -> (r: Option<Action>)
    ensures
        match r {
            Some(a) => classify(
                names_view(prefix@).push(key@),
                opt_model(so),
                opt_model(lo),
                opt_model(ro),
            ) == Some(action_model(a)),
            None => classify(
                names_view(prefix@).push(key@),
                opt_model(so),
                opt_model(lo),
                opt_model(ro),
            ) is None,
        },
{
    match (so, lo, ro) {
        (None, None, None) => None,
        (Some(sv), None, None) => Some(
            Action::LocalAdded(path_push(prefix, key), clone_item(sv)),
        ),
        (Some(sv), Some(_), None) => Some(
            Action::RemoteRemoved(path_push(prefix, key), clone_item(sv)),
        ),
        (None, Some(lv), None) => Some(
            Action::RemovedOnBothSides(path_push(prefix, key), clone_item(lv)),
        ),
        (None, Some(lv), Some(rv)) => Some(
            Action::LocalRemoved(path_push(prefix, key), clone_item(lv), clone_item(rv)),
        ),
        (None, None, Some(rv)) => Some(
            Action::RemoteAdded(path_push(prefix, key), clone_item(rv)),
        ),
        (Some(sv), lo2, Some(rv)) => {
            let equal_here = (!sv.is_regular_file && !rv.is_regular_file) || sv.timestamp
                == rv.timestamp;
            if equal_here {
                match lo2 {
                    None => Some(
                        Action::ResyncLocal(path_push(prefix, key), clone_item(sv)),
                    ),
                    Some(_) => None,
                }
            } else if sv.timestamp > rv.timestamp {
                match lo2 {
                    None => Some(
                        Action::ConflictAddLocalNewer(
                            path_push(prefix, key),
                            clone_item(sv),
                            clone_item(rv),
                        ),
                    ),
                    Some(lv) => {
                        if lv.timestamp == sv.timestamp {
                            Some(
                                Action::ErrorRemoteDowngraded(
                                    path_push(prefix, key),
                                    clone_item(sv),
                                    clone_item(rv),
                                ),
                            )
                        } else if lv.timestamp == rv.timestamp {
                            Some(
                                Action::LocalUpgraded(
                                    path_push(prefix, key),
                                    clone_item(sv),
                                    clone_item(rv),
                                ),
                            )
                        } else if lv.timestamp > sv.timestamp {
                            Some(
                                Action::ConflictBothDowngraded(
                                    path_push(prefix, key),
                                    clone_item(sv),
                                    clone_item(lv),
                                    clone_item(rv),
                                ),
                            )
                        } else if lv.timestamp < rv.timestamp {
                            Some(
                                Action::ConflictBothUpgraded(
                                    path_push(prefix, key),
                                    clone_item(sv),
                                    clone_item(lv),
                                    clone_item(rv),
                                ),
                            )
                        } else {
                            Some(
                                Action::ConflictLocalUpgradedRemoteDowngraded(
                                    path_push(prefix, key),
                                    clone_item(sv),
                                    clone_item(lv),
                                    clone_item(rv),
                                ),
                            )
                        }
                    },
                }
            } else {
                match lo2 {
                    None => Some(
                        Action::ConflictAddRemoteNewer(
                            path_push(prefix, key),
                            clone_item(sv),
                            clone_item(rv),
                        ),
                    ),
                    Some(lv) => {
                        if lv.timestamp == sv.timestamp {
                            Some(
                                Action::RemoteUpgraded(
                                    path_push(prefix, key),
                                    clone_item(sv),
                                    clone_item(rv),
                                ),
                            )
                        } else if lv.timestamp == rv.timestamp {
                            Some(
                                Action::ErrorLocalDowngraded(
                                    path_push(prefix, key),
                                    clone_item(sv),
                                    clone_item(rv),
                                ),
                            )
                        } else if lv.timestamp < sv.timestamp {
                            Some(
                                Action::ConflictBothUpgraded(
                                    path_push(prefix, key),
                                    clone_item(sv),
                                    clone_item(lv),
                                    clone_item(rv),
                                ),
                            )
                        } else if lv.timestamp > rv.timestamp {
                            Some(
                                Action::ConflictBothDowngraded(
                                    path_push(prefix, key),
                                    clone_item(sv),
                                    clone_item(lv),
                                    clone_item(rv),
                                ),
                            )
                        } else {
                            Some(
                                Action::ConflictLocalDowngradedRemoteUpgraded(
                                    path_push(prefix, key),
                                    clone_item(sv),
                                    clone_item(lv),
                                    clone_item(rv),
                                ),
                            )
                        }
                    },
                }
            }
        },
    }
}

/// Walk one level of the three views and every level below it,
/// appending the emitted actions.
fn compare_forests(
    prefix: &Vec<ClientString>,
    s: &Vec<LocalItem>,
    l: &Vec<LocalItem>,
    r: &Vec<LocalItem>,
    out: &mut Vec<Action>,
)
    ensures
        action_models(final(out)@) == action_models(old(out)@) + diff_forest(
            names_view(prefix@),
            forest_model(s@),
            forest_model(l@),
            forest_model(r@),
        ),
    decreases forest_size(forest_model(s@)) + forest_size(forest_model(l@)) + forest_size(
        forest_model(r@),
    ),
{
    let ghost pv = names_view(prefix@);
    let ghost sm = forest_model(s@);
    let ghost lm = forest_model(l@);
    let ghost rm = forest_model(r@);
    let ghost base = action_models(old(out)@);
    let keys = build_keys(s, l, r);
    let ghost kv = names_view(keys@);
    let mut i: usize = 0;
    proof {
        assert(kv.take(0) =~= Seq::<Seq<u8>>::empty());
        assert(level_actions(pv, kv.take(0), sm, lm, rm) =~= Seq::<ActionModel>::empty());
        assert(base + Seq::<ActionModel>::empty() =~= base);
    }
    while i < keys.len()
        invariant
            pv == names_view(prefix@),
            sm == forest_model(s@),
            lm == forest_model(l@),
            rm == forest_model(r@),
            kv == names_view(keys@),
            kv.len() == keys@.len(),
            forall|j: int| 0 <= j < keys@.len() ==> kv[j] == keys@[j]@,
            0 <= i <= keys@.len(),
            action_models(out@) == base + level_actions(pv, kv.take(i as int), sm, lm, rm),
        decreases keys@.len() - i,
    {
        let so = forest_get(s, &keys[i]);
        let lo = forest_get(l, &keys[i]);
        let ro = forest_get(r, &keys[i]);
        let ghost la_pre = level_actions(pv, kv.take(i as int), sm, lm, rm);
        proof {
            assert(kv.take(i + 1 as int).drop_last() =~= kv.take(i as int));
            assert(kv.take(i + 1 as int).last() == kv[i as int]);
        }
        match classify_one(prefix, &keys[i], so, lo, ro) {
            Some(a) => {
                let ghost out_pre = out@;
                out.push(a);
                proof {
                    assert(action_models(out@) =~= action_models(out_pre).push(
                        action_model(out@.last()),
                    ));
                    assert(level_actions(pv, kv.take(i + 1 as int), sm, lm, rm) =~= la_pre
                        + seq![action_model(out@.last())]);
                    assert(action_models(out@) =~= base + level_actions(
                        pv,
                        kv.take(i + 1 as int),
                        sm,
                        lm,
                        rm,
                    ));
                }
            },
            None => {
                proof {
                    assert(level_actions(pv, kv.take(i + 1 as int), sm, lm, rm) =~= la_pre
                        + Seq::<ActionModel>::empty());
                    assert(level_actions(pv, kv.take(i + 1 as int), sm, lm, rm) =~= la_pre);
                }
            },
        }
        i = i + 1;
    }
    proof {
        assert(kv.take(kv.len() as int) =~= kv);
    }
    let ghost base2 = base + level_actions(pv, kv, sm, lm, rm);
    let mut i2: usize = 0;
    proof {
        assert(kv.take(0) =~= Seq::<Seq<u8>>::empty());
        assert(rec_actions(pv, kv.take(0), sm, lm, rm) =~= Seq::<ActionModel>::empty());
        assert(base2 + Seq::<ActionModel>::empty() =~= base2);
    }
    while i2 < keys.len()
        invariant
            pv == names_view(prefix@),
            sm == forest_model(s@),
            lm == forest_model(l@),
            rm == forest_model(r@),
            kv == names_view(keys@),
            kv.len() == keys@.len(),
            forall|j: int| 0 <= j < keys@.len() ==> kv[j] == keys@[j]@,
            0 <= i2 <= keys@.len(),
            action_models(out@) == base2 + rec_actions(pv, kv.take(i2 as int), sm, lm, rm),
        decreases keys@.len() - i2,
    {
        let so = forest_get(s, &keys[i2]);
        let lo = forest_get(l, &keys[i2]);
        let ro = forest_get(r, &keys[i2]);
        let ghost ra_pre = rec_actions(pv, kv.take(i2 as int), sm, lm, rm);
        proof {
            assert(kv.take(i2 + 1 as int).drop_last() =~= kv.take(i2 as int));
            assert(kv.take(i2 + 1 as int).last() == kv[i2 as int]);
        }
        match (so, lo, ro) {
            (Some(si), Some(li), Some(ri)) => {
                let equal_here = (!si.is_regular_file && !ri.is_regular_file) || si.timestamp
                    == ri.timestamp;
                if equal_here {
                    let child_prefix = path_push(prefix, &keys[i2]);
                    proof {
                        lemma_member_children_size(sm, kv[i2 as int]);
                        lemma_member_children_size(lm, kv[i2 as int]);
                        lemma_member_children_size(rm, kv[i2 as int]);
                    }
                    let ghost out_pre = out@;
                    compare_forests(&child_prefix, &si.children, &li.children, &ri.children, out);
                    proof {
                        assert(rec_actions(pv, kv.take(i2 + 1 as int), sm, lm, rm) =~= ra_pre
                            + diff_forest(
                            pv.push(kv[i2 as int]),
                            si@.children,
                            li@.children,
                            ri@.children,
                        ));
                        assert(action_models(out@) =~= base2 + rec_actions(
                            pv,
                            kv.take(i2 + 1 as int),
                            sm,
                            lm,
                            rm,
                        ));
                    }
                } else {
                    proof {
                        assert(rec_actions(pv, kv.take(i2 + 1 as int), sm, lm, rm) =~= ra_pre
                            + Seq::<ActionModel>::empty());
                        assert(rec_actions(pv, kv.take(i2 + 1 as int), sm, lm, rm) =~= ra_pre);
                    }
                }
            },
            _ => {
                proof {
                    assert(!recurse_at(
                        find_named(sm, kv[i2 as int]),
                        find_named(lm, kv[i2 as int]),
                        find_named(rm, kv[i2 as int]),
                    ));
                    assert(rec_actions(pv, kv.take(i2 + 1 as int), sm, lm, rm) =~= ra_pre
                        + Seq::<ActionModel>::empty());
                    assert(rec_actions(pv, kv.take(i2 + 1 as int), sm, lm, rm) =~= ra_pre);
                }
            },
        }
        i2 = i2 + 1;
    }
    proof {
        assert(kv.take(kv.len() as int) =~= kv);
        assert(action_models(out@) =~= base + (level_actions(pv, kv, sm, lm, rm) + rec_actions(
            pv,
            kv,
            sm,
            lm,
            rm,
        )));
    }
}

/// In a well-formed forest, a looked-up member is well formed.
proof fn lemma_find_named_wf(s: Seq<ItemModel>, k: Seq<u8>)
    requires
        wf_forest(s),
        find_named(s, k) is Some,
    ensures
        wf_item(find_named(s, k)->Some_0),
{
    lemma_find_index(s, k);
    lemma_wf_forest_members(s);
}

/// Keys that all name members filter down to nothing.
proof fn lemma_keys_not_in_all_present(ks: Seq<Seq<u8>>, s: Seq<ItemModel>)
    requires
        forall|j: int| 0 <= j < ks.len() ==> name_in_forest(#[trigger] ks[j], s),
    ensures
        keys_not_in(ks, s) == Seq::<Seq<u8>>::empty(),
    decreases ks.len(),
{
    if ks.len() == 0 {
    } else {
        assert(name_in_forest(ks[0], s));
        assert forall|j: int| 0 <= j < ks.drop_first().len() implies name_in_forest(
            #[trigger] ks.drop_first()[j],
            s,
        ) by {
            assert(ks.drop_first()[j] == ks[j + 1]);
        }
        lemma_keys_not_in_all_present(ks.drop_first(), s);
    }
}

/// A level of three equal views emits nothing.
proof fn lemma_level_clean(prefix: Seq<Seq<u8>>, ks: Seq<Seq<u8>>, t: Seq<ItemModel>)
    ensures
        level_actions(prefix, ks, t, t, t) == Seq::<ActionModel>::empty(),
    decreases ks.len(),
{
    if ks.len() == 0 {
    } else {
        lemma_level_clean(prefix, ks.drop_last(), t);
        let k = ks.last();
        match find_named(t, k) {
            None => {},
            Some(m) => {
                assert(entries_equal(m, m));
            },
        }
        assert(level_actions(prefix, ks, t, t, t) =~= Seq::<ActionModel>::empty());
    }
}

proof fn lemma_rec_clean(prefix: Seq<Seq<u8>>, ks: Seq<Seq<u8>>, t: Seq<ItemModel>)
    requires
        wf_forest(t),
    ensures
        rec_actions(prefix, ks, t, t, t) == Seq::<ActionModel>::empty(),
    decreases forest_size(t) + forest_size(t) + forest_size(t), 0int, ks.len(),
{
    if ks.len() == 0 {
    } else {
        lemma_rec_clean(prefix, ks.drop_last(), t);
        let k = ks.last();
        if recurse_at(find_named(t, k), find_named(t, k), find_named(t, k)) {
            let m = find_named(t, k)->Some_0;
            lemma_find_named_wf(t, k);
            lemma_member_children_size(t, k);
            lemma_diff_clean(prefix.push(k), m.children);
        }
        assert(rec_actions(prefix, ks, t, t, t) =~= Seq::<ActionModel>::empty());
    }
}

/// A clean state diffs to nothing: comparing a well-formed tree with
/// itself on all three sides emits no action at any depth.
pub proof fn lemma_diff_clean(prefix: Seq<Seq<u8>>, t: Seq<ItemModel>)
    requires
        wf_forest(t),
    ensures
        diff_forest(prefix, t, t, t) == Seq::<ActionModel>::empty(),
    decreases forest_size(t) + forest_size(t) + forest_size(t), 1int, 0int,
{
    lemma_wf_forest_members(t);
    assert forall|j: int| 0 <= j < names_of(t).len() implies name_in_forest(
        #[trigger] names_of(t)[j],
        t,
    ) by {
        assert(names_of(t)[j] == t[j].name);
    }
    lemma_keys_not_in_all_present(names_of(t), t);
    let ks = diff_keys(t, t, t);
    assert(sort_keys(Seq::<Seq<u8>>::empty()) =~= Seq::<Seq<u8>>::empty());
    assert(keys_not_in(Seq::<Seq<u8>>::empty(), t) =~= Seq::<Seq<u8>>::empty());
    lemma_level_clean(prefix, ks, t);
    lemma_rec_clean(prefix, ks, t);
    assert(diff_forest(prefix, t, t, t) =~= Seq::<ActionModel>::empty());
}

/// Sorting keeps length and membership.
proof fn lemma_insert_key_len(k: Seq<u8>, ks: Seq<Seq<u8>>)
    ensures
        insert_key(k, ks).len() == ks.len() + 1,
        forall|j: int|
            0 <= j < insert_key(k, ks).len() ==> (#[trigger] insert_key(k, ks)[j] == k
                || ks.contains(insert_key(k, ks)[j])),
        forall|k2: Seq<u8>| ks.contains(k2) ==> insert_key(k, ks).contains(k2),
        insert_key(k, ks).contains(k),
    decreases ks.len(),
{
    if ks.len() == 0 {
        assert(insert_key(k, ks) =~= seq![k]);
        assert(insert_key(k, ks)[0] == k);
    } else if lex_le_bytes(k, ks[0]) {
        let r = insert_key(k, ks);
        assert(r =~= seq![k] + ks);
        assert forall|k2: Seq<u8>| ks.contains(k2) implies r.contains(k2) by {
            let j = choose|j: int| 0 <= j < ks.len() && ks[j] == k2;
            assert(r[j + 1] == k2);
        }
        assert forall|j: int| 0 <= j < r.len() implies (#[trigger] r[j] == k || ks.contains(
            r[j],
        )) by {
            if j > 0 {
                assert(r[j] == ks[j - 1]);
                assert(ks.contains(ks[j - 1]));
            }
        }
        assert(r[0] == k);
    } else {
        lemma_insert_key_len(k, ks.drop_first());
        let r = insert_key(k, ks);
        assert(r =~= seq![ks[0]] + insert_key(k, ks.drop_first()));
        assert forall|j: int| 0 <= j < r.len() implies (#[trigger] r[j] == k || ks.contains(
            r[j],
        )) by {
            if j > 0 {
                let inner = insert_key(k, ks.drop_first());
                assert(r[j] == inner[j - 1]);
                if inner[j - 1] != k {
                    let j2 = choose|j2: int|
                        0 <= j2 < ks.drop_first().len() && ks.drop_first()[j2] == inner[j - 1];
                    assert(ks[j2 + 1] == inner[j - 1]);
                }
            }
        }
        assert forall|k2: Seq<u8>| ks.contains(k2) implies r.contains(k2) by {
            let j = choose|j: int| 0 <= j < ks.len() && ks[j] == k2;
            if j == 0 {
                assert(r[0] == k2);
            } else {
                assert(ks.drop_first().contains(k2)) by {
                    assert(0 <= j - 1 < ks.drop_first().len());
                    assert(ks.drop_first()[j - 1] == k2);
                }
                let inner = insert_key(k, ks.drop_first());
                assert(inner.contains(k2));
                let j3 = choose|j3: int| 0 <= j3 < inner.len() && inner[j3] == k2;
                assert(r[j3 + 1] == k2);
            }
        }
        let inner = insert_key(k, ks.drop_first());
        let j4 = choose|j4: int| 0 <= j4 < inner.len() && inner[j4] == k;
        assert(r[j4 + 1] == k);
    }
}

proof fn lemma_sort_keys_len(ks: Seq<Seq<u8>>)
    ensures
        sort_keys(ks).len() == ks.len(),
        forall|j: int|
            0 <= j < sort_keys(ks).len() ==> ks.contains(#[trigger] sort_keys(ks)[j]),
        forall|k2: Seq<u8>| ks.contains(k2) ==> sort_keys(ks).contains(k2),
    decreases ks.len(),
{
    if ks.len() == 0 {
    } else {
        lemma_sort_keys_len(ks.drop_last());
        lemma_insert_key_len(ks.last(), sort_keys(ks.drop_last()));
        let r = sort_keys(ks);
        assert forall|j: int| 0 <= j < r.len() implies ks.contains(#[trigger] r[j]) by {
            if r[j] == ks.last() {
                assert(ks[ks.len() - 1] == ks.last());
            } else {
                assert(sort_keys(ks.drop_last()).contains(r[j]));
                let j2 = choose|j2: int|
                    0 <= j2 < sort_keys(ks.drop_last()).len() && sort_keys(ks.drop_last())[j2]
                        == r[j];
                assert(ks.drop_last().contains(r[j]));
                let j3 = choose|j3: int| 0 <= j3 < ks.drop_last().len() && ks.drop_last()[j3] == r[j];
                assert(ks[j3] == r[j]);
            }
        }
        assert forall|k2: Seq<u8>| ks.contains(k2) implies r.contains(k2) by {
            let j = choose|j: int| 0 <= j < ks.len() && ks[j] == k2;
            if j == ks.len() - 1 {
                assert(r.contains(ks.last()));
            } else {
                assert(ks.drop_last().contains(k2)) by {
                    assert(0 <= j < ks.drop_last().len());
                    assert(ks.drop_last()[j] == k2);
                }
                assert(sort_keys(ks.drop_last()).contains(k2));
            }
        }
    }
}

/// An untracked clean state resyncs: with an empty snapshot and equal
/// scanned and remote trees, the diff emits exactly one action per
/// top-level entry, and each is a resync.
pub proof fn lemma_diff_untracked(prefix: Seq<Seq<u8>>, s: Seq<ItemModel>)
    requires
        wf_forest(s),
    ensures
        diff_forest(prefix, s, Seq::<ItemModel>::empty(), s).len() == s.len(),
        forall|i: int|
            0 <= i < diff_forest(prefix, s, Seq::<ItemModel>::empty(), s).len() ==> #[trigger] diff_forest(
                prefix,
                s,
                Seq::<ItemModel>::empty(),
                s,
            )[i] is ResyncLocal,
{
    let e = Seq::<ItemModel>::empty();
    lemma_wf_forest_members(s);
    assert forall|j: int| 0 <= j < names_of(s).len() implies name_in_forest(
        #[trigger] names_of(s)[j],
        s,
    ) by {
        assert(names_of(s)[j] == s[j].name);
    }
    lemma_keys_not_in_all_present(names_of(s), s);
    assert(names_of(e) =~= Seq::<Seq<u8>>::empty());
    assert(keys_not_in(Seq::<Seq<u8>>::empty(), s) =~= Seq::<Seq<u8>>::empty());
    assert(keys_not_in(Seq::<Seq<u8>>::empty(), e) =~= Seq::<Seq<u8>>::empty());
    assert(sort_keys(Seq::<Seq<u8>>::empty()) =~= Seq::<Seq<u8>>::empty());
    let ks = diff_keys(s, e, s);
    lemma_sort_keys_len(names_of(s));
    assert(ks =~= sort_keys(names_of(s)));
    assert(ks.len() == s.len());
    lemma_level_untracked(prefix, ks, s);
    lemma_rec_untracked(prefix, ks, s);
    assert(diff_forest(prefix, s, e, s) =~= level_actions(prefix, ks, s, e, s));
}

proof fn lemma_level_untracked(prefix: Seq<Seq<u8>>, ks: Seq<Seq<u8>>, s: Seq<ItemModel>)
    requires
        forall|j: int| 0 <= j < ks.len() ==> name_in_forest(#[trigger] ks[j], s),
    ensures
        level_actions(prefix, ks, s, Seq::<ItemModel>::empty(), s).len() == ks.len(),
        forall|i: int|
            0 <= i < ks.len() ==> #[trigger] level_actions(
                prefix,
                ks,
                s,
                Seq::<ItemModel>::empty(),
                s,
            )[i] is ResyncLocal,
    decreases ks.len(),
{
    let e = Seq::<ItemModel>::empty();
    if ks.len() == 0 {
    } else {
        assert forall|j: int| 0 <= j < ks.drop_last().len() implies name_in_forest(
            #[trigger] ks.drop_last()[j],
            s,
        ) by {
            assert(ks.drop_last()[j] == ks[j]);
        }
        lemma_level_untracked(prefix, ks.drop_last(), s);
        let k = ks.last();
        assert(name_in_forest(k, s));
        lemma_find_index(s, k);
        assert(find_named(s, k) is Some);
        let m = find_named(s, k)->Some_0;
        assert(entries_equal(m, m));
        assert(find_named(e, k) is None);
        assert(classify(prefix.push(k), Some(m), None, Some(m)) == Some(
            ActionModel::ResyncLocal(prefix.push(k), m),
        ));
    }
}

proof fn lemma_rec_untracked(prefix: Seq<Seq<u8>>, ks: Seq<Seq<u8>>, s: Seq<ItemModel>)
    ensures
        rec_actions(prefix, ks, s, Seq::<ItemModel>::empty(), s) == Seq::<ActionModel>::empty(),
    decreases ks.len(),
{
    let e = Seq::<ItemModel>::empty();
    if ks.len() == 0 {
    } else {
        lemma_rec_untracked(prefix, ks.drop_last(), s);
        let k = ks.last();
        assert(find_named(e, k) is None);
        assert(!recurse_at(find_named(s, k), find_named(e, k), find_named(s, k)));
        assert(rec_actions(prefix, ks, s, e, s) =~= Seq::<ActionModel>::empty());
    }
}

/// The number of occurrences of a key in a key list.
pub open spec fn key_count(ks: Seq<Seq<u8>>, k: Seq<u8>) -> nat
    decreases ks.len(),
{
    if ks.len() == 0 {
        0
    } else {
        (if ks[0] == k {
            1nat
        } else {
            0nat
        }) + key_count(ks.drop_first(), k)
    }
}

proof fn lemma_key_count_snoc(ks: Seq<Seq<u8>>, x: Seq<u8>, k: Seq<u8>)
    ensures
        key_count(ks.push(x), k) == key_count(ks, k) + (if x == k {
            1nat
        } else {
            0nat
        }),
    decreases ks.len(),
{
    if ks.len() == 0 {
        assert(ks.push(x) =~= seq![x]);
        assert(ks.push(x).drop_first() =~= Seq::<Seq<u8>>::empty());
        assert(key_count(Seq::<Seq<u8>>::empty(), k) == 0);
        assert(key_count(ks, k) == 0);
        assert(ks.push(x)[0] == x);
        assert(key_count(ks.push(x), k) == (if x == k {
            1nat
        } else {
            0nat
        }));
    } else {
        lemma_key_count_snoc(ks.drop_first(), x, k);
        assert(ks.push(x).drop_first() =~= ks.drop_first().push(x));
        assert(ks.push(x)[0] == ks[0]);
        assert(key_count(ks.push(x), k) == (if ks[0] == k {
            1nat
        } else {
            0nat
        }) + key_count(ks.drop_first().push(x), k));
    }
}

proof fn lemma_key_count_add(a: Seq<Seq<u8>>, b: Seq<Seq<u8>>, k: Seq<u8>)
    ensures
        key_count(a + b, k) == key_count(a, k) + key_count(b, k),
    decreases a.len(),
{
    if a.len() == 0 {
        assert(a + b =~= b);
    } else {
        lemma_key_count_add(a.drop_first(), b, k);
        assert((a + b).drop_first() =~= a.drop_first() + b);
        assert((a + b)[0] == a[0]);
    }
}

proof fn lemma_insert_key_count(k2: Seq<u8>, ks: Seq<Seq<u8>>, k: Seq<u8>)
    ensures
        key_count(insert_key(k2, ks), k) == key_count(ks, k) + (if k2 == k {
            1nat
        } else {
            0nat
        }),
    decreases ks.len(),
{
    if ks.len() == 0 {
        assert(insert_key(k2, ks) =~= seq![k2]);
        assert(insert_key(k2, ks).drop_first() =~= Seq::<Seq<u8>>::empty());
        assert(key_count(Seq::<Seq<u8>>::empty(), k) == 0);
        assert(key_count(ks, k) == 0);
        assert(insert_key(k2, ks)[0] == k2);
        assert(key_count(insert_key(k2, ks), k) == (if k2 == k {
            1nat
        } else {
            0nat
        }));
    } else if lex_le_bytes(k2, ks[0]) {
        assert(insert_key(k2, ks) =~= seq![k2] + ks);
        assert((seq![k2] + ks).drop_first() =~= ks);
        assert((seq![k2] + ks)[0] == k2);
        assert(key_count(insert_key(k2, ks), k) == (if k2 == k {
            1nat
        } else {
            0nat
        }) + key_count(ks, k));
    } else {
        lemma_insert_key_count(k2, ks.drop_first(), k);
        let r = insert_key(k2, ks);
        assert(r =~= seq![ks[0]] + insert_key(k2, ks.drop_first()));
        assert(r.drop_first() =~= insert_key(k2, ks.drop_first()));
        assert(r[0] == ks[0]);
        assert(key_count(r, k) == (if ks[0] == k {
            1nat
        } else {
            0nat
        }) + key_count(insert_key(k2, ks.drop_first()), k));
    }
}

proof fn lemma_sort_keys_count(ks: Seq<Seq<u8>>, k: Seq<u8>)
    ensures
        key_count(sort_keys(ks), k) == key_count(ks, k),
    decreases ks.len(),
{
    if ks.len() == 0 {
    } else {
        lemma_sort_keys_count(ks.drop_last(), k);
        lemma_insert_key_count(ks.last(), sort_keys(ks.drop_last()), k);
        assert(ks =~= ks.drop_last().push(ks.last()));
        lemma_key_count_snoc(ks.drop_last(), ks.last(), k);
    }
}

proof fn lemma_names_count_wf(s: Seq<ItemModel>, k: Seq<u8>)
    requires
        wf_forest(s),
    ensures
        key_count(names_of(s), k) == if name_in_forest(k, s) {
            1nat
        } else {
            0nat
        },
    decreases s.len(),
{
    if s.len() == 0 {
        assert(!name_in_forest(k, s));
    } else {
        lemma_names_count_wf(s.drop_first(), k);
        assert(names_of(s).drop_first() =~= names_of(s.drop_first()));
        assert(names_of(s)[0] == s[0].name);
        if s[0].name == k {
            assert(!name_in_forest(k, s.drop_first()));
            assert(name_in_forest(k, s)) by {
                assert(s[0].name == k);
            }
        } else {
            assert(name_in_forest(k, s) == name_in_forest(k, s.drop_first())) by {
                if name_in_forest(k, s) {
                    let i = choose|i: int| 0 <= i < s.len() && s[i].name == k;
                    assert(s.drop_first()[i - 1] == s[i]);
                }
                if name_in_forest(k, s.drop_first()) {
                    let i = choose|i: int|
                        0 <= i < s.drop_first().len() && s.drop_first()[i].name == k;
                    assert(s[i + 1] == s.drop_first()[i]);
                }
            }
        }
    }
}

proof fn lemma_keys_not_in_count(ks: Seq<Seq<u8>>, s: Seq<ItemModel>, k: Seq<u8>)
    ensures
        key_count(keys_not_in(ks, s), k) == if name_in_forest(k, s) {
            0nat
        } else {
            key_count(ks, k)
        },
    decreases ks.len(),
{
    if ks.len() == 0 {
    } else {
        lemma_keys_not_in_count(ks.drop_first(), s, k);
        if name_in_forest(ks[0], s) {
        } else {
            assert(keys_not_in(ks, s) =~= seq![ks[0]] + keys_not_in(ks.drop_first(), s));
            assert((seq![ks[0]] + keys_not_in(ks.drop_first(), s)).drop_first() =~= keys_not_in(
                ks.drop_first(),
                s,
            ));
        }
    }
}

/// A key occurs in a list exactly when its count is positive.
pub proof fn lemma_key_count_member(ks: Seq<Seq<u8>>, k: Seq<u8>)
    ensures
        (exists|j: int| 0 <= j < ks.len() && ks[j] == k) <==> key_count(ks, k) >= 1,
    decreases ks.len(),
{
    if ks.len() == 0 {
    } else {
        lemma_key_count_member(ks.drop_first(), k);
        if exists|j: int| 0 <= j < ks.len() && ks[j] == k {
            let j = choose|j: int| 0 <= j < ks.len() && ks[j] == k;
            if j > 0 {
                assert(ks.drop_first()[j - 1] == ks[j]);
            }
        }
        if key_count(ks, k) >= 1 && ks[0] != k {
            let j = choose|j: int| 0 <= j < ks.drop_first().len() && ks.drop_first()[j] == k;
            assert(ks[j + 1] == ks.drop_first()[j]);
        }
    }
}

/// Two distinct positions holding a key put its count at two or more.
pub proof fn lemma_key_count_two(ks: Seq<Seq<u8>>, k: Seq<u8>, j1: int, j2: int)
    requires
        0 <= j1 < j2 < ks.len(),
        ks[j1] == k,
        ks[j2] == k,
    ensures
        key_count(ks, k) >= 2,
    decreases ks.len(),
{
    if j1 == 0 {
        assert(ks.drop_first()[j2 - 1] == ks[j2]);
        lemma_key_count_member(ks.drop_first(), k);
    } else {
        assert(ks.drop_first()[j1 - 1] == ks[j1]);
        assert(ks.drop_first()[j2 - 1] == ks[j2]);
        lemma_key_count_two(ks.drop_first(), k, j1 - 1, j2 - 1);
    }
}

/// The key order of a level holds each name in the union exactly once.
pub proof fn lemma_diff_keys_count(s: Seq<ItemModel>, l: Seq<ItemModel>, r: Seq<ItemModel>, k: Seq<
    u8,
>)
    requires
        wf_forest(s),
        wf_forest(l),
        wf_forest(r),
    ensures
        key_count(diff_keys(s, l, r), k) == if name_in_forest(k, s) || name_in_forest(k, l)
            || name_in_forest(k, r) {
            1nat
        } else {
            0nat
        },
{
    let g1 = sort_keys(names_of(s));
    let g2 = sort_keys(keys_not_in(names_of(r), s));
    let g3 = sort_keys(keys_not_in(keys_not_in(names_of(l), s), r));
    lemma_key_count_add(g1 + g2, g3, k);
    lemma_key_count_add(g1, g2, k);
    assert(diff_keys(s, l, r) == (g1 + g2) + g3);
    lemma_sort_keys_count(names_of(s), k);
    lemma_names_count_wf(s, k);
    lemma_sort_keys_count(keys_not_in(names_of(r), s), k);
    lemma_keys_not_in_count(names_of(r), s, k);
    lemma_names_count_wf(r, k);
    lemma_sort_keys_count(keys_not_in(keys_not_in(names_of(l), s), r), k);
    lemma_keys_not_in_count(keys_not_in(names_of(l), s), r, k);
    lemma_keys_not_in_count(names_of(l), s, k);
    lemma_names_count_wf(l, k);
}

/// A classification carries the path it was asked about.
proof fn lemma_classify_path(
    path: Seq<Seq<u8>>,
    s: Option<ItemModel>,
    l: Option<ItemModel>,
    r: Option<ItemModel>,
)
    ensures
        classify(path, s, l, r) matches Some(a) ==> action_path(a) == path,
{
}

/// No element satisfying the predicate means an empty filter.
proof fn lemma_filter_all_false<A>(s: Seq<A>, pred: spec_fn(A) -> bool)
    requires
        forall|i: int| 0 <= i < s.len() ==> !pred(#[trigger] s[i]),
    ensures
        s.filter(pred) == Seq::<A>::empty(),
    decreases s.len(),
{
    reveal(Seq::filter);
    if s.len() == 0 {
    } else {
        assert forall|i: int| 0 <= i < s.drop_last().len() implies !pred(
            #[trigger] s.drop_last()[i],
        ) by {
            assert(s.drop_last()[i] == s[i]);
        }
        lemma_filter_all_false(s.drop_last(), pred);
        assert(!pred(s.last()));
    }
}

proof fn lemma_filter_singleton<A>(x: A, pred: spec_fn(A) -> bool)
    ensures
        seq![x].filter(pred) == if pred(x) {
            seq![x]
        } else {
            Seq::<A>::empty()
        },
{
    reveal(Seq::filter);
    assert(seq![x].drop_last() =~= Seq::<A>::empty());
    assert(seq![x].last() == x);
    assert(Seq::<A>::empty().filter(pred) =~= Seq::<A>::empty());
}

/// Filtering a level's actions for one name's path leaves exactly
/// that name's classification.
proof fn lemma_level_filter(
    prefix: Seq<Seq<u8>>,
    ks: Seq<Seq<u8>>,
    s: Seq<ItemModel>,
    l: Seq<ItemModel>,
    r: Seq<ItemModel>,
    k: Seq<u8>,
)
    ensures
        key_count(ks, k) == 0 ==> level_actions(prefix, ks, s, l, r).filter(
            |a: ActionModel| action_path(a) == prefix.push(k),
        ) == Seq::<ActionModel>::empty(),
        key_count(ks, k) == 1 ==> level_actions(prefix, ks, s, l, r).filter(
            |a: ActionModel| action_path(a) == prefix.push(k),
        ) == match classify(prefix.push(k), find_named(s, k), find_named(l, k), find_named(r, k)) {
            Some(a) => seq![a],
            None => Seq::<ActionModel>::empty(),
        },
    decreases ks.len(),
{
    broadcast use Seq::filter_distributes_over_add;

    let pred = |a: ActionModel| action_path(a) == prefix.push(k);
    if ks.len() == 0 {
        reveal(Seq::filter);
        assert(level_actions(prefix, ks, s, l, r).filter(pred) =~= Seq::<ActionModel>::empty());
    } else {
        let kk = ks.last();
        assert(ks =~= ks.drop_last().push(ks.last()));
        lemma_key_count_snoc(ks.drop_last(), ks.last(), k);
        lemma_level_filter(prefix, ks.drop_last(), s, l, r, k);
        let tail = match classify(
            prefix.push(kk),
            find_named(s, kk),
            find_named(l, kk),
            find_named(r, kk),
        ) {
            Some(a) => seq![a],
            None => Seq::<ActionModel>::empty(),
        };
        lemma_classify_path(prefix.push(kk), find_named(s, kk), find_named(l, kk), find_named(r, kk));
        if kk == k {
            match classify(prefix.push(kk), find_named(s, kk), find_named(l, kk), find_named(r, kk)) {
                Some(a) => {
                    lemma_filter_singleton(a, pred);
                    assert(pred(a));
                },
                None => {
                    lemma_filter_all_false(tail, pred);
                },
            }
        } else {
            assert(prefix.push(kk) != prefix.push(k)) by {
                assert(prefix.push(kk).last() == kk);
                assert(prefix.push(k).last() == k);
            }
            match classify(prefix.push(kk), find_named(s, kk), find_named(l, kk), find_named(r, kk)) {
                Some(a) => {
                    assert(!pred(a));
                    lemma_filter_singleton(a, pred);
                },
                None => {
                    lemma_filter_all_false(tail, pred);
                },
            }
        }
        assert(level_actions(prefix, ks, s, l, r) == level_actions(prefix, ks.drop_last(), s, l, r)
            + tail);
        if key_count(ks, k) == 0 {
            assert(level_actions(prefix, ks, s, l, r).filter(pred) =~= Seq::<ActionModel>::empty());
        }
        if key_count(ks, k) == 1 {
            if kk == k {
                assert(Seq::<ActionModel>::empty() + tail.filter(pred) =~= tail.filter(pred));
            } else {
                assert(level_actions(prefix, ks.drop_last(), s, l, r).filter(pred) + Seq::<
                    ActionModel,
                >::empty() =~= level_actions(prefix, ks.drop_last(), s, l, r).filter(pred));
            }
        }
    }
}

/// Every action of a diff lies strictly below the diff's path.
proof fn lemma_diff_paths(prefix: Seq<Seq<u8>>, s: Seq<ItemModel>, l: Seq<ItemModel>, r: Seq<
    ItemModel,
>)
    ensures
        forall|i: int|
            0 <= i < diff_forest(prefix, s, l, r).len() ==> action_path(
                #[trigger] diff_forest(prefix, s, l, r)[i],
            ).len() > prefix.len(),
    decreases forest_size(s) + forest_size(l) + forest_size(r), 1int, 0int,
{
    let ks = diff_keys(s, l, r);
    lemma_level_paths(prefix, ks, s, l, r);
    lemma_rec_paths(prefix, ks, s, l, r);
    assert forall|i: int| 0 <= i < diff_forest(prefix, s, l, r).len() implies action_path(
        #[trigger] diff_forest(prefix, s, l, r)[i],
    ).len() > prefix.len() by {
        let la = level_actions(prefix, ks, s, l, r);
        let ra = rec_actions(prefix, ks, s, l, r);
        if i < la.len() {
            assert(diff_forest(prefix, s, l, r)[i] == la[i]);
        } else {
            assert(diff_forest(prefix, s, l, r)[i] == ra[i - la.len()]);
        }
    }
}

proof fn lemma_level_paths(
    prefix: Seq<Seq<u8>>,
    ks: Seq<Seq<u8>>,
    s: Seq<ItemModel>,
    l: Seq<ItemModel>,
    r: Seq<ItemModel>,
)
    ensures
        forall|i: int|
            0 <= i < level_actions(prefix, ks, s, l, r).len() ==> action_path(
                #[trigger] level_actions(prefix, ks, s, l, r)[i],
            ).len() == prefix.len() + 1,
    decreases ks.len(),
{
    if ks.len() == 0 {
    } else {
        lemma_level_paths(prefix, ks.drop_last(), s, l, r);
        let kk = ks.last();
        lemma_classify_path(prefix.push(kk), find_named(s, kk), find_named(l, kk), find_named(r, kk));
        assert forall|i: int| 0 <= i < level_actions(prefix, ks, s, l, r).len() implies action_path(
            #[trigger] level_actions(prefix, ks, s, l, r)[i],
        ).len() == prefix.len() + 1 by {
            let la = level_actions(prefix, ks.drop_last(), s, l, r);
            if i < la.len() {
                assert(level_actions(prefix, ks, s, l, r)[i] == la[i]);
            }
        }
    }
}

proof fn lemma_rec_paths(
    prefix: Seq<Seq<u8>>,
    ks: Seq<Seq<u8>>,
    s: Seq<ItemModel>,
    l: Seq<ItemModel>,
    r: Seq<ItemModel>,
)
    ensures
        forall|i: int|
            0 <= i < rec_actions(prefix, ks, s, l, r).len() ==> action_path(
                #[trigger] rec_actions(prefix, ks, s, l, r)[i],
            ).len() > prefix.len() + 1,
    decreases forest_size(s) + forest_size(l) + forest_size(r), 0int, ks.len(),
{
    if ks.len() == 0 {
    } else {
        lemma_rec_paths(prefix, ks.drop_last(), s, l, r);
        let kk = ks.last();
        if recurse_at(find_named(s, kk), find_named(l, kk), find_named(r, kk)) {
            lemma_member_children_size(s, kk);
            lemma_member_children_size(l, kk);
            lemma_member_children_size(r, kk);
            lemma_diff_paths(
                prefix.push(kk),
                find_named(s, kk)->Some_0.children,
                find_named(l, kk)->Some_0.children,
                find_named(r, kk)->Some_0.children,
            );
        }
        assert forall|i: int| 0 <= i < rec_actions(prefix, ks, s, l, r).len() implies action_path(
            #[trigger] rec_actions(prefix, ks, s, l, r)[i],
        ).len() > prefix.len() + 1 by {
            let ra = rec_actions(prefix, ks.drop_last(), s, l, r);
            if i < ra.len() {
                assert(rec_actions(prefix, ks, s, l, r)[i] == ra[i]);
            } else {
                if recurse_at(find_named(s, kk), find_named(l, kk), find_named(r, kk)) {
                    let sub = diff_forest(
                        prefix.push(kk),
                        find_named(s, kk)->Some_0.children,
                        find_named(l, kk)->Some_0.children,
                        find_named(r, kk)->Some_0.children,
                    );
                    assert(rec_actions(prefix, ks, s, l, r)[i] == sub[i - ra.len()]);
                }
            }
        }
    }
}

/// One action per name: filtering the diff of three well-formed
/// forests for the path of one top-level name leaves exactly that
/// name's classification, and nothing when the three views agree there
/// or none holds the name.
pub proof fn lemma_one_action_per_key(
    prefix: Seq<Seq<u8>>,
    s: Seq<ItemModel>,
    l: Seq<ItemModel>,
    r: Seq<ItemModel>,
    k: Seq<u8>,
)
    requires
        wf_forest(s),
        wf_forest(l),
        wf_forest(r),
    ensures
        diff_forest(prefix, s, l, r).filter(|a: ActionModel| action_path(a) == prefix.push(k))
            == match classify(
            prefix.push(k),
            find_named(s, k),
            find_named(l, k),
            find_named(r, k),
        ) {
            Some(a) => seq![a],
            None => Seq::<ActionModel>::empty(),
        },
{
    broadcast use Seq::filter_distributes_over_add;

    let pred = |a: ActionModel| action_path(a) == prefix.push(k);
    let ks = diff_keys(s, l, r);
    lemma_diff_keys_count(s, l, r, k);
    lemma_level_filter(prefix, ks, s, l, r, k);
    lemma_rec_paths(prefix, ks, s, l, r);
    assert forall|i: int| 0 <= i < rec_actions(prefix, ks, s, l, r).len() implies !pred(
        #[trigger] rec_actions(prefix, ks, s, l, r)[i],
    ) by {
        assert(action_path(rec_actions(prefix, ks, s, l, r)[i]).len() > prefix.len() + 1);
        assert(prefix.push(k).len() == prefix.len() + 1);
    }
    lemma_filter_all_false(rec_actions(prefix, ks, s, l, r), pred);
    if !(name_in_forest(k, s) || name_in_forest(k, l) || name_in_forest(k, r)) {
        lemma_find_index(s, k);
        lemma_find_index(l, k);
        lemma_find_index(r, k);
        assert(find_named(s, k) is None && find_named(l, k) is None && find_named(r, k) is None);
    }
    let la = level_actions(prefix, ks, s, l, r);
    let ra = rec_actions(prefix, ks, s, l, r);
    assert(diff_forest(prefix, s, l, r).filter(pred) == la.filter(pred) + ra.filter(pred));
    assert(la.filter(pred) + Seq::<ActionModel>::empty() =~= la.filter(pred));
}

/// The ordered outcome of one three-way comparison.
pub struct Diff {
    actions: Vec<Action>,
}

impl View for Diff {
    type V = Seq<ActionModel>;

    closed spec fn view(&self) -> Seq<ActionModel> {
        action_models(self.actions@)
    }
}

impl Diff {
    /// Classify every divergence between the scanned tree, the
    /// snapshot tree and the resolved remote tree.
    pub fn new(
        scanned: &LocalFilesystem,
        local: &LocalFilesystem,
        remote: &LocalFilesystem,
    ) -> (r: Diff)
        ensures
            r@ == diff_forest(Seq::<Seq<u8>>::empty(), scanned@, local@, remote@),
    {
        let prefix: Vec<ClientString> = Vec::new();
        let mut actions: Vec<Action> = Vec::new();
        proof {
            assert(names_view(prefix@) =~= Seq::<Seq<u8>>::empty());
            assert(action_models(actions@) =~= Seq::<ActionModel>::empty());
        }
        compare_forests(&prefix, scanned.get_roots(), local.get_roots(), remote.get_roots(), &mut actions);
        proof {
            assert(Seq::<ActionModel>::empty() + diff_forest(
                Seq::<Seq<u8>>::empty(),
                scanned@,
                local@,
                remote@,
            ) =~= diff_forest(Seq::<Seq<u8>>::empty(), scanned@, local@, remote@));
        }
        Diff { actions }
    }

    /// The emitted actions, in emission order.
    pub fn actions(&self) -> (r: &Vec<Action>)
        ensures
            action_models(r@) == self@,
    {
        &self.actions
    }
}

} // verus!
