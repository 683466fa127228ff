//! The three filesystem containers.
//!
//! [`LocalFilesystem`] is an owned forest of [`LocalItem`] trees, used
//! for the scanned state and for the persisted snapshot; its entries
//! are addressed by relative paths of encoded names. [`RemoteFilesystem`]
//! is the flat, id-linked remote listing, which can be resolved into an
//! owned forest.

use crate::client_string::ClientString;
use crate::content::item::{
    find_index, find_named, forest_has_name, forest_model, forest_remove, forest_upsert,
    item_model, lemma_find_index, lemma_forest_model, lemma_wf_forest_members, lemma_wf_remove,
    lemma_wf_snoc, lemma_wf_upsert, name_in_forest, remove_named, upsert_child, wf_forest,
    wf_item, ItemModel, LocalItem, RemoteItem, RemoteItemModel, TreeError,
};
use vstd::prelude::*;

verus! {

/// The model of a path: its components' encoded forms.
pub open spec fn path_view(p: Seq<ClientString>) -> Seq<Seq<u8>> {
    p.map_values(|c: ClientString| c@)
}

/// The entry a path leads to, descending through directories by name.
pub open spec fn find_at_path(s: Seq<ItemModel>, p: Seq<Seq<u8>>) -> Option<ItemModel>
    decreases p.len(),
{
    if p.len() == 0 {
        None
    } else {
        match find_named(s, p[0]) {
            None => None,
            Some(d) => if p.len() == 1 {
                Some(d)
            } else if d.is_regular_file {
                None
            } else {
                find_at_path(d.children, p.drop_first())
            },
        }
    }
}

/// True when every strict prefix of the path leads to a directory, so
/// that an entry can be placed at the path.
pub open spec fn can_set_at(s: Seq<ItemModel>, p: Seq<Seq<u8>>) -> bool
    decreases p.len(),
{
    if p.len() <= 1 {
        p.len() == 1
    } else {
        match find_named(s, p[0]) {
            None => false,
            Some(d) => !d.is_regular_file && can_set_at(d.children, p.drop_first()),
        }
    }
}

/// The forest after placing an entry at a path: the last component is
/// inserted or replaced in the children of the directory the prefix
/// leads to; an unresolvable prefix leaves the forest unchanged.
pub open spec fn set_at(s: Seq<ItemModel>, p: Seq<Seq<u8>>, m: ItemModel) -> Seq<ItemModel>
    decreases p.len(),
{
    if p.len() == 0 {
        s
    } else if p.len() == 1 {
        upsert_child(s, m)
    } else {
        match find_named(s, p[0]) {
            None => s,
            Some(d) => if d.is_regular_file {
                s
            } else {
                upsert_child(
                    s,
                    ItemModel { children: set_at(d.children, p.drop_first(), m), ..d },
                )
            },
        }
    }
}

/// The forest after dropping the entry a path leads to; a path that
/// leads nowhere leaves the forest unchanged.
pub open spec fn remove_at(s: Seq<ItemModel>, p: Seq<Seq<u8>>) -> Seq<ItemModel>
    decreases p.len(),
{
    if p.len() == 0 {
        s
    } else if p.len() == 1 {
        remove_named(s, p[0])
    } else {
        match find_named(s, p[0]) {
            None => s,
            Some(d) => if d.is_regular_file {
                s
            } else {
                upsert_child(
                    s,
                    ItemModel { children: remove_at(d.children, p.drop_first()), ..d },
                )
            },
        }
    }
}

/// Placing a well-formed entry keeps the forest well formed, and when
/// the prefix resolves, the path then leads to the entry.
pub proof fn lemma_wf_set_at(s: Seq<ItemModel>, p: Seq<Seq<u8>>, m: ItemModel)
    requires
        wf_forest(s),
        wf_item(m),
        p.len() > 0,
        p.last() == m.name,
    ensures
        wf_forest(set_at(s, p, m)),
        can_set_at(s, p) ==> find_at_path(set_at(s, p, m), p) == Some(m),
    decreases p.len(),
{
    if p.len() == 1 {
        lemma_wf_upsert(s, m);
        assert(p[0] == m.name);
    } else {
        match find_named(s, p[0]) {
            None => {},
            Some(d) => {
                if !d.is_regular_file {
                    lemma_find_index(s, p[0]);
                    lemma_wf_forest_members(s);
                    assert(wf_item(d));
                    assert(p.drop_first().last() == p.last());
                    lemma_wf_set_at(d.children, p.drop_first(), m);
                    let d2 = ItemModel { children: set_at(d.children, p.drop_first(), m), ..d };
                    assert(wf_item(d2));
                    lemma_wf_upsert(s, d2);
                    if can_set_at(s, p) {
                        assert(find_named(set_at(s, p, m), p[0]) == Some(d2));
                    }
                }
            },
        }
    }
}

/// Dropping an entry keeps the forest well formed, and the path then
/// leads nowhere.
pub proof fn lemma_wf_remove_at(s: Seq<ItemModel>, p: Seq<Seq<u8>>)
    requires
        wf_forest(s),
        p.len() > 0,
    ensures
        wf_forest(remove_at(s, p)),
        find_at_path(remove_at(s, p), p) is None,
    decreases p.len(),
{
    if p.len() == 1 {
        lemma_wf_remove(s, p[0]);
    } else {
        match find_named(s, p[0]) {
            None => {
                lemma_find_index(s, p[0]);
            },
            Some(d) => {
                lemma_find_index(s, p[0]);
                lemma_wf_forest_members(s);
                if d.is_regular_file {
                } else {
                    lemma_wf_remove_at(d.children, p.drop_first());
                    let d2 = ItemModel { children: remove_at(d.children, p.drop_first()), ..d };
                    assert(wf_item(d2));
                    lemma_wf_upsert(s, d2);
                    assert(find_named(remove_at(s, p), p[0]) == Some(d2));
                }
            },
        }
    }
}

/// Placing an entry below an unresolvable prefix changes nothing.
pub proof fn lemma_set_at_noop(s: Seq<ItemModel>, p: Seq<Seq<u8>>, m: ItemModel)
    requires
        p.len() > 0,
        !can_set_at(s, p),
    ensures
        set_at(s, p, m) == s,
    decreases p.len(),
{
    if p.len() == 1 {
        assert(can_set_at(s, p));
    } else {
        match find_named(s, p[0]) {
            None => {},
            Some(d) => {
                if d.is_regular_file {
                } else {
                    lemma_set_at_noop(d.children, p.drop_first(), m);
                    let d2 = ItemModel { children: set_at(d.children, p.drop_first(), m), ..d };
                    assert(d2 =~= d);
                    lemma_find_index(s, p[0]);
                    assert(upsert_child(s, d2) =~= s);
                }
            },
        }
    }
}

/// Dropping along a path that leads to no entry changes nothing.
pub proof fn lemma_remove_at_noop(s: Seq<ItemModel>, p: Seq<Seq<u8>>)
    requires
        p.len() > 0,
        find_at_path(s, p) is None,
    ensures
        remove_at(s, p) == s,
    decreases p.len(),
{
    if p.len() == 1 {
        lemma_find_index(s, p[0]);
        assert(find_named(s, p[0]) is None);
        assert(remove_named(s, p[0]) == s);
    } else {
        match find_named(s, p[0]) {
            None => {},
            Some(d) => {
                if d.is_regular_file {
                } else {
                    lemma_remove_at_noop(d.children, p.drop_first());
                    let d2 = ItemModel { children: remove_at(d.children, p.drop_first()), ..d };
                    assert(d2 =~= d);
                    lemma_find_index(s, p[0]);
                    assert(upsert_child(s, d2) =~= s);
                }
            },
        }
    }
}

/// An owned forest of local items: the live scan, or the persisted
/// snapshot.
pub struct LocalFilesystem {
    roots: Vec<LocalItem>,
}

impl View for LocalFilesystem {
    type V = Seq<ItemModel>;

    closed spec fn view(&self) -> Seq<ItemModel> {
        forest_model(self.roots@)
    }
}

impl LocalFilesystem {
    /// An empty forest.
    pub fn new() -> (r: Self)
        ensures
            r@ == Seq::<ItemModel>::empty(),
    {
        let r = LocalFilesystem { roots: Vec::new() };
        proof {
            assert(forest_model(r.roots@) =~= Seq::<ItemModel>::empty());
        }
        r
    }

    /// Adopt a forest of root items.
    pub fn from_roots(roots: Vec<LocalItem>) -> (r: Self)
        ensures
            r@ == forest_model(roots@),
    {
        LocalFilesystem { roots }
    }

    /// The root items.
    pub fn get_roots(&self) -> (r: &Vec<LocalItem>)
        ensures
            forest_model(r@) == self@,
    {
        &self.roots
    }

    /// Insert a root item, replacing the same-named root if one is
    /// there.
    pub fn add_to_root(&mut self, new_item: LocalItem)
        ensures
            final(self)@ == upsert_child(old(self)@, new_item@),
    {
        forest_upsert(&mut self.roots, new_item);
    }

    /// The entry the path leads to, if any.
    pub fn find_from_path(&self, path: &[ClientString]) -> (r: Option<&LocalItem>)
        ensures
            match r {
                Some(item) => find_at_path(self@, path_view(path@)) == Some(item@),
                None => find_at_path(self@, path_view(path@)) is None,
            },
    {
        if path.len() == 0 {
            return None;
        }
        proof {
            assert(path_view(path@).skip(0) =~= path_view(path@));
        }
        forest_find(&self.roots, path, 0)
    }

    /// Place an entry at a path, creating or replacing it; an error
    /// when a strict prefix does not lead to a directory.
    pub fn set_at_path(&mut self, path: &[ClientString], item: LocalItem) -> (r: Result<
        (),
        TreeError,
    >)
        requires
            path@.len() > 0,
            path_view(path@).last() == item@.name,
        ensures
            final(self)@ == set_at(old(self)@, path_view(path@), item@),
            r is Ok <==> can_set_at(old(self)@, path_view(path@)),
    {
        proof {
            assert(path_view(path@).skip(0) =~= path_view(path@));
        }
        forest_set(&mut self.roots, path, 0, item)
    }

    /// Drop the entry a path leads to; an error when there is none.
    pub fn remove_at_path(&mut self, path: &[ClientString]) -> (r: Result<(), TreeError>)
        requires
            path@.len() > 0,
        ensures
            final(self)@ == remove_at(old(self)@, path_view(path@)),
            r is Ok <==> find_at_path(old(self)@, path_view(path@)) is Some,
    {
        proof {
            assert(path_view(path@).skip(0) =~= path_view(path@));
        }
        forest_remove_at(&mut self.roots, path, 0)
    }
}

fn forest_find<'a>(items: &'a Vec<LocalItem>, path: &[ClientString], depth: usize) -> (r: Option<
    &'a LocalItem,
>)
    requires
        depth < path@.len(),
    ensures
        match r {
            Some(item) => find_at_path(forest_model(items@), path_view(path@).skip(depth as int))
                == Some(item@),
            None => find_at_path(forest_model(items@), path_view(path@).skip(depth as int))
                is None,
        },
    decreases path@.len() - depth,
{
    let ghost s = forest_model(items@);
    let ghost p = path_view(path@).skip(depth as int);
    proof {
        lemma_forest_model(items@);
        assert(p[0] == path@[depth as int]@);
        lemma_find_index(s, p[0]);
    }
    let mut i: usize = 0;
    while i < items.len()
        invariant
            depth < path@.len(),
            s == forest_model(items@),
            p == path_view(path@).skip(depth as int),
            p[0] == path@[depth as int]@,
            0 <= i <= items@.len(),
            s.len() == items@.len(),
            forall|j: int| 0 <= j < items@.len() ==> s[j] == item_model(items@[j]),
            forall|j: int| 0 <= j < i ==> s[j].name != p[0],
        decreases items@.len() - i,
    {
        if items[i].name.eq_name(&path[depth]) {
            proof {
                assert(s[i as int].name == p[0]);
                lemma_find_index(s, p[0]);
                assert(find_named(s, p[0]) == Some(s[i as int]));
            }
            if path.len() - depth == 1 {
                proof {
                    assert(p.len() == 1);
                }
                return Some(&items[i]);
            }
            if items[i].is_regular_file {
                return None;
            }
            proof {
                assert(p.drop_first() =~= path_view(path@).skip(depth + 1 as int));
            }
            return forest_find(&items[i].children, path, depth + 1);
        }
        i = i + 1;
    }
    proof {
        lemma_find_index(s, p[0]);
        assert(find_named(s, p[0]) is None);
    }
    None
}

fn forest_set(items: &mut Vec<LocalItem>, path: &[ClientString], depth: usize, item: LocalItem)
    -> (r: Result<(), TreeError>)
    requires
        depth < path@.len(),
        path_view(path@).last() == item@.name,
    ensures
        forest_model(final(items)@) == set_at(
            forest_model(old(items)@),
            path_view(path@).skip(depth as int),
            item@,
        ),
        r is Ok <==> can_set_at(forest_model(old(items)@), path_view(path@).skip(depth as int)),
    decreases path@.len() - depth,
{
    let ghost s = forest_model(old(items)@);
    let ghost p = path_view(path@).skip(depth as int);
    proof {
        lemma_forest_model(old(items)@);
        assert(p[0] == path@[depth as int]@);
        lemma_find_index(s, p[0]);
    }
    if path.len() - depth == 1 {
        proof {
            assert(p.len() == 1);
        }
        forest_upsert(items, item);
        return Ok(());
    }
    let mut i: usize = 0;
    while i < items.len()
        invariant
            items@ == old(items)@,
            depth + 1 < path@.len(),
            path_view(path@).last() == item@.name,
            s == forest_model(items@),
            p == path_view(path@).skip(depth as int),
            p.len() > 1,
            p[0] == path@[depth as int]@,
            0 <= i <= items@.len(),
            s.len() == items@.len(),
            forall|j: int| 0 <= j < items@.len() ==> s[j] == item_model(items@[j]),
            forall|j: int| 0 <= j < i ==> s[j].name != p[0],
        decreases items@.len() - i,
    {
        if items[i].name.eq_name(&path[depth]) {
            proof {
                assert(s[i as int].name == p[0]);
                lemma_find_index(s, p[0]);
                assert(find_named(s, p[0]) == Some(s[i as int]));
            }
            if items[i].is_regular_file {
                return Err(TreeError::NotFound);
            }
            let mut d = items.remove(i);
            let r = forest_set(&mut d.children, path, depth + 1, item);
            proof {
                assert(p.drop_first() =~= path_view(path@).skip(depth + 1 as int));
            }
            let ghost d2 = item_model(d);
            items.insert(i, d);
            proof {
                lemma_forest_model(items@);
                assert(d2 == (ItemModel {
                    children: set_at(s[i as int].children, p.drop_first(), item@),
                    ..s[i as int]
                }));
                assert(find_index(s, p[0]) == i);
                assert(forest_model(items@) =~= upsert_child(s, d2));
            }
            return r;
        }
        i = i + 1;
    }
    proof {
        lemma_find_index(s, p[0]);
        assert(find_named(s, p[0]) is None);
    }
    Err(TreeError::NotFound)
}

fn forest_remove_at(items: &mut Vec<LocalItem>, path: &[ClientString], depth: usize) -> (r: Result<
    (),
    TreeError,
>)
    requires
        depth < path@.len(),
    ensures
        forest_model(final(items)@) == remove_at(
            forest_model(old(items)@),
            path_view(path@).skip(depth as int),
        ),
        r is Ok <==> find_at_path(forest_model(old(items)@), path_view(path@).skip(depth as int))
            is Some,
    decreases path@.len() - depth,
{
    let ghost s = forest_model(old(items)@);
    let ghost p = path_view(path@).skip(depth as int);
    proof {
        lemma_forest_model(old(items)@);
        assert(p[0] == path@[depth as int]@);
        lemma_find_index(s, p[0]);
    }
    if path.len() - depth == 1 {
        proof {
            assert(p.len() == 1);
        }
        let r = forest_remove(items, &path[depth]);
        proof {
            lemma_find_index(s, p[0]);
        }
        return r;
    }
    let mut i: usize = 0;
    while i < items.len()
        invariant
            items@ == old(items)@,
            depth + 1 < path@.len(),
            s == forest_model(items@),
            p == path_view(path@).skip(depth as int),
            p.len() > 1,
            p[0] == path@[depth as int]@,
            0 <= i <= items@.len(),
            s.len() == items@.len(),
            forall|j: int| 0 <= j < items@.len() ==> s[j] == item_model(items@[j]),
            forall|j: int| 0 <= j < i ==> s[j].name != p[0],
        decreases items@.len() - i,
    {
        if items[i].name.eq_name(&path[depth]) {
            proof {
                assert(s[i as int].name == p[0]);
                lemma_find_index(s, p[0]);
                assert(find_named(s, p[0]) == Some(s[i as int]));
            }
            if items[i].is_regular_file {
                return Err(TreeError::NotFound);
            }
            let mut d = items.remove(i);
            let r = forest_remove_at(&mut d.children, path, depth + 1);
            proof {
                assert(p.drop_first() =~= path_view(path@).skip(depth + 1 as int));
            }
            let ghost d2 = item_model(d);
            items.insert(i, d);
            proof {
                lemma_forest_model(items@);
                assert(d2 == (ItemModel {
                    children: remove_at(s[i as int].children, p.drop_first()),
                    ..s[i as int]
                }));
                assert(find_index(s, p[0]) == i);
                assert(forest_model(items@) =~= upsert_child(s, d2));
            }
            return r;
        }
        i = i + 1;
    }
    proof {
        lemma_find_index(s, p[0]);
        assert(find_named(s, p[0]) is None);
    }
    Err(TreeError::NotFound)
}

/// The models of a sequence of remote items.
pub open spec fn remote_models(s: Seq<RemoteItem>) -> Seq<RemoteItemModel> {
    s.map_values(|it: RemoteItem| it@)
}

/// A held value, or zero when absent.
pub open spec fn u64_or_zero(o: Option<u64>) -> u64 {
    match o {
        None => 0,
        Some(v) => v,
    }
}

/// The position of the first entry with the given id, or -1.
pub open spec fn rf_find_index(s: Seq<RemoteItemModel>, id: u64) -> int
    decreases s,
{
    if s.len() == 0 {
        -1
    } else if s[0].id == id {
        0
    } else {
        let r = rf_find_index(s.drop_first(), id);
        if r < 0 {
            -1
        } else {
            r + 1
        }
    }
}

/// The first entry with the given id, if any.
pub open spec fn find_by_id(s: Seq<RemoteItemModel>, id: u64) -> Option<RemoteItemModel> {
    if rf_find_index(s, id) >= 0 {
        Some(s[rf_find_index(s, id)])
    } else {
        None
    }
}

/// Replace the entry with the same id, or append the entry.
pub open spec fn rf_upsert(s: Seq<RemoteItemModel>, m: RemoteItemModel) -> Seq<RemoteItemModel> {
    if rf_find_index(s, m.id) >= 0 {
        s.update(rf_find_index(s, m.id), m)
    } else {
        s.push(m)
    }
}

/// The entries naming the given parent, in listing order.
pub open spec fn children_of(s: Seq<RemoteItemModel>, parent: Option<u64>) -> Seq<
    RemoteItemModel,
>
    decreases s,
{
    if s.len() == 0 {
        Seq::<RemoteItemModel>::empty()
    } else if s[0].parent_item == parent {
        seq![s[0]] + children_of(s.drop_first(), parent)
    } else {
        children_of(s.drop_first(), parent)
    }
}

/// The first entry under the given parent with the given name, if any.
pub open spec fn first_child_named(
    s: Seq<RemoteItemModel>,
    parent: Option<u64>,
    name: Seq<u8>,
) -> Option<RemoteItemModel>
    decreases s,
{
    if s.len() == 0 {
        None
    } else if s[0].parent_item == parent && s[0].name == name {
        Some(s[0])
    } else {
        first_child_named(s.drop_first(), parent, name)
    }
}

/// The entry a path of names leads to in the id-linked listing.
pub open spec fn find_in_graph(
    s: Seq<RemoteItemModel>,
    parent: Option<u64>,
    p: Seq<Seq<u8>>,
) -> Option<RemoteItemModel>
    decreases p.len(),
{
    if p.len() == 0 {
        None
    } else {
        match first_child_named(s, parent, p[0]) {
            None => None,
            Some(it) => if p.len() == 1 {
                Some(it)
            } else {
                find_in_graph(s, Some(it.id), p.drop_first())
            },
        }
    }
}

/// True when a resolved node mirrors a listing entry: same name and
/// kind, absent sizes and timestamps read as zero, a directory's size
/// read as zero, and the children resolving the entries that name this
/// entry as parent.
pub open spec fn item_resolves(s: Seq<RemoteItemModel>, it: RemoteItemModel, m: ItemModel) -> bool
    decreases m,
{
    &&& m.name == it.name
    &&& m.is_regular_file == it.is_regular_file
    &&& m.timestamp == u64_or_zero(it.timestamp)
    &&& m.mime_type == it.mimetype
    &&& m.size == if it.is_regular_file {
        u64_or_zero(it.size)
    } else {
        0
    }
    &&& if it.is_regular_file {
        m.children.len() == 0
    } else {
        forest_resolves(s, children_of(s, Some(it.id)), m.children)
    }
}

/// True when a resolved forest mirrors the given listing entries, in
/// order.
pub open spec fn forest_resolves(
    s: Seq<RemoteItemModel>,
    items: Seq<RemoteItemModel>,
    f: Seq<ItemModel>,
) -> bool
    decreases f,
{
    if f.len() == 0 {
        items.len() == 0
    } else {
        items.len() > 0 && item_resolves(s, items[0], f[0]) && forest_resolves(
            s,
            items.drop_first(),
            f.drop_first(),
        )
    }
}

/// Resolution pairs entries with nodes one by one.
pub proof fn lemma_forest_resolves_snoc(
    s: Seq<RemoteItemModel>,
    items: Seq<RemoteItemModel>,
    f: Seq<ItemModel>,
    it: RemoteItemModel,
    m: ItemModel,
)
    requires
        forest_resolves(s, items, f),
        item_resolves(s, it, m),
    ensures
        forest_resolves(s, items.push(it), f.push(m)),
    decreases f,
{
    if f.len() == 0 {
        assert(items.push(it) =~= seq![it]);
        assert(f.push(m) =~= seq![m]);
        assert(items.push(it).drop_first() =~= Seq::<RemoteItemModel>::empty());
        assert(f.push(m).drop_first() =~= Seq::<ItemModel>::empty());
        assert(forest_resolves(
            s,
            Seq::<RemoteItemModel>::empty(),
            Seq::<ItemModel>::empty(),
        ));
        assert(items.push(it)[0] == it && f.push(m)[0] == m);
        assert(forest_resolves(s, items.push(it), f.push(m)));
    } else {
        lemma_forest_resolves_snoc(s, items.drop_first(), f.drop_first(), it, m);
        assert(items.push(it).drop_first() =~= items.drop_first().push(it));
        assert(f.push(m).drop_first() =~= f.drop_first().push(m));
        assert(items.push(it)[0] == items[0] && f.push(m)[0] == f[0]);
        assert(forest_resolves(s, items.push(it), f.push(m)));
    }
}

/// Appending a listing entry extends the children of its parent by
/// that entry and leaves the children of other parents unchanged.
pub proof fn lemma_children_of_snoc(s: Seq<RemoteItemModel>, x: RemoteItemModel, parent: Option<
    u64,
>)
    ensures
        children_of(s.push(x), parent) == if x.parent_item == parent {
            children_of(s, parent).push(x)
        } else {
            children_of(s, parent)
        },
    decreases s,
{
    if s.len() == 0 {
        assert(s.push(x) =~= seq![x]);
        assert(s.push(x).drop_first() =~= Seq::<RemoteItemModel>::empty());
        assert(children_of(s, parent) =~= Seq::<RemoteItemModel>::empty());
        assert(children_of(Seq::<RemoteItemModel>::empty(), parent) =~= Seq::<
            RemoteItemModel,
        >::empty());
        if x.parent_item == parent {
            assert(children_of(s.push(x), parent) =~= children_of(s, parent).push(x));
        } else {
            assert(children_of(s.push(x), parent) =~= children_of(s, parent));
        }
    } else {
        lemma_children_of_snoc(s.drop_first(), x, parent);
        assert(s.push(x).drop_first() =~= s.drop_first().push(x));
        if x.parent_item == parent {
            if s[0].parent_item == parent {
                assert(seq![s[0]] + children_of(s.drop_first(), parent).push(x) =~= (seq![s[0]]
                    + children_of(s.drop_first(), parent)).push(x));
            }
            assert(children_of(s.push(x), parent) =~= children_of(s, parent).push(x));
        } else {
            assert(children_of(s.push(x), parent) =~= children_of(s, parent));
        }
    }
}

/// The id-linked remote listing, rebuilt from the server's flat item
/// list on every run.
pub struct RemoteFilesystem {
    items: Vec<RemoteItem>,
}

impl View for RemoteFilesystem {
    type V = Seq<RemoteItemModel>;

    closed spec fn view(&self) -> Seq<RemoteItemModel> {
        remote_models(self.items@)
    }
}

impl RemoteFilesystem {
    /// An empty listing.
    pub fn new() -> (r: Self)
        ensures
            r@ == Seq::<RemoteItemModel>::empty(),
    {
        let r = RemoteFilesystem { items: Vec::new() };
        proof {
            assert(remote_models(r.items@) =~= Seq::<RemoteItemModel>::empty());
        }
        r
    }

    /// Insert a listing entry, replacing the entry with the same id if
    /// one is there.
    pub fn add_item(&mut self, item: RemoteItem)
        ensures
            final(self)@ == rf_upsert(old(self)@, item@),
    {
        let ghost s = old(self)@;
        let mut i: usize = 0;
        while i < self.items.len()
            invariant
                self.items@ == old(self).items@,
                s == remote_models(self.items@),
                0 <= i <= self.items@.len(),
                s.len() == self.items@.len(),
                forall|j: int| 0 <= j < self.items@.len() ==> s[j] == self.items@[j]@,
                forall|j: int| 0 <= j < i ==> s[j].id != item@.id,
            decreases self.items@.len() - i,
        {
            if self.items[i].id == item.id {
                proof {
                    assert(s[i as int].id == item@.id);
                    lemma_rf_find_index(s, item@.id);
                    assert(rf_find_index(s, item@.id) == i);
                }
                let ghost items_pre = self.items@;
                let removed = self.items.remove(i);
                self.items.insert(i, item);
                proof {
                    assert(self.items@ =~= items_pre.update(i as int, self.items@[i as int]));
                    assert(remote_models(self.items@) =~= rf_upsert(s, self.items@[i as int]@));
                }
                return ;
            }
            i = i + 1;
        }
        proof {
            lemma_rf_find_index(s, item@.id);
            assert(rf_find_index(s, item@.id) < 0);
        }
        self.items.push(item);
        proof {
            assert(remote_models(self.items@) =~= rf_upsert(
                s,
                self.items@[self.items@.len() - 1]@,
            ));
        }
    }

    /// The entry with the given id, if any.
    pub fn find_item(&self, id: &u64) -> (r: Option<&RemoteItem>)
        ensures
            match r {
                Some(item) => find_by_id(self@, *id) == Some(item@),
                None => find_by_id(self@, *id) is None,
            },
    {
        let ghost s = self@;
        let mut i: usize = 0;
        while i < self.items.len()
            invariant
                s == remote_models(self.items@),
                0 <= i <= self.items@.len(),
                s.len() == self.items@.len(),
                forall|j: int| 0 <= j < self.items@.len() ==> s[j] == self.items@[j]@,
                forall|j: int| 0 <= j < i ==> s[j].id != *id,
            decreases self.items@.len() - i,
        {
            if self.items[i].id == *id {
                proof {
                    assert(s[i as int].id == *id);
                    lemma_rf_find_index(s, *id);
                    assert(rf_find_index(s, *id) == i);
                }
                return Some(&self.items[i]);
            }
            i = i + 1;
        }
        proof {
            lemma_rf_find_index(s, *id);
        }
        None
    }

    /// The entries naming the given parent, in listing order.
    pub fn get_children(&self, id: &u64) -> (r: Vec<RemoteItem>)
        ensures
            remote_models(r@) == children_of(self@, Some(*id)),
    {
        self.children_exec(Some(*id))
    }

    /// The entries with no parent, in listing order.
    pub fn get_roots(&self) -> (r: Vec<RemoteItem>)
        ensures
            remote_models(r@) == children_of(self@, None),
    {
        self.children_exec(None)
    }

    fn children_exec(&self, parent: Option<u64>) -> (r: Vec<RemoteItem>)
        ensures
            remote_models(r@) == children_of(self@, parent),
    {
        let ghost s = self@;
        let mut out: Vec<RemoteItem> = Vec::new();
        let mut i: usize = 0;
        proof {
            assert(remote_models(out@) =~= Seq::<RemoteItemModel>::empty());
            assert(s.take(0) =~= Seq::<RemoteItemModel>::empty());
            assert(children_of(s.take(0), parent) =~= Seq::<RemoteItemModel>::empty());
        }
        while i < self.items.len()
            invariant
                s == remote_models(self.items@),
                0 <= i <= self.items@.len(),
                s.len() == self.items@.len(),
                forall|j: int| 0 <= j < self.items@.len() ==> s[j] == self.items@[j]@,
                remote_models(out@) == children_of(s.take(i as int), parent),
            decreases self.items@.len() - i,
        {
            let it = &self.items[i];
            let matches_parent = match (&it.parent_item, &parent) {
                (None, None) => true,
                (Some(a), Some(b)) => *a == *b,
                _ => false,
            };
            proof {
                assert(s.take(i + 1 as int) =~= s.take(i as int).push(s[i as int]));
                lemma_children_of_snoc(s.take(i as int), s[i as int], parent);
            }
            if matches_parent {
                let ghost out_pre = out@;
                out.push(it.clone());
                proof {
                    assert(remote_models(out@) =~= remote_models(out_pre).push(
                        out@[out@.len() - 1]@,
                    ));
                }
            }
            i = i + 1;
        }
        proof {
            assert(s.take(s.len() as int) =~= s);
        }
        out
    }
}

impl RemoteFilesystem {
    /// The entry a path of names leads to, descending from the roots
    /// by parent links.
    pub fn find_from_path(&self, path: &[ClientString]) -> (r: Option<&RemoteItem>)
        ensures
            match r {
                Some(item) => find_in_graph(self@, None, path_view(path@)) == Some(item@),
                None => find_in_graph(self@, None, path_view(path@)) is None,
            },
    {
        let ghost p = path_view(path@);
        if path.len() == 0 {
            return None;
        }
        let mut parent: Option<u64> = None;
        let mut k: usize = 0;
        proof {
            assert(p.skip(0) =~= p);
        }
        loop
            invariant
                self@ == remote_models(self.items@),
                self@.len() == self.items@.len(),
                forall|j: int| 0 <= j < self.items@.len() ==> self@[j] == self.items@[j]@,
                p == path_view(path@),
                p.len() == path@.len(),
                forall|j: int| 0 <= j < path@.len() ==> p[j] == path@[j]@,
                0 <= k < p.len(),
                find_in_graph(self@, None, p) == find_in_graph(self@, parent, p.skip(k as int)),
            decreases p.len() - k,
        {
            let ghost rest = p.skip(k as int);
            proof {
                assert(rest[0] == p[k as int]);
            }
            let mut i: usize = 0;
            let mut found: Option<usize> = None;
            while found.is_none() && i < self.items.len()
                invariant
                    self@ == remote_models(self.items@),
                    self@.len() == self.items@.len(),
                    forall|j: int| 0 <= j < self.items@.len() ==> self@[j] == self.items@[j]@,
                    p == path_view(path@),
                    p.len() == path@.len(),
                    forall|j: int| 0 <= j < path@.len() ==> p[j] == path@[j]@,
                    0 <= k < p.len(),
                    rest == p.skip(k as int),
                    rest[0] == p[k as int],
                    0 <= i <= self.items@.len(),
                    found matches Some(fi) ==> fi < self.items@.len() && first_child_named(
                        self@,
                        parent,
                        rest[0],
                    ) == Some(self@[fi as int]),
                    found is None ==> first_child_named(self@.take(i as int), parent, rest[0])
                        is None,
                decreases self.items@.len() - i + (if found is None {
                    1int
                } else {
                    0int
                }),
            {
                let it = &self.items[i];
                let matches_parent = match (&it.parent_item, &parent) {
                    (None, None) => true,
                    (Some(a), Some(b)) => *a == *b,
                    _ => false,
                };
                proof {
                    assert(self@.take(i + 1 as int) =~= self@.take(i as int).push(
                        self@[i as int],
                    ));
                    lemma_first_child_named_snoc(self@.take(i as int), self@[i as int], parent, rest[0]);
                }
                if matches_parent && it.name.eq_name(&path[k]) {
                    proof {
                        assert(self@[i as int].parent_item == parent);
                        assert(self@[i as int].name == rest[0]);
                        assert(first_child_named(self@.take(i + 1 as int), parent, rest[0])
                            == Some(self@[i as int]));
                        lemma_first_child_named_extend(self@, i + 1, parent, rest[0]);
                    }
                    found = Some(i);
                } else {
                    i = i + 1;
                }
            }
            match found {
                None => {
                    proof {
                        assert(self@.take(self@.len() as int) =~= self@);
                        assert(first_child_named(self@, parent, rest[0]) is None);
                        assert(find_in_graph(self@, parent, rest) is None);
                    }
                    return None;
                },
                Some(fi) => {
                    if path.len() - k == 1 {
                        proof {
                            assert(rest.len() == 1);
                        }
                        return Some(&self.items[fi]);
                    }
                    proof {
                        assert(rest.drop_first() =~= p.skip(k + 1 as int));
                    }
                    parent = Some(self.items[fi].id);
                    k = k + 1;
                },
            }
        }
    }
}

/// True when some listing entry of the sequence carries the name.
pub open spec fn name_among(name: Seq<u8>, s: Seq<RemoteItemModel>) -> bool {
    exists|i: int| 0 <= i < s.len() && s[i].name == name
}

/// True when one level of the id-linked listing resolves within the
/// given descent allowance: the level is empty, or allowance remains
/// and its entries resolve.
pub open spec fn level_resolvable(s: Seq<RemoteItemModel>, parent: Option<u64>, fuel: nat) -> bool
    decreases fuel, 0int, 0int,
{
    let kids = children_of(s, parent);
    kids.len() == 0 || (fuel > 0 && entries_resolvable(s, kids, (fuel - 1) as nat))
}

/// True when sibling entries resolve: their encoded names are
/// pairwise distinct and each directory's own level resolves.
pub open spec fn entries_resolvable(
    s: Seq<RemoteItemModel>,
    kids: Seq<RemoteItemModel>,
    fuel: nat,
) -> bool
    decreases fuel, 1int, kids.len(),
{
    if kids.len() == 0 {
        true
    } else {
        &&& !name_among(kids[0].name, kids.drop_first())
        &&& (kids[0].is_regular_file || level_resolvable(s, Some(kids[0].id), fuel))
        &&& entries_resolvable(s, kids.drop_first(), fuel)
    }
}

/// Two same-named siblings make a level unresolvable.
proof fn lemma_entries_dup(s: Seq<RemoteItemModel>, kids: Seq<RemoteItemModel>, fuel: nat, j: int, i: int)
    requires
        0 <= j < i < kids.len(),
        kids[j].name == kids[i].name,
    ensures
        !entries_resolvable(s, kids, fuel),
    decreases kids.len(),
{
    if j == 0 {
        assert(kids.drop_first()[i - 1] == kids[i]);
        assert(name_among(kids[0].name, kids.drop_first()));
    } else {
        assert(kids.drop_first()[j - 1] == kids[j]);
        assert(kids.drop_first()[i - 1] == kids[i]);
        lemma_entries_dup(s, kids.drop_first(), fuel, j - 1, i - 1);
    }
}

/// A directory sibling whose own level does not resolve makes the
/// level unresolvable.
proof fn lemma_entries_member_fail(
    s: Seq<RemoteItemModel>,
    kids: Seq<RemoteItemModel>,
    fuel: nat,
    i: int,
)
    requires
        0 <= i < kids.len(),
        !kids[i].is_regular_file,
        !level_resolvable(s, Some(kids[i].id), fuel),
    ensures
        !entries_resolvable(s, kids, fuel),
    decreases kids.len(),
{
    if i == 0 {
    } else {
        assert(kids.drop_first()[i - 1] == kids[i]);
        lemma_entries_member_fail(s, kids.drop_first(), fuel, i - 1);
    }
}

/// Pairwise distinct names and resolving directory members make the
/// level resolve.
proof fn lemma_entries_build(s: Seq<RemoteItemModel>, kids: Seq<RemoteItemModel>, fuel: nat)
    requires
        forall|j1: int, j2: int| 0 <= j1 < j2 < kids.len() ==> kids[j1].name != kids[j2].name,
        forall|j: int|
            0 <= j < kids.len() ==> (#[trigger] kids[j].is_regular_file || level_resolvable(
                s,
                Some(kids[j].id),
                fuel,
            )),
    ensures
        entries_resolvable(s, kids, fuel),
    decreases kids.len(),
{
    if kids.len() == 0 {
    } else {
        assert(!name_among(kids[0].name, kids.drop_first())) by {
            if name_among(kids[0].name, kids.drop_first()) {
                let i = choose|i: int|
                    0 <= i < kids.drop_first().len() && kids.drop_first()[i].name == kids[0].name;
                assert(kids[i + 1] == kids.drop_first()[i]);
            }
        }
        assert(kids[0].is_regular_file || level_resolvable(s, Some(kids[0].id), fuel));
        assert forall|j1: int, j2: int|
            0 <= j1 < j2 < kids.drop_first().len() implies kids.drop_first()[j1].name
            != kids.drop_first()[j2].name by {
            assert(kids.drop_first()[j1] == kids[j1 + 1] && kids.drop_first()[j2] == kids[j2 + 1]);
        }
        assert forall|j: int| 0 <= j < kids.drop_first().len() implies (
        #[trigger] kids.drop_first()[j].is_regular_file || level_resolvable(
            s,
            Some(kids.drop_first()[j].id),
            fuel,
        )) by {
            assert(kids.drop_first()[j] == kids[j + 1]);
        }
        lemma_entries_build(s, kids.drop_first(), fuel);
    }
}

impl RemoteFilesystem {
    /// Resolve the id-linked listing into an owned forest. It
    /// succeeds exactly when every level reachable from the roots
    /// resolves within a descent allowance of one per listing entry;
    /// an error reports same-named siblings, or a descent deeper than
    /// the listing has entries, which only a parent cycle can force.
    pub fn to_forest(&self) -> (r: Result<Vec<LocalItem>, TreeError>)
        ensures
            r matches Ok(f) ==> wf_forest(forest_model(f@)) && forest_resolves(
                self@,
                children_of(self@, None),
                forest_model(f@),
            ),
            r is Ok <==> level_resolvable(self@, None, self@.len()),
            r matches Err(e) ==> e == TreeError::DuplicateName || e == TreeError::CycleDetected,
    {
        let n = self.items.len();
        self.convert_level(None, n)
    }

    fn convert_level(&self, parent: Option<u64>, fuel: usize) -> (r: Result<
        Vec<LocalItem>,
        TreeError,
    >)
        ensures
            r matches Ok(f) ==> wf_forest(forest_model(f@)) && forest_resolves(
                self@,
                children_of(self@, parent),
                forest_model(f@),
            ),
            r is Ok <==> level_resolvable(self@, parent, fuel as nat),
            r matches Err(e) ==> e == TreeError::DuplicateName || e == TreeError::CycleDetected,
        decreases fuel,
    {
        let kids = self.children_exec(parent);
        if kids.len() > 0 && fuel == 0 {
            return Err(TreeError::CycleDetected);
        }
        let ghost ks = remote_models(kids@);
        let ghost sub_fuel = (fuel - 1) as nat;
        let mut out: Vec<LocalItem> = Vec::new();
        let mut i: usize = 0;
        proof {
            assert(forest_model(out@) =~= Seq::<ItemModel>::empty());
            assert(ks.take(0) =~= Seq::<RemoteItemModel>::empty());
            assert(forest_resolves(self@, ks.take(0), forest_model(out@)));
        }
        while i < kids.len()
            invariant
                ks == remote_models(kids@),
                ks == children_of(self@, parent),
                kids@.len() == ks.len(),
                forall|j: int| 0 <= j < kids@.len() ==> ks[j] == kids@[j]@,
                kids@.len() > 0 ==> fuel >= 1,
                sub_fuel == (fuel - 1) as nat,
                0 <= i <= kids@.len(),
                wf_forest(forest_model(out@)),
                forest_resolves(self@, ks.take(i as int), forest_model(out@)),
                forest_model(out@).len() == i,
                forall|j: int| 0 <= j < i ==> (#[trigger] forest_model(out@)[j]).name == ks[j].name,
                forall|j: int|
                    0 <= j < i ==> (#[trigger] ks[j].is_regular_file || level_resolvable(
                        self@,
                        Some(ks[j].id),
                        sub_fuel,
                    )),
            decreases kids@.len() - i,
        {
            let it = &kids[i];
            if forest_has_name(&out, &it.name) {
                proof {
                    let fm = forest_model(out@);
                    let j = choose|j: int| 0 <= j < fm.len() && fm[j].name == it.name@;
                    assert(ks[j].name == ks[i as int].name);
                    lemma_entries_dup(self@, ks, sub_fuel, j, i as int);
                }
                return Err(TreeError::DuplicateName);
            }
            let node_children: Vec<LocalItem> = if it.is_regular_file {
                Vec::new()
            } else {
                match self.convert_level(Some(it.id), fuel - 1) {
                    Ok(c) => c,
                    Err(e) => {
                        proof {
                            lemma_entries_member_fail(self@, ks, sub_fuel, i as int);
                        }
                        return Err(e);
                    },
                }
            };
            let node = LocalItem {
                name: it.name.clone(),
                is_regular_file: it.is_regular_file,
                timestamp: match &it.timestamp {
                    None => 0,
                    Some(t) => *t,
                },
                mime_type: match &it.mimetype {
                    None => None,
                    Some(m) => Some(m.clone()),
                },
                size: if it.is_regular_file {
                    match &it.size {
                        None => 0,
                        Some(sz) => *sz,
                    }
                } else {
                    0
                },
                children: node_children,
            };
            let ghost m = item_model(node);
            let ghost out_pre = out@;
            proof {
                if node.is_regular_file {
                    assert(node.children@ =~= Seq::<LocalItem>::empty());
                    assert(m.children =~= Seq::<ItemModel>::empty());
                }
                assert(item_resolves(self@, ks[i as int], m));
                assert(wf_item(m));
                lemma_wf_snoc(forest_model(out_pre), m);
                lemma_forest_resolves_snoc(
                    self@,
                    ks.take(i as int),
                    forest_model(out_pre),
                    ks[i as int],
                    m,
                );
                assert(ks.take(i + 1 as int) =~= ks.take(i as int).push(ks[i as int]));
            }
            out.push(node);
            proof {
                lemma_forest_model(out_pre);
                lemma_forest_model(out@);
                assert(forest_model(out@) =~= forest_model(out_pre).push(m));
            }
            i = i + 1;
        }
        proof {
            assert(ks.take(ks.len() as int) =~= ks);
            if ks.len() > 0 {
                lemma_wf_forest_members(forest_model(out@));
                assert forall|j1: int, j2: int| 0 <= j1 < j2 < ks.len() implies ks[j1].name
                    != ks[j2].name by {
                    assert(forest_model(out@)[j1].name == ks[j1].name);
                    assert(forest_model(out@)[j2].name == ks[j2].name);
                }
                lemma_entries_build(self@, ks, sub_fuel);
            }
        }
        Ok(out)
    }
}

/// A shorter prefix finding a first child settles the search in the
/// whole listing.
proof fn lemma_first_child_named_extend(
    s: Seq<RemoteItemModel>,
    i: int,
    parent: Option<u64>,
    name: Seq<u8>,
)
    requires
        0 <= i <= s.len(),
        first_child_named(s.take(i), parent, name) is Some,
    ensures
        first_child_named(s, parent, name) == first_child_named(s.take(i), parent, name),
    decreases i,
{
    if i <= 0 {
    } else if s.len() == 0 {
    } else {
        assert(s.take(i)[0] == s[0]);
        if s[0].parent_item == parent && s[0].name == name {
        } else {
            assert(s.take(i).drop_first() =~= s.drop_first().take(i - 1));
            lemma_first_child_named_extend(s.drop_first(), i - 1, parent, name);
        }
    }
}

/// Appending an entry only settles a first-child search that the
/// prefix left open.
proof fn lemma_first_child_named_snoc(
    s: Seq<RemoteItemModel>,
    x: RemoteItemModel,
    parent: Option<u64>,
    name: Seq<u8>,
)
    ensures
        first_child_named(s.push(x), parent, name) == match first_child_named(s, parent, name) {
            Some(it) => Some(it),
            None => if x.parent_item == parent && x.name == name {
                Some(x)
            } else {
                None
            },
        },
    decreases s,
{
    if s.len() == 0 {
        assert(s.push(x) =~= seq![x]);
        assert(s.push(x).drop_first() =~= Seq::<RemoteItemModel>::empty());
        assert(first_child_named(s, parent, name) is None);
        assert(first_child_named(Seq::<RemoteItemModel>::empty(), parent, name) is None);
        assert(s.push(x)[0] == x);
        if x.parent_item == parent && x.name == name {
            assert(first_child_named(s.push(x), parent, name) == Some(x));
        } else {
            assert(first_child_named(s.push(x), parent, name) is None);
        }
    } else {
        lemma_first_child_named_snoc(s.drop_first(), x, parent, name);
        assert(s.push(x).drop_first() =~= s.drop_first().push(x));
        assert(s.push(x)[0] == s[0]);
        if s[0].parent_item == parent && s[0].name == name {
            assert(first_child_named(s.push(x), parent, name) == Some(s[0]));
            assert(first_child_named(s, parent, name) == Some(s[0]));
        }
    }
}

/// The index returned by [`rf_find_index`] is in range and carries the
/// id, and exists exactly when the id occurs.
pub proof fn lemma_rf_find_index(s: Seq<RemoteItemModel>, id: u64)
    ensures
        rf_find_index(s, id) >= 0 ==> rf_find_index(s, id) < s.len() && s[rf_find_index(s, id)].id
            == id,
        (rf_find_index(s, id) >= 0) <==> exists|i: int| 0 <= i < s.len() && s[i].id == id,
        forall|j: int| 0 <= j < rf_find_index(s, id) ==> s[j].id != id,
    decreases s,
{
    if s.len() == 0 {
    } else if s[0].id == id {
    } else {
        lemma_rf_find_index(s.drop_first(), id);
        assert forall|i: int| 0 <= i < s.len() && s[i].id == id implies rf_find_index(s, id)
            >= 0 by {
            assert(s.drop_first()[i - 1] == s[i]);
        }
        assert forall|j: int| 0 <= j < rf_find_index(s, id) implies s[j].id != id by {
            if j > 0 {
                assert(s[j] == s.drop_first()[j - 1]);
            }
        }
    }
}

} // verus!
