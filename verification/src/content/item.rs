//! The node model of a filesystem entry.
//!
//! [`LocalItem`] is an owned recursive tree node: the shape used for the
//! scanned tree, the persisted snapshot, and (after resolution) the
//! remote listing. [`RemoteItem`] is one flat entry of the remote
//! listing, tied to its tree by ids.

use crate::client_string::ClientString;
use vstd::prelude::*;

verus! {

/// The mathematical value of a [`LocalItem`]: names as encoded byte
/// strings, children as a sequence of models.
#[verifier::ext_equal]
pub struct ItemModel {
    pub name: Seq<u8>,
    pub is_regular_file: bool,
    pub timestamp: u64,
    pub mime_type: Option<Seq<u8>>,
    pub size: u64,
    pub children: Seq<ItemModel>,
}

/// The mathematical value of a [`RemoteItem`].
pub struct RemoteItemModel {
    pub id: u64,
    pub name: Seq<u8>,
    pub is_regular_file: bool,
    pub parent_item: Option<u64>,
    pub size: Option<u64>,
    pub mimetype: Option<Seq<u8>>,
    pub timestamp: Option<u64>,
}

/// A node of an owned filesystem tree: a regular file, or a directory
/// with its children.
pub struct LocalItem {
    pub name: ClientString,
    pub is_regular_file: bool,
    pub timestamp: u64,
    pub mime_type: Option<ClientString>,
    pub size: u64,
    pub children: Vec<LocalItem>,
}

/// One entry of a remote listing. Parent and children are resolved by
/// id against the enclosing tree.
pub struct RemoteItem {
    pub id: u64,
    pub name: ClientString,
    pub is_regular_file: bool,
    pub parent_item: Option<u64>,
    pub size: Option<u64>,
    pub mimetype: Option<ClientString>,
    pub timestamp: Option<u64>,
}

/// The model of an optional encoded string.
pub open spec fn opt_view(o: Option<ClientString>) -> Option<Seq<u8>> {
    match o {
        None => None,
        Some(c) => Some(c@),
    }
}

/// The model of a tree node.
pub open spec fn item_model(item: LocalItem) -> ItemModel
    decreases item,
{
    ItemModel {
        name: item.name@,
        is_regular_file: item.is_regular_file,
        timestamp: item.timestamp,
        mime_type: opt_view(item.mime_type),
        size: item.size,
        children: forest_model(item.children@),
    }
}

/// The model of a sequence of tree nodes.
pub open spec fn forest_model(s: Seq<LocalItem>) -> Seq<ItemModel>
    decreases s,
{
    if s.len() == 0 {
        Seq::<ItemModel>::empty()
    } else {
        seq![item_model(s[0])] + forest_model(s.drop_first())
    }
}

impl View for LocalItem {
    type V = ItemModel;

    open spec fn view(&self) -> ItemModel {
        item_model(*self)
    }
}

impl View for RemoteItem {
    type V = RemoteItemModel;

    open spec fn view(&self) -> RemoteItemModel {
        RemoteItemModel {
            id: self.id,
            name: self.name@,
            is_regular_file: self.is_regular_file,
            parent_item: self.parent_item,
            size: self.size,
            mimetype: opt_view(self.mimetype),
            timestamp: self.timestamp,
        }
    }
}

/// A forest model maps each node to its model, in order.
pub proof fn lemma_forest_model(s: Seq<LocalItem>)
    ensures
        forest_model(s).len() == s.len(),
        forall|i: int| 0 <= i < s.len() ==> forest_model(s)[i] == item_model(s[i]),
    decreases s,
{
    if s.len() == 0 {
    } else {
        lemma_forest_model(s.drop_first());
    }
}

/// True when some node of the forest carries the given name.
pub open spec fn name_in_forest(name: Seq<u8>, s: Seq<ItemModel>) -> bool {
    exists|i: int| 0 <= i < s.len() && s[i].name == name
}

/// A well-formed forest: sibling names are unique and every node is
/// well formed.
pub open spec fn wf_forest(s: Seq<ItemModel>) -> bool
    decreases s,
{
    if s.len() == 0 {
        true
    } else {
        wf_item(s[0]) && !name_in_forest(s[0].name, s.drop_first()) && wf_forest(s.drop_first())
    }
}

/// A well-formed node: a regular file has no children, a directory has
/// size zero, and the children form a well-formed forest.
pub open spec fn wf_item(m: ItemModel) -> bool
    decreases m,
{
    &&& (m.is_regular_file ==> m.children.len() == 0)
    &&& (!m.is_regular_file ==> m.size == 0)
    &&& wf_forest(m.children)
}

/// Every member of a well-formed forest is well formed, and members
/// with distinct positions carry distinct names.
pub proof fn lemma_wf_forest_members(s: Seq<ItemModel>)
    requires
        wf_forest(s),
    ensures
        forall|i: int| 0 <= i < s.len() ==> wf_item(#[trigger] s[i]),
        forall|i: int, j: int| 0 <= i < j < s.len() ==> s[i].name != s[j].name,
    decreases s,
{
    if s.len() == 0 {
    } else {
        lemma_wf_forest_members(s.drop_first());
        assert forall|i: int| 0 <= i < s.len() implies wf_item(#[trigger] s[i]) by {
            if i > 0 {
                assert(s[i] == s.drop_first()[i - 1]);
            }
        }
        assert forall|i: int, j: int| 0 <= i < j < s.len() implies s[i].name != s[j].name by {
            if i == 0 {
                assert(s.drop_first()[j - 1] == s[j]);
                assert(name_in_forest(s[j].name, s.drop_first()) ==> s[0].name != s[j].name || true);
                if s[0].name == s[j].name {
                    assert(name_in_forest(s[0].name, s.drop_first()));
                }
            } else {
                assert(s[i] == s.drop_first()[i - 1] && s[j] == s.drop_first()[j - 1]);
            }
        }
    }
}

/// Appending a fresh well-formed node keeps a forest well formed.
pub proof fn lemma_wf_snoc(f: Seq<ItemModel>, m: ItemModel)
    requires
        wf_forest(f),
        wf_item(m),
        !name_in_forest(m.name, f),
    ensures
        wf_forest(f.push(m)),
    decreases f,
{
    if f.len() == 0 {
        assert(f.push(m) =~= seq![m]);
        assert(f.push(m).drop_first() =~= Seq::<ItemModel>::empty());
        assert(wf_forest(f.push(m).drop_first()));
        assert(!name_in_forest(m.name, f.push(m).drop_first()));
        assert(wf_forest(f.push(m)));
    } else {
        assert(m.name != f[0].name);
        assert(!name_in_forest(m.name, f.drop_first())) by {
            if name_in_forest(m.name, f.drop_first()) {
                let i = choose|i: int|
                    0 <= i < f.drop_first().len() && f.drop_first()[i].name == m.name;
                assert(f[i + 1] == f.drop_first()[i]);
            }
        }
        lemma_wf_snoc(f.drop_first(), m);
        assert(f.push(m).drop_first() =~= f.drop_first().push(m));
        assert(!name_in_forest(f[0].name, f.drop_first().push(m))) by {
            if name_in_forest(f[0].name, f.drop_first().push(m)) {
                let i = choose|i: int|
                    0 <= i < f.drop_first().push(m).len() && f.drop_first().push(m)[i].name
                        == f[0].name;
                if i < f.drop_first().len() {
                    assert(f.drop_first()[i].name == f[0].name);
                }
            }
        }
        assert(wf_forest(f.push(m)));
    }
}

/// The position of the first node with the given name, or -1.
pub open spec fn find_index(s: Seq<ItemModel>, name: Seq<u8>) -> int
    decreases s,
{
    if s.len() == 0 {
        -1
    } else if s[0].name == name {
        0
    } else {
        let r = find_index(s.drop_first(), name);
        if r < 0 {
            -1
        } else {
            r + 1
        }
    }
}

/// The first node with the given name, if any.
pub open spec fn find_named(s: Seq<ItemModel>, name: Seq<u8>) -> Option<ItemModel> {
    if find_index(s, name) >= 0 {
        Some(s[find_index(s, name)])
    } else {
        None
    }
}

/// Replace the node with the same name, or append the node.
pub open spec fn upsert_child(s: Seq<ItemModel>, c: ItemModel) -> Seq<ItemModel> {
    if find_index(s, c.name) >= 0 {
        s.update(find_index(s, c.name), c)
    } else {
        s.push(c)
    }
}

/// Drop the node with the given name, if present.
pub open spec fn remove_named(s: Seq<ItemModel>, name: Seq<u8>) -> Seq<ItemModel> {
    if find_index(s, name) >= 0 {
        s.remove(find_index(s, name))
    } else {
        s
    }
}

/// The index returned by [`find_index`] is in range, carries the name,
/// and exists exactly when the name occurs in the forest.
pub proof fn lemma_find_index(s: Seq<ItemModel>, name: Seq<u8>)
    ensures
        find_index(s, name) >= 0 ==> find_index(s, name) < s.len() && s[find_index(s, name)].name
            == name,
        (find_index(s, name) >= 0) <==> name_in_forest(name, s),
        forall|j: int| 0 <= j < find_index(s, name) ==> s[j].name != name,
    decreases s,
{
    if s.len() == 0 {
    } else if s[0].name == name {
    } else {
        lemma_find_index(s.drop_first(), name);
        assert forall|i: int| 0 <= i < s.len() && s[i].name == name implies find_index(s, name)
            >= 0 by {
            assert(s.drop_first()[i - 1] == s[i]);
        }
        if name_in_forest(name, s) {
        }
        assert forall|j: int| 0 <= j < find_index(s, name) implies s[j].name != name by {
            if j > 0 {
                assert(s[j] == s.drop_first()[j - 1]);
            }
        }
    }
}

/// Upserting a well-formed node into a well-formed forest keeps the
/// forest well formed, and afterwards the name maps to the new node
/// while every other name maps to what it mapped to before.
pub proof fn lemma_wf_upsert(s: Seq<ItemModel>, c: ItemModel)
    requires
        wf_forest(s),
        wf_item(c),
    ensures
        wf_forest(upsert_child(s, c)),
        find_named(upsert_child(s, c), c.name) == Some(c),
        forall|n: Seq<u8>| n != c.name ==> find_named(upsert_child(s, c), n) == find_named(s, n),
    decreases s,
{
    lemma_find_index(s, c.name);
    if s.len() == 0 {
        let r = upsert_child(s, c);
        assert(r =~= seq![c]);
        assert(r.drop_first() =~= Seq::<ItemModel>::empty());
        assert(!name_in_forest(c.name, r.drop_first()));
        assert(wf_forest(r.drop_first()));
        assert(wf_forest(r));
        assert forall|n: Seq<u8>| n != c.name implies find_named(r, n) == find_named(s, n) by {
            assert(find_index(Seq::<ItemModel>::empty(), n) == -1);
            assert(find_index(r, n) < 0);
        }
    } else if s[0].name == c.name {
        let r = upsert_child(s, c);
        assert(r =~= seq![c] + s.drop_first());
        assert(r.drop_first() =~= s.drop_first());
        assert(wf_forest(r));
        assert forall|n: Seq<u8>| n != c.name implies find_named(r, n) == find_named(s, n) by {
            lemma_find_index(r, n);
            lemma_find_index(s, n);
            assert(find_index(r, n) == find_index(s, n));
        }
    } else {
        lemma_wf_upsert(s.drop_first(), c);
        let r = upsert_child(s, c);
        assert(r.drop_first() =~= upsert_child(s.drop_first(), c));
        assert(r[0] == s[0]);
        assert(!name_in_forest(s[0].name, upsert_child(s.drop_first(), c))) by {
            assert(find_named(upsert_child(s.drop_first(), c), s[0].name) == find_named(
                s.drop_first(),
                s[0].name,
            ));
            lemma_find_index(upsert_child(s.drop_first(), c), s[0].name);
            lemma_find_index(s.drop_first(), s[0].name);
        }
        assert(wf_forest(r));
        lemma_find_index(r, c.name);
        assert(find_named(r, c.name) == Some(c));
        assert forall|n: Seq<u8>| n != c.name implies find_named(r, n) == find_named(s, n) by {
            lemma_find_index(r, n);
            lemma_find_index(s, n);
            if r[0].name == n {
            } else {
                assert(find_named(upsert_child(s.drop_first(), c), n) == find_named(
                    s.drop_first(),
                    n,
                ));
                lemma_find_index(upsert_child(s.drop_first(), c), n);
                lemma_find_index(s.drop_first(), n);
            }
        }
    }
}

/// Dropping a name from a well-formed forest keeps it well formed;
/// afterwards the name is absent and every other name maps to what it
/// mapped to before.
pub proof fn lemma_wf_remove(s: Seq<ItemModel>, name: Seq<u8>)
    requires
        wf_forest(s),
    ensures
        wf_forest(remove_named(s, name)),
        find_named(remove_named(s, name), name) is None,
        forall|n: Seq<u8>| n != name ==> find_named(remove_named(s, name), n) == find_named(s, n),
    decreases s,
{
    lemma_find_index(s, name);
    if s.len() == 0 {
    } else if s[0].name == name {
        let r = remove_named(s, name);
        assert(r =~= s.drop_first());
        lemma_find_index(r, name);
        assert forall|n: Seq<u8>| n != name implies find_named(r, n) == find_named(s, n) by {
            lemma_find_index(s, n);
            lemma_find_index(s.drop_first(), n);
            if find_index(s.drop_first(), n) >= 0 {
                assert(s[find_index(s.drop_first(), n) + 1] == s.drop_first()[find_index(
                    s.drop_first(),
                    n,
                )]);
            }
        }
    } else {
        lemma_wf_remove(s.drop_first(), name);
        if find_index(s, name) >= 0 {
            let r = remove_named(s, name);
            assert(r.drop_first() =~= remove_named(s.drop_first(), name));
            assert(r[0] == s[0]);
            assert(!name_in_forest(s[0].name, remove_named(s.drop_first(), name))) by {
                assert(s[0].name != name);
                assert(find_named(remove_named(s.drop_first(), name), s[0].name) == find_named(
                    s.drop_first(),
                    s[0].name,
                ));
                lemma_find_index(remove_named(s.drop_first(), name), s[0].name);
                lemma_find_index(s.drop_first(), s[0].name);
            }
            assert(wf_forest(r));
            lemma_find_index(r, name);
            assert forall|n: Seq<u8>| n != name implies find_named(r, n) == find_named(s, n) by {
                lemma_find_index(r, n);
                lemma_find_index(s, n);
                if r[0].name == n {
                } else {
                    assert(find_named(remove_named(s.drop_first(), name), n) == find_named(
                        s.drop_first(),
                        n,
                    ));
                    lemma_find_index(remove_named(s.drop_first(), name), n);
                    lemma_find_index(s.drop_first(), n);
                }
            }
        }
    }
}

impl LocalItem {
    /// A fresh childless node.
    pub fn new(
        name: ClientString,
        is_regular_file: bool,
        timestamp: u64,
        mime_type: Option<ClientString>,
        size: u64,
    ) -> (r: Self)
        ensures
            r@ == (ItemModel {
                name: name@,
                is_regular_file,
                timestamp,
                mime_type: opt_view(mime_type),
                size,
                children: Seq::<ItemModel>::empty(),
            }),
    {
        let r = LocalItem { name, is_regular_file, timestamp, mime_type, size, children: Vec::new() };
        proof {
            assert(forest_model(r.children@) =~= Seq::<ItemModel>::empty());
        }
        r
    }

    /// The node's name.
    pub fn name(&self) -> (r: ClientString)
        ensures
            r@ == self@.name,
    {
        self.name.clone()
    }

    /// True for a regular file, false for a directory.
    pub fn is_regular_file(&self) -> (r: bool)
        ensures
            r == self@.is_regular_file,
    {
        self.is_regular_file
    }

    /// The node's size in bytes.
    pub fn size(&self) -> (r: u64)
        ensures
            r == self@.size,
    {
        self.size
    }

    /// The node's modification time, in milliseconds since the epoch.
    pub fn timestamp(&self) -> (r: u64)
        ensures
            r == self@.timestamp,
    {
        self.timestamp
    }

    /// The node's media type; empty when none is known.
    pub fn mime_type(&self) -> (r: ClientString)
        ensures
            r@ == match self@.mime_type {
                None => Seq::<u8>::empty(),
                Some(m) => m,
            },
    {
        match &self.mime_type {
            None => ClientString::default(),
            Some(s) => s.clone(),
        }
    }

    /// The node's children.
    pub fn children(&self) -> (r: &Vec<LocalItem>)
        ensures
            forest_model(r@) == self@.children,
    {
        &self.children
    }

    /// Insert a child, replacing the same-named sibling if one is
    /// there.
    pub fn add_child(&mut self, new_child: LocalItem)
        ensures
            final(self)@ == (ItemModel {
                children: upsert_child(old(self)@.children, new_child@),
                ..old(self)@
            }),
    {
        forest_upsert(&mut self.children, new_child);
    }

    /// Drop the child with the given name; an error when there is
    /// none.
    pub fn remove_child(&mut self, name: &ClientString) -> (r: Result<(), TreeError>)
        ensures
            final(self)@ == (ItemModel {
                children: remove_named(old(self)@.children, name@),
                ..old(self)@
            }),
            r is Ok <==> name_in_forest(name@, old(self)@.children),
    {
        forest_remove(&mut self.children, name)
    }
}

/// Copy a forest of nodes; the copy carries the same model.
pub fn clone_forest(items: &Vec<LocalItem>) -> (r: Vec<LocalItem>)
    ensures
        forest_model(r@) == forest_model(items@),
    decreases items@,
{
    let ghost s = forest_model(items@);
    proof {
        lemma_forest_model(items@);
    }
    let mut r: Vec<LocalItem> = Vec::new();
    let mut i: usize = 0;
    proof {
        assert(forest_model(r@) =~= Seq::<ItemModel>::empty());
    }
    while i < items.len()
        invariant
            s == forest_model(items@),
            0 <= i <= items@.len(),
            s.len() == items@.len(),
            forall|j: int| 0 <= j < items@.len() ==> s[j] == item_model(items@[j]),
            forest_model(r@) == s.take(i as int),
        decreases items@.len() - i,
    {
        let c = clone_item(&items[i]);
        let ghost r_pre = r@;
        r.push(c);
        proof {
            lemma_forest_model(r_pre);
            lemma_forest_model(r@);
            assert(forest_model(r@) =~= s.take(i + 1 as int));
        }
        i = i + 1;
    }
    proof {
        assert(s.take(s.len() as int) =~= s);
    }
    r
}

/// Copy one node and its subtree; the copy carries the same model.
pub fn clone_item(item: &LocalItem) -> (r: LocalItem)
    ensures
        r@ == item@,
    decreases item,
{
    LocalItem {
        name: item.name.clone(),
        is_regular_file: item.is_regular_file,
        timestamp: item.timestamp,
        mime_type: match &item.mime_type {
            None => None,
            Some(m) => Some(m.clone()),
        },
        size: item.size,
        children: clone_forest(&item.children),
    }
}

impl Clone for LocalItem {
    /// The copy carries the same model.
    fn clone(&self) -> (r: Self)
        ensures
            r@ == self@,
    {
        clone_item(self)
    }
}

impl Clone for RemoteItem {
    /// The copy carries the same model.
    fn clone(&self) -> (r: Self)
        ensures
            r@ == self@,
    {
        RemoteItem {
            id: self.id,
            name: self.name.clone(),
            is_regular_file: self.is_regular_file,
            parent_item: self.parent_item,
            size: self.size,
            mimetype: match &self.mimetype {
                None => None,
                Some(m) => Some(m.clone()),
            },
            timestamp: self.timestamp,
        }
    }
}

/// True exactly when some node of the forest carries the name.
pub fn forest_has_name(items: &Vec<LocalItem>, name: &ClientString) -> (r: bool)
    ensures
        r == name_in_forest(name@, forest_model(items@)),
{
    let ghost s = forest_model(items@);
    proof {
        lemma_forest_model(items@);
    }
    let mut i: usize = 0;
    while i < items.len()
        invariant
            s == forest_model(items@),
            0 <= i <= items@.len(),
            s.len() == items@.len(),
            forall|j: int| 0 <= j < items@.len() ==> s[j] == item_model(items@[j]),
            forall|j: int| 0 <= j < i ==> s[j].name != name@,
        decreases items@.len() - i,
    {
        if items[i].name.eq_name(name) {
            proof {
                assert(s[i as int].name == name@);
            }
            return true;
        }
        i = i + 1;
    }
    false
}

/// The failure of a tree lookup or mutation.
#[derive(Clone, Copy, Debug, PartialEq, Eq, Structural)]
pub enum TreeError {
    /// No entry with the asked-for name on the asked-for path.
    NotFound,
    /// The remote listing links its entries into a cycle.
    CycleDetected,
    /// Two sibling entries carry the same encoded name.
    DuplicateName,
}

/// Insert a node into a forest, replacing the same-named node if one
/// is there.
pub fn forest_upsert(items: &mut Vec<LocalItem>, new_child: LocalItem)
    ensures
        forest_model(final(items)@) == upsert_child(forest_model(old(items)@), new_child@),
{
    let ghost s = forest_model(old(items)@);
    proof {
        lemma_forest_model(old(items)@);
        lemma_find_index(s, new_child@.name);
    }
    let mut i: usize = 0;
    while i < items.len()
        invariant
            items@ == old(items)@,
            0 <= i <= items@.len(),
            s == forest_model(items@),
            s.len() == items@.len(),
            forall|j: int| 0 <= j < items@.len() ==> s[j] == item_model(items@[j]),
            forall|j: int| 0 <= j < i ==> s[j].name != new_child@.name,
        decreases items@.len() - i,
    {
        if items[i].name.eq_name(&new_child.name) {
            proof {
                assert(s[i as int].name == new_child@.name);
                assert(find_index(s, new_child@.name) == i) by {
                    lemma_find_index(s, new_child@.name);
                }
            }
            let removed = items.remove(i);
            items.insert(i, new_child);
            proof {
                lemma_forest_model(items@);
                assert(items@ =~= old(items)@.update(i as int, items@[i as int]));
                assert(forest_model(items@) =~= upsert_child(s, item_model(items@[i as int])));
            }
            return ;
        }
        i = i + 1;
    }
    proof {
        assert(find_index(s, new_child@.name) < 0) by {
            lemma_find_index(s, new_child@.name);
        }
    }
    items.push(new_child);
    proof {
        lemma_forest_model(items@);
        assert(forest_model(items@) =~= upsert_child(s, item_model(items@[items@.len() - 1])));
    }
}

/// Drop the node with the given name from a forest; an error when
/// there is none.
pub fn forest_remove(items: &mut Vec<LocalItem>, name: &ClientString) -> (r: Result<
    (),
    TreeError,
>)
    ensures
        forest_model(final(items)@) == remove_named(forest_model(old(items)@), name@),
        r is Ok <==> name_in_forest(name@, forest_model(old(items)@)),
{
    let ghost s = forest_model(old(items)@);
    proof {
        lemma_forest_model(old(items)@);
        lemma_find_index(s, name@);
    }
    let mut i: usize = 0;
    while i < items.len()
        invariant
            items@ == old(items)@,
            0 <= i <= items@.len(),
            s == forest_model(items@),
            s.len() == items@.len(),
            forall|j: int| 0 <= j < items@.len() ==> s[j] == item_model(items@[j]),
            forall|j: int| 0 <= j < i ==> s[j].name != name@,
        decreases items@.len() - i,
    {
        if items[i].name.eq_name(name) {
            proof {
                assert(s[i as int].name == name@);
                assert(find_index(s, name@) == i) by {
                    lemma_find_index(s, name@);
                }
            }
            let removed = items.remove(i);
            proof {
                lemma_forest_model(items@);
                assert(forest_model(items@) =~= remove_named(s, name@));
            }
            return Ok(());
        }
        i = i + 1;
    }
    proof {
        assert(find_index(s, name@) < 0) by {
            lemma_find_index(s, name@);
        }
        assert(remove_named(s, name@) == s);
    }
    Err(TreeError::NotFound)
}

} // verus!
