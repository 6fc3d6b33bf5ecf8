//! The data model: checkable items, named lists, and the collection that maps
//! list names to lists, together with their textual rendering.
//!
//! Each executable type has a mathematical view: an [`Item`] is a checked flag
//! and a character sequence, a [`List`] is a name and a sequence of item
//! views, and a [`Collection`] is a sequence of list views whose names are
//! pairwise distinct.

use vstd::prelude::*;

use crate::error::StoreError;

verus! {

// ---------------------------------------------------------------------------
// Views
// ---------------------------------------------------------------------------

/// The mathematical value of an [`Item`].
#[verifier::ext_equal]
pub struct ItemV {
    pub checked: bool,
    pub text: Seq<char>,
}

/// The mathematical value of a [`List`].
#[verifier::ext_equal]
pub struct ListV {
    pub name: Seq<char>,
    pub items: Seq<ItemV>,
}

/// The mathematical value of a [`Mutation`].
pub enum MutationV {
    Append(ItemV),
    RemoveAt(int),
    ToggleAt(int),
}

// ---------------------------------------------------------------------------
// Spec-level mutations
// ---------------------------------------------------------------------------

/// An item with its checked flag flipped.
pub open spec fn spec_toggle_item(it: ItemV) -> ItemV {
    ItemV { checked: !it.checked, text: it.text }
}

/// A list with `it` appended at the end.
pub open spec fn spec_append(l: ListV, it: ItemV) -> ListV {
    ListV { name: l.name, items: l.items.push(it) }
}

/// A list with the item at `i` removed; later items shift down by one.
pub open spec fn spec_remove_at(l: ListV, i: int) -> ListV {
    ListV { name: l.name, items: l.items.remove(i) }
}

/// A list with the item at `i` toggled.
pub open spec fn spec_toggle_at(l: ListV, i: int) -> ListV {
    ListV { name: l.name, items: l.items.update(i, spec_toggle_item(l.items[i])) }
}

/// What applying one mutation to one list yields: the mutated list, or
/// `OutOfRange` exactly when the mutation addresses an index at or beyond the
/// list's length.
pub open spec fn spec_mutate_list(l: ListV, m: MutationV) -> Result<ListV, StoreError> {
    match m {
        MutationV::Append(it) => Ok(spec_append(l, it)),
        MutationV::RemoveAt(i) => if 0 <= i < l.items.len() {
            Ok(spec_remove_at(l, i))
        } else {
            Err(StoreError::OutOfRange)
        },
        MutationV::ToggleAt(i) => if 0 <= i < l.items.len() {
            Ok(spec_toggle_at(l, i))
        } else {
            Err(StoreError::OutOfRange)
        },
    }
}

// ---------------------------------------------------------------------------
// Spec-level collection lookups
// ---------------------------------------------------------------------------

/// Whether some list in `ls` carries the name `n`.
pub open spec fn has_name(ls: Seq<ListV>, n: Seq<char>) -> bool {
    exists|i: int| 0 <= i < ls.len() && ls[i].name == n
}

/// The index of the list named `n`. Under [`names_unique`] there is at most
/// one such index, so this picks it.
pub open spec fn idx_of(ls: Seq<ListV>, n: Seq<char>) -> int {
    choose|i: int| 0 <= i < ls.len() && ls[i].name == n
}

/// The list named `n` (meaningful only when [`has_name`] holds).
pub open spec fn list_at(ls: Seq<ListV>, n: Seq<char>) -> ListV {
    ls[idx_of(ls, n)]
}

/// List names are pairwise distinct: the collection is a mapping.
pub open spec fn names_unique(ls: Seq<ListV>) -> bool {
    forall|i: int, j: int| 0 <= i < j < ls.len() ==> ls[i].name != ls[j].name
}

/// The names of the lists, in collection order.
pub open spec fn names_of(ls: Seq<ListV>) -> Seq<Seq<char>> {
    ls.map_values(|l: ListV| l.name)
}

// ---------------------------------------------------------------------------
// Rendering (specification)
// ---------------------------------------------------------------------------

/// `"[X] text"` when checked, `"[ ] text"` when unchecked.
pub open spec fn spec_render_item(it: ItemV) -> Seq<char> {
    "["@ + (if it.checked {
        "X"@
    } else {
        " "@
    }) + "] "@ + it.text
}

/// Each item's rendering, preceded by a newline.
pub open spec fn spec_render_items(its: Seq<ItemV>) -> Seq<char>
    decreases its.len(),
{
    if its.len() == 0 {
        Seq::empty()
    } else {
        spec_render_items(its.drop_last()) + "\n"@ + spec_render_item(its.last())
    }
}

/// The list's name, a colon, then the items one per line.
pub open spec fn spec_render_list(l: ListV) -> Seq<char> {
    l.name + ":"@ + spec_render_items(l.items)
}

/// The names joined by newlines, with no trailing newline.
pub open spec fn spec_render_names(ns: Seq<Seq<char>>) -> Seq<char>
    decreases ns.len(),
{
    if ns.len() == 0 {
        Seq::empty()
    } else if ns.len() == 1 {
        ns.last()
    } else {
        spec_render_names(ns.drop_last()) + "\n"@ + ns.last()
    }
}

// ---------------------------------------------------------------------------
// Item
// ---------------------------------------------------------------------------

/// A checkable unit of text. Created unchecked; mutated only by toggling.
#[derive(Debug, PartialEq, Eq)]
pub struct Item {
    pub checked: bool,
    pub text: String,
}

impl View for Item {
    type V = ItemV;

    open spec fn view(&self) -> ItemV {
        ItemV { checked: self.checked, text: self.text@ }
    }
}

impl Clone for Item {
    fn clone(&self) -> (r: Self)
        ensures
            r@ == self@,
    {
        Item { checked: self.checked, text: self.text.clone() }
    }
}

impl Item {
    /// A fresh, unchecked item with the given text.
    pub fn new(text: &str) -> (r: Item)
        ensures
            r@ == (ItemV { checked: false, text: text@ }),
    {
        Item { checked: false, text: text.to_owned() }
    }

    /// Flips the checked flag in place.
    pub fn toggle(&mut self)
        ensures
            final(self)@ == spec_toggle_item(old(self)@),
    {
        self.checked = !self.checked;
    }

    /// Renders the item as `"[X] text"` or `"[ ] text"`.
    pub fn render(&self) -> (r: String)
        ensures
            r@ == spec_render_item(self@),
    {
        let mut s = String::new();
        s.append("[");
        if self.checked {
            s.append("X");
        } else {
            s.append(" ");
        }
        s.append("] ");
        s.append(self.text.as_str());
        proof {
            assert(s@ =~= spec_render_item(self@));
        }
        s
    }
}

// ---------------------------------------------------------------------------
// List
// ---------------------------------------------------------------------------

/// A named, ordered sequence of items. Items are addressed by position.
#[derive(Debug, PartialEq, Eq)]
pub struct List {
    pub name: String,
    pub items: Vec<Item>,
}

impl View for List {
    type V = ListV;

    open spec fn view(&self) -> ListV {
        ListV { name: self.name@, items: self.items@.map_values(|it: Item| it@) }
    }
}

impl Clone for List {
    fn clone(&self) -> (r: Self)
        ensures
            r@ == self@,
    {
        let mut items: Vec<Item> = Vec::new();
        let n = self.items.len();
        let mut i: usize = 0;
        while i < n
            invariant
                n == self.items.len(),
                i <= n,
                items@.map_values(|it: Item| it@) =~= self@.items.take(i as int),
            decreases n - i,
        {
            let cl = self.items[i].clone();
            let ghost prev = items@;
            items.push(cl);
            proof {
                assert(items@ == prev.push(cl));
                assert(prev.map_values(|it: Item| it@).len() == prev.len());
                assert(items@.len() == i + 1);
                assert forall|k: int| 0 <= k < i + 1 implies items@.map_values(
                    |it: Item| it@,
                )[k] == #[trigger] self@.items.take(i + 1)[k] by {
                    assert(items@.map_values(|it: Item| it@)[k] == items@[k]@);
                    if k < i {
                        assert(prev.map_values(|it: Item| it@)[k] == prev[k]@);
                        assert(prev[k]@ == self@.items.take(i as int)[k]);
                    }
                }
                assert(items@.map_values(|it: Item| it@) =~= self@.items.take(i + 1));
            }
            i += 1;
        }
        proof {
            assert(self@.items.take(n as int) =~= self@.items);
        }
        List { name: self.name.clone(), items }
    }
}

impl List {
    /// A fresh list with the given name and no items.
    pub fn new(name: &str) -> (r: List)
        ensures
            r@ == (ListV { name: name@, items: Seq::<ItemV>::empty() }),
    {
        let r = List { name: name.to_owned(), items: Vec::new() };
        proof {
            assert(r@.items =~= Seq::<ItemV>::empty());
        }
        r
    }

    /// Appends `item` at the end of the list.
    pub fn push_item(&mut self, item: Item)
        ensures
            final(self)@ == spec_append(old(self)@, item@),
    {
        self.items.push(item);
        proof {
            assert(self@.items =~= old(self)@.items.push(self.items@.last()@));
        }
    }

    /// Removes the item at `index`; later items shift down by one.
    /// Fails with `OutOfRange`, leaving the list unchanged, exactly when
    /// `index` is at or beyond the list's length.
    pub fn remove_item(&mut self, index: usize) -> (r: Result<(), StoreError>)
        ensures
            r == (match spec_mutate_list(old(self)@, MutationV::RemoveAt(index as int)) {
                Ok(_) => Ok::<(), StoreError>(()),
                Err(e) => Err::<(), StoreError>(e),
            }),
            final(self)@ == (match spec_mutate_list(old(self)@, MutationV::RemoveAt(index as int)) {
                Ok(l) => l,
                Err(_) => old(self)@,
            }),
    {
        if index < self.items.len() {
            self.items.remove(index);
            proof {
                assert(self@.items =~= old(self)@.items.remove(index as int));
            }
            Ok(())
        } else {
            Err(StoreError::OutOfRange)
        }
    }

    /// Flips the checked flag of the item at `index`.
    /// Fails with `OutOfRange`, leaving the list unchanged, exactly when
    /// `index` is at or beyond the list's length.
    pub fn toggle_item(&mut self, index: usize) -> (r: Result<(), StoreError>)
        ensures
            r == (match spec_mutate_list(old(self)@, MutationV::ToggleAt(index as int)) {
                Ok(_) => Ok::<(), StoreError>(()),
                Err(e) => Err::<(), StoreError>(e),
            }),
            final(self)@ == (match spec_mutate_list(old(self)@, MutationV::ToggleAt(index as int)) {
                Ok(l) => l,
                Err(_) => old(self)@,
            }),
    {
        if index < self.items.len() {
            self.items[index].toggle();
            proof {
                assert(self@.items =~= old(self)@.items.update(
                    index as int,
                    spec_toggle_item(old(self)@.items[index as int]),
                ));
            }
            Ok(())
        } else {
            Err(StoreError::OutOfRange)
        }
    }

    /// Applies one mutation, as [`spec_mutate_list`] describes.
    pub fn apply(&mut self, m: &Mutation) -> (r: Result<(), StoreError>)
        ensures
            r == (match spec_mutate_list(old(self)@, m@) {
                Ok(_) => Ok::<(), StoreError>(()),
                Err(e) => Err::<(), StoreError>(e),
            }),
            final(self)@ == (match spec_mutate_list(old(self)@, m@) {
                Ok(l) => l,
                Err(_) => old(self)@,
            }),
    {
        match m {
            Mutation::Append(item) => {
                self.push_item(item.clone());
                Ok(())
            },
            Mutation::RemoveAt(index) => self.remove_item(*index),
            Mutation::ToggleAt(index) => self.toggle_item(*index),
        }
    }

    /// Renders the list: its name, a colon, then each item on its own line.
    pub fn render(&self) -> (r: String)
        ensures
            r@ == spec_render_list(self@),
    {
        let mut s = self.name.clone();
        s.append(":");
        let n = self.items.len();
        let mut i: usize = 0;
        proof {
            assert(s@ =~= self@.name + ":"@ + spec_render_items(self@.items.take(0)));
        }
        while i < n
            invariant
                n == self.items.len(),
                i <= n,
                s@ == self@.name + ":"@ + spec_render_items(self@.items.take(i as int)),
            decreases n - i,
        {
            s.append("\n");
            let line = self.items[i].render();
            s.append(line.as_str());
            proof {
                let its = self@.items;
                assert(its.take(i + 1).drop_last() =~= its.take(i as int));
                assert(its.take(i + 1).last() == its[i as int]);
                assert(s@ =~= self@.name + ":"@ + spec_render_items(its.take(i + 1)));
            }
            i += 1;
        }
        proof {
            assert(self@.items.take(n as int) =~= self@.items);
        }
        s
    }
}

// ---------------------------------------------------------------------------
// Mutation
// ---------------------------------------------------------------------------

/// One in-memory change to a list: append an item, remove the item at an
/// index, or toggle the item at an index.
#[derive(Debug)]
pub enum Mutation {
    Append(Item),
    RemoveAt(usize),
    ToggleAt(usize),
}

impl View for Mutation {
    type V = MutationV;

    open spec fn view(&self) -> MutationV {
        match self {
            Mutation::Append(it) => MutationV::Append(it@),
            Mutation::RemoveAt(i) => MutationV::RemoveAt(*i as int),
            Mutation::ToggleAt(i) => MutationV::ToggleAt(*i as int),
        }
    }
}

// ---------------------------------------------------------------------------
// Collection
// ---------------------------------------------------------------------------

/// Creating a list: a no-op when the name is taken, otherwise an empty list
/// under that name is appended.
pub open spec fn spec_create(ls: Seq<ListV>, n: Seq<char>) -> Seq<ListV> {
    if has_name(ls, n) {
        ls
    } else {
        ls.push(ListV { name: n, items: Seq::<ItemV>::empty() })
    }
}

/// Destroying a list: a no-op when the name is absent, otherwise the one list
/// with that name is removed.
pub open spec fn spec_destroy(ls: Seq<ListV>, n: Seq<char>) -> Seq<ListV> {
    if has_name(ls, n) {
        ls.remove(idx_of(ls, n))
    } else {
        ls
    }
}

/// The mapping from list name to list, stored as a sequence whose names are
/// pairwise distinct ([`names_unique`], the type's well-formedness).
#[derive(Debug, PartialEq, Eq)]
pub struct Collection {
    pub lists: Vec<List>,
}

impl View for Collection {
    type V = Seq<ListV>;

    open spec fn view(&self) -> Seq<ListV> {
        self.lists@.map_values(|l: List| l@)
    }
}

impl Collection {
    /// Well-formedness: list names are pairwise distinct.
    pub open spec fn wf(&self) -> bool {
        names_unique(self@)
    }

    /// An empty collection.
    pub fn new() -> (r: Collection)
        ensures
            r@ == Seq::<ListV>::empty(),
            r.wf(),
    {
        let r = Collection { lists: Vec::new() };
        proof {
            assert(r@ =~= Seq::<ListV>::empty());
        }
        r
    }

    /// The index of the first list named `name`, or `None` when no list
    /// carries that name.
    fn position(&self, name: &String) -> (r: Option<usize>)
        ensures
            match r {
                Some(i) => i < self@.len() && self@[i as int].name == name@ && (forall|j: int|
                    0 <= j < i ==> self@[j].name != name@),
                None => !has_name(self@, name@),
            },
    {
        let n = self.lists.len();
        let mut i: usize = 0;
        while i < n
            invariant
                n == self.lists.len(),
                i <= n,
                forall|j: int| 0 <= j < i ==> self@[j].name != name@,
            decreases n - i,
        {
            if self.lists[i].name == *name {
                return Some(i);
            }
            i += 1;
        }
        None
    }

    /// Whether a list named `name` exists.
    pub fn contains(&self, name: &str) -> (r: bool)
        ensures
            r == has_name(self@, name@),
    {
        let key: String = name.to_owned();
        self.position(&key).is_some()
    }

    /// The list named `name`, or `None` when no list carries that name.
    /// Requires well-formedness so that the one list with that name is
    /// exactly [`list_at`].
    pub fn get(&self, name: &str) -> (r: Option<&List>)
        requires
            self.wf(),
        ensures
            match r {
                Some(l) => has_name(self@, name@) && l@ == list_at(self@, name@),
                None => !has_name(self@, name@),
            },
    {
        let key: String = name.to_owned();
        match self.position(&key) {
            Some(i) => {
                proof {
                    lemma_position_is_idx_of(self@, name@, i as int);
                }
                Some(&self.lists[i])
            },
            None => None,
        }
    }

    /// Appends a list whose name is not yet taken.
    pub fn insert(&mut self, l: List)
        requires
            !has_name(old(self)@, l@.name),
        ensures
            final(self)@ == old(self)@.push(l@),
    {
        self.lists.push(l);
        proof {
            assert(self@ =~= old(self)@.push(self.lists@.last()@));
        }
    }

    /// Inserts an empty list under `name` unless the name is already taken;
    /// an existing list is never clobbered.
    pub fn create(&mut self, name: &str)
        ensures
            final(self)@ == spec_create(old(self)@, name@),
    {
        let key: String = name.to_owned();
        if self.position(&key).is_none() {
            self.insert(List::new(name));
        }
    }

    /// Removes the list named `name`; a no-op when the name is absent.
    pub fn destroy(&mut self, name: &str)
        requires
            old(self).wf(),
        ensures
            final(self)@ == spec_destroy(old(self)@, name@),
            final(self).wf(),
    {
        let key: String = name.to_owned();
        match self.position(&key) {
            Some(i) => {
                proof {
                    lemma_position_is_idx_of(self@, name@, i as int);
                }
                self.lists.remove(i);
                proof {
                    assert(self@ =~= old(self)@.remove(idx_of(old(self)@, name@)));
                    lemma_names_unique_remove(old(self)@, idx_of(old(self)@, name@));
                }
            },
            None => {},
        }
    }

    /// Applies one mutation to the list named `name`: fails with
    /// `ListNotFound` when the name is absent, and otherwise succeeds or
    /// fails as [`spec_mutate_list`] describes, leaving the collection
    /// unchanged on failure.
    pub fn apply_mutation(&mut self, name: &str, m: &Mutation) -> (r: Result<(), StoreError>)
        requires
            old(self).wf(),
        ensures
            !has_name(old(self)@, name@) ==> r == Err::<(), StoreError>(StoreError::ListNotFound)
                && final(self)@ == old(self)@,
            has_name(old(self)@, name@) ==> (match spec_mutate_list(
                list_at(old(self)@, name@),
                m@,
            ) {
                Ok(l2) => r == Ok::<(), StoreError>(()) && final(self)@ == old(self)@.update(
                    idx_of(old(self)@, name@),
                    l2,
                ),
                Err(e) => r == Err::<(), StoreError>(e) && final(self)@ == old(self)@,
            }),
            final(self).wf(),
    {
        let key: String = name.to_owned();
        match self.position(&key) {
            Some(i) => {
                proof {
                    lemma_position_is_idx_of(self@, name@, i as int);
                }
                let r = self.lists[i].apply(m);
                proof {
                    let ghost old_ls = old(self)@;
                    let ghost k = idx_of(old_ls, name@);
                    match spec_mutate_list(list_at(old_ls, name@), m@) {
                        Ok(l2) => {
                            assert(self@ =~= old_ls.update(k, l2));
                            lemma_names_unique_update(old_ls, k, l2);
                        },
                        Err(_) => {
                            assert(self@ =~= old_ls);
                        },
                    }
                }
                r
            },
            None => Err(StoreError::ListNotFound),
        }
    }

    /// The list names, in collection order.
    pub fn names(&self) -> (r: Vec<String>)
        ensures
            r@.map_values(|s: String| s@) == names_of(self@),
    {
        let mut r: Vec<String> = Vec::new();
        let n = self.lists.len();
        let mut i: usize = 0;
        while i < n
            invariant
                n == self.lists.len(),
                i <= n,
                r@.map_values(|s: String| s@) =~= names_of(self@).take(i as int),
            decreases n - i,
        {
            let nm = self.lists[i].name.clone();
            let ghost prev = r@;
            r.push(nm);
            proof {
                assert(r@ == prev.push(nm));
                assert(prev.map_values(|s: String| s@).len() == prev.len());
                assert(r@.len() == i + 1);
                assert forall|k: int| 0 <= k < i + 1 implies r@.map_values(
                    |s: String| s@,
                )[k] == #[trigger] names_of(self@).take(i + 1)[k] by {
                    assert(r@.map_values(|s: String| s@)[k] == r@[k]@);
                    if k < i {
                        assert(prev.map_values(|s: String| s@)[k] == prev[k]@);
                        assert(prev[k]@ == names_of(self@).take(i as int)[k]);
                    }
                }
                assert(r@.map_values(|s: String| s@) =~= names_of(self@).take(i + 1));
            }
            i += 1;
        }
        proof {
            assert(names_of(self@).take(n as int) =~= names_of(self@));
        }
        r
    }
}

/// Under unique names, any index whose list carries the name is the index
/// that [`idx_of`] picks.
pub proof fn lemma_position_is_idx_of(ls: Seq<ListV>, n: Seq<char>, i: int)
    requires
        names_unique(ls),
        0 <= i < ls.len(),
        ls[i].name == n,
    ensures
        has_name(ls, n),
        idx_of(ls, n) == i,
        list_at(ls, n) == ls[i],
{
    assert(has_name(ls, n));
    let j = idx_of(ls, n);
    assert(0 <= j < ls.len() && ls[j].name == n);
    if i != j {
        assert(ls[i].name != ls[j].name);
    }
}

/// Removing a list keeps the names pairwise distinct.
pub proof fn lemma_names_unique_remove(ls: Seq<ListV>, i: int)
    requires
        names_unique(ls),
        0 <= i < ls.len(),
    ensures
        names_unique(ls.remove(i)),
{
    let r = ls.remove(i);
    assert forall|a: int, b: int| 0 <= a < b < r.len() implies r[a].name != r[b].name by {
        ls.remove_ensures(i);
    }
}

/// Replacing a list by one with the same name keeps the names pairwise
/// distinct.
pub proof fn lemma_names_unique_update(ls: Seq<ListV>, i: int, l2: ListV)
    requires
        names_unique(ls),
        0 <= i < ls.len(),
        l2.name == ls[i].name,
    ensures
        names_unique(ls.update(i, l2)),
{
}

// ---------------------------------------------------------------------------
// Rendering of name listings
// ---------------------------------------------------------------------------

/// Joins the given names with newlines, with no trailing newline.
pub fn render_names(names: &Vec<String>) -> (r: String)
    ensures
        r@ == spec_render_names(names@.map_values(|s: String| s@)),
{
    let ghost ns = names@.map_values(|s: String| s@);
    let mut r = String::new();
    let n = names.len();
    let mut i: usize = 0;
    proof {
        assert(r@ =~= spec_render_names(ns.take(0)));
    }
    while i < n
        invariant
            n == names.len(),
            i <= n,
            ns == names@.map_values(|s: String| s@),
            r@ == spec_render_names(ns.take(i as int)),
        decreases n - i,
    {
        if i > 0 {
            r.append("\n");
        }
        r.append(names[i].as_str());
        proof {
            assert(ns.take(i + 1).drop_last() =~= ns.take(i as int));
            assert(ns.take(i + 1).last() == ns[i as int]);
            assert(r@ =~= spec_render_names(ns.take(i + 1)));
        }
        i += 1;
    }
    proof {
        assert(ns.take(n as int) =~= ns);
    }
    r
}


// ---------------------------------------------------------------------------
// Laws
// ---------------------------------------------------------------------------

/// Creating a list twice under one name is the same as creating it once:
/// the second creation changes nothing, and the result holds a list with
/// that name while its names stay pairwise distinct — so exactly one list
/// carries the name.
pub proof fn lemma_create_idempotent(ls: Seq<ListV>, n: Seq<char>)
    requires
        names_unique(ls),
    ensures
        spec_create(spec_create(ls, n), n) == spec_create(ls, n),
        has_name(spec_create(ls, n), n),
        names_unique(spec_create(ls, n)),
{
    let c1 = spec_create(ls, n);
    if !has_name(ls, n) {
        assert(c1[ls.len() as int].name == n);
        assert(has_name(c1, n));
        assert forall|i: int, j: int| 0 <= i < j < c1.len() implies c1[i].name != c1[j].name by {
            if j == ls.len() {
                assert(c1[i] == ls[i]);
                if ls[i].name == n {
                    assert(has_name(ls, n));
                }
            }
        }
    }
}

/// Toggling the item at one index twice returns the list to exactly its
/// original state: toggle is its own inverse.
pub proof fn lemma_toggle_twice_identity(l: ListV, i: int)
    requires
        0 <= i < l.items.len(),
    ensures
        spec_toggle_at(spec_toggle_at(l, i), i) == l,
{
    let l1 = spec_toggle_at(l, i);
    assert(spec_toggle_item(spec_toggle_item(l.items[i])) =~= l.items[i]);
    assert(spec_toggle_at(l1, i).items =~= l.items);
    assert(spec_toggle_at(l1, i) =~= l);
}

} // verus!
