//! The table of items: an arena of records keyed by integer ids, each with an
//! optional link to its container.

use vstd::prelude::*;
use crate::model::{Item, ItemModel};

verus! {

pub open spec fn items_view(v: Seq<Item>) -> Seq<ItemModel> {
    v.map_values(|it: Item| it@)
}

pub open spec fn opt_str_view(o: Option<&str>) -> Option<Seq<char>> {
    match o {
        Some(s) => Some(s@),
        None => None,
    }
}

/// Some record of `s` has the id.
pub open spec fn contains_id(s: Seq<ItemModel>, id: i64) -> bool {
    exists|i: int| 0 <= i < s.len() && #[trigger] s[i].id == id
}

/// The position of the record with the id.
pub open spec fn index_of_id(s: Seq<ItemModel>, id: i64) -> int {
    choose|i: int| 0 <= i < s.len() && #[trigger] s[i].id == id
}

/// The record with the id.
pub open spec fn item_of(s: Seq<ItemModel>, id: i64) -> ItemModel {
    s[index_of_id(s, id)]
}

/// The container of the item with the id; `None` for a root item or an unknown id.
pub open spec fn parent_of(s: Seq<ItemModel>, id: i64) -> Option<i64> {
    if contains_id(s, id) {
        item_of(s, id).container_id
    } else {
        None
    }
}

/// What is reached from `id` by following `k` container links, if the walk gets that far.
pub open spec fn ancestor_at(s: Seq<ItemModel>, id: i64, k: nat) -> Option<i64>
    decreases k,
{
    if k == 0 {
        Some(id)
    } else {
        match parent_of(s, id) {
            Some(p) => ancestor_at(s, p, (k - 1) as nat),
            None => None,
        }
    }
}

/// `a` lies on the walk up from `y`, `y` itself included.
pub open spec fn is_ancestor(s: Seq<ItemModel>, a: i64, y: i64) -> bool {
    exists|k: nat| ancestor_at(s, y, k) == Some(a)
}

/// Some item in container `c` (`None`: the root level) carries the name.
pub open spec fn name_taken(s: Seq<ItemModel>, name: Seq<char>, c: Option<i64>) -> bool {
    exists|j: int| 0 <= j < s.len() && #[trigger] s[j].name == name && s[j].container_id == c
}

/// No item but the one at position `i` carries the name in container `c`.
pub open spec fn name_free_except(s: Seq<ItemModel>, name: Seq<char>, c: Option<i64>, i: int) -> bool {
    forall|j: int|
        0 <= j < s.len() && j != i ==> !(#[trigger] s[j].name == name && s[j].container_id == c)
}

/// No two items of one container (or of the root level) share a name.
pub open spec fn unique_names(s: Seq<ItemModel>) -> bool {
    forall|i: int, j: int|
        0 <= i < s.len() && 0 <= j < s.len() && i != j ==> !(s[i].name == s[j].name
            && s[i].container_id == s[j].container_id)
}

/// The container of `m`, if any, is present in `s`.
pub open spec fn link_ok(s: Seq<ItemModel>, m: ItemModel) -> bool {
    match m.container_id {
        Some(c) => contains_id(s, c),
        None => true,
    }
}

/// The table's own rules: ids ascend and stay below `next_id`, names are not
/// empty, container links point at present items, and names are unique per container.
pub open spec fn table_wf(s: Seq<ItemModel>, next_id: i64) -> bool {
    &&& next_id > 0
    &&& forall|i: int, j: int| 0 <= i < j < s.len() ==> s[i].id < s[j].id
    &&& forall|i: int| 0 <= i < s.len() ==> 0 < #[trigger] s[i].id && s[i].id < next_id
    &&& forall|i: int| 0 <= i < s.len() ==> (#[trigger] s[i]).name.len() > 0
    &&& forall|i: int| 0 <= i < s.len() ==> link_ok(s, #[trigger] s[i])
    &&& unique_names(s)
}

/// The record that a new item gets.
pub open spec fn new_model(
    id: i64,
    name: Seq<char>,
    description: Option<Seq<char>>,
    container_id: Option<i64>,
    now: Seq<char>,
) -> ItemModel {
    ItemModel { id, name, description, container_id, created_at: now, updated_at: now }
}

/// A record after the removal of item `x`: a child of `x` goes to the root level.
pub open spec fn orphan(m: ItemModel, x: i64, now: Seq<char>) -> ItemModel {
    if m.container_id == Some(x) {
        ItemModel { container_id: None, updated_at: now, ..m }
    } else {
        m
    }
}

/// The table after the removal of the record at position `i`.
pub open spec fn after_remove(s: Seq<ItemModel>, i: int, now: Seq<char>) -> Seq<ItemModel> {
    s.remove(i).map_values(|m: ItemModel| orphan(m, s[i].id, now))
}

/// One more container link from `y` leads one step further up.
pub proof fn lemma_ancestor_step(s: Seq<ItemModel>, y: i64, k: nat)
    ensures
        ancestor_at(s, y, k + 1) == match ancestor_at(s, y, k) {
            Some(z) => parent_of(s, z),
            None => None,
        },
    decreases k,
{
    if let Some(p) = parent_of(s, y) {
        assert(ancestor_at(s, y, k + 1) == ancestor_at(s, p, k));
        if k > 0 {
            assert(ancestor_at(s, y, k) == ancestor_at(s, p, (k - 1) as nat));
            lemma_ancestor_step(s, p, (k - 1) as nat);
        } else {
            assert(ancestor_at(s, p, 0) == Some(p));
        }
    }
}

/// Past the root the walk up stays empty.
pub proof fn lemma_ancestor_none_after(s: Seq<ItemModel>, y: i64, k: nat, m: nat)
    requires
        ancestor_at(s, y, k) is None,
        k <= m,
    ensures
        ancestor_at(s, y, m) is None,
    decreases m - k,
{
    if k < m {
        lemma_ancestor_step(s, y, k);
        lemma_ancestor_none_after(s, y, k + 1, m);
    }
}

/// Above an item that is not `a` itself, `a` is an ancestor of the item exactly
/// when it is one of the item's container.
pub proof fn lemma_ancestor_via_parent(s: Seq<ItemModel>, a: i64, z: i64, c: i64)
    requires
        parent_of(s, z) == Some(c),
        z != a,
    ensures
        is_ancestor(s, a, z) == is_ancestor(s, a, c),
{
    if is_ancestor(s, a, z) {
        let n = choose|n: nat| ancestor_at(s, z, n) == Some(a);
        assert(n != 0);
        assert(ancestor_at(s, c, (n - 1) as nat) == Some(a));
    }
    if is_ancestor(s, a, c) {
        let n = choose|n: nat| ancestor_at(s, c, n) == Some(a);
        assert(ancestor_at(s, z, n + 1) == Some(a));
    }
}

/// In a table with ascending ids, the record with an id is the one at its position.
pub proof fn lemma_item_of(s: Seq<ItemModel>, next_id: i64, i: int)
    requires
        table_wf(s, next_id),
        0 <= i < s.len(),
    ensures
        contains_id(s, s[i].id),
        index_of_id(s, s[i].id) == i,
        item_of(s, s[i].id) == s[i],
        parent_of(s, s[i].id) == s[i].container_id,
{
    assert(s[i].id == s[i].id);
    let k = index_of_id(s, s[i].id);
    if k < i {
        assert(s[k].id < s[i].id);
    } else if k > i {
        assert(s[i].id < s[k].id);
    }
}

/// The items of the inventory.
pub struct Store {
    items: Vec<Item>,
    next_id: i64,
    rank: Ghost<spec_fn(i64) -> nat>,
    bound: Ghost<nat>,
}

impl View for Store {
    type V = Seq<ItemModel>;

    closed spec fn view(&self) -> Seq<ItemModel> {
        items_view(self.items@)
    }
}

impl Store {
    /// The id that the next new item gets.
    pub closed spec fn next_free(&self) -> i64 {
        self.next_id
    }

    /// A height for each item that grows strictly from a container to its contents.
    pub closed spec fn rank(&self, id: i64) -> nat {
        (self.rank@)(id)
    }

    pub closed spec fn rank_bound(&self) -> nat {
        self.bound@
    }

    /// The ranks witness that the container links form a forest.
    pub open spec fn ranked(&self) -> bool {
        &&& forall|i: int| 0 <= i < self@.len() ==> self.rank(#[trigger] self@[i].id) < self.rank_bound()
        &&& forall|i: int|
            #![trigger self@[i]]
            0 <= i < self@.len() && self@[i].container_id is Some ==> self.rank(
                self@[i].container_id->0,
            ) < self.rank(self@[i].id)
    }

    pub open spec fn wf(&self) -> bool {
        table_wf(self@, self.next_free()) && self.ranked()
    }

    /// The names from the root down to the item; empty for an unknown id.
    pub open spec fn path_of(&self, id: i64) -> Seq<Seq<char>>
        decreases self.rank(id),
    {
        if !contains_id(self@, id) {
            Seq::empty()
        } else {
            let m = item_of(self@, id);
            match m.container_id {
                Some(c) => if self.rank(c) < self.rank(id) {
                    self.path_of(c).push(m.name)
                } else {
                    seq![m.name]
                },
                None => seq![m.name],
            }
        }
    }

    /// Each link up lowers the rank by at least one.
    pub proof fn lemma_rank_along(&self, y: i64, k: nat)
        requires
            self.wf(),
            ancestor_at(self@, y, k) is Some,
        ensures
            self.rank(ancestor_at(self@, y, k)->0) + k <= self.rank(y),
        decreases k,
    {
        if k > 0 {
            let p = parent_of(self@, y)->0;
            let i = index_of_id(self@, y);
            lemma_item_of(self@, self.next_free(), i);
            assert(self@[i].container_id == Some(p));
            self.lemma_rank_along(p, (k - 1) as nat);
        }
    }

    /// The path of a container; empty for the root level.
    pub open spec fn path_of_opt(&self, c: Option<i64>) -> Seq<Seq<char>> {
        match c {
            Some(id) => self.path_of(id),
            None => Seq::empty(),
        }
    }

    /// An empty inventory.
    pub fn new() -> (r: Store)
        ensures
            r.wf(),
            r@ == Seq::<ItemModel>::empty(),
            r.next_free() == 1,
    {
        let r = Store { items: Vec::new(), next_id: 1, rank: Ghost(|z: i64| 0nat), bound: Ghost(0nat) };
        assert(r@ =~= Seq::<ItemModel>::empty());
        r
    }

    /// A store over records already checked: `rank` must grow from each
    /// container to its contents and stay below `bound`.
    pub(crate) fn assemble(
        items: Vec<Item>,
        next_id: i64,
        rank: Ghost<spec_fn(i64) -> nat>,
        bound: Ghost<nat>,
    ) -> (r: Store)
        requires
            table_wf(items_view(items@), next_id),
            forall|i: int| 0 <= i < items@.len() ==> (rank@)(#[trigger] items@[i].id) < bound@,
            forall|i: int|
                0 <= i < items@.len() && (#[trigger] items@[i]).container_id is Some ==> (rank@)(
                    items@[i].container_id->0,
                ) < (rank@)(items@[i].id),
        ensures
            r.wf(),
            r@ == items_view(items@),
            r.next_free() == next_id,
    {
        let r = Store { items, next_id, rank, bound };
        assert forall|i: int| 0 <= i < r@.len() implies r.rank(#[trigger] r@[i].id) < r.rank_bound() by {
            assert(r@[i] == r.items@[i]@);
        }
        assert forall|i: int| #![trigger r@[i]] 0 <= i < r@.len() && r@[i].container_id is Some implies r.rank(
            r@[i].container_id->0,
        ) < r.rank(r@[i].id) by {
            assert(r@[i] == r.items@[i]@);
        }
        r
    }

    pub fn len(&self) -> (r: usize)
        ensures
            r == self@.len(),
    {
        self.items.len()
    }

    pub fn item_at(&self, i: usize) -> (r: &Item)
        requires
            i < self@.len(),
        ensures
            r@ == self@[i as int],
    {
        &self.items[i]
    }

    pub fn next_id(&self) -> (r: i64)
        ensures
            r == self.next_free(),
    {
        self.next_id
    }

    /// The records in storage order.
    pub fn items(&self) -> (r: &Vec<Item>)
        ensures
            items_view(r@) == self@,
    {
        &self.items
    }

    /// Appends a new record under the next id.
    pub fn push_item(
        &mut self,
        name: &str,
        description: Option<&str>,
        container_id: Option<i64>,
        now: &str,
    ) -> (id: i64)
        requires
            old(self).wf(),
            name@.len() > 0,
            old(self).next_free() < i64::MAX,
            container_id matches Some(c) ==> contains_id(old(self)@, c),
            !name_taken(old(self)@, name@, container_id),
        ensures
            final(self).wf(),
            id == old(self).next_free(),
            final(self).next_free() == id + 1,
            final(self)@ == old(self)@.push(
                new_model(id, name@, opt_str_view(description), container_id, now@),
            ),
    {
        let ghost s = self@;
        let ghost r0 = self.rank@;
        let ghost b0 = self.bound@;
        let id = self.next_id;
        let desc = match description {
            Some(d) => Some(d.to_owned()),
            None => None,
        };
        let item = Item {
            id,
            name: name.to_owned(),
            description: desc,
            container_id,
            created_at: now.to_owned(),
            updated_at: now.to_owned(),
        };
        let ghost new_rank: nat = match container_id {
            Some(c) => r0(c) + 1,
            None => 0,
        };
        self.items.push(item);
        self.next_id = id + 1;
        self.rank = Ghost(|z: i64| if z == id { new_rank } else { r0(z) });
        self.bound = Ghost(b0 + 1);
        proof {
            assert(self@ =~= s.push(new_model(id, name@, opt_str_view(description), container_id, now@)));
            assert forall|i: int| 0 <= i < s.len() implies #[trigger] self@[i] == s[i] by {}
            if let Some(c) = container_id {
                let k = choose|k: int| 0 <= k < s.len() && #[trigger] s[k].id == c;
                assert(r0(c) < b0);
            }
            assert forall|i: int| 0 <= i < self@.len() && self@[i].container_id is Some implies
                self.rank(self@[i].container_id->0) < self.rank(#[trigger] self@[i].id) by {
                if i < s.len() {
                    let c = s[i].container_id->0;
                    let k = choose|k: int| 0 <= k < s.len() && #[trigger] s[k].id == c;
                    assert(s[k].id < id);
                }
            }
            assert(contains_id(self@, id)) by {
                assert(self@[s.len() as int].id == id);
            }
            assert(unique_names(self@)) by {
                assert forall|i: int, j: int| 0 <= i < self@.len() && 0 <= j < self@.len() && i != j
                    implies !(self@[i].name == self@[j].name && self@[i].container_id == self@[j].container_id) by {
                    if i == s.len() {
                        assert(!(s[j].name == name@ && s[j].container_id == container_id));
                    } else if j == s.len() {
                        assert(!(s[i].name == name@ && s[i].container_id == container_id));
                    }
                }
            }
            assert forall|i: int, j: int| 0 <= i < j < self@.len() implies self@[i].id < self@[j].id by {
                if j == s.len() {
                    assert(0 < s[i].id && s[i].id < id);
                }
            }
            assert forall|i: int| 0 <= i < self@.len() implies 0 < #[trigger] self@[i].id && self@[i].id < self.next_id by {
                if i < s.len() {
                    assert(0 < s[i].id && s[i].id < id);
                }
            }
            assert forall|i: int| 0 <= i < self@.len() implies (#[trigger] self@[i]).name.len() > 0 by {
                if i < s.len() {
                    assert(s[i].name.len() > 0);
                }
            }
            assert forall|i: int| 0 <= i < self@.len() implies link_ok(self@, #[trigger] self@[i]) by {
                if let Some(c) = self@[i].container_id {
                    let k = choose|k: int| 0 <= k < s.len() && #[trigger] s[k].id == c;
                    assert(self@[k].id == c);
                }
            }
            assert(table_wf(self@, self.next_id));
            assert(self.ranked());
        }
        id
    }

    /// Renames the item at position `i`.
    pub fn set_name(&mut self, i: usize, name: &str, now: &str)
        requires
            old(self).wf(),
            i < old(self)@.len(),
            name@.len() > 0,
            name_free_except(old(self)@, name@, old(self)@[i as int].container_id, i as int),
        ensures
            final(self).wf(),
            final(self).next_free() == old(self).next_free(),
            final(self)@ == old(self)@.update(
                i as int,
                ItemModel { name: name@, updated_at: now@, ..old(self)@[i as int] },
            ),
    {
        let ghost s = self@;
        let mut it = self.items[i].copied();
        it.name = name.to_owned();
        it.updated_at = now.to_owned();
        self.items.set(i, it);
        proof {
            assert(self@ =~= s.update(i as int, ItemModel { name: name@, updated_at: now@, ..s[i as int] }));
            assert forall|k: int| 0 <= k < s.len() implies #[trigger] self@[k].id == s[k].id && self@[k].container_id == s[k].container_id by {}
            assert forall|c: i64| contains_id(s, c) implies contains_id(self@, c) by {
                let k = choose|k: int| 0 <= k < s.len() && #[trigger] s[k].id == c;
                assert(self@[k].id == c);
            }
        }
    }

    /// Sets or clears the description of the item at position `i`.
    pub fn set_description(&mut self, i: usize, description: Option<&str>, now: &str)
        requires
            old(self).wf(),
            i < old(self)@.len(),
        ensures
            final(self).wf(),
            final(self).next_free() == old(self).next_free(),
            final(self)@ == old(self)@.update(
                i as int,
                ItemModel {
                    description: opt_str_view(description),
                    updated_at: now@,
                    ..old(self)@[i as int]
                },
            ),
    {
        let ghost s = self@;
        let mut it = self.items[i].copied();
        it.description = match description {
            Some(d) => Some(d.to_owned()),
            None => None,
        };
        it.updated_at = now.to_owned();
        self.items.set(i, it);
        proof {
            assert(self@ =~= s.update(
                i as int,
                ItemModel { description: opt_str_view(description), updated_at: now@, ..s[i as int] },
            ));
            assert forall|k: int| 0 <= k < s.len() implies #[trigger] self@[k].id == s[k].id && self@[k].container_id == s[k].container_id && self@[k].name == s[k].name by {}
            assert forall|c: i64| contains_id(s, c) implies contains_id(self@, c) by {
                let k = choose|k: int| 0 <= k < s.len() && #[trigger] s[k].id == c;
                assert(self@[k].id == c);
            }
        }
    }
    /// Moves the item at position `i` into `container_id` (`None`: the root level).
    pub fn set_container(&mut self, i: usize, container_id: Option<i64>, now: &str)
        requires
            old(self).wf(),
            i < old(self)@.len(),
            container_id matches Some(d) ==> contains_id(old(self)@, d) && !is_ancestor(
                old(self)@,
                old(self)@[i as int].id,
                d,
            ),
            name_free_except(old(self)@, old(self)@[i as int].name, container_id, i as int),
        ensures
            final(self).wf(),
            final(self).next_free() == old(self).next_free(),
            final(self)@ == old(self)@.update(
                i as int,
                ItemModel { container_id, updated_at: now@, ..old(self)@[i as int] },
            ),
    {
        let ghost s = self@;
        let ghost r0 = self.rank@;
        let ghost b0 = self.bound@;
        let ghost x = s[i as int].id;
        let ghost delta: nat = match container_id {
            Some(d) => r0(d) + 1,
            None => 0,
        };
        let mut it = self.items[i].copied();
        it.container_id = container_id;
        it.updated_at = now.to_owned();
        self.items.set(i, it);
        self.rank = Ghost(|z: i64| if is_ancestor(s, x, z) { r0(z) + delta } else { r0(z) });
        self.bound = Ghost(b0 + delta);
        proof {
            let t = self@;
            assert(t =~= s.update(i as int, ItemModel { container_id, updated_at: now@, ..s[i as int] }));
            assert forall|k: int| 0 <= k < s.len() implies #[trigger] t[k].id == s[k].id && t[k].name == s[k].name by {}
            assert forall|c: i64| contains_id(s, c) implies contains_id(t, c) by {
                let k = choose|k: int| 0 <= k < s.len() && #[trigger] s[k].id == c;
                assert(t[k].id == c);
            }
            assert(ancestor_at(s, x, 0) == Some(x));
            assert forall|k: int| 0 <= k < t.len() implies link_ok(t, #[trigger] t[k]) by {
                if k != i {
                    assert(link_ok(s, s[k]));
                }
            }
            assert forall|k: int, j: int| 0 <= k < j < t.len() implies t[k].id < t[j].id by {
                assert(s[k].id < s[j].id);
            }
            assert forall|k: int| 0 <= k < t.len() implies 0 < #[trigger] t[k].id && t[k].id < self.next_id by {
                assert(0 < s[k].id);
            }
            assert forall|k: int| 0 <= k < t.len() implies (#[trigger] t[k]).name.len() > 0 by {
                assert(s[k].name.len() > 0);
            }
            assert(unique_names(t)) by {
                assert forall|a: int, b: int| 0 <= a < t.len() && 0 <= b < t.len() && a != b
                    implies !(t[a].name == t[b].name && t[a].container_id == t[b].container_id) by {
                    if a != i && b != i {
                        assert(!(s[a].name == s[b].name && s[a].container_id == s[b].container_id));
                    } else if a == i {
                        assert(!(s[b].name == s[a].name && s[b].container_id == container_id));
                    } else {
                        assert(!(s[a].name == s[b].name && s[a].container_id == container_id));
                    }
                }
            }
            assert(table_wf(t, self.next_id));
            assert forall|k: int| 0 <= k < t.len() implies self.rank(#[trigger] t[k].id) < self.rank_bound() by {
                assert(r0(s[k].id) < b0);
            }
            assert forall|k: int| #![trigger t[k]] 0 <= k < t.len() && t[k].container_id is Some implies
                self.rank(t[k].container_id->0) < self.rank(t[k].id) by {
                let z = t[k].id;
                let c = t[k].container_id->0;
                if k == i {
                    assert(is_ancestor(s, x, x));
                } else {
                    lemma_item_of(s, self.next_id, k);
                    assert(r0(c) < r0(z));
                    lemma_ancestor_via_parent(s, x, z, c);
                }
            }
        }
    }

    /// Deletes the record at position `i`; its direct children go to the root level.
    pub fn remove_at(&mut self, i: usize, now: &str)
        requires
            old(self).wf(),
            i < old(self)@.len(),
            forall|j: int|
                0 <= j < old(self)@.len() && #[trigger] old(self)@[j].container_id == Some(
                    old(self)@[i as int].id,
                ) ==> !name_taken(old(self)@, old(self)@[j].name, None),
        ensures
            final(self).wf(),
            final(self).next_free() == old(self).next_free(),
            final(self)@ == after_remove(old(self)@, i as int, now@),
    {
        let ghost s = self@;
        let x = self.items[i].id;
        self.items.remove(i);
        let ghost s1 = self@;
        assert(s1 =~= s.remove(i as int));
        let n = self.items.len();
        let mut k: usize = 0;
        while k < n
            invariant
                n == s1.len(),
                k <= n,
                self@.len() == n,
                x == s[i as int].id,
                s == old(self)@,
                self.next_id == old(self).next_id,
                self.rank@ == old(self).rank@,
                self.bound@ == old(self).bound@,
                forall|j: int| 0 <= j < k ==> #[trigger] self@[j] == orphan(s1[j], x, now@),
                forall|j: int| k <= j < n ==> #[trigger] self@[j] == s1[j],
            decreases n - k,
        {
            let is_child = match self.items[k].container_id {
                Some(p) => p == x,
                None => false,
            };
            let ghost before = self@;
            if is_child {
                let mut it = self.items[k].copied();
                it.container_id = None;
                it.updated_at = now.to_owned();
                self.items.set(k, it);
                assert(self@ =~= before.update(k as int, orphan(s1[k as int], x, now@)));
            } else {
                assert(before[k as int] == orphan(s1[k as int], x, now@));
            }
            k = k + 1;
        }
        proof {
            let t = self@;
            assert(t =~= after_remove(s, i as int, now@));
            assert forall|j: int| 0 <= j < t.len() implies #[trigger] t[j].id == s1[j].id && t[j].name == s1[j].name by {
                assert(t[j] == orphan(s1[j], x, now@));
            }
            assert forall|j: int| 0 <= j < s1.len() implies #[trigger] s1[j] == (if j < i { s[j] } else { s[j + 1] }) by {}
            assert forall|a: int, b: int| 0 <= a < b < t.len() implies t[a].id < t[b].id by {
                if b < i {
                } else if a < i {
                    assert(s[a].id < s[b + 1].id);
                } else {
                    assert(s[a + 1].id < s[b + 1].id);
                }
            }
            assert forall|j: int| 0 <= j < t.len() implies 0 < #[trigger] t[j].id && t[j].id < self.next_id by {
                if j < i {
                    assert(0 < s[j].id && s[j].id < self.next_id);
                } else {
                    assert(0 < s[j + 1].id && s[j + 1].id < self.next_id);
                }
            }
            assert forall|j: int| 0 <= j < t.len() implies (#[trigger] t[j]).name.len() > 0 by {
                if j < i {
                    assert(s[j].name.len() > 0);
                } else {
                    assert(s[j + 1].name.len() > 0);
                }
            }
            assert forall|j: int| 0 <= j < t.len() implies link_ok(t, #[trigger] t[j]) by {
                let sj = if j < i { j } else { j + 1 };
                assert(s1[j] == s[sj]);
                assert(link_ok(s, s[sj]));
                if let Some(c) = t[j].container_id {
                    assert(c != x);
                    let k0 = choose|k0: int| 0 <= k0 < s.len() && #[trigger] s[k0].id == c;
                    assert(k0 != i);
                    if k0 < i {
                        assert(t[k0].id == c);
                    } else {
                        assert(t[k0 - 1].id == c);
                    }
                }
            }
            assert(unique_names(t)) by {
                assert forall|a: int, b: int| 0 <= a < t.len() && 0 <= b < t.len() && a != b
                    implies !(t[a].name == t[b].name && t[a].container_id == t[b].container_id) by {
                    let sa = if a < i { a } else { a + 1 };
                    let sb = if b < i { b } else { b + 1 };
                    assert(s1[a] == s[sa]);
                    assert(s1[b] == s[sb]);
                    assert(sa != sb);
                    assert(!(s[sa].name == s[sb].name && s[sa].container_id == s[sb].container_id));
                    if s[sa].container_id == Some(x) && s[sb].container_id != Some(x) {
                        assert(!name_taken(s, s[sa].name, None));
                    } else if s[sb].container_id == Some(x) && s[sa].container_id != Some(x) {
                        assert(!name_taken(s, s[sb].name, None));
                    }
                }
            }
            assert(table_wf(t, self.next_id));
            assert forall|j: int| 0 <= j < t.len() implies self.rank(#[trigger] t[j].id) < self.rank_bound() by {
                let sj = if j < i { j } else { j + 1 };
                assert(s1[j] == s[sj]);
                assert(self.rank(s[sj].id) < self.rank_bound());
            }
            assert forall|j: int| #![trigger t[j]] 0 <= j < t.len() && t[j].container_id is Some implies
                self.rank(t[j].container_id->0) < self.rank(t[j].id) by {
                let sj = if j < i { j } else { j + 1 };
                assert(s1[j] == s[sj]);
                assert(s[sj].container_id == t[j].container_id);
            }
        }
    }
}

} // verus!
