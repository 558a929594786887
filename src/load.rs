//! Checking records that come from outside before they become a `Store`.

use vstd::prelude::*;
use crate::error::{InvError, is_store_failure};
use crate::model::{Item, ItemModel};
use crate::store::{Store, items_view, table_wf, contains_id, unique_names, link_ok, ancestor_at, index_of_id, lemma_item_of};
use crate::db::same_container;

verus! {

/// Following container links from every item leaves the table after finitely many steps.
pub open spec fn forest(s: Seq<ItemModel>) -> bool {
    forall|i: int| 0 <= i < s.len() ==> #[trigger] leaves_table(s, s[i].id)
}

/// The walk up from `y` leaves the table after finitely many steps.
pub open spec fn leaves_table(s: Seq<ItemModel>, y: i64) -> bool {
    exists|k: nat| #[trigger] ancestor_at(s, y, k) is None
}

/// The position of the record with the id.
fn position(items: &Vec<Item>, id: i64) -> (r: Option<usize>)
    ensures
        match r {
            Some(j) => j < items@.len() && items@[j as int].id == id,
            None => forall|j: int| 0 <= j < items@.len() ==> (#[trigger] items@[j]).id != id,
        },
{
    let mut j: usize = 0;
    while j < items.len()
        invariant
            j <= items@.len(),
            forall|q: int| 0 <= q < j ==> (#[trigger] items@[q]).id != id,
        decreases items.len() - j,
    {
        if items[j].id == id {
            return Some(j);
        }
        j = j + 1;
    }
    None
}

/// Whether the records obey the table's own rules.
fn table_checks(items: &Vec<Item>, next_id: i64) -> (r: bool)
    ensures
        r == table_wf(items_view(items@), next_id),
{
    let ghost s = items_view(items@);
    if next_id <= 0 {
        return false;
    }
    let n = items.len();
    let mut k: usize = 0;
    while k < n
        invariant
            n == items@.len(),
            s == items_view(items@),
            next_id > 0,
            k <= n,
            forall|a: int, b: int| 0 <= a < b < k ==> s[a].id < s[b].id,
            forall|i: int| 0 <= i < k ==> 0 < #[trigger] s[i].id && s[i].id < next_id,
            forall|i: int| 0 <= i < k ==> (#[trigger] s[i]).name.len() > 0,
            forall|i: int| 0 <= i < k ==> link_ok(s, #[trigger] s[i]),
        decreases n - k,
    {
        let it = &items[k];
        assert(s[k as int] == it@);
        if it.id <= 0 || it.id >= next_id || it.name.as_str().is_empty() {
            return false;
        }
        if k > 0 && items[k - 1].id >= it.id {
            assert(s[k - 1].id >= s[k as int].id);
            return false;
        }
        if let Some(c) = it.container_id {
            match position(items, c) {
                Some(j) => {
                    assert(s[j as int].id == c);
                },
                None => {
                    assert(!link_ok(s, s[k as int])) by {
                        if contains_id(s, c) {
                            let q = choose|q: int| 0 <= q < s.len() && #[trigger] s[q].id == c;
                            assert(items@[q].id == c);
                        }
                    }
                    return false;
                },
            }
        }
        proof {
            assert forall|a: int, b: int| 0 <= a < b < k + 1 implies s[a].id < s[b].id by {
                if b == k && a < k - 1 {
                    assert(s[a].id < s[k - 1].id);
                }
            }
        }
        k = k + 1;
    }
    let mut a: usize = 0;
    while a < n
        invariant
            n == items@.len(),
            s == items_view(items@),
            a <= n,
            forall|x: int, y: int|
                0 <= x < a && 0 <= y < n && x != y ==> !(s[x].name == s[y].name && s[x].container_id
                    == s[y].container_id),
        decreases n - a,
    {
        let mut b: usize = 0;
        while b < n
            invariant
                n == items@.len(),
                s == items_view(items@),
                a < n,
                b <= n,
                forall|x: int, y: int|
                    0 <= x < a && 0 <= y < n && x != y ==> !(s[x].name == s[y].name && s[x].container_id
                        == s[y].container_id),
                forall|y: int|
                    0 <= y < b && a != y ==> !(s[a as int].name == s[y].name && s[a as int].container_id
                        == s[y].container_id),
            decreases n - b,
        {
            if a != b && items[a].name == items[b].name && same_container(items[a].container_id, items[b].container_id) {
                assert(!unique_names(s)) by {
                    assert(s[a as int].name == s[b as int].name);
                }
                return false;
            }
            b = b + 1;
        }
        a = a + 1;
    }
    true
}

/// How many flags are set.
pub open spec fn num_set(p: Seq<bool>) -> nat
    decreases p.len(),
{
    if p.len() == 0 {
        0
    } else {
        num_set(p.drop_last()) + if p.last() {
            1nat
        } else {
            0nat
        }
    }
}

proof fn lemma_num_set_bound(p: Seq<bool>)
    ensures
        num_set(p) <= p.len(),
    decreases p.len(),
{
    if p.len() > 0 {
        lemma_num_set_bound(p.drop_last());
    }
}

proof fn lemma_num_set_update(p: Seq<bool>, k: int)
    requires
        0 <= k < p.len(),
        !p[k],
    ensures
        num_set(p.update(k, true)) == num_set(p) + 1,
    decreases p.len(),
{
    let q = p.update(k, true);
    if k < p.len() - 1 {
        assert(q.drop_last() =~= p.drop_last().update(k, true));
        lemma_num_set_update(p.drop_last(), k);
    } else {
        assert(q.drop_last() =~= p.drop_last());
    }
}

/// Every unplaced record sits in an unplaced container.
pub open spec fn stuck(s: Seq<ItemModel>, placed: Seq<bool>) -> bool {
    forall|q: int|
        0 <= q < s.len() && !#[trigger] placed[q] ==> s[q].container_id is Some && 0 <= index_of_id(
            s,
            s[q].container_id->0,
        ) < s.len() && !placed[index_of_id(s, s[q].container_id->0)]
}

/// From an unplaced record of a stuck placement, the walk up never leaves the table.
proof fn lemma_stuck_walk(s: Seq<ItemModel>, next_id: i64, placed: Seq<bool>, q: int, k: nat)
    requires
        table_wf(s, next_id),
        placed.len() == s.len(),
        0 <= q < s.len(),
        !placed[q],
        stuck(s, placed),
    ensures
        ancestor_at(s, s[q].id, k) is Some,
    decreases k,
{
    if k > 0 {
        lemma_item_of(s, next_id, q);
        let c = s[q].container_id->0;
        let j = index_of_id(s, c);
        assert(link_ok(s, s[q]));
        assert(s[j].id == c);
        lemma_stuck_walk(s, next_id, placed, j, (k - 1) as nat);
    }
}

impl Store {
    /// A store over records read from storage, with `next_id` the id that the
    /// next new item gets. Refused with `StoreFailure` unless the records obey
    /// the table's rules and their container links form a forest.
    pub fn from_items(items: Vec<Item>, next_id: i64) -> (r: Result<Store, InvError>)
        ensures
            match r {
                Ok(st) => st.wf() && st@ == items_view(items@) && st.next_free() == next_id,
                Err(e) => is_store_failure(e) && !(table_wf(items_view(items@), next_id) && forest(
                    items_view(items@),
                )),
            },
    {
        if !table_checks(&items, next_id) {
            return Err(InvError::StoreFailure { message: "inconsistent item records".to_owned() });
        }
        let ghost s = items_view(items@);
        let n = items.len();
        let mut placed: Vec<bool> = Vec::new();
        let mut i: usize = 0;
        while i < n
            invariant
                placed@.len() == i,
                i <= n,
                forall|q: int| 0 <= q < i ==> !#[trigger] placed@[q],
            decreases n - i,
        {
            let ghost prev = placed@;
            placed.push(false);
            assert(placed@.drop_last() =~= prev);
            i = i + 1;
        }
        proof {
            assert forall|m: int| 0 <= m <= n implies num_set(#[trigger] placed@.subrange(0, m)) == 0 by {
                lemma_num_set_zero(placed@, m);
            }
            assert(placed@.subrange(0, n as int) =~= placed@);
        }
        let ghost mut order: Seq<nat> = Seq::new(n as nat, |q: int| 0nat);
        let ghost mut counter: nat = 0;
        let mut count: usize = 0;
        loop
            invariant
                n == items@.len(),
                s == items_view(items@),
                table_wf(s, next_id),
                placed@.len() == n,
                order.len() == n,
                count == num_set(placed@),
                forall|q: int| 0 <= q < n && #[trigger] placed@[q] ==> order[q] < counter,
                forall|q: int|
                    0 <= q < n && #[trigger] placed@[q] && s[q].container_id is Some ==> {
                        let j = index_of_id(s, s[q].container_id->0);
                        &&& 0 <= j < n
                        &&& placed@[j]
                        &&& order[j] < order[q]
                    },
            ensures
                stuck(s, placed@),
            decreases n - count,
        {
            proof {
                lemma_num_set_bound(placed@);
            }
            let start = count;
            let mut k: usize = 0;
            while k < n
                invariant
                    n == items@.len(),
                    s == items_view(items@),
                    table_wf(s, next_id),
                    placed@.len() == n,
                    order.len() == n,
                    k <= n,
                    count == num_set(placed@),
                    start <= count,
                    forall|q: int| 0 <= q < n && #[trigger] placed@[q] ==> order[q] < counter,
                    forall|q: int|
                        0 <= q < n && #[trigger] placed@[q] && s[q].container_id is Some ==> {
                            let j = index_of_id(s, s[q].container_id->0);
                            &&& 0 <= j < n
                            &&& placed@[j]
                            &&& order[j] < order[q]
                        },
                    count == start ==> forall|q: int|
                        0 <= q < k && !#[trigger] placed@[q] ==> s[q].container_id is Some && 0 <= index_of_id(
                            s,
                            s[q].container_id->0,
                        ) < n && !placed@[index_of_id(s, s[q].container_id->0)],
                decreases n - k,
            {
                if !placed[k] {
                    proof {
                        if let Some(c) = s[k as int].container_id {
                            assert(link_ok(s, s[k as int]));
                            let q = choose|q: int| 0 <= q < s.len() && #[trigger] s[q].id == c;
                            lemma_item_of(s, next_id, q);
                        }
                    }
                    let ready = match items[k].container_id {
                        None => true,
                        Some(c) => match position(&items, c) {
                            Some(j) => {
                                proof {
                                    lemma_item_of(s, next_id, j as int);
                                }
                                placed[j]
                            },
                            None => false,
                        },
                    };
                    if ready {
                        let ghost prev = placed@;
                        placed.set(k, true);
                        proof {
                            lemma_num_set_update(prev, k as int);
                            lemma_num_set_bound(placed@);
                            order = order.update(k as int, counter);
                            counter = counter + 1;
                        }
                        count = count + 1;
                    }
                }
                k = k + 1;
            }
            proof {
                lemma_num_set_bound(placed@);
            }
            if count == start {
                break;
            }
        }
        let mut all = true;
        let mut q: usize = 0;
        while q < n
            invariant
                placed@.len() == n,
                q <= n,
                all == forall|j: int| 0 <= j < q ==> #[trigger] placed@[j],
            decreases n - q,
        {
            if !placed[q] {
                all = false;
            }
            q = q + 1;
        }
        if !all {
            proof {
                let j = choose|j: int| 0 <= j < n && !#[trigger] placed@[j];
                assert(stuck(s, placed@));
                assert forall|k: nat| #[trigger] ancestor_at(s, s[j].id, k) is Some by {
                    lemma_stuck_walk(s, next_id, placed@, j, k);
                }
                assert(!leaves_table(s, s[j].id));
                assert(!forest(s));
            }
            return Err(InvError::StoreFailure { message: "container links form a cycle".to_owned() });
        }
        let ghost ord = order;
        let ghost rank = |z: i64| ord[index_of_id(s, z)];
        proof {
            assert forall|i: int| 0 <= i < items@.len() implies rank(#[trigger] items@[i].id) < counter by {
                assert(s[i] == items@[i]@);
                lemma_item_of(s, next_id, i);
                assert(placed@[i]);
            }
            assert forall|i: int|
                0 <= i < items@.len() && (#[trigger] items@[i]).container_id is Some implies rank(
                    items@[i].container_id->0,
                ) < rank(items@[i].id) by {
                assert(s[i] == items@[i]@);
                lemma_item_of(s, next_id, i);
                assert(placed@[i]);
            }
        }
        Ok(Store::assemble(items, next_id, Ghost(rank), Ghost(counter)))
    }
}

proof fn lemma_num_set_zero(p: Seq<bool>, m: int)
    requires
        0 <= m <= p.len(),
        forall|q: int| 0 <= q < p.len() ==> !#[trigger] p[q],
    ensures
        num_set(p.subrange(0, m)) == 0,
    decreases m,
{
    if m > 0 {
        assert(p.subrange(0, m).drop_last() =~= p.subrange(0, m - 1));
        lemma_num_set_zero(p, m - 1);
    }
}

} // verus!
