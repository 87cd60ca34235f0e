//! The entries of a vocabulary in the order of their ids. A model file may list
//! them in any order; the loaders read them in rising order.

use crate::merge_job::{lemma_ascending_unique, rising, strictly_ascending};
use crate::model_file::rows_view;
use crate::vocab_store::append_items;
use std::collections::{HashMap, HashSet};
use vstd::prelude::*;

verus! {

/// Whether row `k` can be placed: it begins with an id, and no row before it
/// begins with the same id.
pub open spec fn placeable(rows: Seq<Seq<u64>>, k: int) -> bool {
    &&& rows[k].len() >= 1
    &&& rows[k][0] <= u32::MAX
    &&& forall|j: int| 0 <= j < k ==> (#[trigger] rows[j])[0] != rows[k][0]
}

/// The first of the first `n` rows that cannot be placed.
pub open spec fn first_unplaced(rows: Seq<Seq<u64>>, n: nat) -> Option<int>
    decreases n,
{
    if n == 0 {
        None
    } else {
        match first_unplaced(rows, (n - 1) as nat) {
            Some(k) => Some(k),
            None => if placeable(rows, n - 1) {
                None
            } else {
                Some(n - 1)
            },
        }
    }
}

/// The ids with which the rows begin.
pub open spec fn ids_of(rows: Seq<Seq<u64>>) -> Seq<usize> {
    Seq::new(rows.len(), |i: int| rows[i][0] as usize)
}

/// Whether `listed` holds the rows of `rows`, and no others, by rising ids.
pub open spec fn is_arranged(listed: Seq<Seq<u64>>, rows: Seq<Seq<u64>>) -> bool {
    &&& strictly_ascending(ids_of(listed))
    &&& listed.to_set() == rows.to_set()
}

/// The rows by rising ids.
pub open spec fn arranged(rows: Seq<Seq<u64>>) -> Seq<Seq<u64>> {
    choose|listed: Seq<Seq<u64>>| is_arranged(listed, rows)
}

/// The rows of a file as the loaders read them: by rising ids, or the place of
/// the first row that has no id or repeats one.
pub open spec fn entries_in_order(rows: Seq<Seq<u64>>) -> Result<Seq<Seq<u64>>, int> {
    match first_unplaced(rows, rows.len()) {
        Some(k) => Err(k),
        None => Ok(arranged(rows)),
    }
}

/// A row that cannot be placed among the first rows is the first such row of
/// all.
pub proof fn lemma_unplaced_stays(rows: Seq<Seq<u64>>, done: nat, n: nat)
    requires
        done <= n,
        first_unplaced(rows, done) is Some,
    ensures
        first_unplaced(rows, n) == first_unplaced(rows, done),
    decreases n - done,
{
    if done < n {
        lemma_unplaced_stays(rows, done, (n - 1) as nat);
    }
}

/// Where every one of the first `n` rows can be placed, each is placeable.
pub proof fn lemma_all_placed(rows: Seq<Seq<u64>>, n: nat, k: int)
    requires
        first_unplaced(rows, n) is None,
        0 <= k < n,
    ensures
        placeable(rows, k),
    decreases n,
{
    if k < n - 1 {
        lemma_all_placed(rows, (n - 1) as nat, k);
    }
}

/// Where every row can be placed, every one of the first `n` rows can.
pub proof fn lemma_placed_all(rows: Seq<Seq<u64>>, n: nat)
    requires
        n <= rows.len(),
        forall|k: int| 0 <= k < rows.len() ==> placeable(rows, k),
    ensures
        first_unplaced(rows, n) is None,
    decreases n,
{
    if n > 0 {
        lemma_placed_all(rows, (n - 1) as nat);
    }
}

/// Two rows with the same id are the same row, where every row can be placed.
pub proof fn lemma_one_row_for_an_id(rows: Seq<Seq<u64>>, a: int, b: int)
    requires
        first_unplaced(rows, rows.len()) is None,
        0 <= a < rows.len(),
        0 <= b < rows.len(),
        rows[a][0] as usize == rows[b][0] as usize,
    ensures
        a == b,
{
    lemma_all_placed(rows, rows.len(), a);
    lemma_all_placed(rows, rows.len(), b);
    if a < b {
        assert(rows[a][0] != rows[b][0]);
    } else if b < a {
        assert(rows[b][0] != rows[a][0]);
    }
}

/// The ids of two listings of the same rows are the same ids.
proof fn lemma_same_ids(a: Seq<Seq<u64>>, b: Seq<Seq<u64>>)
    requires
        a.to_set() == b.to_set(),
    ensures
        ids_of(a).to_set().subset_of(ids_of(b).to_set()),
{
    assert forall|v: usize| ids_of(a).to_set().contains(v) implies ids_of(b).to_set().contains(
        v,
    ) by {
        let i = choose|i: int| 0 <= i < ids_of(a).len() && ids_of(a)[i] == v;
        assert(a.contains(a[i]));
        assert(b.to_set().contains(a[i]));
        let j = choose|j: int| 0 <= j < b.len() && b[j] == a[i];
        assert(ids_of(b)[j] == v);
    }
}

/// Rows that can all be placed have one arrangement by rising ids.
pub proof fn lemma_arranged(listed: Seq<Seq<u64>>, rows: Seq<Seq<u64>>)
    requires
        first_unplaced(rows, rows.len()) is None,
        is_arranged(listed, rows),
    ensures
        arranged(rows) == listed,
{
    let other = arranged(rows);
    assert(is_arranged(other, rows));
    lemma_same_ids(listed, other);
    lemma_same_ids(other, listed);
    assert(ids_of(listed).to_set() =~= ids_of(other).to_set());
    lemma_ascending_unique(ids_of(listed), ids_of(other));
    assert(listed.len() == other.len()) by {
        assert(ids_of(listed).len() == ids_of(other).len());
    }
    assert forall|i: int| 0 <= i < listed.len() implies listed[i] == other[i] by {
        assert(listed.contains(listed[i]));
        assert(rows.to_set().contains(listed[i]));
        let a = choose|a: int| 0 <= a < rows.len() && rows[a] == listed[i];
        assert(other.contains(other[i]));
        assert(rows.to_set().contains(other[i]));
        let b = choose|b: int| 0 <= b < rows.len() && rows[b] == other[i];
        assert(ids_of(listed)[i] == ids_of(other)[i]);
        lemma_one_row_for_an_id(rows, a, b);
    }
    assert(listed =~= other);
}

/// Rows that stand by rising ids are their own arrangement.
pub proof fn lemma_arranged_already(rows: Seq<Seq<u64>>)
    requires
        strictly_ascending(ids_of(rows)),
        forall|k: int| 0 <= k < rows.len() ==> (#[trigger] rows[k]).len() >= 1 && rows[k][0]
            <= u32::MAX,
    ensures
        entries_in_order(rows) == Ok::<Seq<Seq<u64>>, int>(rows),
{
    assert forall|k: int| 0 <= k < rows.len() implies placeable(rows, k) by {
        assert forall|j: int| 0 <= j < k implies (#[trigger] rows[j])[0] != rows[k][0] by {
            assert(ids_of(rows)[j] < ids_of(rows)[k]);
        }
    }
    lemma_placed_all(rows, rows.len());
    lemma_arranged(rows, rows);
}

/// The rows by rising ids, or the place of the first row that has no id or
/// repeats one.
pub fn arrange(rows: &Vec<Vec<u64>>) -> (outcome: Result<Vec<Vec<u64>>, usize>)
    ensures
        match entries_in_order(rows_view(rows@)) {
            Ok(listed) => outcome is Ok && rows_view(outcome->Ok_0@) == listed,
            Err(k) => outcome == Err::<Vec<Vec<u64>>, usize>(k as usize),
        },
{
    broadcast use vstd::std_specs::hash::group_hash_axioms;

    let ghost all = rows_view(rows@);
    let mut index: HashMap<usize, usize> = HashMap::new();
    let mut ids: HashSet<usize> = HashSet::new();
    let mut k: usize = 0;
    while k < rows.len()
        invariant
            k <= rows@.len(),
            all == rows_view(rows@),
            first_unplaced(all, k as nat) is None,
            forall|id: usize| #[trigger] ids@.contains(id) <==> index@.contains_key(id),
            forall|id: usize| #[trigger]
                index@.contains_key(id) ==> index@[id] < k && all[index@[id] as int].len() >= 1
                    && all[index@[id] as int][0] as usize == id,
            forall|j: int|
                0 <= j < k ==> index@.contains_key((#[trigger] all[j])[0] as usize) && index@[all[j][0] as usize]
                    == j,
        decreases rows.len() - k,
    {
        let row = &rows[k];
        proof {
            assert(all[k as int] == row@);
        }
        if row.len() == 0 || row[0] > u32::MAX as u64 {
            proof {
                assert(!placeable(all, k as int));
                assert(first_unplaced(all, (k + 1) as nat) == Some(k as int));
                lemma_unplaced_stays(all, (k + 1) as nat, all.len());
            }
            return Err(k);
        }
        let id = row[0] as usize;
        if index.contains_key(&id) {
            proof {
                let j = index@[id] as int;
                lemma_all_placed(all, k as nat, j);
                assert(all[j][0] <= u32::MAX);
                assert(all[j][0] == all[k as int][0]);
                assert(!placeable(all, k as int));
                assert(first_unplaced(all, (k + 1) as nat) == Some(k as int));
                lemma_unplaced_stays(all, (k + 1) as nat, all.len());
            }
            return Err(k);
        }
        proof {
            assert forall|j: int| 0 <= j < k implies (#[trigger] all[j])[0] != all[k as int][0] by {
                assert(index@.contains_key(all[j][0] as usize));
            }
            assert(placeable(all, k as int));
        }
        index.insert(id, k);
        ids.insert(id);
        k += 1;
    }
    let order = rising(&ids);
    let mut listed: Vec<Vec<u64>> = Vec::new();
    let mut i: usize = 0;
    while i < order.len()
        invariant
            i <= order@.len(),
            all == rows_view(rows@),
            order@.to_set() == ids@,
            forall|id: usize| #[trigger] ids@.contains(id) <==> index@.contains_key(id),
            forall|id: usize| #[trigger]
                index@.contains_key(id) ==> index@[id] < rows@.len() && all[index@[id] as int].len()
                    >= 1 && all[index@[id] as int][0] as usize == id,
            listed@.len() == i,
            forall|a: int| 0 <= a < i ==> (#[trigger] listed@[a])@ == all[index@[order@[a]] as int],
        decreases order.len() - i,
    {
        let id = order[i];
        proof {
            assert(order@.contains(order@[i as int]));
            assert(order@.to_set().contains(id));
            assert(index@.contains_key(id));
        }
        let mut copy: Vec<u64> = Vec::new();
        match index.get(&id) {
            Some(place) => {
                append_items(&mut copy, &rows[*place]);
                proof {
                    assert(all[*place as int] == rows@[*place as int]@);
                    assert(copy@ =~= all[*place as int]);
                }
            },
            None => {},
        }
        listed.push(copy);
        i += 1;
    }
    proof {
        let s = rows_view(listed@);
        assert forall|a: int| 0 <= a < s.len() implies #[trigger] s[a] == all[index@[order@[a]] as int]
            && index@.contains_key(order@[a]) by {
            assert(order@.contains(order@[a]));
            assert(order@.to_set().contains(order@[a]));
        }
        assert(ids_of(s) =~= order@);
        assert forall|row: Seq<u64>| s.to_set().contains(row) <==> all.to_set().contains(row) by {
            if s.contains(row) {
                let a = choose|a: int| 0 <= a < s.len() && s[a] == row;
                assert(all[index@[order@[a]] as int] == row);
                assert(all.contains(row));
            }
            if all.contains(row) {
                let j = choose|j: int| 0 <= j < all.len() && all[j] == row;
                let id = all[j][0] as usize;
                assert(index@.contains_key(id) && index@[id] == j);
                assert(order@.to_set().contains(id));
                let a = choose|a: int| 0 <= a < order@.len() && order@[a] == id;
                assert(s[a] == row);
                assert(s.contains(row));
            }
        }
        assert(s.to_set() =~= all.to_set());
        lemma_arranged(s, all);
    }
    Ok(listed)
}

} // verus!
