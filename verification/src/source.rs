//! The row source: the selection rule of one fetch. A fetch at watermark
//! `start` returns, among the table's rows in ascending key order, the
//! first rows whose key is at or above `start`, at most `limit` of them,
//! and at most one row per distinct key (the edit-data table may hold
//! several rows per edit id; only the first per id is returned).

use vstd::prelude::*;
use crate::models::{EditData, EditNote};
use crate::poller::{data_ids, note_ids};

verus! {

/// The keys one fetch returns: among `ids` (ascending), the first up to
/// `limit` distinct keys at or above `start`. Taking a key raises the
/// lower bound past it, which keeps later rows with the same key out of
/// the batch.
pub open spec fn selected_ids(ids: Seq<int>, start: int, limit: nat) -> Seq<int>
    decreases ids.len(),
{
    if ids.len() == 0 || limit == 0 {
        Seq::empty()
    } else if ids[0] >= start {
        seq![ids[0]] + selected_ids(ids.drop_first(), ids[0] + 1, (limit - 1) as nat)
    } else {
        selected_ids(ids.drop_first(), start, limit)
    }
}

/// Law (no skip): one fetch at watermark `start` observes, of the keys
/// at or above `start`, either the key itself or only keys beyond the
/// whole batch. With the next watermark set one past the batch's last
/// key, every table key at or above `start` and below the next watermark
/// is in the batch, so repeated cycles, each restarted at the watermark
/// the previous one returned, observe every qualifying key; and an empty
/// batch means nothing qualified, so an unchanged watermark loses
/// nothing.
pub proof fn lemma_no_skip(ids: Seq<int>, start: int, limit: nat)
    requires
        limit > 0,
        forall|a: int, b: int| 0 <= a <= b < ids.len() ==> ids[a] <= ids[b],
    ensures
        forall|q: int|
            0 <= q < selected_ids(ids, start, limit).len() ==> #[trigger] selected_ids(
                ids,
                start,
                limit,
            )[q] >= start,
        forall|q: int|
            0 <= q < selected_ids(ids, start, limit).len() ==> ids.contains(
                #[trigger] selected_ids(ids, start, limit)[q],
            ),
        selected_ids(ids, start, limit).len() == 0 <==> (forall|j: int|
            0 <= j < ids.len() ==> #[trigger] ids[j] < start),
        selected_ids(ids, start, limit).len() > 0 ==> forall|j: int|
            0 <= j < ids.len() && #[trigger] ids[j] >= start ==> (selected_ids(
                ids,
                start,
                limit,
            ).contains(ids[j]) || ids[j] > selected_ids(ids, start, limit).last()),
    decreases ids.len(),
{
    let sel = selected_ids(ids, start, limit);
    if ids.len() == 0 {
    } else {
        let rest = ids.drop_first();
        assert forall|a: int, b: int| 0 <= a <= b < rest.len() implies rest[a] <= rest[b] by {
            assert(rest[a] == ids[a + 1]);
            assert(rest[b] == ids[b + 1]);
        }
        if ids[0] >= start {
            let tail = selected_ids(rest, ids[0] + 1, (limit - 1) as nat);
            assert(sel == seq![ids[0]] + tail);
            assert(sel[0] == ids[0]);
            assert(sel.len() > 0);
            assert(ids.contains(ids[0]));
            if limit == 1 {
                assert(tail =~= Seq::<int>::empty());
                assert(sel =~= seq![ids[0]]);
                assert forall|j: int|
                    0 <= j < ids.len() && #[trigger] ids[j] >= start implies (sel.contains(ids[j])
                    || ids[j] > sel.last()) by {
                    if j > 0 {
                        assert(ids[0] <= ids[j]);
                        if ids[j] == ids[0] {
                            assert(sel[0] == ids[j]);
                            assert(sel.contains(ids[j]));
                        }
                    }
                }
            } else {
                lemma_no_skip(rest, ids[0] + 1, (limit - 1) as nat);
                assert forall|q: int| 0 <= q < sel.len() implies #[trigger] sel[q] >= start
                    && ids.contains(sel[q]) by {
                    if q > 0 {
                        assert(sel[q] == tail[q - 1]);
                        assert(tail[q - 1] >= ids[0] + 1);
                        let w = choose|w: int| 0 <= w < rest.len() && rest[w] == tail[q - 1];
                        assert(ids[w + 1] == tail[q - 1]);
                    }
                }
                assert forall|j: int|
                    0 <= j < ids.len() && #[trigger] ids[j] >= start implies (sel.contains(ids[j])
                    || ids[j] > sel.last()) by {
                    if j == 0 {
                        assert(sel[0] == ids[j]);
                        assert(sel.contains(ids[j]));
                    } else {
                        assert(ids[0] <= ids[j]);
                        if ids[j] == ids[0] {
                            assert(sel[0] == ids[j]);
                            assert(sel.contains(ids[j]));
                        } else {
                            assert(rest[j - 1] == ids[j]);
                            assert(ids[j] >= ids[0] + 1);
                            if tail.len() == 0 {
                                assert(rest[j - 1] < ids[0] + 1);
                            } else {
                                assert(sel.last() == tail.last());
                                if tail.contains(ids[j]) {
                                    let w = choose|w: int|
                                        0 <= w < tail.len() && tail[w] == ids[j];
                                    assert(sel[w + 1] == ids[j]);
                                    assert(sel.contains(ids[j]));
                                }
                            }
                        }
                    }
                }
            }
        } else {
            lemma_no_skip(rest, start, limit);
            let tail = selected_ids(rest, start, limit);
            assert(sel == tail);
            assert forall|q: int| 0 <= q < sel.len() implies ids.contains(
                #[trigger] sel[q],
            ) by {
                let w = choose|w: int| 0 <= w < rest.len() && rest[w] == sel[q];
                assert(ids[w + 1] == sel[q]);
            }
            if sel.len() == 0 {
                assert forall|j: int| 0 <= j < ids.len() implies #[trigger] ids[j] < start by {
                    if j > 0 {
                        assert(rest[j - 1] == ids[j]);
                    }
                }
            } else {
                assert forall|j: int|
                    0 <= j < ids.len() && #[trigger] ids[j] >= start implies (sel.contains(ids[j])
                    || ids[j] > sel.last()) by {
                    assert(j > 0);
                    assert(rest[j - 1] == ids[j]);
                }
            }
        }
    }
}

/// One fetch from the edit-note table: the first up to `limit` rows with
/// id at or above `start_id`, in ascending id order, one row per id.
pub fn select_note_batch(table: &Vec<EditNote>, start_id: i32, limit: usize) -> (batch: Vec<
    EditNote,
>)
    requires
        forall|a: int, b: int|
            0 <= a <= b < table@.len() ==> note_ids(table@)[a] <= note_ids(table@)[b],
        forall|a: int| 0 <= a < table@.len() ==> note_ids(table@)[a] < i32::MAX,
    ensures
        note_ids(batch@) == selected_ids(note_ids(table@), start_id as int, limit as nat),
        forall|q: int| 0 <= q < batch@.len() ==> table@.contains(#[trigger] batch@[q]),
{
    let ghost ids = note_ids(table@);
    let mut batch: Vec<EditNote> = Vec::new();
    let mut bound: i32 = start_id;
    let mut k: usize = 0;
    proof {
        assert(ids.skip(0) =~= ids);
        assert(note_ids(batch@) =~= Seq::<int>::empty());
        assert(Seq::<int>::empty() + selected_ids(ids, start_id as int, limit as nat)
            =~= selected_ids(ids, start_id as int, limit as nat));
    }
    while k < table.len() && batch.len() < limit
        invariant
            k <= table.len(),
            batch.len() <= limit,
            ids == note_ids(table@),
            ids.len() == table@.len(),
            forall|a: int| 0 <= a < table@.len() ==> #[trigger] ids[a] < i32::MAX,
            selected_ids(ids, start_id as int, limit as nat) == note_ids(batch@) + selected_ids(
                ids.skip(k as int),
                bound as int,
                (limit - batch.len()) as nat,
            ),
            forall|q: int| 0 <= q < batch@.len() ==> table@.contains(#[trigger] batch@[q]),
        decreases table.len() - k,
    {
        let ghost rest = ids.skip(k as int);
        proof {
            assert(rest[0] == ids[k as int]);
            assert(ids[k as int] == table@[k as int].id as int);
            assert(rest.drop_first() =~= ids.skip(k as int + 1));
        }
        let row = &table[k];
        if row.id >= bound {
            let ghost batch0 = batch@;
            batch.push(row.clone());
            bound = row.id + 1;
            proof {
                assert(note_ids(batch@) =~= note_ids(batch0).push(rest[0]));
                assert(note_ids(batch0) + (seq![rest[0]] + selected_ids(
                    ids.skip(k as int + 1),
                    rest[0] + 1,
                    (limit - batch0.len() - 1) as nat,
                )) =~= note_ids(batch@) + selected_ids(
                    ids.skip(k as int + 1),
                    rest[0] + 1,
                    (limit - batch0.len() - 1) as nat,
                ));
                assert(table@.contains(table@[k as int]));
            }
        } else {
        }
        k += 1;
    }
    proof {
        if k == table@.len() {
            assert(ids.skip(k as int) =~= Seq::<int>::empty());
        }
        assert(selected_ids(ids.skip(k as int), bound as int, (limit - batch.len()) as nat)
            =~= Seq::<int>::empty());
        assert(note_ids(batch@) + Seq::<int>::empty() =~= note_ids(batch@));
    }
    batch
}

/// One fetch from the edit-data table: the first up to `limit` rows with
/// edit id at or above `start_id`, in ascending order, one row per
/// distinct edit id (later rows that repeat an id are left out, as the
/// table may hold several payload rows per edit). The table is consumed
/// and the selected rows are handed over.
pub fn select_data_batch(table: Vec<EditData>, start_id: i32, limit: usize) -> (batch: Vec<
    EditData,
>)
    requires
        forall|a: int, b: int|
            0 <= a <= b < table@.len() ==> data_ids(table@)[a] <= data_ids(table@)[b],
        forall|a: int| 0 <= a < table@.len() ==> data_ids(table@)[a] < i32::MAX,
    ensures
        data_ids(batch@) == selected_ids(data_ids(table@), start_id as int, limit as nat),
        forall|q: int| 0 <= q < batch@.len() ==> table@.contains(#[trigger] batch@[q]),
{
    let ghost table0 = table@;
    let ghost ids = data_ids(table0);
    // reverse the rows onto a stack, so they can be taken from the front
    let mut rest = table;
    let mut stack: Vec<EditData> = Vec::new();
    proof {
        assert(rest@ =~= table0.take(rest@.len() as int));
    }
    while rest.len() > 0
        invariant
            rest@ == table0.take(rest@.len() as int),
            stack@.len() + rest@.len() == table0.len(),
            forall|i: int|
                0 <= i < stack@.len() ==> #[trigger] stack@[i] == table0[table0.len() - 1 - i],
        decreases rest.len(),
    {
        let ghost r = rest@.len() as int;
        if let Some(x) = rest.pop() {
            proof {
                assert(table0.take(r)[r - 1] == table0[r - 1]);
                assert(rest@ =~= table0.take(r - 1));
            }
            stack.push(x);
        }
    }

    // take rows from the front, raising the bound past each taken key
    let mut batch: Vec<EditData> = Vec::new();
    let mut bound: i32 = start_id;
    proof {
        assert(ids.skip(0) =~= ids);
        assert(data_ids(batch@) =~= Seq::<int>::empty());
        assert(Seq::<int>::empty() + selected_ids(ids, start_id as int, limit as nat)
            =~= selected_ids(ids, start_id as int, limit as nat));
    }
    while stack.len() > 0 && batch.len() < limit
        invariant
            batch.len() <= limit,
            stack@.len() <= table0.len(),
            ids == data_ids(table0),
            ids.len() == table0.len(),
            forall|a: int| 0 <= a < table0.len() ==> #[trigger] ids[a] < i32::MAX,
            forall|i: int|
                0 <= i < stack@.len() ==> #[trigger] stack@[i] == table0[table0.len() - 1 - i],
            selected_ids(ids, start_id as int, limit as nat) == data_ids(batch@) + selected_ids(
                ids.skip(table0.len() - stack@.len()),
                bound as int,
                (limit - batch.len()) as nat,
            ),
            forall|q: int| 0 <= q < batch@.len() ==> table0.contains(#[trigger] batch@[q]),
        decreases stack.len(),
    {
        let ghost k = table0.len() - stack@.len();
        let ghost rest_ids = ids.skip(k as int);
        proof {
            assert(stack@[stack@.len() - 1] == table0[k as int]);
            assert(rest_ids[0] == ids[k as int]);
            assert(ids[k as int] == table0[k as int].edit as int);
            assert(rest_ids.drop_first() =~= ids.skip(k as int + 1));
        }
        if let Some(row) = stack.pop() {
            proof {
                assert(row == table0[k as int]);
            }
            if row.edit >= bound {
                let next_bound = row.edit + 1;
                let ghost batch0 = batch@;
                proof {
                    assert(table0.contains(table0[k as int]));
                }
                batch.push(row);
                bound = next_bound;
                proof {
                    assert(data_ids(batch@) =~= data_ids(batch0).push(rest_ids[0]));
                    assert(data_ids(batch0) + (seq![rest_ids[0]] + selected_ids(
                        ids.skip(k as int + 1),
                        rest_ids[0] + 1,
                        (limit - batch0.len() - 1) as nat,
                    )) =~= data_ids(batch@) + selected_ids(
                        ids.skip(k as int + 1),
                        rest_ids[0] + 1,
                        (limit - batch0.len() - 1) as nat,
                    ));
                }
            }
        }
    }
    proof {
        if stack@.len() == 0 {
            assert(ids.skip(table0.len() - stack@.len()) =~= Seq::<int>::empty());
        }
        assert(selected_ids(
            ids.skip(table0.len() - stack@.len()),
            bound as int,
            (limit - batch.len()) as nat,
        ) =~= Seq::<int>::empty());
        assert(data_ids(batch@) + Seq::<int>::empty() =~= data_ids(batch@));
    }
    batch
}

} // verus!
