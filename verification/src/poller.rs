//! The poll cycle orchestrator. One cycle takes the two fetched batches
//! and the two start watermarks, extracts the candidate URLs of every
//! row, and returns the save plan together with the two next watermarks.
//! The caller fetches the batches, executes the plan against the real
//! candidate table, and keeps the watermarks for the next cycle; a save
//! failure is scoped to its own candidate and never changes the plan or
//! the watermarks.

use vstd::prelude::*;
use crate::extract::{views_of, dedup_seq, payload_urls, text_urls};
use crate::extract::{extract_from_payload, extract_from_note};
use crate::models::{EditData, EditNote};
use crate::persist::{Candidate, OriginTable};

verus! {

/// The ordering keys of an edit-data batch: the edit ids.
pub open spec fn data_ids(rows: Seq<EditData>) -> Seq<int> {
    rows.map_values(|r: EditData| r.edit as int)
}

/// The ordering keys of an edit-note batch: the note ids.
pub open spec fn note_ids(rows: Seq<EditNote>) -> Seq<int> {
    rows.map_values(|r: EditNote| r.id as int)
}

/// A well-formed fetched batch: keys ascending, at or above the start
/// watermark, and small enough that the watermark after any of them
/// still fits its integer type.
pub open spec fn wf_batch_ids(ids: Seq<int>, start: int) -> bool {
    &&& forall|a: int, b: int| 0 <= a <= b < ids.len() ==> ids[a] <= ids[b]
    &&& forall|a: int| 0 <= a < ids.len() ==> start <= #[trigger] ids[a] < i32::MAX
}

/// The watermark to start the next cycle with: one past the highest key
/// of the batch, or nothing when the batch was empty, in which case the
/// caller keeps its previous watermark.
pub open spec fn next_watermark(ids: Seq<int>) -> Option<int> {
    if ids.len() == 0 {
        None
    } else {
        Some(ids.last() + 1)
    }
}

/// Whether the returned watermark `next` is exactly what `next_watermark`
/// asks of the batch keys `ids`.
pub open spec fn watermark_matches(next: Option<i32>, ids: Seq<int>) -> bool {
    match next {
        None => next_watermark(ids) is None,
        Some(v) => next_watermark(ids) == Some(v as int),
    }
}

/// The save requests one edit-data row contributes: its distinct payload
/// URLs, each keyed by the edit-data origin and the row's edit id.
pub open spec fn data_row_keys(r: EditData) -> Seq<(Seq<char>, OriginTable, int)> {
    dedup_seq(payload_urls(r.data)).map_values(
        |u: Seq<char>| (u, OriginTable::EditData, r.edit as int),
    )
}

/// The save requests one edit-note row contributes: its distinct text
/// URLs, each keyed by the edit-note origin and the row's note id.
pub open spec fn note_row_keys(r: EditNote) -> Seq<(Seq<char>, OriginTable, int)> {
    dedup_seq(text_urls(r.text@)).map_values(
        |u: Seq<char>| (u, OriginTable::EditNote, r.id as int),
    )
}

/// The save requests of a whole edit-data batch, row by row, in order.
pub open spec fn data_plan_keys(rows: Seq<EditData>) -> Seq<(Seq<char>, OriginTable, int)>
    decreases rows.len(),
{
    if rows.len() == 0 {
        Seq::empty()
    } else {
        data_plan_keys(rows.drop_last()) + data_row_keys(rows.last())
    }
}

/// The save requests of a whole edit-note batch, row by row, in order.
pub open spec fn note_plan_keys(rows: Seq<EditNote>) -> Seq<(Seq<char>, OriginTable, int)>
    decreases rows.len(),
{
    if rows.len() == 0 {
        Seq::empty()
    } else {
        note_plan_keys(rows.drop_last()) + note_row_keys(rows.last())
    }
}

/// The dedup keys of a sequence of candidates.
pub open spec fn plan_keys(saves: Seq<Candidate>) -> Seq<(Seq<char>, OriginTable, int)> {
    saves.map_values(|c: Candidate| c.dedup_key())
}

/// The outcome of one poll cycle: the save requests, in order, and the
/// two next watermarks.
pub struct CyclePlan {
    pub saves: Vec<Candidate>,
    pub next_edit_data_id: Option<i32>,
    pub next_edit_note_id: Option<i32>,
}

/// Law (watermark monotonicity): for a non-empty ascending batch the
/// next watermark is one past the batch's highest key, and every key of
/// the batch lies strictly below it; for an empty batch there is no new
/// watermark and the caller keeps the one it started with.
pub proof fn lemma_watermark_monotonic(ids: Seq<int>)
    requires
        forall|a: int, b: int| 0 <= a <= b < ids.len() ==> ids[a] <= ids[b],
    ensures
        ids.len() == 0 ==> next_watermark(ids) is None,
        ids.len() > 0 ==> next_watermark(ids) == Some(ids.last() + 1),
        forall|j: int| 0 <= j < ids.len() ==> #[trigger] ids[j] <= ids.last(),
        forall|j: int| 0 <= j < ids.len() ==> #[trigger] ids[j] < ids.last() + 1,
{
}

/// Runs the decision half of one poll cycle over the two batches fetched
/// at the two start watermarks. The plan lists, in batch order, one save
/// request per distinct URL per row, and carries the two next
/// watermarks. Nothing in the plan depends on how any save will fare.
pub fn poll_db(
    edit_data_batch: &Vec<EditData>,
    edit_note_batch: &Vec<EditNote>,
    edit_data_start_idx: i32,
    edit_note_start_idx: i32,
) -> (plan: CyclePlan)
    requires
        edit_data_start_idx >= 0,
        edit_note_start_idx >= 0,
        wf_batch_ids(data_ids(edit_data_batch@), edit_data_start_idx as int),
        wf_batch_ids(note_ids(edit_note_batch@), edit_note_start_idx as int),
    ensures
        plan_keys(plan.saves@) == data_plan_keys(edit_data_batch@) + note_plan_keys(
            edit_note_batch@,
        ),
        watermark_matches(plan.next_edit_data_id, data_ids(edit_data_batch@)),
        watermark_matches(plan.next_edit_note_id, note_ids(edit_note_batch@)),
{
    let mut saves: Vec<Candidate> = Vec::new();

    // edit-data rows
    let mut i: usize = 0;
    proof {
        assert(edit_data_batch@.take(0) =~= Seq::<EditData>::empty());
        assert(plan_keys(saves@) =~= data_plan_keys(edit_data_batch@.take(0)));
    }
    while i < edit_data_batch.len()
        invariant
            i <= edit_data_batch.len(),
            plan_keys(saves@) == data_plan_keys(edit_data_batch@.take(i as int)),
        decreases edit_data_batch.len() - i,
    {
        let row = &edit_data_batch[i];
        let urls = extract_from_payload(row);
        let ghost us = views_of(urls@);
        let ghost f = |u: Seq<char>| (u, OriginTable::EditData, row.edit as int);
        let mut j: usize = 0;
        proof {
            assert(us.take(0) =~= Seq::<Seq<char>>::empty());
            assert(plan_keys(saves@) + us.take(0).map_values(f) =~= plan_keys(saves@));
        }
        while j < urls.len()
            invariant
                j <= urls.len(),
                *row == edit_data_batch@[i as int],
                i < edit_data_batch@.len(),
                us == views_of(urls@),
                us.len() == urls.len(),
                f == (|u: Seq<char>| (u, OriginTable::EditData, row.edit as int)),
                plan_keys(saves@) == data_plan_keys(edit_data_batch@.take(i as int)) + us.take(
                    j as int,
                ).map_values(f),
            decreases urls.len() - j,
        {
            let cand = Candidate {
                url: urls[j].clone(),
                origin_table: OriginTable::EditData,
                origin_id: row.edit,
            };
            let ghost saves0 = saves@;
            saves.push(cand);
            proof {
                assert(us[j as int] == urls@[j as int]@);
                assert(plan_keys(saves@) =~= plan_keys(saves0).push(f(us[j as int])));
                assert(us.take(j as int + 1).map_values(f) =~= us.take(j as int).map_values(
                    f,
                ).push(f(us[j as int])));
                assert(plan_keys(saves@) =~= data_plan_keys(edit_data_batch@.take(i as int))
                    + us.take(j as int + 1).map_values(f));
            }
            j += 1;
        }
        proof {
            assert(us.take(urls@.len() as int) =~= us);
            assert(us.map_values(f) == data_row_keys(*row));
            let rows1 = edit_data_batch@.take(i as int + 1);
            assert(rows1.drop_last() =~= edit_data_batch@.take(i as int));
            assert(rows1.last() == edit_data_batch@[i as int]);
            assert(data_plan_keys(rows1) == data_plan_keys(edit_data_batch@.take(i as int))
                + data_row_keys(*row));
        }
        i += 1;
    }
    proof {
        assert(edit_data_batch@.take(edit_data_batch@.len() as int) =~= edit_data_batch@);
    }

    // edit-note rows
    let ghost data_part = plan_keys(saves@);
    let mut i2: usize = 0;
    proof {
        assert(edit_note_batch@.take(0) =~= Seq::<EditNote>::empty());
        assert(plan_keys(saves@) =~= data_part + note_plan_keys(edit_note_batch@.take(0)));
    }
    while i2 < edit_note_batch.len()
        invariant
            i2 <= edit_note_batch.len(),
            data_part == data_plan_keys(edit_data_batch@),
            plan_keys(saves@) == data_part + note_plan_keys(edit_note_batch@.take(i2 as int)),
        decreases edit_note_batch.len() - i2,
    {
        let row = &edit_note_batch[i2];
        let urls = extract_from_note(row);
        let ghost us = views_of(urls@);
        let ghost f = |u: Seq<char>| (u, OriginTable::EditNote, row.id as int);
        let mut j: usize = 0;
        proof {
            assert(us.take(0) =~= Seq::<Seq<char>>::empty());
            assert(plan_keys(saves@) + us.take(0).map_values(f) =~= plan_keys(saves@));
        }
        while j < urls.len()
            invariant
                j <= urls.len(),
                *row == edit_note_batch@[i2 as int],
                i2 < edit_note_batch@.len(),
                us == views_of(urls@),
                us.len() == urls.len(),
                f == (|u: Seq<char>| (u, OriginTable::EditNote, row.id as int)),
                data_part == data_plan_keys(edit_data_batch@),
                plan_keys(saves@) == data_part + note_plan_keys(edit_note_batch@.take(i2 as int))
                    + us.take(j as int).map_values(f),
            decreases urls.len() - j,
        {
            let cand = Candidate {
                url: urls[j].clone(),
                origin_table: OriginTable::EditNote,
                origin_id: row.id,
            };
            let ghost saves0 = saves@;
            saves.push(cand);
            proof {
                assert(us[j as int] == urls@[j as int]@);
                assert(plan_keys(saves@) =~= plan_keys(saves0).push(f(us[j as int])));
                assert(us.take(j as int + 1).map_values(f) =~= us.take(j as int).map_values(
                    f,
                ).push(f(us[j as int])));
                assert(plan_keys(saves@) =~= data_part + note_plan_keys(
                    edit_note_batch@.take(i2 as int),
                ) + us.take(j as int + 1).map_values(f));
            }
            j += 1;
        }
        proof {
            assert(us.take(urls@.len() as int) =~= us);
            assert(us.map_values(f) == note_row_keys(*row));
            let rows1 = edit_note_batch@.take(i2 as int + 1);
            assert(rows1.drop_last() =~= edit_note_batch@.take(i2 as int));
            assert(rows1.last() == edit_note_batch@[i2 as int]);
            assert(note_plan_keys(rows1) == note_plan_keys(edit_note_batch@.take(i2 as int))
                + note_row_keys(*row));
            assert(data_part + (note_plan_keys(edit_note_batch@.take(i2 as int)) + note_row_keys(
                *row,
            )) =~= data_part + note_plan_keys(edit_note_batch@.take(i2 as int)) + note_row_keys(
                *row,
            ));
        }
        i2 += 1;
    }
    proof {
        assert(edit_note_batch@.take(edit_note_batch@.len() as int) =~= edit_note_batch@);
    }

    // watermarks: one past the last key of each non-empty batch
    let next_edit_data_id = if edit_data_batch.len() == 0 {
        None
    } else {
        let last = edit_data_batch.len() - 1;
        proof {
            assert(data_ids(edit_data_batch@)[last as int] == edit_data_batch@[last as int].edit as int);
            assert(data_ids(edit_data_batch@)[last as int] < i32::MAX);
        }
        Some(edit_data_batch[last].edit + 1)
    };
    let next_edit_note_id = if edit_note_batch.len() == 0 {
        None
    } else {
        let last = edit_note_batch.len() - 1;
        proof {
            assert(note_ids(edit_note_batch@)[last as int] == edit_note_batch@[last as int].id as int);
            assert(note_ids(edit_note_batch@)[last as int] < i32::MAX);
        }
        Some(edit_note_batch[last].id + 1)
    };

    CyclePlan { saves, next_edit_data_id, next_edit_note_id }
}

} // verus!
