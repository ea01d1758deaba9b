use url_poller::models::{EditData, EditNote, PayloadNode};
use url_poller::persist::{CandidateStore, OriginTable};
use url_poller::poller::poll_db;
use url_poller::source::{select_data_batch, select_note_batch};

fn note(id: i32, text: &str) -> EditNote {
    EditNote { id, editor: 1, edit: id, text: text.to_string(), post_time: Some(0) }
}

#[test]
fn watermark_advances_past_nonempty_batch() {
    let data_batch = vec![
        EditData { edit: 3, data: PayloadNode::Null },
        EditData { edit: 5, data: PayloadNode::Null },
    ];
    let note_batch = vec![note(10, "a"), note(11, "b"), note(14, "c")];
    let plan = poll_db(&data_batch, &note_batch, 0, 0);
    assert_eq!(plan.next_edit_data_id, Some(6));
    assert_eq!(plan.next_edit_note_id, Some(15));
}

#[test]
fn watermark_unchanged_for_empty_batch() {
    let data_batch: Vec<EditData> = Vec::new();
    let note_batch: Vec<EditNote> = Vec::new();
    let plan = poll_db(&data_batch, &note_batch, 42, 17);
    assert_eq!(plan.next_edit_data_id, None);
    assert_eq!(plan.next_edit_note_id, None);
    assert!(plan.saves.is_empty());
}

#[test]
fn plan_lists_each_row_url_with_its_origin() {
    let data_batch = vec![EditData {
        edit: 3,
        data: PayloadNode::Text("go http://d.example/one".to_string()),
    }];
    let note_batch = vec![note(8, "see http://n.example/two.")];
    let plan = poll_db(&data_batch, &note_batch, 0, 0);
    assert_eq!(plan.saves.len(), 2);
    assert_eq!(plan.saves[0].url, "http://d.example/one");
    assert_eq!(plan.saves[0].origin_table, OriginTable::EditData);
    assert_eq!(plan.saves[0].origin_id, 3);
    assert_eq!(plan.saves[1].url, "http://n.example/two");
    assert_eq!(plan.saves[1].origin_table, OriginTable::EditNote);
    assert_eq!(plan.saves[1].origin_id, 8);
}

#[test]
fn batch_cap_limits_one_fetch() {
    let table: Vec<EditNote> = (1..=25).map(|id| note(id, "row")).collect();
    let batch = select_note_batch(&table, 0, 10);
    assert_eq!(batch.len(), 10);
    let expected: Vec<i32> = (1..=10).collect();
    let got: Vec<i32> = batch.iter().map(|r| r.id).collect();
    assert_eq!(got, expected);
    let empty_data: Vec<EditData> = Vec::new();
    let plan = poll_db(&empty_data, &batch, 0, 0);
    assert_eq!(plan.next_edit_note_id, Some(11));
}

#[test]
fn duplicate_keys_are_suppressed_at_the_source() {
    let mut table: Vec<EditNote> = Vec::new();
    for id in [4, 4, 5, 7, 7, 7, 9] {
        table.push(note(id, "row"));
    }
    let batch = select_note_batch(&table, 0, 10);
    let got: Vec<i32> = batch.iter().map(|r| r.id).collect();
    assert_eq!(got, vec![4, 5, 7, 9]);
}

#[test]
fn repeated_cycles_observe_every_row_once() {
    let table: Vec<EditNote> =
        (1..=25).map(|id| note(id, &format!("http://t.example/{}", id))).collect();
    let mut seen: Vec<i32> = Vec::new();
    let mut watermark: i32 = 0;
    let mut cycles = 0;
    loop {
        let batch = select_note_batch(&table, watermark, 10);
        if batch.is_empty() {
            break;
        }
        for row in &batch {
            seen.push(row.id);
        }
        let empty_data: Vec<EditData> = Vec::new();
        let plan = poll_db(&empty_data, &batch, 0, watermark);
        watermark = plan.next_edit_note_id.expect("non-empty batch must advance");
        cycles += 1;
        assert!(cycles <= 25);
    }
    let expected: Vec<i32> = (1..=25).collect();
    assert_eq!(seen, expected);
}

#[test]
fn edit_data_rows_with_one_edit_id_collapse_to_the_first() {
    let table = vec![
        EditData { edit: 2, data: PayloadNode::Text("http://first.example/a".to_string()) },
        EditData { edit: 2, data: PayloadNode::Text("http://second.example/b".to_string()) },
        EditData { edit: 3, data: PayloadNode::Null },
    ];
    let batch = select_data_batch(table, 0, 10);
    let got: Vec<i32> = batch.iter().map(|r| r.edit).collect();
    assert_eq!(got, vec![2, 3]);
    let empty_notes: Vec<EditNote> = Vec::new();
    let plan = poll_db(&batch, &empty_notes, 0, 0);
    // only the first row per edit id contributes candidates
    assert_eq!(plan.saves.len(), 1);
    assert_eq!(plan.saves[0].url, "http://first.example/a");
    assert_eq!(plan.next_edit_data_id, Some(4));
}

#[test]
fn full_pipeline_from_tables_to_store() {
    let data_table = vec![
        EditData { edit: 1, data: PayloadNode::Text("see http://p.example/a".to_string()) },
        EditData { edit: 2, data: PayloadNode::Num(9) },
    ];
    let note_table = vec![note(1, "read https://n.example/b."), note(2, "nothing")];
    let data_batch = select_data_batch(data_table, 0, 10);
    let note_batch = select_note_batch(&note_table, 0, 10);
    let plan = poll_db(&data_batch, &note_batch, 0, 0);
    let mut store = CandidateStore::new();
    let no_failures = vec![false; plan.saves.len()];
    store.save_all(&plan.saves, &no_failures);
    assert_eq!(store.stored_count(), 2);
    assert!(store.saved(&"http://p.example/a".to_string(), OriginTable::EditData, 1));
    assert!(store.saved(&"https://n.example/b".to_string(), OriginTable::EditNote, 1));
    assert_eq!(plan.next_edit_data_id, Some(3));
    assert_eq!(plan.next_edit_note_id, Some(3));
}

#[test]
fn failed_save_does_not_stall_the_watermark() {
    let text = "http://r.example/1 http://r.example/2 http://r.example/3 \
                http://r.example/4 http://r.example/5";
    let note_batch = vec![note(21, text)];
    let empty_data: Vec<EditData> = Vec::new();
    let plan = poll_db(&empty_data, &note_batch, 0, 0);
    assert_eq!(plan.saves.len(), 5);
    // the 3rd save fails; the other four candidates are still persisted
    let failed = vec![false, false, true, false, false];
    let mut store = CandidateStore::new();
    store.save_all(&plan.saves, &failed);
    assert_eq!(store.stored_count(), 4);
    for k in [1, 2, 4, 5] {
        let url = format!("http://r.example/{}", k);
        assert_eq!(store.saved(&url, OriginTable::EditNote, 21), k != 3);
    }
    assert!(!store.saved(&"http://r.example/3".to_string(), OriginTable::EditNote, 21));
    // and the watermark still advances past the row
    assert_eq!(plan.next_edit_note_id, Some(22));
}
