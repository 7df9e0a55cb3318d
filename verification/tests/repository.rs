use todo_store::record::ImportRow;
use todo_store::tasks::CreateError;
use todo_store::tasks::DeleteError;
use todo_store::tasks::TaskField;
use todo_store::tasks::TaskStore;
use todo_store::tasks::UpdateError;
use todo_store::tasks::decode_import_rows;

#[test]
fn create_and_complete_scenario() {
    let mut store = TaskStore::new();
    let task = store.create(1, "2024-12-06", "buy milk").expect("a real date creates");
    assert_eq!(task.id, 1);
    assert_eq!(task.status, "in progress");
    assert_eq!(task.user_id, 1);

    store.mark_completed(1, 1).expect("an in-progress task completes");
    let all = store.list_all(1);
    assert_eq!(all.len(), 1);
    assert_eq!(all[0].status, "completed");

    assert_eq!(store.mark_completed(1, 1).unwrap_err(), UpdateError::TaskNotFound);
}

#[test]
fn bad_calendar_date_creates_nothing() {
    let mut store = TaskStore::new();
    let r = store.create(1, "2024-13-40", "impossible");
    assert_eq!(r.unwrap_err(), CreateError::InvalidDate);
    assert!(store.list_all(1).is_empty());
    assert_eq!(store.next_id, 1);
}

#[test]
fn date_validation_knows_the_calendar() {
    let mut store = TaskStore::new();
    assert!(store.create(1, "2024-02-29", "leap day").is_ok());
    assert!(store.create(1, "2023-02-29", "no leap day").is_err());
    assert!(store.create(1, "2024-02-30", "never").is_err());
    assert!(store.create(1, "2024-04-31", "never").is_err());
    assert!(store.create(1, "not-a-date", "never").is_err());
    assert!(store.create(1, "", "never").is_err());
}

#[test]
fn listing_is_scoped_to_the_user() {
    let mut store = TaskStore::new();
    store.create(1, "2024-12-06", "buy milk").unwrap();
    store.create(2, "2024-12-07", "walk dog").unwrap();
    store.create(1, "2024-12-08", "call home").unwrap();

    let mine = store.list_all(1);
    assert_eq!(mine.len(), 2);
    assert!(mine.iter().all(|t| t.user_id == 1));
    assert_eq!(mine[0].content, "buy milk");
    assert_eq!(mine[1].content, "call home");

    let theirs = store.list_all(2);
    assert_eq!(theirs.len(), 1);
    assert_eq!(theirs[0].content, "walk dog");

    assert!(store.list_all(3).is_empty());
}

#[test]
fn in_progress_listing_hides_completed_tasks() {
    let mut store = TaskStore::new();
    store.create(1, "2024-12-06", "buy milk").unwrap();
    store.create(1, "2024-12-07", "walk dog").unwrap();
    store.mark_completed(1, 1).unwrap();
    let open = store.list_in_progress(1);
    assert_eq!(open.len(), 1);
    assert_eq!(open[0].content, "walk dog");
}

#[test]
fn update_rewrites_one_field() {
    let mut store = TaskStore::new();
    store.create(1, "2024-12-06", "buy milk").unwrap();
    store.update(1, 1, TaskField::Content, "buy oat milk").expect("content updates");
    store.update(1, 1, TaskField::Date, "2024-12-24").expect("a real date updates");
    let all = store.list_all(1);
    assert_eq!(all[0].content, "buy oat milk");
    assert_eq!(all[0].date, "2024-12-24");
    assert_eq!(all[0].status, "in progress");
}

#[test]
fn update_validates_date_and_ownership() {
    let mut store = TaskStore::new();
    store.create(1, "2024-12-06", "buy milk").unwrap();
    assert_eq!(
        store.update(1, 1, TaskField::Date, "2024-13-40").unwrap_err(),
        UpdateError::InvalidDate
    );
    assert_eq!(
        store.update(1, 9, TaskField::Content, "x").unwrap_err(),
        UpdateError::TaskNotFound
    );
    assert_eq!(
        store.update(2, 1, TaskField::Content, "x").unwrap_err(),
        UpdateError::TaskNotFound
    );
    assert_eq!(store.list_all(1)[0].content, "buy milk");
}

#[test]
fn completing_checks_owner_and_status() {
    let mut store = TaskStore::new();
    store.create(1, "2024-12-06", "buy milk").unwrap();
    assert_eq!(store.mark_completed(2, 1).unwrap_err(), UpdateError::TaskNotFound);
    assert_eq!(store.mark_completed(1, 9).unwrap_err(), UpdateError::TaskNotFound);
    store.mark_completed(1, 1).unwrap();
}

#[test]
fn cancelled_delete_changes_nothing() {
    let mut store = TaskStore::new();
    store.create(1, "2024-12-06", "buy milk").unwrap();
    store.create(1, "2024-12-07", "walk dog").unwrap();
    let before = store.to_lines();
    store.delete(1, 2, false).expect("the task exists, cancelling is not an error");
    assert_eq!(store.to_lines(), before);
}

#[test]
fn confirmed_delete_removes_the_row() {
    let mut store = TaskStore::new();
    store.create(1, "2024-12-06", "buy milk").unwrap();
    store.create(1, "2024-12-07", "walk dog").unwrap();
    store.delete(1, 1, true).expect("an owned task deletes");
    let all = store.list_all(1);
    assert_eq!(all.len(), 1);
    assert_eq!(all[0].id, 2);
    assert_eq!(store.delete(1, 1, true).unwrap_err(), DeleteError::TaskNotFound);
    assert_eq!(store.delete(2, 2, true).unwrap_err(), DeleteError::TaskNotFound);
}

#[test]
fn deleted_ids_are_not_reused() {
    let mut store = TaskStore::new();
    store.create(1, "2024-12-06", "buy milk").unwrap();
    store.create(1, "2024-12-07", "walk dog").unwrap();
    store.delete(1, 2, true).unwrap();
    let t = store.create(1, "2024-12-08", "call home").unwrap();
    assert_eq!(t.id, 3);
}

#[test]
fn bulk_import_assigns_distinct_ids() {
    let mut store = TaskStore::new();
    store.create(1, "2024-12-06", "buy milk").unwrap();
    let rows = vec![
        ImportRow {
            date: "2024-12-07".to_string(),
            content: "walk dog".to_string(),
            status: "in progress".to_string(),
        },
        ImportRow {
            date: "2024-12-08".to_string(),
            content: "call home".to_string(),
            status: "completed".to_string(),
        },
    ];
    let imported = store.bulk_import(1, &rows);
    assert_eq!(imported.len(), 2);
    assert_eq!((imported[0].id, imported[1].id), (2, 3));
    assert_eq!(imported[1].status, "completed");
    let mut ids: Vec<u32> = store.list_all(1).iter().map(|t| t.id).collect();
    ids.sort();
    ids.dedup();
    assert_eq!(ids.len(), 3);
    assert_eq!(store.next_id, 4);
}

#[test]
fn import_rows_decode_like_the_source_file() {
    let lines = vec![
        "2024-12-07,walk dog".to_string(),
        "just one field".to_string(),
        "2024-12-08,call home,completed".to_string(),
    ];
    let rows = decode_import_rows(&lines);
    assert_eq!(rows.len(), 2);
    assert_eq!(rows[0].status, "in progress");
    assert_eq!(rows[1].status, "completed");
}

#[test]
fn store_lines_round_trip() {
    let mut store = TaskStore::new();
    store.create(1, "2024-12-06", "buy milk").unwrap();
    store.create(2, "2024-12-07", "walk dog").unwrap();
    store.mark_completed(1, 1).unwrap();
    let lines = store.to_lines();
    assert_eq!(
        lines,
        vec!["1,2024-12-06,buy milk,1,completed", "2,2024-12-07,walk dog,2,in progress"]
    );
    let reloaded = TaskStore::from_lines(&lines);
    assert_eq!(reloaded.next_id, 3);
    assert_eq!(reloaded.to_lines(), lines);
}

#[test]
fn loading_seeds_the_counter_past_the_largest_id() {
    let lines = vec![
        "3,2024-12-06,buy milk,1,in progress".to_string(),
        "broken line".to_string(),
        "7,2024-12-07,walk dog,1,completed".to_string(),
    ];
    let mut store = TaskStore::from_lines(&lines);
    assert_eq!(store.tasks.len(), 2);
    assert_eq!(store.next_id, 8);
    let t = store.create(1, "2024-12-08", "call home").unwrap();
    assert_eq!(t.id, 8);
}

#[test]
fn no_operation_reopens_a_completed_task() {
    let mut store = TaskStore::new();
    store.create(1, "2024-12-06", "buy milk").unwrap();
    store.mark_completed(1, 1).unwrap();
    assert_eq!(store.mark_completed(1, 1).unwrap_err(), UpdateError::TaskNotFound);
    store.update(1, 1, TaskField::Content, "buy oat milk").unwrap();
    store.update(1, 1, TaskField::Date, "2024-12-24").unwrap();
    store.create(1, "2024-12-09", "new task").unwrap();
    let all = store.list_all(1);
    assert_eq!(all[0].status, "completed");
}
