use todo_store::digits::parse_u32;
use todo_store::digits::u32_to_string;
use todo_store::lines::split_line;
use todo_store::record::Task;
use todo_store::record::User;
use todo_store::record::decode_import;
use todo_store::record::decode_task;
use todo_store::record::decode_user;
use todo_store::record::encode_task;
use todo_store::record::encode_user;

#[test]
fn parse_u32_accepts_digit_runs() {
    assert_eq!(parse_u32("0"), Some(0));
    assert_eq!(parse_u32("42"), Some(42));
    assert_eq!(parse_u32("007"), Some(7));
    assert_eq!(parse_u32("4294967295"), Some(u32::MAX));
}

#[test]
fn parse_u32_rejects_everything_else() {
    assert_eq!(parse_u32(""), None);
    assert_eq!(parse_u32("12a"), None);
    assert_eq!(parse_u32("-1"), None);
    assert_eq!(parse_u32("+1"), None);
    assert_eq!(parse_u32("4294967296"), None);
    assert_eq!(parse_u32("99999999999999999999"), None);
}

#[test]
fn u32_to_string_is_canonical_decimal() {
    assert_eq!(u32_to_string(0), "0");
    assert_eq!(u32_to_string(7), "7");
    assert_eq!(u32_to_string(12345), "12345");
    assert_eq!(u32_to_string(u32::MAX), "4294967295");
}

#[test]
fn split_line_splits_on_every_comma() {
    assert_eq!(split_line(""), vec![""]);
    assert_eq!(split_line("a,b,c"), vec!["a", "b", "c"]);
    assert_eq!(split_line(",x,"), vec!["", "x", ""]);
    assert_eq!(split_line("no delimiter"), vec!["no delimiter"]);
}

#[test]
fn task_encodes_in_field_order() {
    let t = Task {
        id: 1,
        date: "2024-12-06".to_string(),
        content: "buy milk".to_string(),
        user_id: 1,
        status: "in progress".to_string(),
    };
    assert_eq!(encode_task(&t), "1,2024-12-06,buy milk,1,in progress");
}

#[test]
fn task_round_trip_from_record() {
    let t = Task {
        id: 17,
        date: "2023-01-31".to_string(),
        content: "water plants".to_string(),
        user_id: 4,
        status: "completed".to_string(),
    };
    let line = encode_task(&t);
    let back = decode_task(&line).expect("a task line decodes");
    assert_eq!(back.id, t.id);
    assert_eq!(back.date, t.date);
    assert_eq!(back.content, t.content);
    assert_eq!(back.user_id, t.user_id);
    assert_eq!(back.status, t.status);
}

#[test]
fn task_round_trip_from_line() {
    let line = "1,2024-12-06,buy milk,1,in progress";
    let t = decode_task(line).expect("a task line decodes");
    assert_eq!(encode_task(&t), line);
}

#[test]
fn task_decode_rejects_short_or_unnumbered_rows() {
    assert_eq!(decode_task("").is_none(), true);
    assert_eq!(decode_task("1,2024-12-06,buy milk,1").is_none(), true);
    assert_eq!(decode_task("x,2024-12-06,buy milk,1,in progress").is_none(), true);
    assert_eq!(decode_task("1,2024-12-06,buy milk,owner,in progress").is_none(), true);
}

#[test]
fn task_decode_ignores_extra_fields() {
    let t = decode_task("2,2024-05-01,call home,3,completed,junk,more").expect("decodes");
    assert_eq!(t.id, 2);
    assert_eq!(t.status, "completed");
}

#[test]
fn user_round_trip() {
    let u = User { id: 1, username: "alice".to_string(), password: "password1".to_string() };
    let line = encode_user(&u);
    assert_eq!(line, "1,alice,password1");
    let back = decode_user(&line).expect("a user line decodes");
    assert_eq!(back.id, u.id);
    assert_eq!(back.username, u.username);
    assert_eq!(back.password, u.password);
}

#[test]
fn user_decode_rejects_short_rows() {
    assert!(decode_user("1,alice").is_none());
    assert!(decode_user("alice,password1,x").is_none());
}

#[test]
fn comma_in_content_corrupts_the_row() {
    let t = Task {
        id: 1,
        date: "2024-12-06".to_string(),
        content: "milk, eggs".to_string(),
        user_id: 1,
        status: "in progress".to_string(),
    };
    let line = encode_task(&t);
    assert_eq!(line, "1,2024-12-06,milk, eggs,1,in progress");
    assert!(decode_task(&line).is_none());
}

#[test]
fn import_row_defaults_to_in_progress() {
    let r = decode_import("2024-12-06,buy milk").expect("two fields are enough");
    assert_eq!(r.date, "2024-12-06");
    assert_eq!(r.content, "buy milk");
    assert_eq!(r.status, "in progress");
}

#[test]
fn import_row_takes_explicit_status() {
    let r = decode_import("2024-12-06,buy milk,completed").expect("decodes");
    assert_eq!(r.status, "completed");
}

#[test]
fn import_row_needs_two_fields() {
    assert!(decode_import("2024-12-06").is_none());
    assert!(decode_import("").is_none());
}
