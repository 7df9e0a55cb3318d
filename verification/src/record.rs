//! Records and their line codec.
//!
//! A user row is `id,username,password`; a task row is
//! `id,date,content,user_id,status`; a bulk-import row is
//! `date,content[,status]`. Encoding joins the fields with commas in that
//! fixed order; decoding splits and requires the minimum field count,
//! ignoring any extra fields. Fields are not escaped, so the codec is a
//! faithful round trip only for comma-free fields.

use vstd::prelude::*;
use vstd::string::StringExecFns;
use crate::digits::is_digit;
use crate::digits::lemma_parse_u32_digits;
use crate::digits::lemma_u32_digits_wf;
use crate::digits::parse_u32;
use crate::digits::parse_u32_spec;
use crate::digits::u32_digits;
use crate::digits::u32_to_string;
use crate::lines::all_comma_free;
use crate::lines::comma_free;
use crate::lines::join_commas;
use crate::lines::lemma_split_join;
use crate::lines::split_commas;
use crate::lines::split_line;

verus! {

/// A registered account: plaintext credentials, as the store keeps them.
#[derive(Debug)]
pub struct User {
    pub id: u32,
    pub username: String,
    pub password: String,
}

/// The mathematical value of a `User`.
pub struct UserV {
    pub id: u32,
    pub username: Seq<char>,
    pub password: Seq<char>,
}

impl View for User {
    type V = UserV;

    open spec fn view(&self) -> UserV {
        UserV { id: self.id, username: self.username@, password: self.password@ }
    }
}

impl Clone for User {
    fn clone(&self) -> (r: Self)
        ensures
            r@ == self@,
    {
        User { id: self.id, username: self.username.clone(), password: self.password.clone() }
    }
}

/// One todo item, tagged with the id of the account that made it.
#[derive(Debug)]
pub struct Task {
    pub id: u32,
    pub date: String,
    pub content: String,
    pub user_id: u32,
    pub status: String,
}

/// The mathematical value of a `Task`.
pub struct TaskV {
    pub id: u32,
    pub date: Seq<char>,
    pub content: Seq<char>,
    pub user_id: u32,
    pub status: Seq<char>,
}

impl View for Task {
    type V = TaskV;

    open spec fn view(&self) -> TaskV {
        TaskV {
            id: self.id,
            date: self.date@,
            content: self.content@,
            user_id: self.user_id,
            status: self.status@,
        }
    }
}

impl Clone for Task {
    fn clone(&self) -> (r: Self)
        ensures
            r@ == self@,
    {
        Task {
            id: self.id,
            date: self.date.clone(),
            content: self.content.clone(),
            user_id: self.user_id,
            status: self.status.clone(),
        }
    }
}

/// One row of a bulk-import source: a date, a content, and an optional
/// status that defaults to in-progress.
#[derive(Debug)]
pub struct ImportRow {
    pub date: String,
    pub content: String,
    pub status: String,
}

/// The mathematical value of an `ImportRow`.
pub struct ImportRowV {
    pub date: Seq<char>,
    pub content: Seq<char>,
    pub status: Seq<char>,
}

impl View for ImportRow {
    type V = ImportRowV;

    open spec fn view(&self) -> ImportRowV {
        ImportRowV { date: self.date@, content: self.content@, status: self.status@ }
    }
}

/// Relies on `str` equality from std: two string slices compare equal
/// exactly when they consist of the same characters.
#[verifier::external_body]
pub(crate) fn str_eq(a: &str, b: &str) -> (r: bool)
    ensures
        r == (a@ == b@),
{
    a == b
}

/// The status a task carries from creation until it is completed.
pub open spec fn status_in_progress() -> Seq<char> {
    "in progress"@
}

/// The status a completed task carries.
pub open spec fn status_completed() -> Seq<char> {
    "completed"@
}

/// Build the in-progress status value.
pub fn in_progress_string() -> (s: String)
    ensures
        s@ == status_in_progress(),
{
    String::from_str("in progress")
}

/// Build the completed status value.
pub fn completed_string() -> (s: String)
    ensures
        s@ == status_completed(),
{
    String::from_str("completed")
}

/// The two status words contain no delimiter and differ from each other.
pub proof fn lemma_status_words()
    ensures
        comma_free(status_in_progress()),
        comma_free(status_completed()),
        status_in_progress() != status_completed(),
{
    reveal_strlit("in progress");
    reveal_strlit("completed");
    assert(status_in_progress().len() == 11);
    assert(status_completed().len() == 9);
}

/// The fields of a user row, in file order.
pub open spec fn user_fields(u: UserV) -> Seq<Seq<char>> {
    seq![u32_digits(u.id as nat), u.username, u.password]
}

/// The line that encodes a user.
pub open spec fn encode_user_spec(u: UserV) -> Seq<char> {
    join_commas(user_fields(u))
}

/// What decoding a user row yields: the record exactly when the row has at
/// least three fields and the id field is a decimal number.
pub open spec fn decode_user_spec(s: Seq<char>) -> Option<UserV> {
    let fs = split_commas(s);
    if fs.len() >= 3 {
        match parse_u32_spec(fs[0]) {
            Some(id) => Some(UserV { id, username: fs[1], password: fs[2] }),
            None => None,
        }
    } else {
        None
    }
}

/// A user whose text fields are comma-free, so its row survives a round trip.
pub open spec fn wf_user(u: UserV) -> bool {
    comma_free(u.username) && comma_free(u.password)
}

/// The fields of a task row, in file order.
pub open spec fn task_fields(t: TaskV) -> Seq<Seq<char>> {
    seq![u32_digits(t.id as nat), t.date, t.content, u32_digits(t.user_id as nat), t.status]
}

/// The line that encodes a task.
pub open spec fn encode_task_spec(t: TaskV) -> Seq<char> {
    join_commas(task_fields(t))
}

/// What decoding a task row yields: the record exactly when the row has at
/// least five fields and both id fields are decimal numbers.
pub open spec fn decode_task_spec(s: Seq<char>) -> Option<TaskV> {
    let fs = split_commas(s);
    if fs.len() >= 5 {
        match (parse_u32_spec(fs[0]), parse_u32_spec(fs[3])) {
            (Some(id), Some(user_id)) => Some(
                TaskV { id, date: fs[1], content: fs[2], user_id, status: fs[4] },
            ),
            _ => None,
        }
    } else {
        None
    }
}

/// A task whose text fields are comma-free, so its row survives a round trip.
pub open spec fn wf_task(t: TaskV) -> bool {
    comma_free(t.date) && comma_free(t.content) && comma_free(t.status)
}

/// What decoding a bulk-import row yields: a date and a content when the
/// row has at least two fields, with the third field as status when there
/// is one and the in-progress default when there is not.
pub open spec fn decode_import_spec(s: Seq<char>) -> Option<ImportRowV> {
    let fs = split_commas(s);
    if fs.len() >= 2 {
        Some(
            ImportRowV {
                date: fs[0],
                content: fs[1],
                status: if fs.len() >= 3 {
                    fs[2]
                } else {
                    status_in_progress()
                },
            },
        )
    } else {
        None
    }
}

/// The view of an optional user.
pub open spec fn opt_user_view(r: Option<User>) -> Option<UserV> {
    match r {
        Some(u) => Some(u@),
        None => None,
    }
}

/// The view of an optional task.
pub open spec fn opt_task_view(r: Option<Task>) -> Option<TaskV> {
    match r {
        Some(t) => Some(t@),
        None => None,
    }
}

/// The view of an optional import row.
pub open spec fn opt_import_view(r: Option<ImportRow>) -> Option<ImportRowV> {
    match r {
        Some(t) => Some(t@),
        None => None,
    }
}

/// Encode a user as its store line.
pub fn encode_user(u: &User) -> (r: String)
    ensures
        r@ == encode_user_spec(u@),
{
    let mut s = u32_to_string(u.id);
    s.append(",");
    s.append(u.username.as_str());
    s.append(",");
    s.append(u.password.as_str());
    proof {
        reveal_strlit(",");
        assert(","@ =~= seq![',']);
        let f0 = u32_digits(u@.id as nat);
        let f1 = u@.username;
        let f2 = u@.password;
        let fs = user_fields(u@);
        assert(join_commas(seq![f0]) == f0);
        assert(seq![f0, f1].drop_last() =~= seq![f0]);
        assert(join_commas(seq![f0, f1]) == f0 + seq![','] + f1);
        assert(fs.drop_last() =~= seq![f0, f1]);
        assert(join_commas(fs) == join_commas(seq![f0, f1]) + seq![','] + f2);
        assert(s@ =~= join_commas(fs));
    }
    s
}

/// Encode a task as its store line.
pub fn encode_task(t: &Task) -> (r: String)
    ensures
        r@ == encode_task_spec(t@),
{
    let mut s = u32_to_string(t.id);
    s.append(",");
    s.append(t.date.as_str());
    s.append(",");
    s.append(t.content.as_str());
    s.append(",");
    let uid = u32_to_string(t.user_id);
    s.append(uid.as_str());
    s.append(",");
    s.append(t.status.as_str());
    proof {
        reveal_strlit(",");
        assert(","@ =~= seq![',']);
        let f0 = u32_digits(t@.id as nat);
        let f1 = t@.date;
        let f2 = t@.content;
        let f3 = u32_digits(t@.user_id as nat);
        let f4 = t@.status;
        let fs = task_fields(t@);
        assert(join_commas(seq![f0]) == f0);
        assert(seq![f0, f1].drop_last() =~= seq![f0]);
        assert(join_commas(seq![f0, f1]) == f0 + seq![','] + f1);
        assert(seq![f0, f1, f2].drop_last() =~= seq![f0, f1]);
        assert(join_commas(seq![f0, f1, f2]) == join_commas(seq![f0, f1]) + seq![','] + f2);
        assert(seq![f0, f1, f2, f3].drop_last() =~= seq![f0, f1, f2]);
        assert(join_commas(seq![f0, f1, f2, f3]) == join_commas(seq![f0, f1, f2]) + seq![','] + f3);
        assert(fs.drop_last() =~= seq![f0, f1, f2, f3]);
        assert(join_commas(fs) == join_commas(seq![f0, f1, f2, f3]) + seq![','] + f4);
        assert(s@ =~= join_commas(fs));
    }
    s
}

/// Decode a user row, if it has the fields a user needs.
pub fn decode_user(s: &str) -> (r: Option<User>)
    ensures
        opt_user_view(r) == decode_user_spec(s@),
{
    let fields = split_line(s);
    if fields.len() < 3 {
        return None;
    }
    let id = match parse_u32(fields[0].as_str()) {
        Some(id) => id,
        None => {
            return None;
        },
    };
    Some(User { id, username: fields[1].clone(), password: fields[2].clone() })
}

/// Decode a task row, if it has the fields a task needs.
pub fn decode_task(s: &str) -> (r: Option<Task>)
    ensures
        opt_task_view(r) == decode_task_spec(s@),
{
    let fields = split_line(s);
    if fields.len() < 5 {
        return None;
    }
    let id = match parse_u32(fields[0].as_str()) {
        Some(id) => id,
        None => {
            return None;
        },
    };
    let user_id = match parse_u32(fields[3].as_str()) {
        Some(user_id) => user_id,
        None => {
            return None;
        },
    };
    Some(
        Task {
            id,
            date: fields[1].clone(),
            content: fields[2].clone(),
            user_id,
            status: fields[4].clone(),
        },
    )
}

/// Decode a bulk-import row, if it has a date and a content.
pub fn decode_import(s: &str) -> (r: Option<ImportRow>)
    ensures
        opt_import_view(r) == decode_import_spec(s@),
{
    let fields = split_line(s);
    if fields.len() < 2 {
        return None;
    }
    let status = if fields.len() >= 3 {
        fields[2].clone()
    } else {
        in_progress_string()
    };
    Some(ImportRow { date: fields[0].clone(), content: fields[1].clone(), status })
}

/// A decimal digit run never contains the delimiter.
proof fn lemma_digits_comma_free(n: nat)
    ensures
        comma_free(u32_digits(n)),
{
    lemma_u32_digits_wf(n);
    assert forall|i: int| 0 <= i < u32_digits(n).len() implies u32_digits(n)[i] != ',' by {
        assert(is_digit(u32_digits(n)[i]));
    }
}

/// Round trip: decoding the encoding of a comma-free user gives it back.
pub proof fn lemma_user_round_trip(u: UserV)
    requires
        wf_user(u),
    ensures
        decode_user_spec(encode_user_spec(u)) == Some(u),
{
    let fs = user_fields(u);
    lemma_digits_comma_free(u.id as nat);
    assert(all_comma_free(fs));
    lemma_split_join(fs);
    lemma_parse_u32_digits(u.id);
}

/// Round trip: decoding the encoding of a comma-free task gives it back.
pub proof fn lemma_task_round_trip(t: TaskV)
    requires
        wf_task(t),
    ensures
        decode_task_spec(encode_task_spec(t)) == Some(t),
{
    let fs = task_fields(t);
    lemma_digits_comma_free(t.id as nat);
    lemma_digits_comma_free(t.user_id as nat);
    assert(all_comma_free(fs));
    lemma_split_join(fs);
    lemma_parse_u32_digits(t.id);
    lemma_parse_u32_digits(t.user_id);
}

/// A well-formed user line: one that some comma-free user encodes to.
pub open spec fn wf_user_line(s: Seq<char>) -> bool {
    exists|u: UserV| wf_user(u) && s == encode_user_spec(u)
}

/// A well-formed task line: one that some comma-free task encodes to.
pub open spec fn wf_task_line(s: Seq<char>) -> bool {
    exists|t: TaskV| wf_task(t) && s == encode_task_spec(t)
}

/// Round trip: a well-formed user line decodes, and encoding the decoded
/// user restores the line exactly.
pub proof fn lemma_user_line_round_trip(s: Seq<char>)
    requires
        wf_user_line(s),
    ensures
        decode_user_spec(s) is Some,
        encode_user_spec(decode_user_spec(s)->Some_0) == s,
{
    let u = choose|u: UserV| wf_user(u) && s == encode_user_spec(u);
    lemma_user_round_trip(u);
}

/// Round trip: a well-formed task line decodes, and encoding the decoded
/// task restores the line exactly.
pub proof fn lemma_task_line_round_trip(s: Seq<char>)
    requires
        wf_task_line(s),
    ensures
        decode_task_spec(s) is Some,
        encode_task_spec(decode_task_spec(s)->Some_0) == s,
{
    let t = choose|t: TaskV| wf_task(t) && s == encode_task_spec(t);
    lemma_task_round_trip(t);
}

} // verus!
