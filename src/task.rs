use chrono::{Datelike, Timelike};
use vstd::prelude::*;

verus! {

/// A calendar date and wall-clock time, as the store writes it.
#[derive(Clone, Copy, Debug, PartialEq, Eq)]
pub struct Timestamp {
    pub year: i32,
    pub month: u32,
    pub day: u32,
    pub hour: u32,
    pub minute: u32,
    pub second: u32,
}

/// What `chrono` reads from a text under a format: `None` where it refuses it.
pub uninterp spec fn datetime_parsed(s: Seq<char>, fmt: Seq<char>) -> Option<Timestamp>;

#[verifier::external_type_specification]
#[verifier::external_body]
pub struct ExParseError(chrono::format::ParseError);

/// Relies on `chrono::NaiveDateTime::parse_from_str`: whether it accepts a
/// text, and the date and time it reads, depend on the text and format alone.
#[verifier::external_body]
fn parse_datetime(s: &str, fmt: &str) -> (r: Result<Timestamp, chrono::format::ParseError>)
    ensures
        r is Ok <==> datetime_parsed(s@, fmt@) is Some,
        r matches Ok(t) ==> datetime_parsed(s@, fmt@) == Some(t),
{
    match chrono::NaiveDateTime::parse_from_str(s, fmt) {
        Ok(d) => Ok(Timestamp {
            year: d.year(),
            month: d.month(),
            day: d.day(),
            hour: d.hour(),
            minute: d.minute(),
            second: d.second(),
        }),
        Err(e) => Err(e),
    }
}

/// The layout of a stored creation date.
pub open spec fn creation_date_format() -> Seq<char> {
    "%Y-%m-%d %H:%M:%S"@
}

/// A task as the store hands it out.
#[derive(Clone, Debug)]
pub struct Task {
    pub id: u32,
    pub parent_id: Option<u32>,
    pub name: String,
    pub completed: bool,
    pub description: Option<String>,
    pub creation_date: Timestamp,
}

/// A task's columns as read from the store, the creation date still as text.
pub struct SelectTask {
    pub id: u32,
    pub parent_id: Option<u32>,
    pub name: String,
    pub completed: bool,
    pub description: Option<String>,
    pub creation_date: String,
}

/// Why a store record or a requested change was not accepted.
#[derive(Clone, Copy, Debug, PartialEq, Eq)]
pub enum TaskError {
    /// A stored record could not be read into a task.
    MalformedRecord,
    /// An empty name was given for a task.
    Validation,
    /// No task has the requested id.
    NotFound,
    /// A chain of parents loops, or does not end at a root.
    Cycle,
}

fn clone_text(s: &Option<String>) -> (r: Option<String>)
    ensures
        r == *s,
{
    match s {
        Some(t) => Some(t.clone()),
        None => None,
    }
}

/// Two tasks are the same task when their ids agree.
impl PartialEq for Task {
    fn eq(&self, other: &Task) -> (r: bool) {
        self.id == other.id
    }
}

impl vstd::std_specs::cmp::PartialEqSpecImpl for Task {
    open spec fn obeys_eq_spec() -> bool {
        true
    }

    open spec fn eq_spec(&self, other: &Task) -> bool {
        self.id == other.id
    }
}

impl Task {
    /// Reads a store record; its creation date must parse, else the record is malformed.
    pub fn from_select(select: SelectTask) -> (r: Result<Task, TaskError>)
        ensures
            datetime_parsed(select.creation_date@, creation_date_format()) is None
                ==> r == Err::<Task, TaskError>(TaskError::MalformedRecord),
            datetime_parsed(select.creation_date@, creation_date_format()) matches Some(d)
                ==> r == Ok::<Task, TaskError>(Task {
                    id: select.id,
                    parent_id: select.parent_id,
                    name: select.name,
                    completed: select.completed,
                    description: select.description,
                    creation_date: d,
                }),
    {
        match parse_datetime(select.creation_date.as_str(), "%Y-%m-%d %H:%M:%S") {
            Ok(d) => Ok(Task {
                id: select.id,
                parent_id: select.parent_id,
                name: select.name,
                completed: select.completed,
                description: select.description,
                creation_date: d,
            }),
            Err(_) => Err(TaskError::MalformedRecord),
        }
    }

    /// A copy of the task, field for field.
    pub fn snapshot(&self) -> (r: Task)
        ensures
            r == *self,
    {
        Task {
            id: self.id,
            parent_id: self.parent_id,
            name: self.name.clone(),
            completed: self.completed,
            description: clone_text(&self.description),
            creation_date: self.creation_date,
        }
    }
}

/// What to insert for a new task.
pub struct CreateTask {
    pub name: String,
    pub parent_id: Option<u32>,
    pub description: Option<String>,
}

/// The fields of one task to overwrite; an absent field stays as it is.
pub struct UpdateTask {
    pub id: u32,
    pub name: Option<String>,
    pub parent_id: Option<u32>,
    pub description: Option<String>,
    pub completed: Option<bool>,
}

/// A stored column that an update may set.
#[derive(Clone, Copy, Debug, PartialEq, Eq, Structural)]
pub enum Column {
    Name,
    Description,
    ParentId,
    Completed,
}

/// The columns an update sets, in the order the update statement lists them.
pub open spec fn columns_of(u: UpdateTask) -> Seq<Column> {
    (if u.name is Some { seq![Column::Name] } else { Seq::empty() }) + (if u.description is Some {
        seq![Column::Description]
    } else {
        Seq::empty()
    }) + (if u.parent_id is Some { seq![Column::ParentId] } else { Seq::empty() }) + (
    if u.completed is Some {
        seq![Column::Completed]
    } else {
        Seq::empty()
    })
}

impl UpdateTask {
    /// The update changes at least one field.
    pub open spec fn changes_something(&self) -> bool {
        self.name is Some || self.description is Some || self.parent_id is Some
            || self.completed is Some
    }

    /// Whether there is anything to write.
    pub fn updated(&self) -> (r: bool)
        ensures
            r == self.changes_something(),
    {
        self.name.is_some() || self.description.is_some() || self.parent_id.is_some()
            || self.completed.is_some()
    }

    /// The columns to set, each once, in a fixed order.
    pub fn changed_columns(&self) -> (r: Vec<Column>)
        ensures
            r@ == columns_of(*self),
    {
        let mut r: Vec<Column> = Vec::new();
        if self.name.is_some() {
            r.push(Column::Name);
        }
        if self.description.is_some() {
            r.push(Column::Description);
        }
        if self.parent_id.is_some() {
            r.push(Column::ParentId);
        }
        if self.completed.is_some() {
            r.push(Column::Completed);
        }
        assert(r@ =~= columns_of(*self));
        r
    }
}

} // verus!
