//! The in-memory shape of one task item.

use vstd::prelude::*;
use vstd::string::StringExecFns;

verus! {

/// One task item. `title` is required and defaults to the placeholder `"-"`;
/// the other text fields are optional. `due`, when set, holds the task's due
/// date as UTC-normalized RFC 3339 text (the form `load` stores and `dump`
/// writes out). `tags` keeps insertion order and may hold duplicates.
#[derive(Debug)]
pub struct TaskEntry {
    pub id: u32,
    pub title: String,
    pub desc: Option<String>,
    pub due: Option<String>,
    pub project: Option<String>,
    pub tags: Vec<String>,
}

/// The mathematical view of a task entry: each text field as its character
/// sequence.
pub struct EntryView {
    pub id: u32,
    pub title: Seq<char>,
    pub desc: Option<Seq<char>>,
    pub due: Option<Seq<char>>,
    pub project: Option<Seq<char>>,
    pub tags: Seq<Seq<char>>,
}

impl View for TaskEntry {
    type V = EntryView;

    open spec fn view(&self) -> EntryView {
        EntryView {
            id: self.id,
            title: self.title@,
            desc: self.desc.deep_view(),
            due: self.due.deep_view(),
            project: self.project.deep_view(),
            tags: self.tags.deep_view(),
        }
    }
}

impl DeepView for TaskEntry {
    type V = EntryView;

    open spec fn deep_view(&self) -> EntryView {
        self.view()
    }
}

impl TaskEntry {
    /// A fresh entry: id 0, the placeholder title `"-"`, no description, no
    /// due date, no project, and no tags.
    pub fn new() -> (r: Self)
        ensures
            r@.id == 0,
            r@.title == "-"@,
            r@.desc is None,
            r@.due is None,
            r@.project is None,
            r@.tags == Seq::<Seq<char>>::empty(),
    {
        let r = TaskEntry {
            id: 0,
            title: String::from_str("-"),
            desc: None,
            due: None,
            project: None,
            tags: Vec::new(),
        };
        proof {
            assert(r@.tags =~= Seq::<Seq<char>>::empty());
        }
        r
    }
}

impl Default for TaskEntry {
    /// The same entry as [`TaskEntry::new`].
    fn default() -> (r: Self)
        ensures
            r@.id == 0,
            r@.title == "-"@,
            r@.desc is None,
            r@.due is None,
            r@.project is None,
            r@.tags == Seq::<Seq<char>>::empty(),
    {
        TaskEntry::new()
    }
}

} // verus!
