//! Changes to a message's headers.

use vstd::prelude::*;

use crate::text::copy_text;

verus! {

/// A change to a header map.
#[derive(Debug)]
pub enum HeaderUpdate {
    /// Set a header, replacing what it held.
    Insert(String, String),
    /// Add another value to a header.
    Append(String, String),
    /// Remove a header.
    Remove(String),
}

/// A change to a header map, with its texts as sequences of characters.
pub enum UpdateView {
    /// See [`HeaderUpdate::Insert`].
    Insert(Seq<char>, Seq<char>),
    /// See [`HeaderUpdate::Append`].
    Append(Seq<char>, Seq<char>),
    /// See [`HeaderUpdate::Remove`].
    Remove(Seq<char>),
}

impl View for HeaderUpdate {
    type V = UpdateView;

    open spec fn view(&self) -> UpdateView {
        match self {
            HeaderUpdate::Insert(name, value) => UpdateView::Insert(name@, value@),
            HeaderUpdate::Append(name, value) => UpdateView::Append(name@, value@),
            HeaderUpdate::Remove(name) => UpdateView::Remove(name@),
        }
    }
}

/// The changes of a list.
pub open spec fn updates(list: Seq<HeaderUpdate>) -> Seq<UpdateView> {
    list.map_values(|u: HeaderUpdate| u@)
}

/// What a message says in one of its headers.
#[derive(Debug)]
pub enum HeaderField {
    /// The header is absent.
    Absent,
    /// Its first value is not text.
    Opaque,
    /// Its first value.
    Text(String),
}

/// Note that a header is to be set.
pub(crate) fn push_insert(list: &mut Vec<HeaderUpdate>, name: &str, value: &str)
    ensures
        updates(final(list)@) == updates(old(list)@).push(UpdateView::Insert(name@, value@)),
{
    let ghost before = list@;
    list.push(HeaderUpdate::Insert(copy_text(name), copy_text(value)));
    assert(updates(list@) =~= updates(before).push(UpdateView::Insert(name@, value@)));
}

/// Note that a value is to be added to a header.
pub(crate) fn push_append(list: &mut Vec<HeaderUpdate>, name: &str, value: &str)
    ensures
        updates(final(list)@) == updates(old(list)@).push(UpdateView::Append(name@, value@)),
{
    let ghost before = list@;
    list.push(HeaderUpdate::Append(copy_text(name), copy_text(value)));
    assert(updates(list@) =~= updates(before).push(UpdateView::Append(name@, value@)));
}

/// Note that a header is to be removed.
pub(crate) fn push_remove(list: &mut Vec<HeaderUpdate>, name: &str)
    ensures
        updates(final(list)@) == updates(old(list)@).push(UpdateView::Remove(name@)),
{
    let ghost before = list@;
    list.push(HeaderUpdate::Remove(copy_text(name)));
    assert(updates(list@) =~= updates(before).push(UpdateView::Remove(name@)));
}

} // verus!
