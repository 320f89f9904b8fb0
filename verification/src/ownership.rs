//! Handing a value over, lending it, copying it, and sharing it among owners.

use std::rc::Rc;
use vstd::prelude::*;

verus! {

/// A record with one number. Binding it anew moves it: the old binding is gone.
pub struct Label {
    pub number: u32,
}

/// A record with one number that is copied where [`Label`] is moved: both
/// bindings stay usable.
#[derive(Copy, Clone)]
pub struct LabelCopy {
    pub number: u32,
}

/// The text that `{:?}` gives for a list of numbers.
pub uninterp spec fn debug_text(numbers: Seq<i32>) -> Seq<char>;

/// std's `format!` with `{:?}` on a vector of `i32`. The text depends on the
/// numbers alone; what it looks like is left to std.
#[verifier::external_body]
fn debug_string(numbers: &Vec<i32>) -> (text: String)
    ensures
        text@ == debug_text(numbers@),
{
    format!("{:?}", numbers)
}

/// Takes the vector over and returns its text for display. The caller's
/// binding is gone after the call.
pub fn foo(v: Vec<i32>) -> (text: String)
    ensures
        text@ == debug_text(v@),
{
    debug_string(&v)
}

/// Appends 5 to a vector that the caller lends for the change, and returns
/// the text of the longer vector for display. The vector stays the caller's.
pub fn foo_mut(v: &mut Vec<i32>) -> (text: String)
    ensures
        final(v)@ == old(v)@.push(5),
        text@ == debug_text(final(v)@),
{
    v.push(5);
    debug_string(v)
}

/// A text with any number of owners. Every owner reads the same text, and
/// none of them can change it.
pub struct SharedText {
    text: Rc<String>,
}

impl View for SharedText {
    type V = Seq<char>;

    closed spec fn view(&self) -> Seq<char> {
        self.text@
    }
}

/// std's `Rc::clone`: one more pointer to the same string.
#[verifier::external_body]
fn another_pointer(text: &Rc<String>) -> (other: Rc<String>)
    ensures
        other == *text,
{
    Rc::clone(text)
}

/// std's `Rc::strong_count`: the pointers to the string at the time of the
/// call, `text` among them.
#[verifier::external_body]
fn pointers_to(text: &Rc<String>) -> (count: usize)
    ensures
        count >= 1,
{
    Rc::strong_count(text)
}

impl SharedText {
    /// Puts `text` under shared ownership, with one owner so far.
    pub fn new(text: String) -> (shared: SharedText)
        ensures
            shared@ == text@,
    {
        SharedText { text: Rc::new(text) }
    }

    /// One more owner of the same text. Nothing is copied.
    pub fn share(&self) -> (other: SharedText)
        ensures
            other@ == self@,
            other == *self,
    {
        SharedText { text: another_pointer(&self.text) }
    }

    /// The text, for reading.
    pub fn as_str(&self) -> (text: &str)
        ensures
            text@ == self@,
    {
        self.text.as_str()
    }

    /// The number of owners at the time of the call, this one among them.
    pub fn owners(&self) -> (count: usize)
        ensures
            count >= 1,
    {
        pointers_to(&self.text)
    }
}

} // verus!
