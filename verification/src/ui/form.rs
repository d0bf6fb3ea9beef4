//! A single-line text form: a label and an editable string.
use crate::game::Key;
use vstd::prelude::*;

verus! {

/// Relies on String::push: appends the character at the end.
#[verifier::external_body]
fn string_push(s: &mut String, c: char)
    ensures
        final(s)@ == old(s)@.push(c),
{
    s.push(c);
}

/// Relies on String::pop: removes and returns the last character, or
/// returns None and leaves the string alone if it is empty.
#[verifier::external_body]
fn string_pop(s: &mut String) -> (r: Option<char>)
    ensures
        old(s)@.len() == 0 ==> r is None && final(s)@ == old(s)@,
        old(s)@.len() > 0 ==> r == Some(old(s)@.last()) && final(s)@ == old(s)@.drop_last(),
{
    s.pop()
}

/// What one key press does to a form field's contents.
pub open spec fn spec_form_step(pre: Seq<char>, post: Seq<char>, key: Key) -> bool {
    match key {
        Key::Char(c) => post == pre.push(c),
        Key::Backspace => if pre.len() > 0 {
            post == pre.drop_last()
        } else {
            post == pre
        },
        _ => post == pre,
    }
}

pub struct StringForm {
    pub label: String,
    pub expected_input_size: u16,
    pub state: String,
}

impl StringForm {
    pub fn new(label: String, expected_input_size: u16, state: Option<String>) -> (r: StringForm)
        ensures
            r.label@ == label@,
            r.expected_input_size == expected_input_size,
            state is Some ==> r.state@ == state->0@,
            state is None ==> r.state@.len() == 0,
    {
        let initial = match state {
            Some(s) => s,
            None => String::new(),
        };
        StringForm { label, expected_input_size, state: initial }
    }

    /// Typing appends to the field; Backspace removes the last character;
    /// every other key leaves the form alone.
    pub fn handle_key(&mut self, key: Key)
        ensures
            final(self).label@ == old(self).label@,
            final(self).expected_input_size == old(self).expected_input_size,
            spec_form_step(old(self).state@, final(self).state@, key),
    {
        match key {
            Key::Char(c) => {
                string_push(&mut self.state, c);
            },
            Key::Backspace => {
                let _ = string_pop(&mut self.state);
            },
            _ => {},
        }
    }

    /// The field's current contents.
    pub fn consume(&self) -> (r: String)
        ensures
            r@ == self.state@,
    {
        self.state.clone()
    }
}

} // verus!
