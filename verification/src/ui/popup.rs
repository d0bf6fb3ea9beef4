//! A centered message box: a title and a body text.
use vstd::prelude::*;

verus! {

pub struct Popup {
    pub title: String,
    pub body: String,
}

impl Popup {
    pub fn new(title: String, body: String) -> (r: Popup)
        ensures
            r.title@ == title@,
            r.body@ == body@,
    {
        Popup { title, body }
    }
}

} // verus!
