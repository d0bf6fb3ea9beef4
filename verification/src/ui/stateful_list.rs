//! A selectable list: a vector of items and one highlighted position that
//! wraps around when moved past either end.
use vstd::prelude::*;

verus! {

pub struct StatefulList<T> {
    pub selected: Option<usize>,
    pub items: Vec<T>,
}

impl<T> StatefulList<T> {
    /// The highlighted position, if any, is inside the list.
    pub open spec fn wf(self) -> bool {
        match self.selected {
            Some(i) => i < self.items@.len(),
            None => true,
        }
    }

    /// The position one step down from the current one, wrapping to the top.
    pub open spec fn spec_next_index(self) -> int {
        match self.selected {
            Some(i) => if i >= self.items@.len() - 1 {
                0
            } else {
                i + 1
            },
            None => 0,
        }
    }

    /// The position one step up from the current one, wrapping to the bottom.
    pub open spec fn spec_previous_index(self) -> int {
        match self.selected {
            Some(i) => if i == 0 {
                self.items@.len() - 1
            } else {
                i - 1
            },
            None => 0,
        }
    }

    /// A list over the given items with the first one highlighted.
    pub fn with_items(items: Vec<T>) -> (r: StatefulList<T>)
        requires
            items@.len() > 0,
        ensures
            r.items@ == items@,
            r.selected == Some(0usize),
            r.wf(),
    {
        StatefulList { selected: Some(0), items }
    }

    /// Move the highlight one step down, wrapping around.
    pub fn next(&mut self)
        requires
            old(self).wf(),
            old(self).items@.len() > 0,
        ensures
            final(self).items@ == old(self).items@,
            final(self).selected == Some(old(self).spec_next_index() as usize),
            final(self).wf(),
    {
        let i: usize = match self.selected {
            Some(i) => if i >= self.items.len() - 1 {
                0
            } else {
                i + 1
            },
            None => 0,
        };
        self.selected = Some(i);
    }

    /// Move the highlight one step up, wrapping around.
    pub fn previous(&mut self)
        requires
            old(self).wf(),
            old(self).items@.len() > 0,
        ensures
            final(self).items@ == old(self).items@,
            final(self).selected == Some(old(self).spec_previous_index() as usize),
            final(self).wf(),
    {
        let i: usize = match self.selected {
            Some(i) => if i == 0 {
                self.items.len() - 1
            } else {
                i - 1
            },
            None => 0,
        };
        self.selected = Some(i);
    }

    /// Clear the highlight.
    pub fn unselect(&mut self)
        ensures
            final(self).items@ == old(self).items@,
            final(self).selected is None,
            final(self).wf(),
    {
        self.selected = None;
    }

    /// The highlighted item, if a valid position is highlighted.
    pub fn get_selected(&self) -> (r: Option<&T>)
        ensures
            self.selected is None ==> r is None,
            self.selected is Some && self.selected->0 < self.items@.len() ==> r is Some && *r->0
                == self.items@[self.selected->0 as int],
            self.selected is Some && self.selected->0 >= self.items@.len() ==> r is None,
    {
        match self.selected {
            Some(i) => if i < self.items.len() {
                Some(&self.items[i])
            } else {
                None
            },
            None => None,
        }
    }
}

} // verus!
