//! Titled containers for a kanban board: cards, ordered item lists, and the
//! move targets used when an item is repositioned.
use vstd::prelude::*;

verus! {

#[derive(PartialEq, Debug, Clone)]
pub struct Card {
    pub title: String,
}

impl Card {
    /// A copy of the card under a new title.
    pub fn rename(&self, title: String) -> (r: Card)
        ensures
            r.title == title,
    {
        Card { title }
    }
}

#[derive(PartialEq, Debug, Clone)]
pub struct Container<T> {
    pub title: String,
    pub items: Vec<T>,
}

pub enum MoveSpec {
    Beginning,
    End,
    After(usize),
}

pub enum ChangeContainedMoveSpec {
    Beginning,
    End,
    After { position: usize },
}

/// The index an item taken from `origin` is re-inserted at, counted in the
/// list with the item already removed.
pub open spec fn move_destination(target: MoveSpec, origin: int, len_after_removal: int) -> int {
    match target {
        MoveSpec::Beginning => 0,
        MoveSpec::End => len_after_removal,
        MoveSpec::After(n) => if n < origin {
            n + 1
        } else {
            n as int
        },
    }
}

impl<T> Container<T> {
    pub fn rename(&mut self, new_title: String)
        ensures
            final(self).title == new_title,
            final(self).items == old(self).items,
    {
        self.title = new_title;
    }
}

impl<T: Clone> Container<T> {
    /// Puts `item` in front of the existing items.
    pub fn add_item(&mut self, item: T)
        ensures
            final(self).title == old(self).title,
            final(self).items@ == seq![item] + old(self).items@,
    {
        self.items.insert(0, item);
        assert(self.items@ =~= seq![item] + old(self).items@);
    }

    /// Moves the item at `origin` to the place `target` names; reports whether
    /// `origin` was a valid index. An out-of-range origin leaves the container
    /// unchanged.
    pub fn move_item(&mut self, origin: usize, target: MoveSpec) -> (r: bool)
        requires
            (match target {
                MoveSpec::After(n) => origin < old(self).items@.len() ==> move_destination(
                    target,
                    origin as int,
                    old(self).items@.len() - 1,
                ) <= old(self).items@.len() - 1,
                _ => true,
            }),
        ensures
            r == (origin < old(self).items@.len()),
            final(self).title == old(self).title,
            !r ==> final(self).items == old(self).items,
            r ==> final(self).items@ == old(self).items@.remove(origin as int).insert(
                move_destination(target, origin as int, old(self).items@.len() - 1),
                old(self).items@[origin as int],
            ),
    {
        if origin >= self.items.len() {
            return false;
        }
        let element = self.items.remove(origin);

        match target {
            MoveSpec::Beginning => self.items.insert(0, element),
            MoveSpec::End => self.items.push(element),
            MoveSpec::After(n) => self.items.insert(if n < origin { n + 1 } else { n }, element),
        };
        proof {
            assert(old(self).items@.remove(origin as int).push(element) =~= old(
                self,
            ).items@.remove(origin as int).insert(old(self).items@.len() - 1, element));
        }
        true
    }

    /// Replaces the item at `origin` with what `f` makes of it; reports
    /// whether `origin` was a valid index.
    pub fn update_item<F: Fn(T) -> T>(&mut self, origin: usize, f: F) -> (r: bool)
        requires
            origin < old(self).items@.len() ==> call_requires(
                f,
                (old(self).items@[origin as int],),
            ),
        ensures
            r == (origin < old(self).items@.len()),
            final(self).title == old(self).title,
            !r ==> final(self).items == old(self).items,
            r ==> final(self).items@.len() == old(self).items@.len() && call_ensures(
                f,
                (old(self).items@[origin as int],),
                final(self).items@[origin as int],
            ) && (forall|j: int|
                0 <= j < old(self).items@.len() && j != origin ==> final(self).items@[j] == old(
                    self,
                ).items@[j]),
    {
        if origin >= self.items.len() {
            return false;
        }
        let element = self.items.remove(origin);
        let updated = f(element);
        self.items.insert(origin, updated);
        true
    }

    /// Removes the item at `index`; reports whether `index` was a valid index.
    pub fn remove_item(&mut self, index: usize) -> (r: bool)
        ensures
            r == (index < old(self).items@.len()),
            final(self).title == old(self).title,
            !r ==> final(self).items == old(self).items,
            r ==> final(self).items@ == old(self).items@.remove(index as int),
    {
        if index >= self.items.len() {
            return false;
        }
        self.items.remove(index);
        true
    }
}

} // verus!
