use vstd::prelude::*;

verus! {

/// One named unit of setup work, stored as a node of the dependency graph.
/// `discovered` and `backtraced` are transient per-traversal markers; they are
/// reset before every traversal and never persisted.
pub struct Item {
    pub name: String,
    pub discovered: bool,
    pub backtraced: bool,
}

impl Item {
    /// Creates a fresh item with both traversal markers cleared.
    pub fn new(name: &str) -> (item: Item)
        ensures
            item.name@ == name@,
            !item.discovered,
            !item.backtraced,
    {
        Item { name: name.to_owned(), discovered: false, backtraced: false }
    }

    /// Resets the traversal markers; called on every item before a traversal
    /// starts, so that no state leaks from an earlier walk.
    pub fn clean(&mut self)
        ensures
            final(self).name == old(self).name,
            !final(self).discovered,
            !final(self).backtraced,
    {
        self.discovered = false;
        self.backtraced = false;
    }
}

} // verus!
