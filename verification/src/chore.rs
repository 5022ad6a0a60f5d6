//! A chore and the person it belongs to.

use vstd::prelude::*;

verus! {

/// The people a chore can belong to.
#[derive(Debug, PartialEq, Eq, Structural, Clone, Copy)]
pub enum Owner {
    Linus,
    Johannes,
}

/// The owner that a chore has where none was written down for it: Linus,
/// the first of the owners.
pub open spec fn default_owner() -> Owner {
    Owner::Linus
}

impl Default for Owner {
    fn default() -> (owner: Self)
        ensures
            owner == default_owner(),
    {
        Owner::Linus
    }
}

/// One task: what is to be done, a free-text note on when, and by whom.
pub struct Chore {
    pub name: String,
    pub due: String,
    pub owner: Owner,
}

/// What a chore is, with its texts as sequences of characters.
pub ghost struct ChoreModel {
    pub name: Seq<char>,
    pub due: Seq<char>,
    pub owner: Owner,
}

impl View for Chore {
    type V = ChoreModel;

    open spec fn view(&self) -> ChoreModel {
        ChoreModel { name: self.name@, due: self.due@, owner: self.owner }
    }
}

impl Clone for Chore {
    fn clone(&self) -> (copy: Self)
        ensures
            copy@ == self@,
    {
        Chore { name: self.name.clone(), due: self.due.clone(), owner: self.owner }
    }
}

/// What each chore of a list is, in the order of the list.
pub open spec fn views(chores: Seq<Chore>) -> Seq<ChoreModel> {
    chores.map_values(|c: Chore| c@)
}

} // verus!
