use vstd::prelude::*;

verus! {

/// The identifier of a user.
#[derive(Clone, Debug, PartialEq)]
pub struct Id(u64);

impl Id {
    pub closed spec fn view(&self) -> u64 {
        self.0
    }

    pub fn new(data: u64) -> (id: Self)
        ensures
            id@ == data,
    {
        Id(data)
    }
}

} // verus!
