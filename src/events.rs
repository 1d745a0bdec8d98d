use vstd::prelude::*;

verus! {

/// Published when the treasury has paid out creator rewards: the total paid
/// and the number of creators paid.
#[derive(Debug, Clone, Copy, PartialEq, Eq, Structural)]
pub struct CreatorRewardsDistributedEvent {
    pub total_amount: i128,
    pub count: u32,
}

impl CreatorRewardsDistributedEvent {
    pub fn new(total_amount: i128, count: u32) -> (r: CreatorRewardsDistributedEvent)
        ensures
            r.total_amount == total_amount,
            r.count == count,
    {
        CreatorRewardsDistributedEvent { total_amount, count }
    }
}

/// Handle of the minimal contract that publishes a single user event; the
/// host binding that publishes it lives outside the library.
#[derive(Debug, Clone, Copy, PartialEq, Eq, Structural)]
pub struct TestContract;

} // verus!
