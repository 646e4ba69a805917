use vstd::prelude::*;

verus! {

/// An immutable record of one completed balance change: the kind of the
/// change, the account it touched, and the amount moved.  A record is a pure
/// output of a successful operation; the ledger keeps no copy of it.
#[derive(Debug)]
pub enum Tx {
    Deposit { account: String, amount: u64 },
    Withdraw { account: String, amount: u64 },
}

} // verus!
