//! What holds of the ledger as a whole, stated and proved over the models that the
//! contracts of its operations use.

pub mod batches;
pub mod binding;
pub mod consistency;
pub mod counting;
pub mod restart;
pub mod small;
pub mod soundness;
