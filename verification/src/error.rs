use vstd::prelude::*;

verus! {

/// Why a store operation was refused. A refused operation leaves every row as it was.
#[derive(Debug, Clone, Copy, PartialEq, Eq, Structural)]
pub enum StoreError {
    /// The presented lock token is not the current lease of any job that may still be
    /// mutated: it is wrong, its lease was reclaimed, or its job is already finished.
    LeaseInvalid,
    /// No job has the given id.
    NotFound,
    /// The store rejected the write.
    StorageError,
    /// A transition or janitor counter is at the top of its range and would wrap.
    CounterOverflow,
}

impl StoreError {
    pub open spec fn description(self) -> Seq<char> {
        match self {
            StoreError::LeaseInvalid => "lease invalid"@,
            StoreError::NotFound => "job not found"@,
            StoreError::StorageError => "storage error"@,
            StoreError::CounterOverflow => "counter overflow"@,
        }
    }

    /// A short description of the error, for messages.
    pub fn as_str(&self) -> (text: &'static str)
        ensures
            text@ == self.description(),
    {
        match self {
            StoreError::LeaseInvalid => "lease invalid",
            StoreError::NotFound => "job not found",
            StoreError::StorageError => "storage error",
            StoreError::CounterOverflow => "counter overflow",
        }
    }
}

} // verus!
