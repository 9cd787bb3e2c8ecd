use vstd::prelude::*;

verus! {

/// A 256-bit machine word, as four 64-bit limbs, least significant first.
#[derive(Clone, Copy, Debug, PartialEq, Eq, Structural, Hash)]
pub struct Word(pub u64, pub u64, pub u64, pub u64);

/// One more than the largest number a word holds: 2^256.
pub open spec fn word_limit() -> int {
    (0x1_0000_0000_0000_0000_0000_0000_0000_0000_0000_0000_0000_0000 as int) * (0x1_0000_0000_0000_0000 as int)
}

/// The number that a word stands for.
pub open spec fn word_value(w: Word) -> int {
    w.0 as int + w.1 as int * 0x1_0000_0000_0000_0000 + w.2 as int
        * 0x1_0000_0000_0000_0000_0000_0000_0000_0000 + w.3 as int
        * 0x1_0000_0000_0000_0000_0000_0000_0000_0000_0000_0000_0000_0000
}

impl Word {
    /// The word holding a small number.
    pub fn from_u64(v: u64) -> (r: Word)
        ensures
            word_value(r) == v as int,
    {
        Word(v, 0, 0, 0)
    }
}

/// Which part of a contract's storage a slot names.
#[derive(Clone, Copy, Debug, PartialEq, Eq, Structural, Hash)]
pub enum SlotKey {
    /// The contract's storage as a whole: a deployment writes it, and every
    /// call that touches a key of the contract reads it, so that such a call
    /// is ordered after the deployment and a redeployment after such calls.
    Whole,
    /// One storage key.
    Key(Word),
}

/// One storage slot of one contract. Slots of two different contracts never
/// alias.
#[derive(Clone, Copy, Debug, PartialEq, Eq, Structural, Hash)]
pub struct Slot {
    pub address: Word,
    pub key: SlotKey,
}

/// A submitted transaction.
#[derive(Clone, Debug)]
pub enum Transaction {
    /// Deploys code at an address.
    NewContract { creation_address: Word, bytecode: Vec<u8> },
    /// Invokes a deployed contract.
    MethodCall { target_address: Word, calldata: String },
}

impl Transaction {
    pub open spec fn address(&self) -> Word {
        match self {
            Transaction::NewContract { creation_address, .. } => *creation_address,
            Transaction::MethodCall { target_address, .. } => *target_address,
        }
    }

}

/// The storage slots that a transaction reads and writes.
#[derive(Clone, Debug)]
pub struct Footprint {
    pub reads: Vec<Slot>,
    pub writes: Vec<Slot>,
}

/// Whether a transaction with footprint `later` must run after one with
/// footprint `earlier`: they share a slot that the earlier one writes and the
/// later one reads (read after write) or writes (write after write), or that
/// the earlier one reads and the later one writes (write after read).
pub open spec fn hazard(earlier: Footprint, later: Footprint) -> bool {
    exists|s: Slot|
        #![trigger earlier.writes@.contains(s), later.reads@.contains(s)]
        #![trigger earlier.writes@.contains(s), later.writes@.contains(s)]
        #![trigger earlier.reads@.contains(s), later.writes@.contains(s)]
        (earlier.writes@.contains(s) && later.reads@.contains(s)) || (earlier.writes@.contains(s)
            && later.writes@.contains(s)) || (earlier.reads@.contains(s) && later.writes@.contains(
            s,
        ))
}

/// One dependency edge, flattened for reporting: the transaction with the
/// first identifier must run after the one with the second.
#[derive(Clone, Copy, Debug, PartialEq, Eq, Structural, Hash, PartialOrd, Ord)]
pub struct TransactionDependency(pub u64, pub u64);

/// Lexicographic order on dependency pairs.
pub open spec fn dep_less(a: TransactionDependency, b: TransactionDependency) -> bool {
    a.0 < b.0 || (a.0 == b.0 && a.1 < b.1)
}

/// Why a run of the engine stops.
#[derive(Clone, Copy, Debug, PartialEq, Eq, Structural)]
pub enum EngineError {
    /// A call names an address at which no contract was registered.
    UnregisteredTarget(Word),
    /// A deployment at this address came without the analysed model of its
    /// code.
    MissingModel(Word),
    /// The builder was given more transactions than identifiers can number.
    TooManyTransactions,
}

} // verus!
