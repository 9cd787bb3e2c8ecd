use vstd::prelude::*;
use crate::hex::{read_selector, selector_text};
use crate::types::{EngineError, Footprint, Slot, SlotKey, Transaction, Word};

verus! {

/// Storage keys, local to one contract, that some code reads and writes.
#[derive(Clone, Debug)]
pub struct KeyAccess {
    pub reads: Vec<Word>,
    pub writes: Vec<Word>,
}

/// One entry point of a contract, chosen by the first four bytes of the
/// calldata, with the keys that it may touch.
#[derive(Clone, Debug)]
pub struct EntryPoint {
    pub selector: u32,
    pub access: KeyAccess,
}

/// The analysed form of a contract's bytecode: what each entry point
/// touches, and what a call that selects no entry point touches.
#[derive(Clone, Debug)]
pub struct ContractModel {
    pub entries: Vec<EntryPoint>,
    pub fallback: KeyAccess,
}

/// Whether `i` is the first entry point whose selector is `sel`.
pub open spec fn is_first_entry(es: Seq<EntryPoint>, sel: int, i: int) -> bool {
    0 <= i < es.len() && es[i].selector as int == sel && forall|j: int|
        0 <= j < i ==> (#[trigger] es[j]).selector as int != sel
}

/// The keys that a call with hex calldata `cd` touches: those of the first
/// entry point that the calldata's selector picks, else the fallback's (also
/// when the calldata has no readable selector).
pub open spec fn access_of(m: ContractModel, cd: Seq<char>) -> KeyAccess {
    match selector_text(cd) {
        Some(sel) => {
            if exists|i: int| is_first_entry(m.entries@, sel, i) {
                m.entries@[choose|i: int| is_first_entry(m.entries@, sel, i)].access
            } else {
                m.fallback
            }
        },
        None => m.fallback,
    }
}

/// Keys of the storage of contract `a`, as slots.
pub open spec fn qualify(a: Word, keys: Seq<Word>) -> Seq<Slot> {
    keys.map_values(|k: Word| Slot { address: a, key: SlotKey::Key(k) })
}

/// The whole storage of contract `a`, as one slot.
pub open spec fn whole(a: Word) -> Slot {
    Slot { address: a, key: SlotKey::Whole }
}

/// The slots read and written by a transaction, given the models registered
/// so far; `None` for a call to an address without a model. A deployment
/// reads nothing and writes the whole storage of its address. A call touches
/// the keys of the entry point that its calldata selects; when it touches any
/// key, it also reads the whole-storage slot of its target, since the
/// deployment wrote that key too.
pub open spec fn footprint_of(t: Transaction, models: Map<Word, ContractModel>) -> Option<
    (Seq<Slot>, Seq<Slot>),
> {
    match t {
        Transaction::NewContract { creation_address: a, .. } => {
            Some((Seq::empty(), seq![whole(a)]))
        },
        Transaction::MethodCall { target_address: a, calldata: cd } => {
            if models.contains_key(a) {
                let acc = access_of(models[a], cd@);
                if acc.reads@.len() + acc.writes@.len() > 0 {
                    Some((seq![whole(a)] + qualify(a, acc.reads@), qualify(a, acc.writes@)))
                } else {
                    Some((Seq::empty(), Seq::empty()))
                }
            } else {
                None
            }
        },
    }
}

/// The map that a list of registrations gives: a later registration of an
/// address replaces an earlier one.
pub open spec fn map_of(s: Seq<(Word, ContractModel)>) -> Map<Word, ContractModel>
    decreases s.len(),
{
    if s.len() == 0 {
        Map::empty()
    } else {
        map_of(s.drop_last()).insert(s.last().0, s.last().1)
    }
}

proof fn lemma_map_of_prefix(s: Seq<(Word, ContractModel)>, j: int, a: Word)
    requires
        0 <= j <= s.len(),
        forall|k: int| j <= k < s.len() ==> (#[trigger] s[k]).0 != a,
    ensures
        map_of(s).contains_key(a) == map_of(s.take(j)).contains_key(a),
        map_of(s).contains_key(a) ==> map_of(s)[a] == map_of(s.take(j))[a],
    decreases s.len(),
{
    if j == s.len() {
        assert(s.take(j) =~= s);
    } else {
        let t = s.drop_last();
        assert(t.take(j) =~= s.take(j));
        assert forall|k: int| j <= k < t.len() implies (#[trigger] t[k]).0 != a by {
            assert(t[k] == s[k]);
        }
        lemma_map_of_prefix(t, j, a);
    }
}

/// Contract models by address.
pub struct Registry {
    entries: Vec<(Word, ContractModel)>,
}

impl View for Registry {
    type V = Map<Word, ContractModel>;

    closed spec fn view(&self) -> Map<Word, ContractModel> {
        map_of(self.entries@)
    }
}

fn select_entry(es: &Vec<EntryPoint>, sel: u32) -> (r: Option<usize>)
    ensures
        match r {
            Some(i) => is_first_entry(es@, sel as int, i as int),
            None => forall|j: int| 0 <= j < es@.len() ==> (#[trigger] es@[j]).selector != sel,
        },
{
    let mut i: usize = 0;
    while i < es.len()
        invariant
            i <= es@.len(),
            forall|j: int| 0 <= j < i ==> (#[trigger] es@[j]).selector != sel,
        decreases es@.len() - i,
    {
        if es[i].selector == sel {
            return Some(i);
        }
        i = i + 1;
    }
    None
}

fn qualify_keys(a: Word, keys: &Vec<Word>, lead_whole: bool) -> (r: Vec<Slot>)
    ensures
        r@ == if lead_whole {
            seq![whole(a)] + qualify(a, keys@)
        } else {
            qualify(a, keys@)
        },
{
    let mut r: Vec<Slot> = Vec::new();
    let off: usize = if lead_whole { 1 } else { 0 };
    if lead_whole {
        r.push(Slot { address: a, key: SlotKey::Whole });
    }
    let mut i: usize = 0;
    while i < keys.len()
        invariant
            i <= keys@.len(),
            off == (if lead_whole { 1usize } else { 0usize }),
            r@.len() == i + off,
            lead_whole ==> r@[0] == whole(a),
            forall|k: int| 0 <= k < i ==> #[trigger] r@[k + off] == (Slot { address: a, key: SlotKey::Key(keys@[k]) }),
        decreases keys@.len() - i,
    {
        r.push(Slot { address: a, key: SlotKey::Key(keys[i]) });
        i = i + 1;
    }
    if lead_whole {
        assert(r@ =~= seq![whole(a)] + qualify(a, keys@)) by {
            assert forall|k: int| 1 <= k < r@.len() implies r@[k] == (seq![whole(a)] + qualify(a, keys@))[k] by {
                assert(r@[(k - 1) + 1] == (Slot { address: a, key: SlotKey::Key(keys@[k - 1]) }));
            }
        }
    } else {
        assert forall|k: int| 0 <= k < r@.len() implies r@[k] == qualify(a, keys@)[k] by {
            assert(r@[k + 0] == (Slot { address: a, key: SlotKey::Key(keys@[k]) }));
        }
        assert(r@ =~= qualify(a, keys@));
    }
    r
}

impl Registry {
    pub fn new() -> (r: Registry)
        ensures
            r@ == Map::<Word, ContractModel>::empty(),
    {
        Registry { entries: Vec::new() }
    }

    /// Installs the model for an address, replacing any earlier one.
    pub fn register(&mut self, address: Word, model: ContractModel)
        ensures
            final(self)@ == old(self)@.insert(address, model),
    {
        self.entries.push((address, model));
        assert(self.entries@.drop_last() =~= old(self).entries@);
    }

    /// The model registered for an address, if any.
    pub fn lookup(&self, address: Word) -> (r: Option<&ContractModel>)
        ensures
            r.is_some() == self@.contains_key(address),
            r.is_some() ==> *r.unwrap() == self@[address],
    {
        let mut i: usize = self.entries.len();
        while i > 0
            invariant
                i <= self.entries@.len(),
                forall|k: int| i <= k < self.entries@.len() ==> (#[trigger] self.entries@[k]).0
                    != address,
            decreases i,
        {
            if self.entries[i - 1].0 == address {
                proof {
                    lemma_map_of_prefix(self.entries@, i as int, address);
                    assert(self.entries@.take(i as int).drop_last() =~= self.entries@.take(
                        i - 1,
                    ));
                }
                return Some(&self.entries[i - 1].1);
            }
            i = i - 1;
        }
        proof {
            lemma_map_of_prefix(self.entries@, 0, address);
        }
        None
    }

    /// The slots that a transaction reads and writes, resolved against the
    /// registered models. A call to an unregistered address is an error: no
    /// footprint can be assumed for it.
    pub fn footprint(&self, t: &Transaction) -> (r: Result<Footprint, EngineError>)
        ensures
            match r {
                Ok(f) => footprint_of(*t, self@) == Some((f.reads@, f.writes@)),
                Err(e) => footprint_of(*t, self@).is_none() && e == EngineError::UnregisteredTarget(
                    t.address(),
                ),
            },
    {
        match t {
            Transaction::NewContract { creation_address, .. } => {
                let mut w: Vec<Slot> = Vec::new();
                w.push(Slot { address: *creation_address, key: SlotKey::Whole });
                assert(w@ =~= seq![whole(*creation_address)]);
                Ok(Footprint { reads: Vec::new(), writes: w })
            },
            Transaction::MethodCall { target_address, calldata } => {
                let a = *target_address;
                match self.lookup(a) {
                    None => Err(EngineError::UnregisteredTarget(a)),
                    Some(m) => {
                        let mut acc = &m.fallback;
                        if let Some(sel) = read_selector(calldata.as_str()) {
                            match select_entry(&m.entries, sel) {
                                Some(i) => {
                                    proof {
                                        let c = choose|c: int|
                                            is_first_entry(m.entries@, sel as int, c);
                                        if c < i {
                                            assert(m.entries@[c].selector != sel);
                                        } else if c > i {
                                            assert(m.entries@[i as int].selector != sel);
                                        }
                                    }
                                    acc = &m.entries[i].access;
                                },
                                None => {
                                    assert(!exists|c: int|
                                        is_first_entry(m.entries@, sel as int, c));
                                },
                            }
                        }
                        assert(*acc == access_of(*m, calldata@));
                        let touches = acc.reads.len() > 0 || acc.writes.len() > 0;
                        let rd = qualify_keys(a, &acc.reads, touches);
                        let wr = qualify_keys(a, &acc.writes, false);
                        if !touches {
                            assert(rd@ =~= Seq::<Slot>::empty());
                            assert(wr@ =~= Seq::<Slot>::empty());
                        }
                        Ok(Footprint { reads: rd, writes: wr })
                    },
                }
            },
        }
    }
}

} // verus!
