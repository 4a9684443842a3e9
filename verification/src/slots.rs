//! Slot layouts: each local symbol of a frame gets a dense slot number.
use std::collections::HashMap;
use vstd::prelude::*;

use crate::ids::SymbolId;
use crate::program::{CheckedProject, SymbolData, SymbolDef, SymbolKind};

verus! {

broadcast use vstd::std_specs::hash::group_hash_axioms;

/// A slot of a frame.
#[derive(Clone, Copy, Debug, PartialEq, Eq, Structural)]
pub struct SlotId(pub u32);

/// The slot of `s` among `symbols`: the last position that holds it.
pub open spec fn slot_of(symbols: Seq<SymbolId>, s: SymbolId) -> Option<int>
    decreases symbols.len(),
{
    if symbols.len() == 0 {
        None
    } else if symbols.last() == s {
        Some(symbols.len() - 1)
    } else {
        slot_of(symbols.drop_last(), s)
    }
}

/// A symbol that lives in a frame slot: parameters, locals and pattern bindings.
pub open spec fn is_slot_symbol(d: SymbolData) -> bool {
    d.kind == SymbolKind::Param || d.kind == SymbolKind::Local || d.def is PatternBinding
}

/// The identifiers of the slot symbols of a symbol table, in table order.
pub open spec fn slot_symbols(symbols: Seq<SymbolData>) -> Seq<SymbolId>
    decreases symbols.len(),
{
    if symbols.len() == 0 {
        Seq::empty()
    } else if is_slot_symbol(symbols.last()) {
        slot_symbols(symbols.drop_last()).push(symbols.last().id)
    } else {
        slot_symbols(symbols.drop_last())
    }
}

/// Where a slot's symbol is found and where a symbol's slot is found.
pub struct SlotLayoutTable {
    symbols: Vec<SymbolId>,
    by_symbol: HashMap<u32, u32>,
}

impl View for SlotLayoutTable {
    type V = Seq<SymbolId>;

    closed spec fn view(&self) -> Seq<SymbolId> {
        self.symbols@
    }
}

/// The slot map agrees with `slot_of`.
spec fn indexes(symbols: Seq<SymbolId>, m: Map<u32, u32>) -> bool {
    forall|k: u32|
        #![trigger m.contains_key(k)]
        match slot_of(symbols, SymbolId(k)) {
            Some(i) => m.contains_key(k) && m[k] == i,
            None => !m.contains_key(k),
        }
}

proof fn lemma_slot_of_push(symbols: Seq<SymbolId>, x: SymbolId, s: SymbolId)
    ensures
        slot_of(symbols.push(x), s) == if x == s {
            Some(symbols.len() as int)
        } else {
            slot_of(symbols, s)
        },
{
    assert(symbols.push(x).drop_last() == symbols);
}

/// The slot found for `s` holds `s`.
pub proof fn lemma_slot_of_holds(symbols: Seq<SymbolId>, s: SymbolId)
    ensures
        slot_of(symbols, s) matches Some(i) ==> 0 <= i < symbols.len() && symbols[i] == s,
        slot_of(symbols, s) is None ==> !symbols.contains(s),
    decreases symbols.len(),
{
    if symbols.len() > 0 {
        lemma_slot_of_holds(symbols.drop_last(), s);
        if symbols.last() != s && symbols.contains(s) {
            let k = choose|k: int| 0 <= k < symbols.len() && symbols[k] == s;
            assert(symbols.drop_last()[k] == s);
        }
    }
}

/// In a list without repeats, the slot of the symbol at `i` is `i`.
pub proof fn lemma_slot_of_distinct(symbols: Seq<SymbolId>, i: int)
    requires
        0 <= i < symbols.len(),
        symbols.no_duplicates(),
    ensures
        slot_of(symbols, symbols[i]) == Some(i),
    decreases symbols.len(),
{
    if i < symbols.len() - 1 {
        assert(symbols.drop_last()[i] == symbols[i]);
        lemma_slot_of_distinct(symbols.drop_last(), i);
    }
}

impl SlotLayoutTable {
    #[verifier::type_invariant]
    spec fn inv(self) -> bool {
        &&& self.symbols@.len() <= u32::MAX
        &&& indexes(self.symbols@, self.by_symbol@)
    }

    /// A layout with the given symbols in the given order.
    #[verifier::spinoff_prover]
    pub fn from_symbols(symbols: Vec<SymbolId>) -> (t: Self)
        requires
            symbols@.len() <= u32::MAX,
        ensures
            t@ == symbols@,
    {
        let mut by_symbol: HashMap<u32, u32> = HashMap::new();
        let n = symbols.len();
        for i in 0..n
            invariant
                n == symbols@.len(),
                n <= u32::MAX,
                indexes(symbols@.take(i as int), by_symbol@),
        {
            let ghost before = by_symbol@;
            by_symbol.insert(symbols[i].0, i as u32);
            proof {
                let t = symbols@.take(i as int);
                assert(symbols@.take(i + 1) == t.push(symbols@[i as int]));
                assert forall|k: u32| #![trigger by_symbol@.contains_key(k)] match slot_of(
                    symbols@.take(i + 1),
                    SymbolId(k),
                ) {
                    Some(j) => by_symbol@.contains_key(k) && by_symbol@[k] == j,
                    None => !by_symbol@.contains_key(k),
                } by {
                    lemma_slot_of_push(t, symbols@[i as int], SymbolId(k));
                    assert(before.contains_key(k) || !before.contains_key(k));
                    if k != symbols@[i as int].0 {
                        assert(before.contains_key(k) == by_symbol@.contains_key(k));
                        assert(SymbolId(k) != symbols@[i as int]);
                    } else {
                        assert(SymbolId(k) == symbols@[i as int]);
                    }
                }
            }
        }
        proof {
            assert(symbols@.take(n as int) == symbols@);
        }
        SlotLayoutTable { symbols, by_symbol }
    }

    /// Gives a slot to every parameter, local and pattern binding of the program.
    pub fn for_project(project: &CheckedProject) -> (t: Self)
        ensures
            t@ == slot_symbols(project.symbols@),
    {
        let n = project.symbols.len();
        let mut symbols: Vec<SymbolId> = Vec::new();
        for i in 0..n
            invariant
                n == project.symbols@.len(),
                n <= u32::MAX,
                symbols@ == slot_symbols(project.symbols@.take(i as int)),
                symbols@.len() <= i,
        {
            let data = project.symbols.at(i);
            let keep = match data.kind {
                SymbolKind::Param | SymbolKind::Local => true,
                _ => match data.def {
                    SymbolDef::PatternBinding { .. } => true,
                    _ => false,
                },
            };
            proof {
                let t = project.symbols@.take(i + 1);
                assert(t.drop_last() == project.symbols@.take(i as int));
                assert(t.last() == project.symbols@[i as int]);
            }
            if keep {
                symbols.push(data.id);
            }
        }
        proof {
            assert(project.symbols@.take(n as int) == project.symbols@);
        }
        Self::from_symbols(symbols)
    }

    /// The slot of `symbol`, if it has one.
    pub fn resolve(&self, symbol: SymbolId) -> (r: Option<SlotId>)
        ensures
            match slot_of(self@, symbol) {
                Some(i) => r == Some(SlotId(i as u32)),
                None => r is None,
            },
            r matches Some(slot) ==> slot.0 < self@.len() && self@[slot.0 as int] == symbol,
            r is None ==> !self@.contains(symbol),
    {
        proof {
            use_type_invariant(self);
            assert(self.by_symbol@.contains_key(symbol.0) || !self.by_symbol@.contains_key(
                symbol.0,
            ));
            assert(SymbolId(symbol.0) == symbol);
            lemma_slot_of_holds(self.symbols@, symbol);
        }
        match self.by_symbol.get(&symbol.0) {
            Some(slot) => Some(SlotId(*slot)),
            None => None,
        }
    }

    /// The number of slots.
    pub fn slot_count(&self) -> (n: usize)
        ensures
            n == self@.len(),
            n <= u32::MAX,
    {
        proof {
            use_type_invariant(self);
        }
        self.symbols.len()
    }

    /// The symbol held in `slot`, if the slot exists.
    pub fn symbol_for_slot(&self, slot: SlotId) -> (r: Option<SymbolId>)
        ensures
            slot.0 < self@.len() ==> r == Some(self@[slot.0 as int]),
            slot.0 >= self@.len() ==> r is None,
    {
        let i = slot.0 as usize;
        if i < self.symbols.len() {
            Some(self.symbols[i])
        } else {
            None
        }
    }

    /// The symbols, by slot.
    pub fn symbols(&self) -> (s: &[SymbolId])
        ensures
            s@ == self@,
    {
        self.symbols.as_slice()
    }
}

} // verus!
