//! Plain value types describing resolved addresses and symbol attributes.

use vstd::prelude::*;

use crate::pool::SymbolStringPoolEntry;

verus! {

/// A pair of small opaque bitfields attached to every symbol: generic
/// visibility/weak/callable attributes and target-specific attributes.
#[derive(Clone, Copy, Debug, PartialEq, Eq, Structural)]
pub struct SymbolFlags {
    pub generic_flags: u8,
    pub target_flags: u8,
}

impl SymbolFlags {
    pub fn new(generic_flags: u8, target_flags: u8) -> (r: Self)
        ensures
            r.generic_flags == generic_flags,
            r.target_flags == target_flags,
    {
        SymbolFlags { generic_flags, target_flags }
    }

    pub fn get_generic_flags(&self) -> (r: u8)
        ensures
            r == self.generic_flags,
    {
        self.generic_flags
    }

    pub fn get_target_flags(&self) -> (r: u8)
        ensures
            r == self.target_flags,
    {
        self.target_flags
    }
}

/// A fully resolved definition: an address and its flags.  A zero address is
/// a valid value, not a marker for "unset".
#[derive(Clone, Copy, Debug, PartialEq, Eq, Structural)]
pub struct EvaluatedSymbol {
    pub address: u64,
    pub flags: SymbolFlags,
}

impl EvaluatedSymbol {
    pub fn new(address: u64, flags: SymbolFlags) -> (r: Self)
        ensures
            r.address == address,
            r.flags == flags,
    {
        EvaluatedSymbol { address, flags }
    }

    pub fn get_address(&self) -> (r: u64)
        ensures
            r == self.address,
    {
        self.address
    }

    pub fn get_flags(&self) -> (r: &SymbolFlags)
        ensures
            r == self.flags,
    {
        &self.flags
    }
}

/// One declared symbol: an interned name together with its flags.
#[derive(Clone, Copy, Debug, PartialEq, Eq, Structural)]
pub struct SymbolFlagsMapPair {
    pub name: SymbolStringPoolEntry,
    pub flags: SymbolFlags,
}

impl SymbolFlagsMapPair {
    pub fn new(name: SymbolStringPoolEntry, flags: SymbolFlags) -> (r: Self)
        ensures
            r.name == name,
            r.flags == flags,
    {
        SymbolFlagsMapPair { name, flags }
    }

    pub fn get_name(&self) -> (r: &SymbolStringPoolEntry)
        ensures
            r == self.name,
    {
        &self.name
    }

    pub fn name(self) -> (r: SymbolStringPoolEntry)
        ensures
            r == self.name,
    {
        self.name
    }

    pub fn get_flags(&self) -> (r: &SymbolFlags)
        ensures
            r == self.flags,
    {
        &self.flags
    }

    pub fn flags(self) -> (r: SymbolFlags)
        ensures
            r == self.flags,
    {
        self.flags
    }

    pub fn destruct(self) -> (r: (SymbolStringPoolEntry, SymbolFlags))
        ensures
            r == (self.name, self.flags),
    {
        (self.name, self.flags)
    }
}

/// The symbols a materialization unit promises, with their flags.
#[derive(Clone, Debug)]
pub struct SymbolFlagsMapPairs {
    pub pairs: Vec<SymbolFlagsMapPair>,
}

impl SymbolFlagsMapPairs {
    pub fn new(pairs: Vec<SymbolFlagsMapPair>) -> (r: Self)
        ensures
            r.pairs == pairs,
    {
        SymbolFlagsMapPairs { pairs }
    }

    pub fn len(&self) -> (r: usize)
        ensures
            r == self.pairs@.len(),
    {
        self.pairs.len()
    }

    pub fn get(&self, i: usize) -> (r: &SymbolFlagsMapPair)
        requires
            i < self.pairs@.len(),
        ensures
            r == self.pairs@[i as int],
    {
        &self.pairs[i]
    }

    pub fn names(self) -> (r: Vec<SymbolStringPoolEntry>)
        ensures
            r@ == self.pairs@.map_values(|p: SymbolFlagsMapPair| p.name),
    {
        let mut out: Vec<SymbolStringPoolEntry> = Vec::new();
        let mut i: usize = 0;
        while i < self.pairs.len()
            invariant
                i <= self.pairs@.len(),
                out@ == self.pairs@.take(i as int).map_values(
                    |p: SymbolFlagsMapPair| p.name,
                ),
            decreases self.pairs@.len() - i,
        {
            out.push(self.pairs[i].name);
            proof {
                assert(self.pairs@.take(i + 1) == self.pairs@.take(i as int).push(
                    self.pairs@[i as int],
                ));
            }
            i = i + 1;
        }
        proof {
            assert(self.pairs@.take(self.pairs@.len() as int) == self.pairs@);
        }
        out
    }

    pub fn flags(self) -> (r: Vec<SymbolFlags>)
        ensures
            r@ == self.pairs@.map_values(|p: SymbolFlagsMapPair| p.flags),
    {
        let mut out: Vec<SymbolFlags> = Vec::new();
        let mut i: usize = 0;
        while i < self.pairs.len()
            invariant
                i <= self.pairs@.len(),
                out@ == self.pairs@.take(i as int).map_values(
                    |p: SymbolFlagsMapPair| p.flags,
                ),
            decreases self.pairs@.len() - i,
        {
            out.push(self.pairs[i].flags);
            proof {
                assert(self.pairs@.take(i + 1) == self.pairs@.take(i as int).push(
                    self.pairs@[i as int],
                ));
            }
            i = i + 1;
        }
        proof {
            assert(self.pairs@.take(self.pairs@.len() as int) == self.pairs@);
        }
        out
    }
}

/// One resolved symbol: an interned name with its evaluated definition.
#[derive(Clone, Copy, Debug, PartialEq, Eq, Structural)]
pub struct SymbolMapPair {
    pub name: SymbolStringPoolEntry,
    pub symbol: EvaluatedSymbol,
}

impl SymbolMapPair {
    pub fn new(name: SymbolStringPoolEntry, symbol: EvaluatedSymbol) -> (r: Self)
        ensures
            r.name == name,
            r.symbol == symbol,
    {
        SymbolMapPair { name, symbol }
    }

    pub fn get_name(&self) -> (r: &SymbolStringPoolEntry)
        ensures
            r == self.name,
    {
        &self.name
    }

    pub fn name(self) -> (r: SymbolStringPoolEntry)
        ensures
            r == self.name,
    {
        self.name
    }

    pub fn get_symbol(&self) -> (r: &EvaluatedSymbol)
        ensures
            r == self.symbol,
    {
        &self.symbol
    }

    pub fn symbol(self) -> (r: EvaluatedSymbol)
        ensures
            r == self.symbol,
    {
        self.symbol
    }

    pub fn destruct(self) -> (r: (SymbolStringPoolEntry, EvaluatedSymbol))
        ensures
            r == (self.name, self.symbol),
    {
        (self.name, self.symbol)
    }
}

/// An address map handed to `notify_resolved`: resolved definitions for a
/// subset of a responsibility's symbols.
#[derive(Clone, Debug)]
pub struct SymbolMapPairs {
    pub pairs: Vec<SymbolMapPair>,
}

impl SymbolMapPairs {
    pub fn new(pairs: Vec<SymbolMapPair>) -> (r: Self)
        ensures
            r.pairs == pairs,
    {
        SymbolMapPairs { pairs }
    }

    pub fn len(&self) -> (r: usize)
        ensures
            r == self.pairs@.len(),
    {
        self.pairs.len()
    }

    pub fn get(&self, i: usize) -> (r: &SymbolMapPair)
        requires
            i < self.pairs@.len(),
        ensures
            r == self.pairs@[i as int],
    {
        &self.pairs[i]
    }

    pub fn names(self) -> (r: Vec<SymbolStringPoolEntry>)
        ensures
            r@ == self.pairs@.map_values(|p: SymbolMapPair| p.name),
    {
        let mut out: Vec<SymbolStringPoolEntry> = Vec::new();
        let mut i: usize = 0;
        while i < self.pairs.len()
            invariant
                i <= self.pairs@.len(),
                out@ == self.pairs@.take(i as int).map_values(|p: SymbolMapPair| p.name),
            decreases self.pairs@.len() - i,
        {
            out.push(self.pairs[i].name);
            proof {
                assert(self.pairs@.take(i + 1) == self.pairs@.take(i as int).push(
                    self.pairs@[i as int],
                ));
            }
            i = i + 1;
        }
        proof {
            assert(self.pairs@.take(self.pairs@.len() as int) == self.pairs@);
        }
        out
    }

    pub fn symbols(self) -> (r: Vec<EvaluatedSymbol>)
        ensures
            r@ == self.pairs@.map_values(|p: SymbolMapPair| p.symbol),
    {
        let mut out: Vec<EvaluatedSymbol> = Vec::new();
        let mut i: usize = 0;
        while i < self.pairs.len()
            invariant
                i <= self.pairs@.len(),
                out@ == self.pairs@.take(i as int).map_values(|p: SymbolMapPair| p.symbol),
            decreases self.pairs@.len() - i,
        {
            out.push(self.pairs[i].symbol);
            proof {
                assert(self.pairs@.take(i + 1) == self.pairs@.take(i as int).push(
                    self.pairs@[i as int],
                ));
            }
            i = i + 1;
        }
        proof {
            assert(self.pairs@.take(self.pairs@.len() as int) == self.pairs@);
        }
        out
    }
}

} // verus!
