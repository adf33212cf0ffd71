//! Tables that remember which literal stands for a pair of keys.
use std::collections::HashMap;
use vstd::prelude::*;
use crate::literal::Literal;

verus! {

broadcast use vstd::std_specs::hash::group_hash_axioms;

/// Keys of a table lie below this bound, so that a pair of them fits one
/// 64-bit number.
pub const KEY_LIMIT: u64 = 0x1_0000_0000;

/// The number that stands for the pair `(a, b)` in a table.
pub open spec fn pair_code(a: nat, b: nat) -> nat {
    a * 0x1_0000_0000 + b
}

/// The pair with its smaller number first.
pub open spec fn ordered(a: nat, b: nat) -> (nat, nat) {
    if a < b {
        (a, b)
    } else {
        (b, a)
    }
}

/// A table from ordered pairs of keys to literals: the entry for `(a, b)` is
/// not the entry for `(b, a)`.
pub struct TableVars {
    vars: HashMap<u64, Literal>,
}

impl View for TableVars {
    type V = Map<(nat, nat), Literal>;

    closed spec fn view(&self) -> Map<(nat, nat), Literal> {
        Map::new(
            |k: (nat, nat)|
                k.0 < KEY_LIMIT && k.1 < KEY_LIMIT && self.vars@.contains_key(
                    pair_code(k.0, k.1) as u64,
                ),
            |k: (nat, nat)| self.vars@[pair_code(k.0, k.1) as u64],
        )
    }
}

impl TableVars {
    /// The empty table.
    pub fn new() -> (table: TableVars)
        ensures
            table@ == Map::<(nat, nat), Literal>::empty(),
    {
        let table = TableVars { vars: HashMap::new() };
        table
    }

    /// Enters `var` for the pair `(a, b)`, which must have no entry yet.
    pub fn put(&mut self, a: usize, b: usize, var: Literal)
        requires
            a < KEY_LIMIT,
            b < KEY_LIMIT,
            !old(self)@.contains_key((a as nat, b as nat)),
        ensures
            final(self)@ == old(self)@.insert((a as nat, b as nat), var),
    {
        let key: u64 = (a as u64) * KEY_LIMIT + (b as u64);
        self.vars.insert(key, var);
        proof {
            assert forall|k: (nat, nat)|
                k.0 < KEY_LIMIT && k.1 < KEY_LIMIT implies (pair_code(k.0, k.1) as u64 == key <==> k
                == (a as nat, b as nat)) by {}
        }
    }

    /// The literal entered for the pair `(a, b)`, if there is one.
    pub fn get(&self, a: usize, b: usize) -> (var: Option<Literal>)
        ensures
            var == if self@.contains_key((a as nat, b as nat)) {
                Some(self@[(a as nat, b as nat)])
            } else {
                None
            },
    {
        if a as u64 >= KEY_LIMIT || b as u64 >= KEY_LIMIT {
            return None;
        }
        let key: u64 = (a as u64) * KEY_LIMIT + (b as u64);
        match self.vars.get(&key) {
            Some(var) => Some(*var),
            None => None,
        }
    }
}

/// A table from unordered pairs of keys to literals: the entry for `(a, b)`
/// is the entry for `(b, a)`. Its view holds each pair with the smaller key
/// first.
pub struct MatchingVars {
    table: TableVars,
}

impl View for MatchingVars {
    type V = Map<(nat, nat), Literal>;

    closed spec fn view(&self) -> Map<(nat, nat), Literal> {
        self.table@
    }
}

impl MatchingVars {
    /// The empty table.
    pub fn new() -> (table: MatchingVars)
        ensures
            table@ == Map::<(nat, nat), Literal>::empty(),
    {
        MatchingVars { table: TableVars::new() }
    }

    /// The pair with its smaller key first.
    pub fn key(a: usize, b: usize) -> (pair: (usize, usize))
        ensures
            (pair.0 as nat, pair.1 as nat) == ordered(a as nat, b as nat),
    {
        if a < b {
            (a, b)
        } else {
            (b, a)
        }
    }

    /// Enters `var` for the pair of `a` and `b`, which must have no entry yet.
    pub fn put(&mut self, a: usize, b: usize, var: Literal)
        requires
            a < KEY_LIMIT,
            b < KEY_LIMIT,
            !old(self)@.contains_key(ordered(a as nat, b as nat)),
        ensures
            final(self)@ == old(self)@.insert(ordered(a as nat, b as nat), var),
    {
        let key = MatchingVars::key(a, b);
        self.table.put(key.0, key.1, var);
    }

    /// The literal entered for the pair of `a` and `b`, if there is one.
    pub fn get(&self, a: usize, b: usize) -> (var: Option<Literal>)
        ensures
            var == if self@.contains_key(ordered(a as nat, b as nat)) {
                Some(self@[ordered(a as nat, b as nat)])
            } else {
                None
            },
    {
        let key = MatchingVars::key(a, b);
        self.table.get(key.0, key.1)
    }
}

} // verus!
