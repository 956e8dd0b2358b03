//! Context tables.
//!
//! Both tables of a model map a context — a string of exactly `order`
//! symbols — to data about it: the observation table to the list of symbols
//! seen immediately after that context anywhere in the training data, the
//! chain table to the sampling weight of every alphabet symbol.  Keys are
//! kept unique, so each table is an association list read as a finite map.

use vstd::prelude::*;

use crate::symbol::{Symbol, symbols_eq};

verus! {

/// One observation-table row: a context and every symbol that followed it.
#[derive(Debug, Clone, PartialEq)]
pub struct ObsEntry {
    pub context: Vec<Symbol>,
    pub followers: Vec<Symbol>,
}

/// One chain-table row: a context and one cumulative-free weight per
/// alphabet symbol, in alphabet order.
#[derive(Debug, Clone, PartialEq)]
pub struct ChainEntry {
    pub context: Vec<Symbol>,
    pub weights: Vec<u64>,
}

impl View for ObsEntry {
    type V = (Seq<Symbol>, Seq<Symbol>);

    open spec fn view(&self) -> (Seq<Symbol>, Seq<Symbol>) {
        (self.context@, self.followers@)
    }
}

impl View for ChainEntry {
    type V = (Seq<Symbol>, Seq<u64>);

    open spec fn view(&self) -> (Seq<Symbol>, Seq<u64>) {
        (self.context@, self.weights@)
    }
}

/// Whether some observation row has the given context.
pub open spec fn obs_has_key(entries: Seq<ObsEntry>, k: Seq<Symbol>) -> bool {
    exists|i: int| 0 <= i < entries.len() && entries[i].context@ == k
}

/// The rows of an observation table name pairwise distinct contexts.
pub open spec fn obs_unique(entries: Seq<ObsEntry>) -> bool {
    forall|i: int, j: int|
        0 <= i < j < entries.len() ==> entries[i].context@ != entries[j].context@
}

/// Whether some chain row has the given context.
pub open spec fn chain_has_key(entries: Seq<ChainEntry>, k: Seq<Symbol>) -> bool {
    exists|i: int| 0 <= i < entries.len() && entries[i].context@ == k
}

/// The rows of a chain table name pairwise distinct contexts.
pub open spec fn chain_unique(entries: Seq<ChainEntry>) -> bool {
    forall|i: int, j: int|
        0 <= i < j < entries.len() ==> entries[i].context@ != entries[j].context@
}

/// Finds the row holding the given context in an observation table.
pub fn obs_find(entries: &Vec<ObsEntry>, key: &Vec<Symbol>) -> (r: Option<usize>)
    ensures
        match r {
            Some(i) => i < entries@.len() && entries@[i as int].context@ == key@,
            None => !obs_has_key(entries@, key@),
        },
{
    let mut i: usize = 0;
    while i < entries.len()
        invariant
            0 <= i <= entries@.len(),
            forall|j: int| 0 <= j < i ==> entries@[j].context@ != key@,
        decreases entries@.len() - i,
    {
        if symbols_eq(&entries[i].context, key) {
            return Some(i);
        }
        i += 1;
    }
    None
}

/// Finds the row holding the given context in a chain table.
pub fn chain_find(entries: &Vec<ChainEntry>, key: &Vec<Symbol>) -> (r: Option<usize>)
    ensures
        match r {
            Some(i) => i < entries@.len() && entries@[i as int].context@ == key@,
            None => !chain_has_key(entries@, key@),
        },
{
    let mut i: usize = 0;
    while i < entries.len()
        invariant
            0 <= i <= entries@.len(),
            forall|j: int| 0 <= j < i ==> entries@[j].context@ != key@,
        decreases entries@.len() - i,
    {
        if symbols_eq(&entries[i].context, key) {
            return Some(i);
        }
        i += 1;
    }
    None
}

} // verus!
