//! Facts, primitive actions and classical (delete-free readable) domains.

use std::collections::HashSet;
use vstd::prelude::*;

verus! {

/// The facts of a problem. A fact is known by its position in the list.
pub struct Facts {
    pub names: Vec<String>,
}

impl Facts {
    /// The number of facts.
    pub open spec fn spec_count(&self) -> nat {
        self.names@.len()
    }

    pub fn new(names: Vec<String>) -> (facts: Facts)
        ensures
            facts.names == names,
    {
        Facts { names }
    }

    /// The number of facts, as an identifier bound.
    pub fn count(&self) -> (n: u32)
        requires
            self.spec_count() <= u32::MAX,
        ensures
            n == self.spec_count(),
            n == self.names@.len(),
    {
        self.names.len() as u32
    }

    /// The name of the fact `id`.
    pub fn get_fact(&self, id: u32) -> (name: &String)
        requires
            id < self.spec_count(),
        ensures
            *name == self.names@[id as int],
    {
        &self.names[id as usize]
    }
}

/// An action with a precondition and one add set and one delete set per outcome.
pub struct PrimitiveAction {
    pub name: String,
    pub cost: u32,
    pub pre_cond: HashSet<u32>,
    pub add_effects: Vec<HashSet<u32>>,
    pub del_effects: Vec<HashSet<u32>>,
    /// The probability of each outcome, in units of `1 / ONE`.
    pub probabilities: Vec<u64>,
}

impl PrimitiveAction {
    /// An action whose outcomes have no probabilities.
    pub fn new(
        name: String,
        cost: u32,
        pre_cond: HashSet<u32>,
        add_effects: Vec<HashSet<u32>>,
        del_effects: Vec<HashSet<u32>>,
    ) -> (action: PrimitiveAction)
        ensures
            action.name == name,
            action.cost == cost,
            action.pre_cond == pre_cond,
            action.add_effects == add_effects,
            action.del_effects == del_effects,
            action.probabilities@.len() == 0,
    {
        PrimitiveAction {
            name,
            cost,
            pre_cond,
            add_effects,
            del_effects,
            probabilities: Vec::new(),
        }
    }

    /// An action with a probability for each outcome.
    pub fn new_with_probabilities(
        name: String,
        cost: u32,
        pre_cond: HashSet<u32>,
        add_effects: Vec<HashSet<u32>>,
        del_effects: Vec<HashSet<u32>>,
        probabilities: Vec<u64>,
    ) -> (action: PrimitiveAction)
        ensures
            action == (PrimitiveAction {
                name,
                cost,
                pre_cond,
                add_effects,
                del_effects,
                probabilities,
            }),
    {
        PrimitiveAction { name, cost, pre_cond, add_effects, del_effects, probabilities }
    }
}

/// A domain whose actions are read without their delete sets and with their
/// first outcome only.
pub struct ClassicalDomain {
    pub facts: Facts,
    pub actions: Vec<PrimitiveAction>,
}

impl ClassicalDomain {
    pub fn new(facts: Facts, actions: Vec<PrimitiveAction>) -> (domain: ClassicalDomain)
        ensures
            domain.facts == facts,
            domain.actions == actions,
    {
        ClassicalDomain { facts, actions }
    }

    /// The number of facts.
    pub open spec fn n_facts(&self) -> nat {
        self.facts.spec_count()
    }

    /// The number of actions.
    pub open spec fn n_actions(&self) -> nat {
        self.actions@.len()
    }

    /// The precondition of the action `a`.
    pub open spec fn pre(&self, a: int) -> Set<u32> {
        self.actions@[a].pre_cond@
    }

    /// What the first outcome of the action `a` adds.
    pub open spec fn add(&self, a: int) -> Set<u32> {
        if self.actions@[a].add_effects@.len() == 0 {
            Set::empty()
        } else {
            self.actions@[a].add_effects@[0]@
        }
    }

    /// Action `a` adds the fact `f`, and `f` is a fact of this domain.
    pub open spec fn adds(&self, a: int, f: u32) -> bool {
        0 <= a < self.n_actions() && f < self.n_facts() && self.add(a).contains(f)
    }
}

} // verus!
