//! The entries of the two catalogs: what one machine makes, and what it draws.
use vstd::prelude::*;
use crate::item::{MachineName, ProdItem};

verus! {

/// What one machine, running at full speed, turns out and takes in.
#[derive(Debug)]
pub struct Recipe {
    /// The item made, and how much of it one machine makes per minute.
    pub output_item: (ProdItem, u64),
    /// The items consumed, each with the rate at which one machine takes it.
    pub input_items: Vec<(ProdItem, u64)>,
}

impl Recipe {
    pub fn new(output_item: (ProdItem, u64), input_items: Vec<(ProdItem, u64)>) -> (recipe: Self)
        ensures
            recipe.output_item == output_item,
            recipe.input_items == input_items,
    {
        Self { output_item, input_items }
    }

    /// The item that the recipe makes.
    pub open spec fn item(self) -> ProdItem {
        self.output_item.0
    }

    /// How much of its item one machine makes per minute.
    pub open spec fn rate(self) -> nat {
        self.output_item.1 as nat
    }

    /// What one machine consumes.
    pub open spec fn inputs(self) -> Seq<(ProdItem, u64)> {
        self.input_items@
    }
}

/// A machine type with the power that one running unit draws.
#[derive(Debug)]
pub struct Machine {
    pub name: MachineName,
    pub power_consumption: u64,
}

impl Machine {
    pub fn new(name: MachineName, power_consumption: u64) -> (machine: Self)
        ensures
            machine.name == name,
            machine.power_consumption == power_consumption,
    {
        Self { name, power_consumption }
    }
}

} // verus!
