//! The calculator: the two catalogs, examined once and then only read.
use vstd::prelude::*;
use crate::catalog::{
    catalog_fault, circular, claims, contested, has_item_contested, has_machine_twice, has_producer,
    has_recipe_twice, has_zero_rate, holds_item, lists_machine, lists_recipe, power_for,
    producer_for, recipe_for, CatalogError,
};
use crate::grading::is_acyclic;
use crate::item::{MachineName, ProdItem};
use crate::recipe::{Machine, Recipe};

verus! {

/// A recipe catalog and a machine directory that were found sound.
pub struct ProductionCalculator {
    recipes: Vec<Recipe>,
    machinexitems: Vec<(MachineName, Vec<ProdItem>)>,
    machines: Vec<Machine>,
}

impl ProductionCalculator {
    /// The recipe catalog.
    pub closed spec fn recipes(&self) -> Seq<Recipe> {
        self.recipes@
    }

    /// The power table.
    pub closed spec fn machines(&self) -> Seq<Machine> {
        self.machines@
    }

    /// The machine types, each with the items it makes.
    pub closed spec fn claimed(&self) -> Seq<(MachineName, Vec<ProdItem>)> {
        self.machinexitems@
    }

    /// The catalogs are sound: every lookup has one answer, every recipe makes
    /// something, and no item that is not raw needs itself.
    #[verifier::type_invariant]
    pub open spec fn wf(&self) -> bool {
        catalog_fault(self.recipes(), self.machines(), self.claimed()) is None
    }

    /// Whether the catalog holds a recipe for `item`.
    pub open spec fn has_recipe(&self, item: ProdItem) -> bool {
        lists_recipe(self.recipes(), item)
    }

    /// The recipe for `item`.
    pub open spec fn recipe(&self, item: ProdItem) -> Recipe
        recommends
            self.has_recipe(item),
    {
        recipe_for(self.recipes(), item)
    }

    /// Whether a machine type makes `item`.
    pub open spec fn has_maker(&self, item: ProdItem) -> bool {
        has_producer(self.claimed(), item)
    }

    /// The machine type that makes `item`.
    pub open spec fn maker(&self, item: ProdItem) -> MachineName
        recommends
            self.has_maker(item),
    {
        producer_for(self.claimed(), item)
    }

    /// Whether the power table lists `machine`.
    pub open spec fn has_power(&self, machine: MachineName) -> bool {
        lists_machine(self.machines(), machine)
    }

    /// The power that one machine of type `machine` draws.
    pub open spec fn power(&self, machine: MachineName) -> u64
        recommends
            self.has_power(machine),
    {
        power_for(self.machines(), machine)
    }

    /// Examines the catalogs and keeps them. They are refused for the first of
    /// these reasons that holds: a recipe that makes nothing, an item with two
    /// recipes, a machine type listed twice in the power table, an item claimed
    /// by two machine types, a circle among the recipes of items that are not
    /// raw. An item without a recipe, a maker or a power entry is no fault of
    /// the catalog: the query that meets it fails.
    pub fn new(
        recipes: Vec<Recipe>,
        machines: Vec<Machine>,
        machinexitems: Vec<(MachineName, Vec<ProdItem>)>,
    ) -> (made: Result<Self, CatalogError>)
        ensures
            match made {
                Ok(calculator) => calculator.wf() && calculator.recipes() == recipes@
                    && calculator.machines() == machines@ && calculator.claimed()
                    == machinexitems@,
                Err(fault) => catalog_fault(recipes@, machines@, machinexitems@) == Some(fault),
            },
            made is Ok ==> !circular(recipes@),
            made == Err::<Self, CatalogError>(CatalogError::DependencyCycle) ==> circular(recipes@),
    {
        if has_zero_rate(&recipes) {
            Err(CatalogError::ZeroOutputRate)
        } else if has_recipe_twice(&recipes) {
            Err(CatalogError::DuplicateRecipe)
        } else if has_machine_twice(&machines) {
            Err(CatalogError::DuplicateMachine)
        } else if has_item_contested(&machinexitems) {
            Err(CatalogError::DuplicateProducer)
        } else if !is_acyclic(&recipes) {
            Err(CatalogError::DependencyCycle)
        } else {
            Ok(ProductionCalculator { recipes, machinexitems, machines })
        }
    }

    /// The recipe for `item`, if the catalog holds one.
    pub fn lookup(&self, item: ProdItem) -> (found: Option<&Recipe>)
        ensures
            match found {
                Some(recipe) => self.has_recipe(item) && *recipe == self.recipe(item),
                None => !self.has_recipe(item),
            },
    {
        proof {
            use_type_invariant(self);
        }
        let mut i: usize = 0;
        while i < self.recipes.len()
            invariant
                self.wf(),
                i <= self.recipes@.len(),
                forall|k: int| 0 <= k < i ==> (#[trigger] self.recipes@[k]).item() != item,
            decreases self.recipes@.len() - i,
        {
            if self.recipes[i].output_item.0 == item {
                proof {
                    let c = choose|c: int|
                        0 <= c < self.recipes@.len() && (#[trigger] self.recipes@[c]).item() == item;
                    if c < i {
                        assert(self.recipes@[c].item() == self.recipes@[i as int].item());
                    } else if i < c {
                        assert(self.recipes@[i as int].item() == self.recipes@[c].item());
                    }
                }
                return Some(&self.recipes[i]);
            }
            i += 1;
        }
        None
    }

    /// The machine type that makes `item`, if one does. Only the claims are
    /// searched, never the recipes.
    pub fn machine_producing(&self, item: ProdItem) -> (found: Option<MachineName>)
        ensures
            match found {
                Some(machine) => self.has_maker(item) && machine == self.maker(item),
                None => !self.has_maker(item),
            },
    {
        proof {
            use_type_invariant(self);
        }
        let mut k: usize = 0;
        while k < self.machinexitems.len()
            invariant
                self.wf(),
                k <= self.machinexitems@.len(),
                forall|a: int| 0 <= a < k ==> !(#[trigger] self.machinexitems@[a]).1@.contains(item),
            decreases self.machinexitems@.len() - k,
        {
            if holds_item(&self.machinexitems[k].1, item) {
                let machine = self.machinexitems[k].0;
                proof {
                    assert(claims(self.claimed(), machine, item));
                    let other = self.maker(item);
                    assert(claims(self.claimed(), other, item));
                    if other != machine {
                        assert(contested(self.claimed(), item));
                    }
                }
                return Some(machine);
            }
            k += 1;
        }
        proof {
            assert forall|machine: MachineName| !claims(self.claimed(), machine, item) by {}
        }
        None
    }

    /// The power that one machine of type `machine` draws, if the table lists
    /// the type.
    pub fn power_of(&self, machine: MachineName) -> (found: Option<u64>)
        ensures
            match found {
                Some(power) => self.has_power(machine) && power == self.power(machine),
                None => !self.has_power(machine),
            },
    {
        proof {
            use_type_invariant(self);
        }
        let mut i: usize = 0;
        while i < self.machines.len()
            invariant
                self.wf(),
                i <= self.machines@.len(),
                forall|k: int| 0 <= k < i ==> (#[trigger] self.machines@[k]).name != machine,
            decreases self.machines@.len() - i,
        {
            if self.machines[i].name == machine {
                proof {
                    let c = choose|c: int|
                        0 <= c < self.machines@.len() && (#[trigger] self.machines@[c]).name == machine;
                    if c < i {
                        assert(self.machines@[c].name == self.machines@[i as int].name);
                    } else if i < c {
                        assert(self.machines@[i as int].name == self.machines@[c].name);
                    }
                }
                return Some(self.machines[i].power_consumption);
            }
            i += 1;
        }
        None
    }

    /// A recipe of a sound catalog makes something, and is filed under its
    /// item.
    pub proof fn lemma_recipe_rate(&self, item: ProdItem)
        requires
            self.wf(),
            self.has_recipe(item),
        ensures
            self.recipe(item).rate() > 0,
            self.recipe(item).item() == item,
    {
        let recipes = self.recipes();
        let c = choose|c: int| 0 <= c < recipes.len() && (#[trigger] recipes[c]).item() == item;
        assert(recipes[c].output_item.1 != 0);
    }
}

} // verus!
