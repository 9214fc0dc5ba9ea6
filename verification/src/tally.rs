//! Sums over the visits of a chain, and what an outcome has gathered of them.
use vstd::prelude::*;
use crate::calculator::ProductionCalculator;
use crate::chain::{ceil_quot, Visit};
use crate::expand::ExpandError;
use crate::item::ProdItem;
use crate::report::{Outcome, ResourceRequirement};

verus! {

/// What is summed over visits.
pub ghost enum Measure {
    /// The machines of an item: each visit's demand over the recipe's output,
    /// rounded up by itself.
    Machines(ProdItem),
    /// The demand for an item.
    Rate(ProdItem),
    /// The number of visits to an item.
    Visits(ProdItem),
    /// The power charged.
    Power,
}

/// What an outcome holds of a measure; for the visits, whether the item has
/// an entry at all.
pub open spec fn gathered(outcome: Outcome, what: Measure) -> nat {
    match what {
        Measure::Machines(item) => if outcome.needs.dom().contains(item) {
            outcome.needs[item].machines as nat
        } else {
            0
        },
        Measure::Rate(item) => if outcome.needs.dom().contains(item) {
            outcome.needs[item].rate as nat
        } else {
            0
        },
        Measure::Visits(item) => if outcome.needs.dom().contains(item) {
            1
        } else {
            0
        },
        Measure::Power => outcome.power as nat,
    }
}

impl ProductionCalculator {
    /// What one visit adds to a measure.
    pub open spec fn worth(&self, what: Measure, visit: Visit) -> nat {
        match what {
            Measure::Machines(item) => if visit.item == item {
                ceil_quot(visit.demanded, self.recipe(item).rate())
            } else {
                0
            },
            Measure::Rate(item) => if visit.item == item {
                visit.demanded
            } else {
                0
            },
            Measure::Visits(item) => if visit.item == item {
                1
            } else {
                0
            },
            Measure::Power => (visit.charge * self.power(self.maker(visit.item))) as nat,
        }
    }

    /// The sum of a measure over visits.
    pub open spec fn total(&self, what: Measure, visits: Seq<Visit>) -> nat
        decreases visits.len(),
    {
        if visits.len() == 0 {
            0
        } else {
            self.worth(what, visits[0]) + self.total(what, visits.drop_first())
        }
    }

    /// A sum over visits taken one after the other is the sum of the sums.
    pub proof fn lemma_total_joins(&self, what: Measure, first: Seq<Visit>, second: Seq<Visit>)
        ensures
            self.total(what, first + second) == self.total(what, first) + self.total(what, second),
        decreases first.len(),
    {
        if first.len() == 0 {
            assert(first + second =~= second);
        } else {
            assert((first + second).drop_first() =~= first.drop_first() + second);
            self.lemma_total_joins(what, first.drop_first(), second);
        }
    }

    /// The sum over a single visit is what the visit is worth.
    pub proof fn lemma_total_one(&self, what: Measure, visit: Visit)
        ensures
            self.total(what, seq![visit]) == self.worth(what, visit),
    {
        assert(seq![visit].drop_first() =~= Seq::<Visit>::empty());
        assert(self.total(what, seq![visit].drop_first()) == 0);
    }

    /// Every entry is filed under its own item, names the item's maker, and
    /// is for an item that the catalogs know in full.
    pub open spec fn proper(&self, outcome: Outcome) -> bool {
        forall|item: ProdItem| #[trigger]
            outcome.needs.dom().contains(item) ==> {
                &&& outcome.needs[item].item == item
                &&& outcome.needs[item].machine == self.maker(item)
                &&& self.has_recipe(item)
                &&& self.has_maker(item)
                &&& self.has_power(self.maker(item))
            }
    }

    /// The outcome that sums every measure over the given visits: an entry
    /// for each item visited, and the power of all visits.
    pub open spec fn summed(&self, visits: Seq<Visit>) -> Outcome {
        Outcome {
            needs: Map::new(
                |item: ProdItem| self.total(Measure::Visits(item), visits) > 0,
                |item: ProdItem|
                    ResourceRequirement {
                        item,
                        machine: self.maker(item),
                        machines: self.total(Measure::Machines(item), visits) as u64,
                        rate: self.total(Measure::Rate(item), visits) as u64,
                    },
            ),
            power: self.total(Measure::Power, visits) as u64,
        }
    }

    /// The catalogs know an item in full: its recipe, its maker, and the
    /// maker's power.
    pub open spec fn knows(&self, item: ProdItem) -> bool {
        self.has_recipe(item) && self.has_maker(item) && self.has_power(self.maker(item))
    }

    /// The catalogs know the item of every visit.
    pub open spec fn known(&self, visits: Seq<Visit>) -> bool {
        forall|i: int| 0 <= i < visits.len() ==> self.knows((#[trigger] visits[i]).item)
    }

    /// Added to what has been gathered, the machines and the demand of every
    /// item and the power, summed over the visits, are numbers that a `u64`
    /// holds.
    pub open spec fn fits(&self, so_far: Outcome, visits: Seq<Visit>) -> bool {
        forall|what: Measure|
            !(what is Visits) ==> gathered(so_far, what) + #[trigger] self.total(what, visits)
                <= u64::MAX
    }

    /// What a fault says of the visits at hand: an item without a recipe or
    /// without a maker is among those visited, a machine type without a power
    /// entry makes one of them, and an overflow means that some sum over them
    /// is more than a `u64` holds.
    pub open spec fn explains(&self, fault: ExpandError, so_far: Outcome, visits: Seq<Visit>) -> bool {
        match fault {
            ExpandError::InvalidQuantity => false,
            ExpandError::UnknownItem(item) => !self.has_recipe(item) && exists|i: int|
                0 <= i < visits.len() && (#[trigger] visits[i]).item == item,
            ExpandError::NoProducer(item) => !self.has_maker(item) && exists|i: int|
                0 <= i < visits.len() && (#[trigger] visits[i]).item == item,
            ExpandError::UnknownMachine(machine) => !self.has_power(machine) && exists|i: int|
                0 <= i < visits.len() && self.has_maker((#[trigger] visits[i]).item) && self.maker(
                    visits[i].item,
                ) == machine,
            ExpandError::Overflow => !self.fits(so_far, visits),
        }
    }
}

} // verus!
