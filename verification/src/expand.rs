//! The demand expansion: from one item and a wanted rate to the requirement of
//! every item of its chain and the power of the whole.
//!
//! The work is a queue of orders, taken first in, first out. Each order is
//! served: its item's machines are counted, its power is charged, its
//! requirement is merged with what the item already has, and, unless the item
//! is raw, its recipe's inputs are ordered in turn.
use vstd::prelude::*;
use std::collections::VecDeque;
use crate::calculator::ProductionCalculator;
use crate::chain::{ceil_quot, orders, Pending};
use crate::item::{MachineName, ProdItem};
use crate::report::{nothing, Expansion, Outcome, ResourceRequirement};

verus! {

/// Why a query fails.
#[derive(Clone, Copy, Debug, PartialEq, Eq, Structural)]
pub enum ExpandError {
    /// The wanted rate is zero or negative.
    InvalidQuantity,
    /// The chain needs an item for which the catalog holds no recipe.
    UnknownItem(ProdItem),
    /// The chain needs an item that no machine type makes.
    NoProducer(ProdItem),
    /// The machine type that makes an item of the chain is missing from the
    /// power table.
    UnknownMachine(MachineName),
    /// A demand, a machine count or the power is more than a `u64` holds.
    Overflow,
}

/// What rounding up gives: enough machines, and not one too many.
pub proof fn lemma_ceil_quot(amount: nat, per_machine: nat)
    requires
        per_machine > 0,
    ensures
        ceil_quot(amount, per_machine) * per_machine >= amount,
        ceil_quot(amount, per_machine) > 0 ==> (ceil_quot(amount, per_machine) - 1) * per_machine
            < amount,
        ceil_quot(amount, per_machine) <= amount,
{
    let q = amount / per_machine;
    let r = amount % per_machine;
    vstd::arithmetic::div_mod::lemma_fundamental_div_mod(amount as int, per_machine as int);
    assert(amount == per_machine * q + r);
    assert(0 <= r < per_machine);
    assert(q * per_machine == per_machine * q) by (nonlinear_arith);
    assert((q + 1) * per_machine == per_machine * q + per_machine) by (nonlinear_arith);
    assert((q - 1) * per_machine == per_machine * q - per_machine) by (nonlinear_arith);
    assert(q <= per_machine * q) by (nonlinear_arith)
        requires
            per_machine >= 1,
            q >= 0,
    ;
}

/// The number of machines that together make `amount`, where one makes
/// `per_machine`: the quotient, rounded up.
pub fn machines_needed(amount: u64, per_machine: u64) -> (count: u64)
    requires
        per_machine > 0,
    ensures
        count == ceil_quot(amount as nat, per_machine as nat),
        count * per_machine >= amount,
        count > 0 ==> (count - 1) * per_machine < amount,
{
    proof {
        lemma_ceil_quot(amount as nat, per_machine as nat);
    }
    if amount % per_machine == 0 {
        amount / per_machine
    } else {
        amount / per_machine + 1
    }
}

/// A requirement merged into what the items already have: added to the entry
/// of its item, or filed as a new one.
pub open spec fn merged(
    needs: Map<ProdItem, ResourceRequirement>,
    item: ProdItem,
    machine: MachineName,
    machines: nat,
    rate: nat,
) -> Result<Map<ProdItem, ResourceRequirement>, ExpandError> {
    if needs.dom().contains(item) {
        let held = needs[item];
        if held.machines + machines > u64::MAX || held.rate + rate > u64::MAX {
            Err(ExpandError::Overflow)
        } else {
            Ok(
                needs.insert(
                    item,
                    ResourceRequirement {
                        item,
                        machine: held.machine,
                        machines: (held.machines + machines) as u64,
                        rate: (held.rate + rate) as u64,
                    },
                ),
            )
        }
    } else if machines > u64::MAX || rate > u64::MAX {
        Err(ExpandError::Overflow)
    } else {
        Ok(
            needs.insert(
                item,
                ResourceRequirement { item, machine, machines: machines as u64, rate: rate as u64 },
            ),
        )
    }
}

impl ProductionCalculator {
    /// One order served: what has been gathered after it, and the orders that
    /// it adds to the end of the queue.
    ///
    /// The demand is the multiplier times the rate per machine. The power
    /// charged is the multiplier times the power of one machine of the item's
    /// type: one charge for each machine that consumes the item on this branch.
    pub open spec fn served(&self, order: Pending, so_far: Outcome) -> Result<
        (Outcome, Seq<Pending>),
        ExpandError,
    > {
        let item = order.item;
        let machine = self.maker(item);
        let demanded = order.multiplier * order.per_cycle;
        let drawn = so_far.power + order.multiplier * self.power(machine);
        if !self.has_maker(item) {
            Err(ExpandError::NoProducer(item))
        } else if !self.has_recipe(item) {
            Err(ExpandError::UnknownItem(item))
        } else if demanded > u64::MAX {
            Err(ExpandError::Overflow)
        } else if !self.has_power(machine) {
            Err(ExpandError::UnknownMachine(machine))
        } else if drawn > u64::MAX {
            Err(ExpandError::Overflow)
        } else {
            match merged(
                so_far.needs,
                item,
                machine,
                ceil_quot(demanded as nat, self.recipe(item).rate()),
                demanded as nat,
            ) {
                Err(fault) => Err(fault),
                Ok(needs) => Ok(
                    (
                        Outcome { needs, power: drawn as u64 },
                        if item.raw() {
                            Seq::empty()
                        } else {
                            self.follow_ups(order)
                        },
                    ),
                ),
            }
        }
    }

    /// The queue served to its end, first in, first out, in at most `steps`
    /// orders: what has been gathered then, or the fault of the first order
    /// that cannot be served.
    pub open spec fn drained(&self, queue: Seq<Pending>, so_far: Outcome, steps: nat) -> Result<
        Outcome,
        ExpandError,
    >
        decreases steps,
    {
        if queue.len() == 0 || steps == 0 {
            Ok(so_far)
        } else {
            match self.served(queue[0], so_far) {
                Err(fault) => Err(fault),
                Ok((next, more)) => self.drained(
                    queue.drop_first() + more,
                    next,
                    (steps - 1) as nat,
                ),
            }
        }
    }

    /// The orders that a query starts with: one for each input of the root's
    /// recipe, with the root's machine count as multiplier; none where the
    /// root is raw, whatever its recipe lists.
    pub open spec fn first_orders(&self, root: ProdItem, rate: i64) -> Seq<Pending> {
        if root.raw() {
            Seq::empty()
        } else {
            orders(
                self.recipe(root).inputs(),
                ceil_quot(rate as nat, self.recipe(root).rate()) as u64,
            )
        }
    }

    /// What a query for `root` at `rate` gives.
    ///
    /// The root's machines are its rate over its recipe's output, rounded up;
    /// they are charged at the power of its type, and its requirement records
    /// the rate that was asked for. Unless the root is raw, its recipe's
    /// inputs are ordered with that machine count as multiplier, and the
    /// queue is served to its end.
    pub open spec fn expansion(&self, root: ProdItem, rate: i64) -> Result<Outcome, ExpandError> {
        let machine = self.maker(root);
        let recipe = self.recipe(root);
        let count = ceil_quot(rate as nat, recipe.rate());
        let drawn = count * self.power(machine);
        let queue = self.first_orders(root, rate);
        if rate <= 0 {
            Err(ExpandError::InvalidQuantity)
        } else if !self.has_recipe(root) {
            Err(ExpandError::UnknownItem(root))
        } else if !self.has_maker(root) {
            Err(ExpandError::NoProducer(root))
        } else if !self.has_power(machine) {
            Err(ExpandError::UnknownMachine(machine))
        } else if drawn > u64::MAX {
            Err(ExpandError::Overflow)
        } else {
            self.drained(
                queue,
                Outcome {
                    needs: Map::<ProdItem, ResourceRequirement>::empty().insert(
                        root,
                        ResourceRequirement {
                            item: root,
                            machine,
                            machines: count as u64,
                            rate: rate as u64,
                        },
                    ),
                    power: drawn as u64,
                },
                self.backlog(queue),
            )
        }
    }

    /// Serves one order: charges its power, merges its requirement into
    /// `result`, and puts the orders for its inputs at the end of `queue`,
    /// unless the item is raw. Where it fails, the queue is left as it was.
    pub fn serve(&self, order: Pending, result: Expansion, queue: &mut VecDeque<Pending>) -> (done:
        Result<Expansion, ExpandError>)
        ensures
            match self.served(order, result@) {
                Ok((next, more)) => done is Ok && done->Ok_0@ == next && final(queue)@ == old(
                    queue,
                )@ + more,
                Err(fault) => done is Err && done->Err_0 == fault && final(queue)@ == old(queue)@,
            },
            order.item.raw() ==> final(queue)@ == old(queue)@,
    {
        proof {
            use_type_invariant(self);
        }
        let item = order.item;
        let machine = match self.machine_producing(item) {
            Some(machine) => machine,
            None => {
                return Err(ExpandError::NoProducer(item));
            },
        };
        let recipe = match self.lookup(item) {
            Some(recipe) => recipe,
            None => {
                return Err(ExpandError::UnknownItem(item));
            },
        };
        let demanded = match order.multiplier.checked_mul(order.per_cycle) {
            Some(demanded) => demanded,
            None => {
                return Err(ExpandError::Overflow);
            },
        };
        let unit = match self.power_of(machine) {
            Some(unit) => unit,
            None => {
                return Err(ExpandError::UnknownMachine(machine));
            },
        };
        let charged = match order.multiplier.checked_mul(unit) {
            Some(charged) => charged,
            None => {
                return Err(ExpandError::Overflow);
            },
        };
        let drawn = match result.power_consumption().checked_add(charged) {
            Some(drawn) => drawn,
            None => {
                return Err(ExpandError::Overflow);
            },
        };
        proof {
            self.lemma_recipe_rate(item);
        }
        let count = machines_needed(demanded, recipe.output_item.1);
        let entry = match result.requirement(item) {
            Some(held) => {
                let machines = match held.machines.checked_add(count) {
                    Some(machines) => machines,
                    None => {
                        return Err(ExpandError::Overflow);
                    },
                };
                let rate = match held.rate.checked_add(demanded) {
                    Some(rate) => rate,
                    None => {
                        return Err(ExpandError::Overflow);
                    },
                };
                ResourceRequirement { item, machine: held.machine, machines, rate }
            },
            None => ResourceRequirement { item, machine, machines: count, rate: demanded },
        };
        let result = result.with_requirement(entry).with_power(drawn);
        if !item.is_raw_resource() {
            enqueue(queue, &recipe.input_items, count);
        } else {
            assert(queue@ + Seq::<Pending>::empty() =~= queue@);
        }
        Ok(result)
    }

    /// Expands a query: the requirement of every item in the chain of `root`,
    /// made at `rate`, and the power that all the machines draw.
    ///
    /// The result is what serving the queue gives, and the same said without
    /// the queue: for each item the sums over all the visits paid to it. The
    /// query succeeds exactly when the rate is more than zero, the catalogs
    /// know every item that the chain visits, and every sum is a number that
    /// can be held; a fault is that of a visit of the chain.
    ///
    /// A rate of zero or less is refused before anything is looked up. An item
    /// of the chain without a recipe, a maker or a power entry fails the whole
    /// query, and so does a number that no `u64` holds; nothing of what was
    /// gathered until then is handed out.
    pub fn expand(&self, root: ProdItem, rate: i64) -> (res: Result<Expansion, ExpandError>)
        ensures
            match res {
                Ok(expansion) => self.expansion(root, rate) == Ok::<
                    Outcome,
                    ExpandError,
                >(expansion@) && expansion@ == self.summed(self.chain(root, rate)),
                Err(fault) => self.expansion(root, rate) == Err::<Outcome, ExpandError>(fault) && (
                fault == ExpandError::InvalidQuantity <==> rate <= 0) && (rate > 0
                    ==> self.explains(fault, nothing(), self.chain(root, rate))),
            },
            res is Ok <==> rate > 0 && self.known(self.chain(root, rate)) && self.fits(
                nothing(),
                self.chain(root, rate),
            ),
    {
        proof {
            use_type_invariant(self);
            self.lemma_success_is_owed(root, rate);
            if self.expansion(root, rate) is Err {
                self.lemma_fault_is_real(root, rate);
            }
        }
        if rate <= 0 {
            return Err(ExpandError::InvalidQuantity);
        }
        let wanted: u64 = rate as u64;
        let recipe = match self.lookup(root) {
            Some(recipe) => recipe,
            None => {
                return Err(ExpandError::UnknownItem(root));
            },
        };
        let machine = match self.machine_producing(root) {
            Some(machine) => machine,
            None => {
                return Err(ExpandError::NoProducer(root));
            },
        };
        proof {
            self.lemma_recipe_rate(root);
        }
        let count = machines_needed(wanted, recipe.output_item.1);
        let unit = match self.power_of(machine) {
            Some(unit) => unit,
            None => {
                return Err(ExpandError::UnknownMachine(machine));
            },
        };
        let drawn = match count.checked_mul(unit) {
            Some(drawn) => drawn,
            None => {
                return Err(ExpandError::Overflow);
            },
        };
        let mut result = Expansion::new().with_requirement(
            ResourceRequirement { item: root, machine, machines: count, rate: wanted },
        ).with_power(drawn);
        let mut queue: VecDeque<Pending> = VecDeque::new();
        if !root.is_raw_resource() {
            enqueue(&mut queue, &recipe.input_items, count);
        }
        assert(queue@ =~= self.first_orders(root, rate));
        let ghost mut steps: nat = self.backlog(queue@);
        while queue.len() > 0
            invariant
                self.wf(),
                steps >= self.backlog(queue@),
                self.drained(queue@, result@, steps) == self.expansion(root, rate),
            decreases steps,
        {
            let ghost before = queue@;
            proof {
                self.lemma_forest_step(before);
                assert(before.drop_first() + Seq::<Pending>::empty() =~= before.drop_first());
            }
            let order = queue.pop_front().unwrap();
            result = match self.serve(order, result, &mut queue) {
                Err(fault) => {
                    proof {
                        self.lemma_success_is_owed(root, rate);
                        self.lemma_fault_is_real(root, rate);
                    }
                    return Err(fault);
                },
                Ok(next) => next,
            };
            proof {
                steps = (steps - 1) as nat;
            }
        }
        proof {
            self.lemma_expansion_sums(root, rate);
        }
        Ok(result)
    }
}

/// Puts one order for each input at the end of the queue.
fn enqueue(queue: &mut VecDeque<Pending>, inputs: &Vec<(ProdItem, u64)>, multiplier: u64)
    ensures
        final(queue)@ == old(queue)@ + orders(inputs@, multiplier),
{
    let mut k: usize = 0;
    while k < inputs.len()
        invariant
            k <= inputs@.len(),
            queue@ == old(queue)@ + orders(inputs@, multiplier).subrange(0, k as int),
        decreases inputs@.len() - k,
    {
        queue.push_back(Pending { item: inputs[k].0, per_cycle: inputs[k].1, multiplier });
        k += 1;
        assert(queue@ =~= old(queue)@ + orders(inputs@, multiplier).subrange(0, k as int));
    }
    assert(queue@ =~= old(queue)@ + orders(inputs@, multiplier));
}

} // verus!
