//! The dependency chain of an order, written out: every visit that an
//! expansion pays to an item, branch by branch.
//!
//! An order is an item with the rate at which one consuming machine takes it
//! and the number of consuming machines. Its tree holds one visit for the
//! order itself and, where the item is expanded, the trees of the orders for
//! its recipe's inputs. The same item stands in the tree once for every branch
//! that reaches it.
use vstd::prelude::*;
use crate::calculator::ProductionCalculator;
use crate::catalog::{acyclic, ranking};
use crate::item::ProdItem;

verus! {

/// An entry of the work queue: `multiplier` machines each take `per_cycle` of
/// `item` per minute.
#[derive(Clone, Copy, Debug, PartialEq, Eq, Structural)]
pub struct Pending {
    pub item: ProdItem,
    pub per_cycle: u64,
    pub multiplier: u64,
}

/// One visit to an item: how much of it the branch demands, and the number of
/// machines by which its power is charged.
pub ghost struct Visit {
    pub item: ProdItem,
    pub demanded: nat,
    pub charge: nat,
}

/// `amount / per_machine`, rounded up: the least number of machines that
/// together make `amount`.
pub open spec fn ceil_quot(amount: nat, per_machine: nat) -> nat
    recommends
        per_machine > 0,
{
    if amount % per_machine == 0 {
        amount / per_machine
    } else {
        amount / per_machine + 1
    }
}

/// One order for each input of a recipe, all with the same multiplier.
pub open spec fn orders(inputs: Seq<(ProdItem, u64)>, multiplier: u64) -> Seq<Pending> {
    Seq::new(
        inputs.len(),
        |k: int| Pending { item: inputs[k].0, per_cycle: inputs[k].1, multiplier },
    )
}

impl ProductionCalculator {
    /// A rank that falls along every edge that an expansion follows.
    pub open spec fn depth(&self, item: ProdItem) -> nat {
        let rank = choose|rank: spec_fn(ProdItem) -> nat| ranking(self.recipes(), rank);
        rank(item)
    }

    /// The visit that an order pays to its item.
    pub open spec fn visit(&self, order: Pending) -> Visit {
        Visit {
            item: order.item,
            demanded: (order.multiplier * order.per_cycle) as nat,
            charge: order.multiplier as nat,
        }
    }

    /// Whether the inputs of the order's item are ordered in turn: the item is
    /// not raw, it has a recipe, and the demand is a number that can be held.
    pub open spec fn expands(&self, order: Pending) -> bool {
        &&& !order.item.raw()
        &&& self.has_recipe(order.item)
        &&& order.multiplier * order.per_cycle <= u64::MAX
    }

    /// The orders for the inputs of the order's item, one machine count for
    /// all: that of the item, rounded up.
    pub open spec fn follow_ups(&self, order: Pending) -> Seq<Pending> {
        orders(
            self.recipe(order.item).inputs(),
            ceil_quot(
                (order.multiplier * order.per_cycle) as nat,
                self.recipe(order.item).rate(),
            ) as u64,
        )
    }

    /// The visits of an order's tree, down to `levels` levels under it.
    pub open spec fn branch(&self, order: Pending, levels: nat) -> Seq<Visit>
        decreases levels, 0nat,
    {
        if levels > 0 && self.expands(order) {
            seq![self.visit(order)] + self.branches(self.follow_ups(order), (levels - 1) as nat)
        } else {
            seq![self.visit(order)]
        }
    }

    /// The visits of the trees of several orders, each down to `levels` levels.
    pub open spec fn branches(&self, queue: Seq<Pending>, levels: nat) -> Seq<Visit>
        decreases levels, 1 + queue.len(),
    {
        if queue.len() == 0 {
            Seq::empty()
        } else {
            self.branch(queue[0], levels) + self.branches(queue.drop_first(), levels)
        }
    }

    /// Every visit that an order causes: its own, then those of its inputs'
    /// trees.
    pub open spec fn tree(&self, order: Pending) -> Seq<Visit> {
        self.branch(order, self.depth(order.item))
    }

    /// Every visit that the orders of a queue cause.
    pub open spec fn forest(&self, queue: Seq<Pending>) -> Seq<Visit>
        decreases queue.len(),
    {
        if queue.len() == 0 {
            Seq::empty()
        } else {
            self.tree(queue[0]) + self.forest(queue.drop_first())
        }
    }

    /// The visits under an order: the forest of its follow-up orders, or
    /// nothing where the item is not expanded.
    pub open spec fn beneath(&self, order: Pending) -> Seq<Visit> {
        if self.expands(order) {
            self.forest(self.follow_ups(order))
        } else {
            Seq::empty()
        }
    }

    /// How many visits a queue still causes.
    pub open spec fn backlog(&self, queue: Seq<Pending>) -> nat {
        self.forest(queue).len()
    }

    /// The visit paid to the root of a query: its demand is the rate asked for,
    /// and its power is charged once for each of its own machines.
    pub open spec fn root_visit(&self, root: ProdItem, rate: i64) -> Visit {
        Visit {
            item: root,
            demanded: rate as nat,
            charge: ceil_quot(rate as nat, self.recipe(root).rate()),
        }
    }

    /// Every visit of a query: the root's, then those of the orders that the
    /// query starts with.
    pub open spec fn chain(&self, root: ProdItem, rate: i64) -> Seq<Visit> {
        seq![self.root_visit(root, rate)] + self.forest(self.first_orders(root, rate))
    }

    /// Every follow-up order is for an item of lower depth.
    pub proof fn lemma_depth_falls(&self, order: Pending)
        requires
            self.wf(),
            !order.item.raw(),
            self.has_recipe(order.item),
        ensures
            forall|k: int|
                0 <= k < self.follow_ups(order).len() ==> self.depth(
                    (#[trigger] self.follow_ups(order)[k]).item,
                ) < self.depth(order.item),
    {
        let recipes = self.recipes();
        assert(acyclic(recipes));
        let rank = choose|rank: spec_fn(ProdItem) -> nat| ranking(recipes, rank);
        let c = choose|c: int| 0 <= c < recipes.len() && (#[trigger] recipes[c]).item() == order.item;
        assert forall|k: int| 0 <= k < self.follow_ups(order).len() implies self.depth(
            (#[trigger] self.follow_ups(order)[k]).item,
        ) < self.depth(order.item) by {
            assert(rank(recipes[c].input_items@[k].0) < rank(recipes[c].item()));
        }
    }

    /// Below the depth of its item, more levels add nothing to an order's
    /// branch.
    proof fn lemma_branch_settles(&self, order: Pending, deep: nat, deeper: nat)
        requires
            self.wf(),
            self.depth(order.item) <= deep,
            self.depth(order.item) <= deeper,
        ensures
            self.branch(order, deep) == self.branch(order, deeper),
        decreases deep, 0nat,
    {
        if self.expands(order) {
            self.lemma_depth_falls(order);
            let kids = self.follow_ups(order);
            if kids.len() == 0 {
                assert(self.branch(order, deep) =~= seq![self.visit(order)]);
                assert(self.branch(order, deeper) =~= seq![self.visit(order)]);
            } else {
                assert(self.depth(kids[0].item) < self.depth(order.item));
                self.lemma_branches_settle(kids, (deep - 1) as nat, (deeper - 1) as nat);
            }
        }
    }

    /// The same for several orders at once.
    proof fn lemma_branches_settle(&self, queue: Seq<Pending>, deep: nat, deeper: nat)
        requires
            self.wf(),
            forall|k: int| 0 <= k < queue.len() ==> self.depth((#[trigger] queue[k]).item) <= deep,
            forall|k: int| 0 <= k < queue.len() ==> self.depth((#[trigger] queue[k]).item) <= deeper,
        ensures
            self.branches(queue, deep) == self.branches(queue, deeper),
        decreases deep, 1 + queue.len(),
    {
        if queue.len() > 0 {
            self.lemma_branch_settles(queue[0], deep, deeper);
            let rest = queue.drop_first();
            assert forall|k: int| 0 <= k < rest.len() implies self.depth((#[trigger] rest[k]).item)
                <= deep && self.depth(rest[k].item) <= deeper by {
                assert(rest[k] == queue[k + 1]);
            }
            self.lemma_branches_settle(rest, deep, deeper);
        }
    }

    /// Taken deep enough, the branches of a queue are its forest.
    proof fn lemma_branches_are_forest(&self, queue: Seq<Pending>, levels: nat)
        requires
            self.wf(),
            forall|k: int| 0 <= k < queue.len() ==> self.depth((#[trigger] queue[k]).item) <= levels,
        ensures
            self.branches(queue, levels) == self.forest(queue),
        decreases queue.len(),
    {
        if queue.len() > 0 {
            self.lemma_branch_settles(queue[0], levels, self.depth(queue[0].item));
            let rest = queue.drop_first();
            assert forall|k: int| 0 <= k < rest.len() implies self.depth((#[trigger] rest[k]).item)
                <= levels by {
                assert(rest[k] == queue[k + 1]);
            }
            self.lemma_branches_are_forest(rest, levels);
        }
    }

    /// An order's tree is its own visit, then the visits under it.
    pub proof fn lemma_tree_unfolds(&self, order: Pending)
        requires
            self.wf(),
        ensures
            self.tree(order) == seq![self.visit(order)] + self.beneath(order),
    {
        let levels = self.depth(order.item);
        if self.expands(order) {
            self.lemma_depth_falls(order);
            let kids = self.follow_ups(order);
            if kids.len() == 0 {
                assert(self.forest(kids) =~= Seq::<Visit>::empty());
                assert(self.branches(kids, (levels - 1) as nat) =~= Seq::<Visit>::empty());
                assert(self.tree(order) =~= seq![self.visit(order)] + self.beneath(order));
            } else {
                assert(self.depth(kids[0].item) < levels);
                self.lemma_branches_are_forest(kids, (levels - 1) as nat);
            }
        } else {
            assert(self.tree(order) =~= seq![self.visit(order)] + self.beneath(order));
        }
    }

    /// The forest of two queues, one after the other, is their forests, one
    /// after the other.
    pub proof fn lemma_forest_joins(&self, first: Seq<Pending>, second: Seq<Pending>)
        ensures
            self.forest(first + second) == self.forest(first) + self.forest(second),
        decreases first.len(),
    {
        if first.len() == 0 {
            assert(first + second =~= second);
            assert(self.forest(first) + self.forest(second) =~= self.forest(second));
        } else {
            assert((first + second).drop_first() =~= first.drop_first() + second);
            self.lemma_forest_joins(first.drop_first(), second);
            assert(self.forest(first + second) =~= self.forest(first) + self.forest(second));
        }
    }

    /// Taking the first order from a queue and putting its follow-up orders at
    /// the end leaves the visits under it and those of the other orders.
    pub proof fn lemma_forest_step(&self, queue: Seq<Pending>)
        requires
            self.wf(),
            queue.len() > 0,
        ensures
            self.forest(queue) == seq![self.visit(queue[0])] + self.beneath(queue[0]) + self.forest(
                queue.drop_first(),
            ),
            self.expands(queue[0]) ==> self.forest(queue.drop_first() + self.follow_ups(queue[0]))
                == self.forest(queue.drop_first()) + self.beneath(queue[0]),
    {
        self.lemma_tree_unfolds(queue[0]);
        if self.expands(queue[0]) {
            self.lemma_forest_joins(queue.drop_first(), self.follow_ups(queue[0]));
        }
    }
}

} // verus!
