//! What holds of every expansion.
use vstd::prelude::*;
use crate::calculator::ProductionCalculator;
use crate::chain::{ceil_quot, Pending, Visit};
use crate::expand::{lemma_ceil_quot, merged, ExpandError};
use crate::item::ProdItem;
use crate::report::{nothing, Outcome, ResourceRequirement};
use crate::tally::{gathered, Measure};

verus! {

impl ProductionCalculator {
    /// An order that is served adds to every measure what its visit is worth,
    /// and orders the inputs of its item exactly where the item is expanded.
    pub proof fn lemma_served_adds(&self, order: Pending, so_far: Outcome, what: Measure)
        requires
            self.wf(),
            self.served(order, so_far) is Ok,
        ensures
            ({
                let (next, more) = self.served(order, so_far)->Ok_0;
                &&& more == if self.expands(order) {
                    self.follow_ups(order)
                } else {
                    Seq::<Pending>::empty()
                }
                &&& what is Visits ==> (gathered(next, what) > 0 <==> gathered(so_far, what) > 0
                    || self.worth(what, self.visit(order)) > 0)
                &&& !(what is Visits) ==> gathered(next, what) == gathered(so_far, what) + self.worth(
                    what,
                    self.visit(order),
                )
                &&& self.proper(so_far) ==> self.proper(next)
            }),
    {
        let (next, more) = self.served(order, so_far)->Ok_0;
        let item = order.item;
        let demanded = (order.multiplier * order.per_cycle) as nat;
        let count = ceil_quot(demanded, self.recipe(item).rate());
        assert(merged(so_far.needs, item, self.maker(item), count, demanded) is Ok);
        if self.proper(so_far) {
            assert forall|other: ProdItem| #[trigger]
                next.needs.dom().contains(other) implies {
                &&& next.needs[other].item == other
                &&& next.needs[other].machine == self.maker(other)
                &&& self.has_recipe(other)
                &&& self.has_maker(other)
                &&& self.has_power(self.maker(other))
            } by {
                if other != item {
                    assert(so_far.needs.dom().contains(other));
                }
            }
        }
    }

    /// While orders are left, a queue that is served to its end without a
    /// fault takes a step: the first order is served, and the steps at hand
    /// are enough for the rest.
    pub proof fn lemma_drained_step(&self, queue: Seq<Pending>, so_far: Outcome, steps: nat)
        requires
            self.wf(),
            queue.len() > 0,
            steps >= self.backlog(queue),
        ensures
            steps > 0,
            self.forest(queue) == seq![self.visit(queue[0])] + self.beneath(queue[0]) + self.forest(
                queue.drop_first(),
            ),
            match self.served(queue[0], so_far) {
                Err(fault) => self.drained(queue, so_far, steps) == Err::<Outcome, ExpandError>(fault),
                Ok((next, more)) => {
                    &&& self.drained(queue, so_far, steps) == self.drained(
                        queue.drop_first() + more,
                        next,
                        (steps - 1) as nat,
                    )
                    &&& steps - 1 >= self.backlog(queue.drop_first() + more)
                    &&& self.forest(queue.drop_first() + more) == self.forest(queue.drop_first())
                        + self.beneath(queue[0])
                },
            },
    {
        self.lemma_forest_step(queue);
        if self.served(queue[0], so_far) is Ok {
            self.lemma_served_adds(queue[0], so_far, Measure::Power);
            if !self.expands(queue[0]) {
                assert(queue.drop_first() + Seq::<Pending>::empty() =~= queue.drop_first());
                assert(self.forest(queue.drop_first()) + Seq::<Visit>::empty() =~= self.forest(
                    queue.drop_first(),
                ));
            }
        }
    }

    /// A queue served to its end adds to what was gathered the sum of every
    /// measure over the visits that its orders cause, whatever the order in
    /// which they are served.
    pub proof fn lemma_drained_gathers(
        &self,
        queue: Seq<Pending>,
        so_far: Outcome,
        steps: nat,
        what: Measure,
    )
        requires
            self.wf(),
            steps >= self.backlog(queue),
            self.drained(queue, so_far, steps) is Ok,
        ensures
            ({
                let out = self.drained(queue, so_far, steps)->Ok_0;
                let visits = self.forest(queue);
                &&& what is Visits ==> (gathered(out, what) > 0 <==> gathered(so_far, what) > 0
                    || self.total(what, visits) > 0)
                &&& !(what is Visits) ==> gathered(out, what) == gathered(so_far, what) + self.total(
                    what,
                    visits,
                )
                &&& self.proper(so_far) ==> self.proper(out)
            }),
        decreases steps,
    {
        if queue.len() > 0 {
            self.lemma_drained_step(queue, so_far, steps);
            let (next, more) = self.served(queue[0], so_far)->Ok_0;
            let rest = queue.drop_first();
            self.lemma_served_adds(queue[0], so_far, what);
            self.lemma_drained_gathers(rest + more, next, (steps - 1) as nat, what);
            self.lemma_total_step(what, queue);
        }
    }

    /// With steps enough for its backlog, a queue is served to its end: more
    /// steps change nothing.
    pub proof fn lemma_steps_suffice(&self, queue: Seq<Pending>, so_far: Outcome, steps: nat)
        requires
            self.wf(),
            steps >= self.backlog(queue),
        ensures
            self.drained(queue, so_far, steps) == self.drained(queue, so_far, self.backlog(queue)),
        decreases steps,
    {
        if queue.len() > 0 {
            self.lemma_drained_step(queue, so_far, steps);
            self.lemma_drained_step(queue, so_far, self.backlog(queue));
            if self.served(queue[0], so_far) is Ok {
                let (next, more) = self.served(queue[0], so_far)->Ok_0;
                let rest = queue.drop_first() + more;
                self.lemma_steps_suffice(rest, next, (steps - 1) as nat);
                self.lemma_steps_suffice(rest, next, (self.backlog(queue) - 1) as nat);
            }
        }
    }

    /// A query that succeeds has gathered, of every measure, its sum over the
    /// visits of the chain; every entry is filed under its item and names the
    /// item's maker, and every item met is known to the catalogs in full.
    pub proof fn lemma_expansion_gathers(&self, root: ProdItem, rate: i64, what: Measure)
        requires
            self.wf(),
            self.expansion(root, rate) is Ok,
        ensures
            ({
                let out = self.expansion(root, rate)->Ok_0;
                let visits = self.chain(root, rate);
                &&& what is Visits ==> (gathered(out, what) > 0 <==> self.total(what, visits) > 0)
                &&& !(what is Visits) ==> gathered(out, what) == self.total(what, visits)
                &&& self.proper(out)
            }),
    {
        let recipe = self.recipe(root);
        let count = ceil_quot(rate as nat, recipe.rate());
        let queue = self.first_orders(root, rate);
        let start = Outcome {
            needs: Map::<ProdItem, ResourceRequirement>::empty().insert(
                root,
                ResourceRequirement {
                    item: root,
                    machine: self.maker(root),
                    machines: count as u64,
                    rate: rate as u64,
                },
            ),
            power: (count * self.power(self.maker(root))) as u64,
        };
        let own = self.root_visit(root, rate);
        self.lemma_recipe_rate(root);
        lemma_ceil_quot(rate as nat, recipe.rate());
        assert(self.proper(start));
        assert(gathered(start, what) == self.worth(what, own));
        self.lemma_drained_gathers(queue, start, self.backlog(queue), what);
        self.lemma_total_one(what, own);
        self.lemma_total_joins(what, seq![own], self.forest(queue));
    }

    /// The result of a query that succeeds, said without the queue: each item
    /// visited has one entry, with the machine type that makes it, the sum of
    /// the machine counts of its visits, each rounded up by itself, and the
    /// sum of their demands; the power is the sum of the charges of all
    /// visits. An item reached by two branches is counted for both.
    pub proof fn lemma_expansion_sums(&self, root: ProdItem, rate: i64)
        requires
            self.wf(),
            self.expansion(root, rate) is Ok,
        ensures
            self.expansion(root, rate)->Ok_0 == self.summed(self.chain(root, rate)),
            self.total(Measure::Power, self.chain(root, rate)) <= u64::MAX,
            forall|item: ProdItem|
                #![trigger self.total(Measure::Machines(item), self.chain(root, rate))]
                #![trigger self.total(Measure::Rate(item), self.chain(root, rate))]
                self.total(Measure::Machines(item), self.chain(root, rate)) <= u64::MAX
                    && self.total(Measure::Rate(item), self.chain(root, rate)) <= u64::MAX,
    {
        let out = self.expansion(root, rate)->Ok_0;
        let visits = self.chain(root, rate);
        let sums = self.summed(visits);
        self.lemma_expansion_gathers(root, rate, Measure::Power);
        assert forall|item: ProdItem|
            #![trigger self.total(Measure::Machines(item), visits)]
            #![trigger self.total(Measure::Rate(item), visits)]
            #![trigger out.needs.dom().contains(item)]
            {
                &&& self.total(Measure::Machines(item), visits) <= u64::MAX
                &&& self.total(Measure::Rate(item), visits) <= u64::MAX
                &&& out.needs.dom().contains(item) == sums.needs.dom().contains(item)
                &&& out.needs.dom().contains(item) ==> out.needs[item] == sums.needs[item]
            } by {
            self.lemma_expansion_gathers(root, rate, Measure::Machines(item));
            self.lemma_expansion_gathers(root, rate, Measure::Rate(item));
            self.lemma_expansion_gathers(root, rate, Measure::Visits(item));
        }
        assert(out.needs =~= sums.needs);
    }

    /// Rounding up each part by itself gives at least the rounded whole, and
    /// at most one more.
    pub proof fn lemma_ceil_quot_adds(one: nat, other: nat, per_machine: nat)
        requires
            per_machine > 0,
        ensures
            ceil_quot(one + other, per_machine) <= ceil_quot(one, per_machine) + ceil_quot(
                other,
                per_machine,
            ) <= ceil_quot(one + other, per_machine) + 1,
    {
        let a = ceil_quot(one, per_machine);
        let b = ceil_quot(other, per_machine);
        let c = ceil_quot(one + other, per_machine);
        lemma_ceil_quot(one, per_machine);
        lemma_ceil_quot(other, per_machine);
        lemma_ceil_quot(one + other, per_machine);
        assert(c <= a + b) by (nonlinear_arith)
            requires
                per_machine > 0,
                a * per_machine >= one,
                b * per_machine >= other,
                c > 0 ==> (c - 1) * per_machine < one + other,
                a >= 0,
                b >= 0,
                c >= 0,
        ;
        assert(a + b <= c + 1) by (nonlinear_arith)
            requires
                per_machine > 0,
                c * per_machine >= one + other,
                a > 0 ==> (a - 1) * per_machine < one,
                b > 0 ==> (b - 1) * per_machine < other,
                a >= 0,
                b >= 0,
                c >= 0,
                one >= 0,
                other >= 0,
        ;
    }

    /// The machines summed over visits, each rounded up by itself, are at
    /// least the summed demand rounded up once, and exceed it by less than
    /// the number of visits.
    pub proof fn lemma_rounding_bounds(&self, item: ProdItem, visits: Seq<Visit>)
        requires
            self.recipe(item).rate() > 0,
        ensures
            ({
                let per_machine = self.recipe(item).rate();
                let machines = self.total(Measure::Machines(item), visits);
                let demand = self.total(Measure::Rate(item), visits);
                let times = self.total(Measure::Visits(item), visits);
                &&& ceil_quot(demand, per_machine) <= machines
                &&& times == 0 ==> machines == 0 && demand == 0
                &&& times > 0 ==> machines <= ceil_quot(demand, per_machine) + times - 1
            }),
        decreases visits.len(),
    {
        let per_machine = self.recipe(item).rate();
        if visits.len() > 0 {
            let rest = visits.drop_first();
            self.lemma_rounding_bounds(item, rest);
            if visits[0].item == item {
                Self::lemma_ceil_quot_adds(
                    visits[0].demanded,
                    self.total(Measure::Rate(item), rest),
                    per_machine,
                );
            }
        }
    }

    /// In the result of a query, an item's machine count is its demanded rate
    /// over its recipe's output, rounded up, where one branch reaches the
    /// item; where several do, it is at least that, and more by less than the
    /// number of branches.
    pub proof fn lemma_machine_count(&self, root: ProdItem, rate: i64, item: ProdItem)
        requires
            self.wf(),
            self.expansion(root, rate) is Ok,
            self.expansion(root, rate)->Ok_0.needs.dom().contains(item),
        ensures
            ({
                let need = self.expansion(root, rate)->Ok_0.needs[item];
                let exact = ceil_quot(need.rate as nat, self.recipe(item).rate());
                let times = self.total(Measure::Visits(item), self.chain(root, rate));
                &&& self.has_recipe(item)
                &&& times >= 1
                &&& exact <= need.machines <= exact + times - 1
                &&& times == 1 ==> need.machines == exact
            }),
    {
        self.lemma_expansion_gathers(root, rate, Measure::Machines(item));
        self.lemma_expansion_gathers(root, rate, Measure::Rate(item));
        self.lemma_expansion_gathers(root, rate, Measure::Visits(item));
        self.lemma_recipe_rate(item);
        self.lemma_rounding_bounds(item, self.chain(root, rate));
    }

    /// An order for a raw item ends its branch: whatever its recipe lists, no
    /// order for its inputs is made, and its tree is its own visit alone.
    pub proof fn lemma_raw_ends_branch(&self, order: Pending, so_far: Outcome)
        requires
            order.item.raw(),
        ensures
            self.tree(order) == seq![self.visit(order)],
            self.beneath(order) == Seq::<Visit>::empty(),
            self.served(order, so_far) is Ok ==> self.served(order, so_far)->Ok_0.1
                == Seq::<Pending>::empty(),
    {
    }

    /// Power adds up over the orders of a queue: what two queues are charged
    /// together is what each is charged alone.
    pub proof fn lemma_power_adds(&self, first: Seq<Pending>, second: Seq<Pending>)
        ensures
            self.total(Measure::Power, self.forest(first + second)) == self.total(
                Measure::Power,
                self.forest(first),
            ) + self.total(Measure::Power, self.forest(second)),
    {
        self.lemma_forest_joins(first, second);
        self.lemma_total_joins(Measure::Power, self.forest(first), self.forest(second));
    }

    /// An order that stands twice in a queue is charged twice: the power of
    /// its whole tree is doubled.
    pub proof fn lemma_twice_the_branch(&self, order: Pending)
        ensures
            self.total(Measure::Power, self.forest(seq![order, order])) == 2 * self.total(
                Measure::Power,
                self.tree(order),
            ),
    {
        let one = seq![order];
        assert(one + one =~= seq![order, order]);
        assert(one.drop_first() =~= Seq::<Pending>::empty());
        assert(self.forest(one.drop_first()) =~= Seq::<Visit>::empty());
        assert(self.forest(one) =~= self.tree(order));
        self.lemma_power_adds(one, one);
    }

    /// The power that serving a queue adds is the sum of the charges over the
    /// visits of its orders: each visit is charged its multiplier times the
    /// power of one machine of its item's type.
    pub proof fn lemma_power_charged(&self, queue: Seq<Pending>, so_far: Outcome)
        requires
            self.wf(),
            self.drained(queue, so_far, self.backlog(queue)) is Ok,
        ensures
            self.drained(queue, so_far, self.backlog(queue))->Ok_0.power == so_far.power
                + self.total(Measure::Power, self.forest(queue)),
    {
        self.lemma_drained_gathers(queue, so_far, self.backlog(queue), Measure::Power);
    }

    /// How the sums split when the first order of a queue is served.
    pub proof fn lemma_total_step(&self, what: Measure, queue: Seq<Pending>)
        requires
            self.wf(),
            queue.len() > 0,
        ensures
            self.total(what, self.forest(queue)) == self.worth(what, self.visit(queue[0]))
                + self.total(what, self.beneath(queue[0])) + self.total(
                what,
                self.forest(queue.drop_first()),
            ),
            self.total(what, self.forest(queue.drop_first()) + self.beneath(queue[0]))
                == self.total(what, self.forest(queue.drop_first())) + self.total(
                what,
                self.beneath(queue[0]),
            ),
    {
        let rest = queue.drop_first();
        let own = seq![self.visit(queue[0])];
        self.lemma_forest_step(queue);
        self.lemma_total_one(what, self.visit(queue[0]));
        self.lemma_total_joins(what, own, self.beneath(queue[0]));
        self.lemma_total_joins(what, own + self.beneath(queue[0]), self.forest(rest));
        self.lemma_total_joins(what, self.forest(rest), self.beneath(queue[0]));
    }

    /// An item that is visited is counted.
    pub proof fn lemma_visited_is_counted(&self, visits: Seq<Visit>, i: int)
        requires
            0 <= i < visits.len(),
        ensures
            self.total(Measure::Visits(visits[i].item), visits) > 0,
        decreases visits.len(),
    {
        if i > 0 {
            self.lemma_visited_is_counted(visits.drop_first(), i - 1);
        }
    }

    /// An item that is counted is visited.
    pub proof fn lemma_counted_is_visited(&self, visits: Seq<Visit>, item: ProdItem) -> (i: int)
        requires
            self.total(Measure::Visits(item), visits) > 0,
        ensures
            0 <= i < visits.len(),
            visits[i].item == item,
        decreases visits.len(),
    {
        if visits[0].item == item {
            0
        } else {
            self.lemma_counted_is_visited(visits.drop_first(), item) + 1
        }
    }

    /// A queue is served to its end without a fault where the catalogs know
    /// every item that its orders visit and every sum is a number that a
    /// `u64` holds.
    pub proof fn lemma_drained_succeeds(&self, queue: Seq<Pending>, so_far: Outcome, steps: nat)
        requires
            self.wf(),
            steps >= self.backlog(queue),
            self.known(self.forest(queue)),
            self.fits(so_far, self.forest(queue)),
        ensures
            self.drained(queue, so_far, steps) is Ok,
        decreases steps,
    {
        if queue.len() > 0 {
            let visits = self.forest(queue);
            let rest = queue.drop_first();
            let own = self.visit(queue[0]);
            let item = queue[0].item;
            let under = self.beneath(queue[0]);
            self.lemma_drained_step(queue, so_far, steps);
            assert(visits[0] == own);
            assert(self.knows(item));
            self.lemma_recipe_rate(item);
            self.lemma_total_step(Measure::Power, queue);
            self.lemma_total_step(Measure::Machines(item), queue);
            self.lemma_total_step(Measure::Rate(item), queue);
            assert(gathered(so_far, Measure::Power) + self.total(Measure::Power, visits) <= u64::MAX);
            assert(gathered(so_far, Measure::Machines(item)) + self.total(
                Measure::Machines(item),
                visits,
            ) <= u64::MAX);
            assert(gathered(so_far, Measure::Rate(item)) + self.total(Measure::Rate(item), visits)
                <= u64::MAX);
            assert(self.served(queue[0], so_far) is Ok);
            let (next, more) = self.served(queue[0], so_far)->Ok_0;
            let left = self.forest(rest + more);
            assert forall|what: Measure| !(what is Visits) implies gathered(next, what)
                + #[trigger] self.total(what, left) <= u64::MAX by {
                self.lemma_served_adds(queue[0], so_far, what);
                self.lemma_total_step(what, queue);
                assert(gathered(so_far, what) + self.total(what, visits) <= u64::MAX);
            }
            assert forall|i: int| 0 <= i < left.len() implies self.knows((#[trigger] left[i]).item) by {
                if i < self.forest(rest).len() {
                    assert(left[i] == visits[1 + under.len() + i]);
                } else {
                    assert(left[i] == visits[1 + (i - self.forest(rest).len())]);
                }
            }
            self.lemma_drained_succeeds(rest + more, next, (steps - 1) as nat);
        }
    }

    /// When a query succeeds: exactly when the rate is more than zero, the
    /// catalogs know every item that the chain visits, and the sums over the
    /// chain are numbers that a `u64` holds.
    pub proof fn lemma_success_is_owed(&self, root: ProdItem, rate: i64)
        requires
            self.wf(),
        ensures
            self.expansion(root, rate) is Ok <==> rate > 0 && self.known(self.chain(root, rate))
                && self.fits(nothing(), self.chain(root, rate)),
    {
        let visits = self.chain(root, rate);
        if self.expansion(root, rate) is Ok {
            let out = self.expansion(root, rate)->Ok_0;
            assert forall|what: Measure| !(what is Visits) implies gathered(nothing(), what)
                + #[trigger] self.total(what, visits) <= u64::MAX by {
                self.lemma_expansion_gathers(root, rate, what);
            }
            assert forall|i: int| 0 <= i < visits.len() implies self.knows((#[trigger] visits[i]).item) by {
                self.lemma_visited_is_counted(visits, i);
                self.lemma_expansion_gathers(root, rate, Measure::Visits(visits[i].item));
                assert(out.needs.dom().contains(visits[i].item));
            }
        }
        if rate > 0 && self.known(visits) && self.fits(nothing(), visits) {
            let recipe = self.recipe(root);
            let count = ceil_quot(rate as nat, recipe.rate());
            let queue = self.first_orders(root, rate);
            let own = self.root_visit(root, rate);
            let start = Outcome {
                needs: Map::<ProdItem, ResourceRequirement>::empty().insert(
                    root,
                    ResourceRequirement {
                        item: root,
                        machine: self.maker(root),
                        machines: count as u64,
                        rate: rate as u64,
                    },
                ),
                power: (count * self.power(self.maker(root))) as u64,
            };
            assert(visits[0] == own);
            assert(self.knows(root));
            self.lemma_recipe_rate(root);
            lemma_ceil_quot(rate as nat, recipe.rate());
            assert forall|what: Measure|
                #![trigger self.total(what, self.forest(queue))]
                self.total(what, visits) == self.worth(what, own) + self.total(
                    what,
                    self.forest(queue),
                ) by {
                self.lemma_total_one(what, own);
                self.lemma_total_joins(what, seq![own], self.forest(queue));
            }
            assert(gathered(nothing(), Measure::Power) + self.total(Measure::Power, visits) <= u64::MAX);
            assert forall|what: Measure| !(what is Visits) implies gathered(start, what)
                + #[trigger] self.total(what, self.forest(queue)) <= u64::MAX by {
                assert(gathered(start, what) == self.worth(what, own));
                assert(gathered(nothing(), what) + self.total(what, visits) <= u64::MAX);
            }
            assert forall|i: int| 0 <= i < self.forest(queue).len() implies self.knows(
                (#[trigger] self.forest(queue)[i]).item,
            ) by {
                assert(self.forest(queue)[i] == visits[i + 1]);
            }
            self.lemma_drained_succeeds(queue, start, self.backlog(queue));
        }
    }

    /// A query for a raw item that succeeds gives the item's own requirement
    /// and nothing else: its machines are charged at their own power,
    /// whatever its recipe lists.
    pub proof fn lemma_raw_root_stands_alone(&self, root: ProdItem, rate: i64)
        requires
            self.wf(),
            root.raw(),
            self.expansion(root, rate) is Ok,
        ensures
            self.chain(root, rate) == seq![self.root_visit(root, rate)],
            ({
                let out = self.expansion(root, rate)->Ok_0;
                let count = ceil_quot(rate as nat, self.recipe(root).rate());
                &&& out.needs == Map::<ProdItem, ResourceRequirement>::empty().insert(
                    root,
                    ResourceRequirement {
                        item: root,
                        machine: self.maker(root),
                        machines: count as u64,
                        rate: rate as u64,
                    },
                )
                &&& out.power == count * self.power(self.maker(root))
            }),
    {
        assert(self.forest(self.first_orders(root, rate)) =~= Seq::<Visit>::empty());
        assert(self.chain(root, rate) =~= seq![self.root_visit(root, rate)]);
    }

    /// A fault met while a queue is served is a fault of a visit that the
    /// queue's orders cause.
    pub proof fn lemma_drained_fault(&self, queue: Seq<Pending>, so_far: Outcome, steps: nat)
        requires
            self.wf(),
            steps >= self.backlog(queue),
            self.drained(queue, so_far, steps) is Err,
        ensures
            self.explains(self.drained(queue, so_far, steps)->Err_0, so_far, self.forest(queue)),
        decreases steps,
    {
        let visits = self.forest(queue);
        let fault = self.drained(queue, so_far, steps)->Err_0;
        let rest = queue.drop_first();
        let own = self.visit(queue[0]);
        let item = queue[0].item;
        let under = self.beneath(queue[0]);
        self.lemma_drained_step(queue, so_far, steps);
        assert(visits[0] == own);
        self.lemma_total_step(Measure::Power, queue);
        self.lemma_total_step(Measure::Machines(item), queue);
        self.lemma_total_step(Measure::Rate(item), queue);
        match self.served(queue[0], so_far) {
            Err(_) => {
                if fault == ExpandError::Overflow {
                    if self.fits(so_far, visits) {
                        assert(gathered(so_far, Measure::Power) + self.total(Measure::Power, visits)
                            <= u64::MAX);
                        assert(gathered(so_far, Measure::Machines(item)) + self.total(
                            Measure::Machines(item),
                            visits,
                        ) <= u64::MAX);
                        assert(gathered(so_far, Measure::Rate(item)) + self.total(
                            Measure::Rate(item),
                            visits,
                        ) <= u64::MAX);
                        assert(false);
                    }
                }
            },
            Ok((next, more)) => {
                let left = self.forest(rest + more);
                self.lemma_drained_fault(rest + more, next, (steps - 1) as nat);
                assert forall|i: int| 0 <= i < left.len() implies exists|j: int|
                    0 <= j < visits.len() && #[trigger] visits[j] == #[trigger] left[i] by {
                    if i < self.forest(rest).len() {
                        assert(left[i] == visits[1 + under.len() + i]);
                    } else {
                        assert(left[i] == visits[1 + (i - self.forest(rest).len())]);
                    }
                }
                match fault {
                    ExpandError::InvalidQuantity => {},
                    ExpandError::UnknownItem(missing) => {
                        let i = choose|i: int| 0 <= i < left.len() && (#[trigger] left[i]).item == missing;
                        let j = choose|j: int| 0 <= j < visits.len() && #[trigger] visits[j] == left[i];
                        assert(visits[j].item == missing);
                    },
                    ExpandError::NoProducer(missing) => {
                        let i = choose|i: int| 0 <= i < left.len() && (#[trigger] left[i]).item == missing;
                        let j = choose|j: int| 0 <= j < visits.len() && #[trigger] visits[j] == left[i];
                        assert(visits[j].item == missing);
                    },
                    ExpandError::UnknownMachine(machine) => {
                        let i = choose|i: int|
                            0 <= i < left.len() && self.has_maker((#[trigger] left[i]).item)
                                && self.maker(left[i].item) == machine;
                        let j = choose|j: int| 0 <= j < visits.len() && #[trigger] visits[j] == left[i];
                        assert(self.has_maker(visits[j].item) && self.maker(visits[j].item) == machine);
                    },
                    ExpandError::Overflow => {
                        if self.fits(so_far, visits) {
                            assert forall|what: Measure| !(what is Visits) implies gathered(next, what)
                                + #[trigger] self.total(what, left) <= u64::MAX by {
                                self.lemma_served_adds(queue[0], so_far, what);
                                self.lemma_total_step(what, queue);
                                assert(gathered(so_far, what) + self.total(what, visits) <= u64::MAX);
                            }
                            assert(false);
                        }
                    },
                }
            },
        }
    }

    /// What the fault of a query says: the rate is zero or less, or the fault
    /// is one of a visit of the chain.
    pub proof fn lemma_fault_is_real(&self, root: ProdItem, rate: i64)
        requires
            self.wf(),
            self.expansion(root, rate) is Err,
        ensures
            self.expansion(root, rate)->Err_0 == ExpandError::InvalidQuantity <==> rate <= 0,
            rate > 0 ==> self.explains(
                self.expansion(root, rate)->Err_0,
                nothing(),
                self.chain(root, rate),
            ),
    {
        if rate > 0 {
            let visits = self.chain(root, rate);
            let fault = self.expansion(root, rate)->Err_0;
            let own = self.root_visit(root, rate);
            let queue = self.first_orders(root, rate);
            let count = ceil_quot(rate as nat, self.recipe(root).rate());
            assert(visits[0] == own);
            assert forall|what: Measure|
                #![trigger self.total(what, self.forest(queue))]
                self.total(what, visits) == self.worth(what, own) + self.total(
                    what,
                    self.forest(queue),
                ) by {
                self.lemma_total_one(what, own);
                self.lemma_total_joins(what, seq![own], self.forest(queue));
            }
            if self.knows(root) {
                self.lemma_recipe_rate(root);
                lemma_ceil_quot(rate as nat, self.recipe(root).rate());
                if count * self.power(self.maker(root)) > u64::MAX {
                    assert(self.total(Measure::Power, visits) >= self.worth(Measure::Power, own));
                    assert(!self.fits(nothing(), visits)) by {
                        if self.fits(nothing(), visits) {
                            assert(gathered(nothing(), Measure::Power) + self.total(
                                Measure::Power,
                                visits,
                            ) <= u64::MAX);
                        }
                    }
                } else {
                    let start = Outcome {
                        needs: Map::<ProdItem, ResourceRequirement>::empty().insert(
                            root,
                            ResourceRequirement {
                                item: root,
                                machine: self.maker(root),
                                machines: count as u64,
                                rate: rate as u64,
                            },
                        ),
                        power: (count * self.power(self.maker(root))) as u64,
                    };
                    self.lemma_drained_fault(queue, start, self.backlog(queue));
                    let left = self.forest(queue);
                    assert forall|i: int| 0 <= i < left.len() implies #[trigger] left[i] == visits[i
                        + 1] by {}
                    match fault {
                        ExpandError::InvalidQuantity => {},
                        ExpandError::UnknownItem(missing) => {
                            let i = choose|i: int|
                                0 <= i < left.len() && (#[trigger] left[i]).item == missing;
                            assert(visits[i + 1].item == missing);
                        },
                        ExpandError::NoProducer(missing) => {
                            let i = choose|i: int|
                                0 <= i < left.len() && (#[trigger] left[i]).item == missing;
                            assert(visits[i + 1].item == missing);
                        },
                        ExpandError::UnknownMachine(machine) => {
                            let i = choose|i: int|
                                0 <= i < left.len() && self.has_maker((#[trigger] left[i]).item)
                                    && self.maker(left[i].item) == machine;
                            assert(self.has_maker(visits[i + 1].item) && self.maker(
                                visits[i + 1].item,
                            ) == machine);
                        },
                        ExpandError::Overflow => {
                            if self.fits(nothing(), visits) {
                                assert forall|what: Measure| !(what is Visits) implies gathered(
                                    start,
                                    what,
                                ) + #[trigger] self.total(what, left) <= u64::MAX by {
                                    assert(gathered(start, what) == self.worth(what, own));
                                    assert(gathered(nothing(), what) + self.total(what, visits)
                                        <= u64::MAX);
                                }
                                assert(false);
                            }
                        },
                    }
                }
            }
        }
    }
}

} // verus!
