//! What an expansion hands back: one requirement for each item met, and the
//! power that all the machines draw.
use vstd::prelude::*;
use crate::item::{MachineName, ProdItem};

verus! {

/// What the whole chain asks of one item.
#[derive(Clone, Copy, Debug, PartialEq, Eq, Structural)]
pub struct ResourceRequirement {
    pub item: ProdItem,
    /// The machine type that makes the item.
    pub machine: MachineName,
    /// How many machines are needed, every branch rounded up by itself.
    pub machines: u64,
    /// How much of the item all the branches together demand per minute.
    pub rate: u64,
}

/// The mathematical content of an [`Expansion`].
pub ghost struct Outcome {
    /// The requirement of each item met, keyed by the item.
    pub needs: Map<ProdItem, ResourceRequirement>,
    /// The power drawn by all the machines.
    pub power: u64,
}

/// The outcome in which nothing has been gathered.
pub open spec fn nothing() -> Outcome {
    Outcome { needs: Map::empty(), power: 0 }
}

/// The requirements that `list` holds, keyed by item.
pub open spec fn needs_of(list: Seq<ResourceRequirement>) -> Map<ProdItem, ResourceRequirement> {
    Map::new(
        |item: ProdItem| exists|i: int| 0 <= i < list.len() && (#[trigger] list[i]).item == item,
        |item: ProdItem| list[choose|i: int| 0 <= i < list.len() && (#[trigger] list[i]).item == item],
    )
}

/// No item has two entries in `list`.
pub open spec fn one_entry_each(list: Seq<ResourceRequirement>) -> bool {
    forall|i: int, j: int|
        0 <= i < j < list.len() ==> (#[trigger] list[i]).item != (#[trigger] list[j]).item
}

/// The entry at a position is the one that the map holds for its item.
pub proof fn lemma_needs_at(list: Seq<ResourceRequirement>, i: int)
    requires
        one_entry_each(list),
        0 <= i < list.len(),
    ensures
        needs_of(list).dom().contains(list[i].item),
        needs_of(list)[list[i].item] == list[i],
{
    let item = list[i].item;
    let k = choose|k: int| 0 <= k < list.len() && (#[trigger] list[k]).item == item;
    assert(k == i) by {
        if k < i {
            assert(list[k].item != list[i].item);
        } else if i < k {
            assert(list[i].item != list[k].item);
        }
    }
}

/// A new item's entry, put at the end, is one more key of the map.
pub proof fn lemma_needs_push(list: Seq<ResourceRequirement>, entry: ResourceRequirement)
    requires
        one_entry_each(list),
        !needs_of(list).dom().contains(entry.item),
    ensures
        one_entry_each(list.push(entry)),
        needs_of(list.push(entry)) == needs_of(list).insert(entry.item, entry),
{
    let longer = list.push(entry);
    assert forall|i: int, j: int| 0 <= i < j < longer.len() implies (#[trigger] longer[i]).item != (
    #[trigger] longer[j]).item by {
        if j == list.len() {
            assert(longer[i] == list[i]);
            assert(list[i].item != entry.item);
        } else {
            assert(longer[i] == list[i] && longer[j] == list[j]);
        }
    }
    let after = needs_of(list).insert(entry.item, entry);
    assert forall|item: ProdItem| needs_of(longer).dom().contains(item) == after.dom().contains(
        item,
    ) by {
        if needs_of(longer).dom().contains(item) {
            let k = choose|k: int| 0 <= k < longer.len() && (#[trigger] longer[k]).item == item;
            if k < list.len() {
                assert(list[k].item == item);
            }
        }
        if after.dom().contains(item) {
            if item == entry.item {
                assert(longer[list.len() as int].item == item);
            } else {
                let k = choose|k: int| 0 <= k < list.len() && (#[trigger] list[k]).item == item;
                assert(longer[k].item == item);
            }
        }
    }
    assert forall|item: ProdItem| needs_of(longer).dom().contains(item) implies needs_of(
        longer,
    )[item] == after[item] by {
        let k = choose|k: int| 0 <= k < longer.len() && (#[trigger] longer[k]).item == item;
        lemma_needs_at(longer, k);
        if k < list.len() {
            assert(longer[k] == list[k]);
            lemma_needs_at(list, k);
        }
    }
    assert(needs_of(longer) =~= after);
}

/// An entry replaced by another for the same item is the same key rewritten.
pub proof fn lemma_needs_update(list: Seq<ResourceRequirement>, i: int, entry: ResourceRequirement)
    requires
        one_entry_each(list),
        0 <= i < list.len(),
        list[i].item == entry.item,
    ensures
        one_entry_each(list.update(i, entry)),
        needs_of(list.update(i, entry)) == needs_of(list).insert(entry.item, entry),
{
    let changed = list.update(i, entry);
    assert forall|a: int, b: int| 0 <= a < b < changed.len() implies (#[trigger] changed[a]).item != (
    #[trigger] changed[b]).item by {
        assert(changed[a].item == list[a].item && changed[b].item == list[b].item);
    }
    let after = needs_of(list).insert(entry.item, entry);
    assert forall|item: ProdItem| needs_of(changed).dom().contains(item) == after.dom().contains(
        item,
    ) by {
        if needs_of(changed).dom().contains(item) {
            let k = choose|k: int| 0 <= k < changed.len() && (#[trigger] changed[k]).item == item;
            assert(list[k].item == item);
        }
        if after.dom().contains(item) {
            if item == entry.item {
                assert(changed[i].item == item);
            } else {
                let k = choose|k: int| 0 <= k < list.len() && (#[trigger] list[k]).item == item;
                assert(changed[k].item == item);
            }
        }
    }
    assert forall|item: ProdItem| needs_of(changed).dom().contains(item) implies needs_of(
        changed,
    )[item] == after[item] by {
        let k = choose|k: int| 0 <= k < changed.len() && (#[trigger] changed[k]).item == item;
        lemma_needs_at(changed, k);
        if k != i {
            assert(changed[k] == list[k]);
            lemma_needs_at(list, k);
        }
    }
    assert(needs_of(changed) =~= after);
}

/// The result of one query: a requirement for every item of the chain, and the
/// total power.
#[derive(Debug)]
pub struct Expansion {
    requirements: Vec<ResourceRequirement>,
    power: u64,
}

impl View for Expansion {
    type V = Outcome;

    closed spec fn view(&self) -> Outcome {
        Outcome { needs: needs_of(self.requirements@), power: self.power }
    }
}

impl Expansion {
    /// No item has two entries.
    #[verifier::type_invariant]
    pub closed spec fn wf(&self) -> bool {
        one_entry_each(self.requirements@)
    }

    /// An expansion that has met no item yet.
    pub fn new() -> (fresh: Self)
        ensures
            fresh@ == nothing(),
    {
        let fresh = Expansion { requirements: Vec::new(), power: 0 };
        assert(fresh@.needs =~= nothing().needs);
        fresh
    }

    /// The position of an item's entry.
    fn position(&self, item: ProdItem) -> (at: Option<usize>)
        ensures
            match at {
                Some(i) => i < self.requirements@.len() && self.requirements@[i as int].item == item
                    && self@.needs.dom().contains(item) && self@.needs[item]
                    == self.requirements@[i as int],
                None => !self@.needs.dom().contains(item),
            },
    {
        proof {
            use_type_invariant(self);
        }
        let mut i: usize = 0;
        while i < self.requirements.len()
            invariant
                i <= self.requirements@.len(),
                self.wf(),
                forall|k: int| 0 <= k < i ==> (#[trigger] self.requirements@[k]).item != item,
            decreases self.requirements@.len() - i,
        {
            if self.requirements[i].item == item {
                proof {
                    lemma_needs_at(self.requirements@, i as int);
                }
                return Some(i);
            }
            i += 1;
        }
        None
    }

    /// The requirement of an item, if the chain met it.
    pub fn requirement(&self, item: ProdItem) -> (found: Option<ResourceRequirement>)
        ensures
            found == (if self@.needs.dom().contains(item) {
                Some(self@.needs[item])
            } else {
                None
            }),
    {
        match self.position(item) {
            Some(i) => Some(self.requirements[i]),
            None => None,
        }
    }

    /// The power that all the machines of the chain draw.
    pub fn power_consumption(&self) -> (power: u64)
        ensures
            power == self@.power,
    {
        self.power
    }

    /// The requirements as a list: one entry for each item met, and the map
    /// that they make.
    pub fn requirements(&self) -> (list: &Vec<ResourceRequirement>)
        ensures
            one_entry_each(list@),
            needs_of(list@) == self@.needs,
    {
        proof {
            use_type_invariant(self);
        }
        &self.requirements
    }

    /// The same requirements with another power.
    pub fn with_power(self, power: u64) -> (next: Self)
        ensures
            next@.needs == self@.needs,
            next@.power == power,
    {
        proof {
            use_type_invariant(&self);
        }
        Expansion { requirements: self.requirements, power }
    }

    /// The same with a requirement filed under its item, in place of what was
    /// there.
    pub fn with_requirement(self, entry: ResourceRequirement) -> (next: Self)
        ensures
            next@.needs == self@.needs.insert(entry.item, entry),
            next@.power == self@.power,
    {
        proof {
            use_type_invariant(&self);
        }
        let at = self.position(entry.item);
        let power = self.power;
        let mut requirements = self.requirements;
        match at {
            Some(i) => {
                proof {
                    lemma_needs_update(requirements@, i as int, entry);
                }
                requirements[i] = entry;
            },
            None => {
                proof {
                    lemma_needs_push(requirements@, entry);
                }
                requirements.push(entry);
            },
        }
        Expansion { requirements, power }
    }
}

} // verus!
