//! What the two catalogs say, and what makes them fit for use.
//!
//! The recipe catalog is a list of recipes, the machine directory a list of
//! machines with the power they draw and a list of claims: machine types, each
//! with the items it makes. A catalog is sound when its lookups have one answer
//! and no expansion can run in circles.
use vstd::prelude::*;
use crate::item::{MachineName, ProdItem};
use crate::recipe::{Machine, Recipe};

verus! {

/// Why a catalog is refused.
#[derive(Clone, Copy, Debug, PartialEq, Eq, Structural)]
pub enum CatalogError {
    /// A recipe makes nothing: no number of machines meets any demand.
    ZeroOutputRate,
    /// Two recipes make the same item.
    DuplicateRecipe,
    /// A machine type is listed twice in the power table.
    DuplicateMachine,
    /// Two machine types claim the same item.
    DuplicateProducer,
    /// An item that is not raw needs itself, directly or through others.
    DependencyCycle,
}

/// The catalog holds a recipe for `item`.
pub open spec fn lists_recipe(recipes: Seq<Recipe>, item: ProdItem) -> bool {
    exists|i: int| 0 <= i < recipes.len() && (#[trigger] recipes[i]).item() == item
}

/// The recipe for `item`, where the catalog holds one.
pub open spec fn recipe_for(recipes: Seq<Recipe>, item: ProdItem) -> Recipe {
    recipes[choose|i: int| 0 <= i < recipes.len() && (#[trigger] recipes[i]).item() == item]
}

/// The power table lists `name`.
pub open spec fn lists_machine(machines: Seq<Machine>, name: MachineName) -> bool {
    exists|i: int| 0 <= i < machines.len() && (#[trigger] machines[i]).name == name
}

/// The power that one machine of type `name` draws, where the table lists it.
pub open spec fn power_for(machines: Seq<Machine>, name: MachineName) -> u64 {
    machines[choose|i: int| 0 <= i < machines.len() && (#[trigger] machines[i]).name == name].power_consumption
}

/// Some claim says that `machine` makes `item`.
pub open spec fn claims(
    claimed: Seq<(MachineName, Vec<ProdItem>)>,
    machine: MachineName,
    item: ProdItem,
) -> bool {
    exists|k: int|
        0 <= k < claimed.len() && (#[trigger] claimed[k]).0 == machine && claimed[k].1@.contains(
            item,
        )
}

/// Some machine type makes `item`.
pub open spec fn has_producer(claimed: Seq<(MachineName, Vec<ProdItem>)>, item: ProdItem) -> bool {
    exists|machine: MachineName| claims(claimed, machine, item)
}

/// The machine type that makes `item`, where there is one.
pub open spec fn producer_for(
    claimed: Seq<(MachineName, Vec<ProdItem>)>,
    item: ProdItem,
) -> MachineName {
    choose|machine: MachineName| claims(claimed, machine, item)
}

/// Some recipe has an output rate of zero.
pub open spec fn some_zero_rate(recipes: Seq<Recipe>) -> bool {
    exists|i: int| 0 <= i < recipes.len() && (#[trigger] recipes[i]).output_item.1 == 0
}

/// Two recipes make the same item.
pub open spec fn some_recipe_twice(recipes: Seq<Recipe>) -> bool {
    exists|i: int, j: int|
        0 <= i < j < recipes.len() && (#[trigger] recipes[i]).item() == (#[trigger] recipes[j]).item()
}

/// Two entries of the power table have the same name.
pub open spec fn some_machine_twice(machines: Seq<Machine>) -> bool {
    exists|i: int, j: int|
        0 <= i < j < machines.len() && (#[trigger] machines[i]).name == (#[trigger] machines[j]).name
}

/// Two different machine types claim `item`.
pub open spec fn contested(claimed: Seq<(MachineName, Vec<ProdItem>)>, item: ProdItem) -> bool {
    exists|a: MachineName, b: MachineName|
        a != b && #[trigger] claims(claimed, a, item) && #[trigger] claims(claimed, b, item)
}

/// Some item is claimed by two different machine types.
pub open spec fn some_item_contested(claimed: Seq<(MachineName, Vec<ProdItem>)>) -> bool {
    exists|item: ProdItem| contested(claimed, item)
}

/// `rank` falls along every edge that an expansion follows: from an item that
/// is not raw to each input of its recipe.
pub open spec fn ranking(recipes: Seq<Recipe>, rank: spec_fn(ProdItem) -> nat) -> bool {
    forall|i: int, k: int|
        0 <= i < recipes.len() && 0 <= k < recipes[i].input_items@.len() && !recipes[i].item().raw()
            ==> rank((#[trigger] recipes[i].input_items@[k]).0) < rank(recipes[i].item())
}

/// No item that is not raw needs itself, directly or through others: the items
/// can be ranked so that every recipe of such an item stands above its inputs.
pub open spec fn acyclic(recipes: Seq<Recipe>) -> bool {
    exists|rank: spec_fn(ProdItem) -> nat| ranking(recipes, rank)
}

/// An expansion goes from `from` to `to`: `from` is not raw, and its recipe
/// lists `to` as an input.
pub open spec fn feeds(recipes: Seq<Recipe>, from: ProdItem, to: ProdItem) -> bool {
    exists|i: int, k: int|
        0 <= i < recipes.len() && 0 <= k < recipes[i].input_items@.len() && !recipes[i].item().raw()
            && recipes[i].item() == from && (#[trigger] recipes[i].input_items@[k]).0 == to
}

/// Every item of `path` leads to the next.
pub open spec fn walk(recipes: Seq<Recipe>, path: Seq<ProdItem>) -> bool {
    forall|s: int| 0 <= s < path.len() - 1 ==> feeds(recipes, #[trigger] path[s], path[s + 1])
}

/// Some item that is not raw needs itself, directly or through others: a walk
/// of one step or more comes back to where it began.
pub open spec fn circular(recipes: Seq<Recipe>) -> bool {
    exists|path: Seq<ProdItem>|
        path.len() >= 2 && path[0] == path.last() && #[trigger] walk(recipes, path)
}

/// Along a walk the rank falls.
pub proof fn lemma_rank_falls(
    recipes: Seq<Recipe>,
    rank: spec_fn(ProdItem) -> nat,
    path: Seq<ProdItem>,
    s: int,
)
    requires
        ranking(recipes, rank),
        walk(recipes, path),
        0 < s < path.len(),
    ensures
        rank(path[s]) < rank(path[0]),
    decreases s,
{
    assert(feeds(recipes, path[s - 1], path[s - 1 + 1]));
    let (i, k) = choose|i: int, k: int|
        0 <= i < recipes.len() && 0 <= k < recipes[i].input_items@.len() && !recipes[i].item().raw()
            && recipes[i].item() == path[s - 1] && (#[trigger] recipes[i].input_items@[k]).0
            == path[s];
    assert(rank(recipes[i].input_items@[k].0) < rank(recipes[i].item()));
    if s > 1 {
        lemma_rank_falls(recipes, rank, path, s - 1);
    }
}

/// Where the items can be ranked, no walk comes back to where it began.
pub proof fn lemma_no_way_back(recipes: Seq<Recipe>)
    requires
        acyclic(recipes),
    ensures
        !circular(recipes),
{
    if circular(recipes) {
        let path = choose|path: Seq<ProdItem>|
            path.len() >= 2 && path[0] == path.last() && #[trigger] walk(recipes, path);
        let rank = choose|rank: spec_fn(ProdItem) -> nat| ranking(recipes, rank);
        lemma_rank_falls(recipes, rank, path, path.len() - 1);
    }
}

/// The first reason, in a fixed order, for which the catalog is refused.
pub open spec fn catalog_fault(
    recipes: Seq<Recipe>,
    machines: Seq<Machine>,
    claimed: Seq<(MachineName, Vec<ProdItem>)>,
) -> Option<CatalogError> {
    if some_zero_rate(recipes) {
        Some(CatalogError::ZeroOutputRate)
    } else if some_recipe_twice(recipes) {
        Some(CatalogError::DuplicateRecipe)
    } else if some_machine_twice(machines) {
        Some(CatalogError::DuplicateMachine)
    } else if some_item_contested(claimed) {
        Some(CatalogError::DuplicateProducer)
    } else if !acyclic(recipes) {
        Some(CatalogError::DependencyCycle)
    } else {
        None
    }
}

/// Whether some recipe makes nothing.
pub fn has_zero_rate(recipes: &Vec<Recipe>) -> (found: bool)
    ensures
        found == some_zero_rate(recipes@),
{
    let mut i: usize = 0;
    while i < recipes.len()
        invariant
            i <= recipes@.len(),
            forall|k: int| 0 <= k < i ==> (#[trigger] recipes@[k]).output_item.1 != 0,
        decreases recipes@.len() - i,
    {
        if recipes[i].output_item.1 == 0 {
            return true;
        }
        i += 1;
    }
    false
}

/// Whether two recipes make the same item.
pub fn has_recipe_twice(recipes: &Vec<Recipe>) -> (found: bool)
    ensures
        found == some_recipe_twice(recipes@),
{
    let mut j: usize = 0;
    while j < recipes.len()
        invariant
            j <= recipes@.len(),
            forall|a: int, b: int|
                0 <= a < b < j ==> (#[trigger] recipes@[a]).item() != (#[trigger] recipes@[b]).item(),
        decreases recipes@.len() - j,
    {
        let mut i: usize = 0;
        while i < j
            invariant
                i <= j < recipes@.len(),
                forall|a: int| 0 <= a < i ==> (#[trigger] recipes@[a]).item() != recipes@[j as int].item(),
            decreases j - i,
        {
            if recipes[i].output_item.0 == recipes[j].output_item.0 {
                return true;
            }
            i += 1;
        }
        j += 1;
    }
    false
}

/// Whether the power table lists a machine type twice.
pub fn has_machine_twice(machines: &Vec<Machine>) -> (found: bool)
    ensures
        found == some_machine_twice(machines@),
{
    let mut j: usize = 0;
    while j < machines.len()
        invariant
            j <= machines@.len(),
            forall|a: int, b: int|
                0 <= a < b < j ==> (#[trigger] machines@[a]).name != (#[trigger] machines@[b]).name,
        decreases machines@.len() - j,
    {
        let mut i: usize = 0;
        while i < j
            invariant
                i <= j < machines@.len(),
                forall|a: int| 0 <= a < i ==> (#[trigger] machines@[a]).name != machines@[j as int].name,
            decreases j - i,
        {
            if machines[i].name == machines[j].name {
                return true;
            }
            i += 1;
        }
        j += 1;
    }
    false
}

/// Whether `items` holds `item`.
pub fn holds_item(items: &Vec<ProdItem>, item: ProdItem) -> (found: bool)
    ensures
        found == items@.contains(item),
{
    let mut i: usize = 0;
    while i < items.len()
        invariant
            i <= items@.len(),
            forall|k: int| 0 <= k < i ==> items@[k] != item,
        decreases items@.len() - i,
    {
        if items[i] == item {
            return true;
        }
        i += 1;
    }
    false
}

/// Whether a machine type other than `machine` claims `item`.
fn claimed_by_another(
    claimed: &Vec<(MachineName, Vec<ProdItem>)>,
    machine: MachineName,
    item: ProdItem,
) -> (found: bool)
    ensures
        found == exists|other: MachineName| other != machine && #[trigger] claims(claimed@, other, item),
{
    let mut k: usize = 0;
    while k < claimed.len()
        invariant
            k <= claimed@.len(),
            forall|a: int|
                0 <= a < k ==> (#[trigger] claimed@[a]).0 == machine || !claimed@[a].1@.contains(item),
        decreases claimed@.len() - k,
    {
        if claimed[k].0 != machine && holds_item(&claimed[k].1, item) {
            assert(claims(claimed@, claimed@[k as int].0, item));
            return true;
        }
        k += 1;
    }
    false
}

/// Whether two different machine types claim one item.
pub fn has_item_contested(claimed: &Vec<(MachineName, Vec<ProdItem>)>) -> (found: bool)
    ensures
        found == some_item_contested(claimed@),
{
    let mut k: usize = 0;
    while k < claimed.len()
        invariant
            k <= claimed@.len(),
            forall|a: int, p: int|
                0 <= a < k && 0 <= p < claimed@[a].1@.len() ==> !contested(
                    claimed@,
                    #[trigger] claimed@[a].1@[p],
                ),
        decreases claimed@.len() - k,
    {
        let mut p: usize = 0;
        while p < claimed[k].1.len()
            invariant
                k < claimed@.len(),
                p <= claimed@[k as int].1@.len(),
                forall|q: int| 0 <= q < p ==> !contested(claimed@, #[trigger] claimed@[k as int].1@[q]),
            decreases claimed@[k as int].1@.len() - p,
        {
            let item = claimed[k].1[p];
            if claimed_by_another(claimed, claimed[k].0, item) {
                assert(claims(claimed@, claimed@[k as int].0, item));
                assert(contested(claimed@, item));
                return true;
            }
            assert(!contested(claimed@, item)) by {
                if contested(claimed@, item) {
                    let (a, b) = choose|a: MachineName, b: MachineName|
                        a != b && #[trigger] claims(claimed@, a, item) && #[trigger] claims(
                            claimed@,
                            b,
                            item,
                        );
                    assert(a != claimed@[k as int].0 || b != claimed@[k as int].0);
                }
            }
            p += 1;
        }
        k += 1;
    }
    assert forall|item: ProdItem| !contested(claimed@, item) by {
        if contested(claimed@, item) {
            let (a, b) = choose|a: MachineName, b: MachineName|
                a != b && #[trigger] claims(claimed@, a, item) && #[trigger] claims(claimed@, b, item);
            let ka = choose|ka: int|
                0 <= ka < claimed@.len() && (#[trigger] claimed@[ka]).0 == a && claimed@[ka].1@.contains(
                    item,
                );
            let p = choose|p: int| 0 <= p < claimed@[ka].1@.len() && claimed@[ka].1@[p] == item;
            assert(!contested(claimed@, claimed@[ka].1@[p]));
        }
    }
    false
}

} // verus!
