//! The test for circular recipes.
//!
//! The recipes are graded in rounds. A recipe gets the number of the round in
//! which all that it needs has been graded in earlier rounds; the recipe of a
//! raw item needs nothing. When a round grades nothing, the recipes that are
//! left need one another in a circle.
use vstd::prelude::*;
use crate::catalog::{
    acyclic, circular, feeds, lemma_no_way_back, lists_recipe, ranking, some_recipe_twice, walk,
};
use crate::item::ProdItem;
use crate::recipe::Recipe;

verus! {

/// How many recipes have no grade yet.
spec fn ungraded(levels: Seq<usize>) -> nat
    decreases levels.len(),
{
    if levels.len() == 0 {
        0
    } else {
        ungraded(levels.drop_last()) + if levels.last() == 0 {
            1nat
        } else {
            0nat
        }
    }
}

/// Every recipe for `item` has a grade, and one under `bound`.
spec fn below(recipes: Seq<Recipe>, levels: Seq<usize>, item: ProdItem, bound: int) -> bool {
    forall|j: int|
        0 <= j < recipes.len() && (#[trigger] recipes[j]).item() == item ==> 0 < levels[j] < bound
}

/// The recipe at `i` can take the grade `bound`: its item is raw, or all its
/// inputs are graded under `bound`.
spec fn ready(recipes: Seq<Recipe>, levels: Seq<usize>, i: int, bound: int) -> bool {
    recipes[i].item().raw() || forall|k: int|
        0 <= k < recipes[i].input_items@.len() ==> below(
            recipes,
            levels,
            (#[trigger] recipes[i].input_items@[k]).0,
            bound,
        )
}

/// Every grade given is one that the recipe could take.
spec fn graded(recipes: Seq<Recipe>, levels: Seq<usize>) -> bool {
    forall|i: int|
        0 <= i < recipes.len() && levels[i] > 0 ==> #[trigger] ready(
            recipes,
            levels,
            i,
            levels[i] as int,
        )
}

/// No recipe without a grade can take the grade `round`.
spec fn stuck(recipes: Seq<Recipe>, levels: Seq<usize>, round: int) -> bool {
    forall|i: int|
        0 <= i < recipes.len() && levels[i] == 0 ==> !#[trigger] ready(recipes, levels, i, round)
}

/// Before the first round no recipe has a grade.
proof fn lemma_ungraded_fresh(levels: Seq<usize>)
    requires
        forall|i: int| 0 <= i < levels.len() ==> levels[i] == 0,
    ensures
        ungraded(levels) == levels.len(),
    decreases levels.len(),
{
    if levels.len() > 0 {
        lemma_ungraded_fresh(levels.drop_last());
    }
}

/// When none is left without a grade, every recipe has one.
proof fn lemma_ungraded_none(levels: Seq<usize>)
    requires
        ungraded(levels) == 0,
    ensures
        forall|i: int| 0 <= i < levels.len() ==> levels[i] > 0,
    decreases levels.len(),
{
    if levels.len() > 0 {
        lemma_ungraded_none(levels.drop_last());
        assert forall|i: int| 0 <= i < levels.len() implies levels[i] > 0 by {
            if i < levels.len() - 1 {
                assert(levels.drop_last()[i] == levels[i]);
            }
        }
    }
}

/// A grade given to a recipe that had none leaves one recipe less without.
proof fn lemma_ungraded_one_less(levels: Seq<usize>, i: int, grade: usize)
    requires
        0 <= i < levels.len(),
        levels[i] == 0,
        grade > 0,
    ensures
        ungraded(levels) == ungraded(levels.update(i, grade)) + 1,
    decreases levels.len(),
{
    let after = levels.update(i, grade);
    if i == levels.len() - 1 {
        assert(after.drop_last() =~= levels.drop_last());
    } else {
        lemma_ungraded_one_less(levels.drop_last(), i, grade);
        assert(after.drop_last() =~= levels.drop_last().update(i, grade));
    }
}

/// A grade that a recipe can take keeps every grade given so far in order.
proof fn lemma_grade_one(recipes: Seq<Recipe>, levels: Seq<usize>, i: int, round: usize)
    requires
        levels.len() == recipes.len(),
        0 <= i < recipes.len(),
        levels[i] == 0,
        round > 0,
        ready(recipes, levels, i, round as int),
        graded(recipes, levels),
    ensures
        graded(recipes, levels.update(i, round)),
{
    let after = levels.update(i, round);
    assert forall|a: int| 0 <= a < recipes.len() && after[a] > 0 implies #[trigger] ready(
        recipes,
        after,
        a,
        after[a] as int,
    ) by {
        let bound = after[a] as int;
        assert(ready(recipes, levels, a, bound)) by {
            if a != i {
                assert(ready(recipes, levels, a, levels[a] as int));
            }
        }
        if !recipes[a].item().raw() {
            assert forall|k: int| 0 <= k < recipes[a].input_items@.len() implies below(
                recipes,
                after,
                (#[trigger] recipes[a].input_items@[k]).0,
                bound,
            ) by {
                let item = recipes[a].input_items@[k].0;
                assert(below(recipes, levels, item, bound));
                assert forall|j: int| 0 <= j < recipes.len() && (#[trigger] recipes[j]).item()
                    == item implies 0 < after[j] < bound by {
                    assert(0 < levels[j] < bound);
                }
            }
        }
    }
}

/// The rank that a full grading gives: an item's grade, or zero for an item
/// without a recipe.
spec fn grade_of(recipes: Seq<Recipe>, levels: Seq<usize>, item: ProdItem) -> nat {
    if lists_recipe(recipes, item) {
        levels[choose|i: int| 0 <= i < recipes.len() && (#[trigger] recipes[i]).item() == item] as nat
    } else {
        0
    }
}

/// Where no item has two recipes, an item's rank is the grade of its recipe.
proof fn lemma_grade_at(recipes: Seq<Recipe>, levels: Seq<usize>, i: int)
    requires
        !some_recipe_twice(recipes),
        0 <= i < recipes.len(),
    ensures
        grade_of(recipes, levels, recipes[i].item()) == levels[i] as nat,
{
    let item = recipes[i].item();
    let c = choose|c: int| 0 <= c < recipes.len() && (#[trigger] recipes[c]).item() == item;
    if c < i {
        assert(recipes[c].item() == recipes[i].item());
    } else if i < c {
        assert(recipes[i].item() == recipes[c].item());
    }
}

/// A full grading ranks the items: every recipe of an item that is not raw
/// stands above its inputs.
proof fn lemma_graded_is_acyclic(recipes: Seq<Recipe>, levels: Seq<usize>)
    requires
        levels.len() == recipes.len(),
        !some_recipe_twice(recipes),
        graded(recipes, levels),
        forall|i: int| 0 <= i < levels.len() ==> levels[i] > 0,
    ensures
        acyclic(recipes),
{
    let rank = |item: ProdItem| grade_of(recipes, levels, item);
    assert forall|i: int, k: int|
        0 <= i < recipes.len() && 0 <= k < recipes[i].input_items@.len()
            && !recipes[i].item().raw() implies rank((#[trigger] recipes[i].input_items@[k]).0) < rank(
        recipes[i].item(),
    ) by {
        let input = recipes[i].input_items@[k].0;
        lemma_grade_at(recipes, levels, i);
        assert(ready(recipes, levels, i, levels[i] as int));
        assert(below(recipes, levels, input, levels[i] as int));
        if lists_recipe(recipes, input) {
            let c = choose|c: int| 0 <= c < recipes.len() && (#[trigger] recipes[c]).item() == input;
            assert(0 < levels[c] < levels[i]);
        }
    }
    assert(ranking(recipes, rank));
}

/// The recipe at `j` has no grade, and the recipe at `i` needs its item.
spec fn waits_for(recipes: Seq<Recipe>, levels: Seq<usize>, i: int, j: int) -> bool {
    &&& 0 <= j < recipes.len()
    &&& levels[j] == 0
    &&& feeds(recipes, recipes[i].item(), recipes[j].item())
}

/// A recipe without a grade that the recipe at `i` waits for.
spec fn hop(recipes: Seq<Recipe>, levels: Seq<usize>, i: int) -> int {
    choose|j: int| waits_for(recipes, levels, i, j)
}

/// Where `steps` hops from the recipe at `start` lead.
spec fn hops(recipes: Seq<Recipe>, levels: Seq<usize>, start: int, steps: nat) -> int
    decreases steps,
{
    if steps == 0 {
        start
    } else {
        hop(recipes, levels, hops(recipes, levels, start, (steps - 1) as nat))
    }
}

/// When the grading is stuck, every hop leads from a recipe without a grade
/// to another that it needs.
proof fn lemma_hops(recipes: Seq<Recipe>, levels: Seq<usize>, round: int, start: int, steps: nat)
    requires
        levels.len() == recipes.len(),
        forall|i: int| 0 <= i < levels.len() ==> levels[i] < round,
        stuck(recipes, levels, round),
        0 <= start < recipes.len(),
        levels[start] == 0,
    ensures
        0 <= hops(recipes, levels, start, steps) < recipes.len(),
        levels[hops(recipes, levels, start, steps)] == 0,
        waits_for(
            recipes,
            levels,
            hops(recipes, levels, start, steps),
            hops(recipes, levels, start, steps + 1),
        ),
    decreases steps,
{
    if steps > 0 {
        lemma_hops(recipes, levels, round, start, (steps - 1) as nat);
    }
    let i = hops(recipes, levels, start, steps);
    assert(!ready(recipes, levels, i, round));
    let k = choose|k: int|
        0 <= k < recipes[i].input_items@.len() && !below(
            recipes,
            levels,
            (#[trigger] recipes[i].input_items@[k]).0,
            round,
        );
    let input = recipes[i].input_items@[k].0;
    let j = choose|j: int|
        0 <= j < recipes.len() && (#[trigger] recipes[j]).item() == input && !(0 < levels[j] < round);
    assert(waits_for(recipes, levels, i, j));
}

/// More numbers than the range has members hold one of them twice.
proof fn lemma_repeats(numbers: Seq<int>, range: int)
    requires
        forall|i: int| 0 <= i < numbers.len() ==> 0 <= #[trigger] numbers[i] < range,
        numbers.len() > range >= 0,
    ensures
        exists|a: int, b: int| 0 <= a < b < numbers.len() && numbers[a] == numbers[b],
{
    if numbers.no_duplicates() {
        numbers.unique_seq_to_set();
        vstd::set_lib::lemma_int_range(0, range);
        assert(numbers.to_set().subset_of(vstd::set_lib::set_int_range(0, range))) by {
            assert forall|x: int| numbers.to_set().contains(x) implies vstd::set_lib::set_int_range(
                0,
                range,
            ).contains(x) by {
                let i = choose|i: int| 0 <= i < numbers.len() && numbers[i] == x;
                assert(0 <= numbers[i] < range);
            }
        }
        vstd::set_lib::lemma_len_subset(numbers.to_set(), vstd::set_lib::set_int_range(0, range));
        assert(false);
    } else {
        let (i, j) = choose|i: int, j: int|
            0 <= i < numbers.len() && 0 <= j < numbers.len() && i != j && numbers[i] == numbers[j];
        if i < j {
            assert(0 <= i < j < numbers.len() && numbers[i] == numbers[j]);
        } else {
            assert(0 <= j < i < numbers.len() && numbers[j] == numbers[i]);
        }
    }
}

/// When the grading is stuck with a recipe left, the recipes that are left
/// need one another in a circle.
proof fn lemma_stuck_is_circular(recipes: Seq<Recipe>, levels: Seq<usize>, round: int, start: int)
    requires
        levels.len() == recipes.len(),
        forall|i: int| 0 <= i < levels.len() ==> levels[i] < round,
        stuck(recipes, levels, round),
        0 <= start < recipes.len(),
        levels[start] == 0,
    ensures
        circular(recipes),
{
    let n = recipes.len() as int;
    let trail = Seq::new((n + 1) as nat, |t: int| hops(recipes, levels, start, t as nat));
    assert forall|t: int| 0 <= t < trail.len() implies 0 <= #[trigger] trail[t] < n by {
        lemma_hops(recipes, levels, round, start, t as nat);
    }
    lemma_repeats(trail, n);
    let (a, b) = choose|a: int, b: int| 0 <= a < b < trail.len() && trail[a] == trail[b];
    let path = Seq::new((b - a + 1) as nat, |t: int| recipes[trail[a + t]].item());
    assert forall|s: int| 0 <= s < path.len() - 1 implies feeds(
        recipes,
        #[trigger] path[s],
        path[s + 1],
    ) by {
        lemma_hops(recipes, levels, round, start, (a + s) as nat);
        assert(trail[a + s + 1] == hops(recipes, levels, start, (a + s) as nat + 1));
    }
    assert(walk(recipes, path));
    assert(path[0] == path.last());
}

/// Whether every recipe for `item` is graded under `bound`.
fn item_below(recipes: &Vec<Recipe>, levels: &Vec<usize>, item: ProdItem, bound: usize) -> (yes:
    bool)
    requires
        levels@.len() == recipes@.len(),
    ensures
        yes == below(recipes@, levels@, item, bound as int),
{
    let mut j: usize = 0;
    while j < recipes.len()
        invariant
            j <= recipes@.len(),
            levels@.len() == recipes@.len(),
            forall|a: int|
                0 <= a < j && (#[trigger] recipes@[a]).item() == item ==> 0 < levels@[a] < bound,
        decreases recipes@.len() - j,
    {
        if recipes[j].output_item.0 == item && !(0 < levels[j] && levels[j] < bound) {
            return false;
        }
        j += 1;
    }
    true
}

/// Whether the recipe at `i` can take the grade `bound`.
fn recipe_ready(recipes: &Vec<Recipe>, levels: &Vec<usize>, i: usize, bound: usize) -> (yes: bool)
    requires
        levels@.len() == recipes@.len(),
        i < recipes@.len(),
    ensures
        yes == ready(recipes@, levels@, i as int, bound as int),
{
    if recipes[i].output_item.0.is_raw_resource() {
        return true;
    }
    let inputs = &recipes[i].input_items;
    let mut k: usize = 0;
    while k < inputs.len()
        invariant
            k <= inputs@.len(),
            i < recipes@.len(),
            !recipes@[i as int].item().raw(),
            inputs@ == recipes@[i as int].input_items@,
            levels@.len() == recipes@.len(),
            forall|a: int|
                0 <= a < k ==> below(recipes@, levels@, (#[trigger] inputs@[a]).0, bound as int),
        decreases inputs@.len() - k,
    {
        if !item_below(recipes, levels, inputs[k].0, bound) {
            assert(recipes@[i as int].input_items@[k as int] == inputs@[k as int]);
            return false;
        }
        k += 1;
    }
    true
}

/// Whether no item that is not raw needs itself, directly or through others.
pub(crate) fn is_acyclic(recipes: &Vec<Recipe>) -> (yes: bool)
    requires
        !some_recipe_twice(recipes@),
    ensures
        yes == acyclic(recipes@),
        yes == !circular(recipes@),
{
    let n: usize = recipes.len();
    let mut levels: Vec<usize> = Vec::new();
    while levels.len() < n
        invariant
            levels@.len() <= n,
            forall|i: int| 0 <= i < levels@.len() ==> levels@[i] == 0,
        decreases n - levels@.len(),
    {
        levels.push(0);
    }
    proof {
        lemma_ungraded_fresh(levels@);
    }
    let mut left: usize = n;
    let mut round: usize = 0;
    while left > 0
        invariant
            n == recipes@.len(),
            levels@.len() == n,
            left == ungraded(levels@),
            round + left <= n,
            graded(recipes@, levels@),
            forall|i: int| 0 <= i < n ==> levels@[i] <= round,
            !some_recipe_twice(recipes@),
        decreases left,
    {
        round += 1;
        let ghost before = levels@;
        let ghost left_before = left;
        let mut progress = false;
        let mut i: usize = 0;
        while i < n
            invariant
                i <= n,
                n == recipes@.len(),
                levels@.len() == n,
                left == ungraded(levels@),
                round > 0,
                round + left <= n + 1,
                progress ==> round + left <= n,
                left <= left_before,
                progress ==> left < left_before,
                !progress ==> levels@ == before,
                !progress ==> forall|a: int|
                    0 <= a < i && before[a] == 0 ==> !#[trigger] ready(
                        recipes@,
                        before,
                        a,
                        round as int,
                    ),
                graded(recipes@, levels@),
                forall|a: int| 0 <= a < n ==> levels@[a] <= round,
                forall|a: int| 0 <= a < n ==> before[a] < round,
                before.len() == n,
            decreases n - i,
        {
            if levels[i] == 0 && recipe_ready(recipes, &levels, i, round) {
                proof {
                    lemma_grade_one(recipes@, levels@, i as int, round);
                    lemma_ungraded_one_less(levels@, i as int, round);
                }
                levels[i] = round;
                left -= 1;
                progress = true;
            }
            i += 1;
        }
        if !progress {
            proof {
                assert(stuck(recipes@, levels@, round as int));
                lemma_ungraded_none_left(levels@);
                let i = choose|i: int| 0 <= i < levels@.len() && levels@[i] == 0;
                lemma_stuck_is_circular(recipes@, levels@, round as int, i);
                if acyclic(recipes@) {
                    lemma_no_way_back(recipes@);
                }
            }
            return false;
        }
    }
    proof {
        lemma_ungraded_none(levels@);
        lemma_graded_is_acyclic(recipes@, levels@);
        lemma_no_way_back(recipes@);
    }
    true
}

/// While the count is not zero, some recipe is without a grade.
proof fn lemma_ungraded_none_left(levels: Seq<usize>)
    requires
        ungraded(levels) > 0,
    ensures
        exists|i: int| 0 <= i < levels.len() && levels[i] == 0,
    decreases levels.len(),
{
    if levels.len() > 0 {
        if levels.last() == 0 {
            assert(levels[levels.len() - 1] == 0);
        } else {
            lemma_ungraded_none_left(levels.drop_last());
            let i = choose|i: int| 0 <= i < levels.drop_last().len() && levels.drop_last()[i] == 0;
            assert(levels[i] == 0);
        }
    }
}

} // verus!
