use std::collections::VecDeque;

use prodcalc::calculator::ProductionCalculator;
use prodcalc::chain::Pending;
use prodcalc::expand::{machines_needed, ExpandError};
use prodcalc::item::{MachineName, ProdItem};
use prodcalc::recipe::{Machine, Recipe};
use prodcalc::report::{Expansion, ResourceRequirement};

fn stock_recipes() -> Vec<Recipe> {
    vec![
        Recipe::new((ProdItem::IronIngot, 30), vec![(ProdItem::IronOre, 30)]),
        Recipe::new((ProdItem::IronRod, 15), vec![(ProdItem::IronIngot, 15)]),
        Recipe::new((ProdItem::IronOre, 60), vec![(ProdItem::IronOre, 0)]),
        Recipe::new((ProdItem::Screw, 40), vec![(ProdItem::IronRod, 10)]),
        Recipe::new((ProdItem::IronPlate, 20), vec![(ProdItem::IronIngot, 30)]),
        Recipe::new(
            (ProdItem::ReinforcedIronPlate, 5),
            vec![(ProdItem::IronPlate, 30), (ProdItem::Screw, 60)],
        ),
        Recipe::new(
            (ProdItem::SteelIngot, 45),
            vec![(ProdItem::IronOre, 45), (ProdItem::Coal, 45)],
        ),
        Recipe::new(
            (ProdItem::AluminiumIngot, 60),
            vec![(ProdItem::AluminiumScrap, 90), (ProdItem::Sillica, 75)],
        ),
        Recipe::new((ProdItem::CopperIngot, 30), vec![(ProdItem::CopperOre, 30)]),
        Recipe::new((ProdItem::Wire, 30), vec![(ProdItem::CopperIngot, 15)]),
        Recipe::new((ProdItem::Cable, 30), vec![(ProdItem::Wire, 60)]),
        Recipe::new((ProdItem::CopperSheet, 10), vec![(ProdItem::CopperIngot, 20)]),
    ]
}

fn stock_machines() -> Vec<Machine> {
    vec![
        Machine::new(MachineName::Smelter, 4),
        Machine::new(MachineName::Constructor, 4),
        Machine::new(MachineName::MinerMk1, 5),
        Machine::new(MachineName::Assembler, 16),
        Machine::new(MachineName::Foundry, 16),
    ]
}

fn stock_claims() -> Vec<(MachineName, Vec<ProdItem>)> {
    vec![
        (MachineName::Smelter, vec![ProdItem::IronIngot, ProdItem::CopperIngot]),
        (
            MachineName::Constructor,
            vec![
                ProdItem::IronRod,
                ProdItem::Screw,
                ProdItem::IronPlate,
                ProdItem::Wire,
                ProdItem::Cable,
                ProdItem::CopperSheet,
            ],
        ),
        (
            MachineName::MinerMk1,
            vec![
                ProdItem::IronOre,
                ProdItem::CopperOre,
                ProdItem::QuartzOre,
                ProdItem::Coal,
                ProdItem::LimeStone,
            ],
        ),
        (MachineName::Assembler, vec![ProdItem::ReinforcedIronPlate]),
        (MachineName::Foundry, vec![ProdItem::SteelIngot, ProdItem::AluminiumIngot]),
    ]
}

fn stock() -> ProductionCalculator {
    ProductionCalculator::new(stock_recipes(), stock_machines(), stock_claims()).unwrap()
}

fn need(item: ProdItem, machine: MachineName, machines: u64, rate: u64) -> ResourceRequirement {
    ResourceRequirement { item, machine, machines, rate }
}

fn fault_of(outcome: Result<Expansion, ExpandError>) -> ExpandError {
    match outcome {
        Ok(_) => panic!("the query succeeded"),
        Err(fault) => fault,
    }
}

#[test]
fn machines_are_rounded_up() {
    assert_eq!(machines_needed(45, 30), 2);
    assert_eq!(machines_needed(20, 15), 2);
    assert_eq!(machines_needed(30, 30), 1);
    assert_eq!(machines_needed(31, 30), 2);
    assert_eq!(machines_needed(29, 30), 1);
    assert_eq!(machines_needed(1, 30), 1);
    assert_eq!(machines_needed(0, 30), 0);
    assert_eq!(machines_needed(60, 1), 60);
    assert_eq!(machines_needed(u64::MAX, 1), u64::MAX);
    assert_eq!(machines_needed(u64::MAX, 2), u64::MAX / 2 + 1);
    assert_eq!(machines_needed(u64::MAX, u64::MAX), 1);
    assert_eq!(machines_needed(u64::MAX - 1, u64::MAX), 1);
}

#[test]
fn a_leaf_asked_for_more_than_one_machine_makes() {
    let calculator = ProductionCalculator::new(
        vec![Recipe::new((ProdItem::Sillica, 30), vec![])],
        vec![Machine::new(MachineName::Constructor, 4)],
        vec![(MachineName::Constructor, vec![ProdItem::Sillica])],
    )
    .unwrap();
    let expansion = calculator.expand(ProdItem::Sillica, 45).unwrap();
    assert_eq!(
        expansion.requirements(),
        &vec![need(ProdItem::Sillica, MachineName::Constructor, 2, 45)]
    );
    assert_eq!(expansion.power_consumption(), 2 * 4);
    assert_eq!(
        expansion.requirement(ProdItem::Sillica),
        Some(need(ProdItem::Sillica, MachineName::Constructor, 2, 45))
    );
    assert_eq!(expansion.requirement(ProdItem::Wire), None);
}

#[test]
fn an_input_is_demanded_by_the_machines_of_its_consumer() {
    let calculator = ProductionCalculator::new(
        vec![
            Recipe::new((ProdItem::IronRod, 15), vec![(ProdItem::IronIngot, 15)]),
            Recipe::new((ProdItem::IronIngot, 30), vec![]),
        ],
        vec![Machine::new(MachineName::Constructor, 4), Machine::new(MachineName::Smelter, 7)],
        vec![
            (MachineName::Constructor, vec![ProdItem::IronRod]),
            (MachineName::Smelter, vec![ProdItem::IronIngot]),
        ],
    )
    .unwrap();
    let expansion = calculator.expand(ProdItem::IronRod, 20).unwrap();
    assert_eq!(
        expansion.requirement(ProdItem::IronRod),
        Some(need(ProdItem::IronRod, MachineName::Constructor, 2, 20))
    );
    assert_eq!(
        expansion.requirement(ProdItem::IronIngot),
        Some(need(ProdItem::IronIngot, MachineName::Smelter, 1, 30))
    );
    assert_eq!(expansion.requirements().len(), 2);
    // The rod's two machines are charged at their own power, the ingot at the
    // smelter's power once for each of the two machines that consume it.
    assert_eq!(expansion.power_consumption(), 2 * 4 + 2 * 7);
}

#[test]
fn a_rate_of_zero_or_less_is_refused() {
    let calculator = stock();
    assert_eq!(fault_of(calculator.expand(ProdItem::IronIngot, 0)), ExpandError::InvalidQuantity);
    assert_eq!(fault_of(calculator.expand(ProdItem::IronIngot, -1)), ExpandError::InvalidQuantity);
    assert_eq!(
        fault_of(calculator.expand(ProdItem::IronIngot, i64::MIN)),
        ExpandError::InvalidQuantity
    );
    // The rate is judged before the item is looked up.
    assert_eq!(fault_of(calculator.expand(ProdItem::Sillica, 0)), ExpandError::InvalidQuantity);
    assert_eq!(fault_of(calculator.expand(ProdItem::Sillica, -30)), ExpandError::InvalidQuantity);
}

#[test]
fn an_item_without_a_recipe_is_unknown() {
    let calculator = stock();
    assert_eq!(
        fault_of(calculator.expand(ProdItem::Sillica, 10)),
        ExpandError::UnknownItem(ProdItem::Sillica)
    );
    // Coal has a maker and no recipe.
    assert_eq!(
        fault_of(calculator.expand(ProdItem::Coal, 10)),
        ExpandError::UnknownItem(ProdItem::Coal)
    );
}

#[test]
fn a_missing_item_down_the_chain_fails_the_whole_query() {
    let calculator = stock();
    // Steel needs coal, which the miner makes and no recipe describes.
    assert_eq!(
        fault_of(calculator.expand(ProdItem::SteelIngot, 45)),
        ExpandError::UnknownItem(ProdItem::Coal)
    );
    // Aluminium needs scrap, which nothing makes.
    assert_eq!(
        fault_of(calculator.expand(ProdItem::AluminiumIngot, 60)),
        ExpandError::NoProducer(ProdItem::AluminiumScrap)
    );
}

#[test]
fn an_item_that_nothing_makes_has_no_producer() {
    let calculator = ProductionCalculator::new(
        vec![Recipe::new((ProdItem::Wire, 30), vec![])],
        stock_machines(),
        vec![(MachineName::Constructor, vec![ProdItem::Cable])],
    )
    .unwrap();
    assert_eq!(
        fault_of(calculator.expand(ProdItem::Wire, 30)),
        ExpandError::NoProducer(ProdItem::Wire)
    );
    // For the root the recipe is looked up first.
    assert_eq!(
        fault_of(calculator.expand(ProdItem::Screw, 30)),
        ExpandError::UnknownItem(ProdItem::Screw)
    );
}

#[test]
fn a_maker_without_a_power_entry_is_unknown() {
    let calculator = ProductionCalculator::new(
        vec![
            Recipe::new((ProdItem::Wire, 30), vec![(ProdItem::CopperIngot, 15)]),
            Recipe::new((ProdItem::CopperIngot, 30), vec![]),
        ],
        vec![Machine::new(MachineName::Constructor, 4)],
        vec![
            (MachineName::Constructor, vec![ProdItem::Wire]),
            (MachineName::Smelter, vec![ProdItem::CopperIngot]),
        ],
    )
    .unwrap();
    assert_eq!(
        fault_of(calculator.expand(ProdItem::Wire, 30)),
        ExpandError::UnknownMachine(MachineName::Smelter)
    );
    assert_eq!(
        fault_of(calculator.expand(ProdItem::CopperIngot, 30)),
        ExpandError::UnknownMachine(MachineName::Smelter)
    );
}

#[test]
fn numbers_too_large_are_an_overflow() {
    let calculator = ProductionCalculator::new(
        vec![
            Recipe::new((ProdItem::Wire, 1), vec![(ProdItem::CopperIngot, 3)]),
            Recipe::new((ProdItem::CopperIngot, 1), vec![]),
            Recipe::new((ProdItem::Cable, 1), vec![(ProdItem::CopperIngot, 1), (ProdItem::CopperIngot, 1)]),
            Recipe::new((ProdItem::Screw, 1), vec![]),
        ],
        vec![
            Machine::new(MachineName::Constructor, 1),
            Machine::new(MachineName::Smelter, 0),
            Machine::new(MachineName::Assembler, 3),
        ],
        vec![
            (MachineName::Constructor, vec![ProdItem::Wire, ProdItem::Cable]),
            (MachineName::Smelter, vec![ProdItem::CopperIngot]),
            (MachineName::Assembler, vec![ProdItem::Screw]),
        ],
    )
    .unwrap();
    // The demand for the input: the machines times three.
    assert_eq!(fault_of(calculator.expand(ProdItem::Wire, i64::MAX)), ExpandError::Overflow);
    // The root's power: the machines times three.
    assert_eq!(fault_of(calculator.expand(ProdItem::Screw, i64::MAX)), ExpandError::Overflow);
    // The power of the root and of its input together.
    let calculator = ProductionCalculator::new(
        vec![
            Recipe::new((ProdItem::Wire, 1), vec![(ProdItem::CopperIngot, 1)]),
            Recipe::new((ProdItem::CopperIngot, 1), vec![]),
        ],
        vec![Machine::new(MachineName::Constructor, 2), Machine::new(MachineName::Smelter, 1)],
        vec![
            (MachineName::Constructor, vec![ProdItem::Wire]),
            (MachineName::Smelter, vec![ProdItem::CopperIngot]),
        ],
    )
    .unwrap();
    assert_eq!(fault_of(calculator.expand(ProdItem::Wire, i64::MAX)), ExpandError::Overflow);
    let expansion = calculator.expand(ProdItem::Wire, i64::MAX / 2).unwrap();
    let half = (i64::MAX / 2) as u64;
    assert_eq!(expansion.power_consumption(), 3 * half);
    assert_eq!(
        expansion.requirement(ProdItem::CopperIngot),
        Some(need(ProdItem::CopperIngot, MachineName::Smelter, half, half))
    );
}

#[test]
fn the_machines_of_two_branches_overflow_together() {
    let calculator = ProductionCalculator::new(
        vec![
            Recipe::new((ProdItem::CopperIngot, 1), vec![]),
            Recipe::new(
                (ProdItem::Cable, 1),
                vec![(ProdItem::CopperIngot, 2), (ProdItem::CopperIngot, 2)],
            ),
        ],
        vec![Machine::new(MachineName::Constructor, 0), Machine::new(MachineName::Smelter, 0)],
        vec![
            (MachineName::Constructor, vec![ProdItem::Cable]),
            (MachineName::Smelter, vec![ProdItem::CopperIngot]),
        ],
    )
    .unwrap();
    assert_eq!(fault_of(calculator.expand(ProdItem::Cable, i64::MAX)), ExpandError::Overflow);
    let expansion = calculator.expand(ProdItem::Cable, i64::MAX / 2).unwrap();
    let half = (i64::MAX / 2) as u64;
    assert_eq!(
        expansion.requirement(ProdItem::CopperIngot),
        Some(need(ProdItem::CopperIngot, MachineName::Smelter, 4 * half, 4 * half))
    );
}

#[test]
fn the_stock_chain_of_the_reinforced_plate() {
    let expansion = stock().expand(ProdItem::ReinforcedIronPlate, 5).unwrap();
    assert_eq!(
        expansion.requirements(),
        &vec![
            need(ProdItem::ReinforcedIronPlate, MachineName::Assembler, 1, 5),
            need(ProdItem::IronPlate, MachineName::Constructor, 2, 30),
            need(ProdItem::Screw, MachineName::Constructor, 2, 60),
            need(ProdItem::IronIngot, MachineName::Smelter, 3, 90),
            need(ProdItem::IronRod, MachineName::Constructor, 2, 20),
            need(ProdItem::IronOre, MachineName::MinerMk1, 2, 90),
        ]
    );
    assert_eq!(expansion.power_consumption(), 63);
}

#[test]
fn the_requirement_records_the_rate_asked_for() {
    let expansion = stock().expand(ProdItem::IronIngot, 31).unwrap();
    // Two smelters make sixty; the requirement keeps the thirty-one.
    assert_eq!(
        expansion.requirement(ProdItem::IronIngot),
        Some(need(ProdItem::IronIngot, MachineName::Smelter, 2, 31))
    );
    assert_eq!(
        expansion.requirement(ProdItem::IronOre),
        Some(need(ProdItem::IronOre, MachineName::MinerMk1, 1, 60))
    );
    assert_eq!(expansion.power_consumption(), 2 * 4 + 2 * 5);
}

#[test]
fn one_branch_gives_the_rounded_quotient() {
    // Cable 100 / 30 -> 4; wire 4 * 60 = 240 / 30 -> 8; copper ingot 8 * 15 = 120 / 30 -> 4;
    // copper ore 4 * 30 = 120. In the stock catalog the ore has a maker and no recipe.
    assert_eq!(
        fault_of(stock().expand(ProdItem::Cable, 100)),
        ExpandError::UnknownItem(ProdItem::CopperOre)
    );
    let mut recipes = stock_recipes();
    recipes.push(Recipe::new((ProdItem::CopperOre, 60), vec![]));
    let calculator = ProductionCalculator::new(recipes, stock_machines(), stock_claims()).unwrap();
    let expansion_with_ore = calculator.expand(ProdItem::Cable, 100).unwrap();
    let outputs = [
        (ProdItem::Cable, 30u64),
        (ProdItem::Wire, 30),
        (ProdItem::CopperIngot, 30),
        (ProdItem::CopperOre, 60),
    ];
    for (item, output) in outputs {
        let entry = expansion_with_ore.requirement(item).unwrap();
        assert_eq!(entry.machines, (entry.rate + output - 1) / output);
    }
    assert_eq!(
        expansion_with_ore.requirements(),
        &vec![
            need(ProdItem::Cable, MachineName::Constructor, 4, 100),
            need(ProdItem::Wire, MachineName::Constructor, 8, 240),
            need(ProdItem::CopperIngot, MachineName::Smelter, 4, 120),
            need(ProdItem::CopperOre, MachineName::MinerMk1, 2, 120),
        ]
    );
    assert_eq!(expansion_with_ore.power_consumption(), 4 * 4 + 4 * 4 + 8 * 4 + 4 * 5);
}

fn two_branches(first: u64, second: u64) -> ProductionCalculator {
    ProductionCalculator::new(
        vec![
            Recipe::new(
                (ProdItem::ReinforcedIronPlate, 10),
                vec![(ProdItem::IronPlate, 10), (ProdItem::Screw, 10)],
            ),
            Recipe::new((ProdItem::IronPlate, 10), vec![(ProdItem::IronIngot, first)]),
            Recipe::new((ProdItem::Screw, 10), vec![(ProdItem::IronIngot, second)]),
            Recipe::new((ProdItem::IronIngot, 10), vec![(ProdItem::IronOre, 7)]),
            Recipe::new((ProdItem::IronOre, 100), vec![]),
        ],
        vec![
            Machine::new(MachineName::Assembler, 16),
            Machine::new(MachineName::Constructor, 4),
            Machine::new(MachineName::Smelter, 3),
            Machine::new(MachineName::MinerMk1, 5),
        ],
        vec![
            (MachineName::Assembler, vec![ProdItem::ReinforcedIronPlate]),
            (MachineName::Constructor, vec![ProdItem::IronPlate, ProdItem::Screw]),
            (MachineName::Smelter, vec![ProdItem::IronIngot]),
            (MachineName::MinerMk1, vec![ProdItem::IronOre]),
        ],
    )
    .unwrap()
}

#[test]
fn two_branches_are_rounded_up_each_by_itself() {
    let expansion = two_branches(5, 5).expand(ProdItem::ReinforcedIronPlate, 10).unwrap();
    // Each branch demands five ingots a minute and gets a smelter of its own:
    // two machines, where the ten ingots together would need one.
    assert_eq!(
        expansion.requirement(ProdItem::IronIngot),
        Some(need(ProdItem::IronIngot, MachineName::Smelter, 2, 10))
    );
    assert_eq!(
        expansion.requirement(ProdItem::IronOre),
        Some(need(ProdItem::IronOre, MachineName::MinerMk1, 2, 14))
    );
    assert_eq!(expansion.requirements().len(), 5);
    assert_eq!(expansion.power_consumption(), 16 + 4 + 4 + 3 + 3 + 5 + 5);
}

#[test]
fn two_branches_with_different_demands() {
    let expansion = two_branches(25, 6).expand(ProdItem::ReinforcedIronPlate, 20).unwrap();
    // Two assemblers; plate and screw twenty each, two machines each; the ingot
    // branches demand fifty and twelve: five smelters and two.
    assert_eq!(
        expansion.requirement(ProdItem::IronIngot),
        Some(need(ProdItem::IronIngot, MachineName::Smelter, 7, 62))
    );
    // The ore: five smelters take thirty-five, two take fourteen.
    assert_eq!(
        expansion.requirement(ProdItem::IronOre),
        Some(need(ProdItem::IronOre, MachineName::MinerMk1, 2, 49))
    );
    assert_eq!(
        expansion.power_consumption(),
        2 * 16 + 2 * 4 + 2 * 4 + 2 * 3 + 2 * 3 + 5 * 5 + 2 * 5
    );
}

#[test]
fn a_raw_item_is_not_expanded_whatever_its_recipe_lists() {
    let calculator = ProductionCalculator::new(
        vec![
            Recipe::new((ProdItem::IronIngot, 30), vec![(ProdItem::IronOre, 30)]),
            Recipe::new(
                (ProdItem::IronOre, 60),
                vec![(ProdItem::Sillica, 500), (ProdItem::IronIngot, 1), (ProdItem::IronOre, 9)],
            ),
        ],
        vec![Machine::new(MachineName::Smelter, 4), Machine::new(MachineName::MinerMk1, 5)],
        vec![
            (MachineName::Smelter, vec![ProdItem::IronIngot]),
            (MachineName::MinerMk1, vec![ProdItem::IronOre]),
        ],
    )
    .unwrap();
    let expansion = calculator.expand(ProdItem::IronIngot, 30).unwrap();
    assert_eq!(
        expansion.requirements(),
        &vec![
            need(ProdItem::IronIngot, MachineName::Smelter, 1, 30),
            need(ProdItem::IronOre, MachineName::MinerMk1, 1, 30),
        ]
    );
    assert_eq!(expansion.power_consumption(), 4 + 5);
}

#[test]
fn serving_a_raw_item_adds_no_order() {
    let calculator = stock();
    let mut queue: VecDeque<Pending> = VecDeque::new();
    queue.push_back(Pending { item: ProdItem::Screw, per_cycle: 1, multiplier: 1 });
    let order = Pending { item: ProdItem::IronOre, per_cycle: 30, multiplier: 3 };
    let result = calculator.serve(order, Expansion::new(), &mut queue).unwrap();
    assert_eq!(queue.len(), 1);
    assert_eq!(queue[0], Pending { item: ProdItem::Screw, per_cycle: 1, multiplier: 1 });
    assert_eq!(result.requirements(), &vec![need(ProdItem::IronOre, MachineName::MinerMk1, 2, 90)]);
    assert_eq!(result.power_consumption(), 3 * 5);
}

#[test]
fn serving_an_item_orders_its_inputs_at_the_end() {
    let calculator = stock();
    let mut queue: VecDeque<Pending> = VecDeque::new();
    queue.push_back(Pending { item: ProdItem::Wire, per_cycle: 1, multiplier: 1 });
    let order = Pending { item: ProdItem::ReinforcedIronPlate, per_cycle: 4, multiplier: 3 };
    let result = calculator.serve(order, Expansion::new(), &mut queue).unwrap();
    assert_eq!(
        queue,
        VecDeque::from(vec![
            Pending { item: ProdItem::Wire, per_cycle: 1, multiplier: 1 },
            Pending { item: ProdItem::IronPlate, per_cycle: 30, multiplier: 3 },
            Pending { item: ProdItem::Screw, per_cycle: 60, multiplier: 3 },
        ])
    );
    assert_eq!(
        result.requirements(),
        &vec![need(ProdItem::ReinforcedIronPlate, MachineName::Assembler, 3, 12)]
    );
    assert_eq!(result.power_consumption(), 3 * 16);
    // A second order for the same item is merged into its entry.
    let again = Pending { item: ProdItem::ReinforcedIronPlate, per_cycle: 1, multiplier: 2 };
    let result = calculator.serve(again, result, &mut queue).unwrap();
    assert_eq!(
        result.requirements(),
        &vec![need(ProdItem::ReinforcedIronPlate, MachineName::Assembler, 4, 14)]
    );
    assert_eq!(result.power_consumption(), 5 * 16);
    assert_eq!(queue.len(), 5);
}

#[test]
fn an_order_that_fails_leaves_the_queue_as_it_was() {
    let calculator = stock();
    let faults = [
        (
            Pending { item: ProdItem::Sillica, per_cycle: 1, multiplier: 1 },
            ExpandError::NoProducer(ProdItem::Sillica),
        ),
        (
            Pending { item: ProdItem::Coal, per_cycle: 1, multiplier: 1 },
            ExpandError::UnknownItem(ProdItem::Coal),
        ),
        (
            Pending { item: ProdItem::IronIngot, per_cycle: u64::MAX, multiplier: 2 },
            ExpandError::Overflow,
        ),
        (
            Pending { item: ProdItem::IronIngot, per_cycle: 1, multiplier: u64::MAX },
            ExpandError::Overflow,
        ),
        (
            Pending { item: ProdItem::IronIngot, per_cycle: u64::MAX, multiplier: 1 },
            ExpandError::Overflow,
        ),
    ];
    for (order, fault) in faults {
        let mut queue: VecDeque<Pending> = VecDeque::new();
        let first = Pending { item: ProdItem::IronIngot, per_cycle: 30, multiplier: 1 };
        let result = calculator.serve(first, Expansion::new(), &mut queue).unwrap();
        assert_eq!(result.requirements(), &vec![need(ProdItem::IronIngot, MachineName::Smelter, 1, 30)]);
        assert_eq!(result.power_consumption(), 4);
        assert_eq!(fault_of(calculator.serve(order, result, &mut queue)), fault);
        assert_eq!(
            queue,
            VecDeque::from(vec![Pending { item: ProdItem::IronOre, per_cycle: 30, multiplier: 1 }])
        );
    }
}

#[test]
fn an_expansion_is_built_entry_by_entry() {
    let built = Expansion::new()
        .with_requirement(need(ProdItem::Wire, MachineName::Constructor, 1, 30))
        .with_power(4)
        .with_requirement(need(ProdItem::Cable, MachineName::Constructor, 2, 60))
        .with_requirement(need(ProdItem::Wire, MachineName::Constructor, 3, 90))
        .with_power(12);
    assert_eq!(
        built.requirements(),
        &vec![
            need(ProdItem::Wire, MachineName::Constructor, 3, 90),
            need(ProdItem::Cable, MachineName::Constructor, 2, 60),
        ]
    );
    assert_eq!(built.power_consumption(), 12);
    assert_eq!(
        built.requirement(ProdItem::Cable),
        Some(need(ProdItem::Cable, MachineName::Constructor, 2, 60))
    );
    assert_eq!(built.requirement(ProdItem::Screw), None);
}

#[test]
fn a_branch_listed_twice_is_charged_twice() {
    let with_inputs = |inputs: Vec<(ProdItem, u64)>| {
        ProductionCalculator::new(
            vec![
                Recipe::new((ProdItem::Cable, 10), inputs),
                Recipe::new((ProdItem::Wire, 10), vec![(ProdItem::CopperIngot, 10)]),
                Recipe::new((ProdItem::CopperIngot, 10), vec![]),
            ],
            vec![
                Machine::new(MachineName::Assembler, 100),
                Machine::new(MachineName::Constructor, 7),
                Machine::new(MachineName::Smelter, 3),
            ],
            vec![
                (MachineName::Assembler, vec![ProdItem::Cable]),
                (MachineName::Constructor, vec![ProdItem::Wire]),
                (MachineName::Smelter, vec![ProdItem::CopperIngot]),
            ],
        )
        .unwrap()
    };
    let none = with_inputs(vec![]).expand(ProdItem::Cable, 20).unwrap();
    let once = with_inputs(vec![(ProdItem::Wire, 15)]).expand(ProdItem::Cable, 20).unwrap();
    let twice = with_inputs(vec![(ProdItem::Wire, 15), (ProdItem::Wire, 15)])
        .expand(ProdItem::Cable, 20)
        .unwrap();
    assert_eq!(none.power_consumption(), 200);
    // The wire is charged for the two cable machines, the ingot for the three
    // wire machines.
    assert_eq!(once.power_consumption(), 200 + 2 * 7 + 3 * 3);
    assert_eq!(twice.power_consumption(), 200 + 2 * (2 * 7 + 3 * 3));
    assert_eq!(
        twice.power_consumption() - none.power_consumption(),
        2 * (once.power_consumption() - none.power_consumption())
    );
    assert_eq!(
        once.requirement(ProdItem::Wire),
        Some(need(ProdItem::Wire, MachineName::Constructor, 3, 30))
    );
    assert_eq!(
        twice.requirement(ProdItem::Wire),
        Some(need(ProdItem::Wire, MachineName::Constructor, 6, 60))
    );
    assert_eq!(
        twice.requirement(ProdItem::CopperIngot),
        Some(need(ProdItem::CopperIngot, MachineName::Smelter, 6, 60))
    );
}

#[test]
fn a_raw_root_is_not_expanded() {
    // The stock ore lists itself as an input at rate zero.
    let expansion = stock().expand(ProdItem::IronOre, 61).unwrap();
    assert_eq!(
        expansion.requirements(),
        &vec![need(ProdItem::IronOre, MachineName::MinerMk1, 2, 61)]
    );
    assert_eq!(expansion.power_consumption(), 2 * 5);
    // Inputs that the catalogs do not know are never looked up.
    let calculator = ProductionCalculator::new(
        vec![Recipe::new(
            (ProdItem::Coal, 60),
            vec![(ProdItem::Sillica, 500), (ProdItem::Coal, u64::MAX)],
        )],
        stock_machines(),
        stock_claims(),
    )
    .unwrap();
    let expansion = calculator.expand(ProdItem::Coal, 60).unwrap();
    assert_eq!(expansion.requirements(), &vec![need(ProdItem::Coal, MachineName::MinerMk1, 1, 60)]);
    assert_eq!(expansion.power_consumption(), 5);
}

#[test]
fn an_input_at_rate_zero_needs_no_machine() {
    let calculator = ProductionCalculator::new(
        vec![
            Recipe::new((ProdItem::Wire, 30), vec![(ProdItem::CopperIngot, 0)]),
            Recipe::new((ProdItem::CopperIngot, 30), vec![(ProdItem::CopperOre, 30)]),
            Recipe::new((ProdItem::CopperOre, 30), vec![]),
        ],
        stock_machines(),
        stock_claims(),
    )
    .unwrap();
    let expansion = calculator.expand(ProdItem::Wire, 90).unwrap();
    assert_eq!(
        expansion.requirements(),
        &vec![
            need(ProdItem::Wire, MachineName::Constructor, 3, 90),
            need(ProdItem::CopperIngot, MachineName::Smelter, 0, 0),
            need(ProdItem::CopperOre, MachineName::MinerMk1, 0, 0),
        ]
    );
    assert_eq!(expansion.power_consumption(), 3 * 4 + 3 * 4 + 0);
}

#[test]
fn a_fresh_expansion_is_empty() {
    let fresh = Expansion::new();
    assert!(fresh.requirements().is_empty());
    assert_eq!(fresh.power_consumption(), 0);
    assert_eq!(fresh.requirement(ProdItem::Wire), None);
}

#[test]
fn every_query_starts_afresh() {
    let calculator = stock();
    let first = calculator.expand(ProdItem::IronRod, 15).unwrap();
    let second = calculator.expand(ProdItem::IronRod, 15).unwrap();
    assert_eq!(first.requirements(), second.requirements());
    assert_eq!(first.power_consumption(), second.power_consumption());
    assert_eq!(
        first.requirements(),
        &vec![
            need(ProdItem::IronRod, MachineName::Constructor, 1, 15),
            need(ProdItem::IronIngot, MachineName::Smelter, 1, 15),
            need(ProdItem::IronOre, MachineName::MinerMk1, 1, 30),
        ]
    );
    assert_eq!(first.power_consumption(), 4 + 4 + 5);
}
