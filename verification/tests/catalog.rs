use prodcalc::calculator::ProductionCalculator;
use prodcalc::catalog::{
    has_item_contested, has_machine_twice, has_recipe_twice, has_zero_rate, holds_item,
    CatalogError,
};
use prodcalc::item::{MachineName, ProdItem};
use prodcalc::recipe::{Machine, Recipe};

fn fault_of(
    recipes: Vec<Recipe>,
    machines: Vec<Machine>,
    claims: Vec<(MachineName, Vec<ProdItem>)>,
) -> Option<CatalogError> {
    match ProductionCalculator::new(recipes, machines, claims) {
        Ok(_) => None,
        Err(fault) => Some(fault),
    }
}

#[test]
fn an_empty_catalog_is_sound() {
    assert_eq!(fault_of(vec![], vec![], vec![]), None);
}

#[test]
fn a_recipe_that_makes_nothing_is_refused() {
    let recipes = vec![
        Recipe::new((ProdItem::IronIngot, 30), vec![(ProdItem::IronOre, 30)]),
        Recipe::new((ProdItem::IronOre, 0), vec![]),
    ];
    assert!(has_zero_rate(&recipes));
    assert_eq!(fault_of(recipes, vec![], vec![]), Some(CatalogError::ZeroOutputRate));
    assert!(!has_zero_rate(&vec![Recipe::new((ProdItem::IronOre, 1), vec![])]));
}

#[test]
fn two_recipes_for_one_item_are_refused() {
    let recipes = vec![
        Recipe::new((ProdItem::IronIngot, 30), vec![(ProdItem::IronOre, 30)]),
        Recipe::new((ProdItem::IronRod, 15), vec![(ProdItem::IronIngot, 15)]),
        Recipe::new((ProdItem::IronIngot, 60), vec![]),
    ];
    assert!(has_recipe_twice(&recipes));
    assert_eq!(fault_of(recipes, vec![], vec![]), Some(CatalogError::DuplicateRecipe));
    let single = vec![
        Recipe::new((ProdItem::IronIngot, 30), vec![(ProdItem::IronOre, 30)]),
        Recipe::new((ProdItem::IronRod, 15), vec![(ProdItem::IronIngot, 15)]),
    ];
    assert!(!has_recipe_twice(&single));
}

#[test]
fn a_machine_listed_twice_is_refused() {
    let machines = vec![
        Machine::new(MachineName::Smelter, 4),
        Machine::new(MachineName::Foundry, 16),
        Machine::new(MachineName::Smelter, 4),
    ];
    assert!(has_machine_twice(&machines));
    assert_eq!(fault_of(vec![], machines, vec![]), Some(CatalogError::DuplicateMachine));
    let single = vec![Machine::new(MachineName::Smelter, 4), Machine::new(MachineName::Foundry, 16)];
    assert!(!has_machine_twice(&single));
}

#[test]
fn an_item_claimed_by_two_machine_types_is_refused() {
    let claims = vec![
        (MachineName::Smelter, vec![ProdItem::IronIngot, ProdItem::CopperIngot]),
        (MachineName::Foundry, vec![ProdItem::SteelIngot, ProdItem::CopperIngot]),
    ];
    assert!(has_item_contested(&claims));
    assert_eq!(fault_of(vec![], vec![], claims), Some(CatalogError::DuplicateProducer));
}

#[test]
fn an_item_claimed_twice_by_one_machine_type_is_accepted() {
    let claims = vec![
        (MachineName::Smelter, vec![ProdItem::IronIngot, ProdItem::IronIngot]),
        (MachineName::Foundry, vec![ProdItem::SteelIngot]),
        (MachineName::Smelter, vec![ProdItem::IronIngot, ProdItem::CopperIngot]),
    ];
    assert!(!has_item_contested(&claims));
    assert_eq!(fault_of(vec![], vec![], claims), None);
}

#[test]
fn an_item_that_needs_itself_is_refused() {
    let recipes = vec![Recipe::new((ProdItem::Screw, 40), vec![(ProdItem::Screw, 1)])];
    assert_eq!(fault_of(recipes, vec![], vec![]), Some(CatalogError::DependencyCycle));
}

#[test]
fn a_circle_through_several_items_is_refused() {
    let recipes = vec![
        Recipe::new((ProdItem::IronOre, 60), vec![]),
        Recipe::new((ProdItem::Wire, 30), vec![(ProdItem::Cable, 15), (ProdItem::IronOre, 1)]),
        Recipe::new((ProdItem::Cable, 30), vec![(ProdItem::CopperSheet, 60)]),
        Recipe::new((ProdItem::CopperSheet, 10), vec![(ProdItem::IronOre, 20), (ProdItem::Wire, 2)]),
        Recipe::new((ProdItem::IronRod, 15), vec![(ProdItem::IronOre, 15)]),
    ];
    assert_eq!(fault_of(recipes, vec![], vec![]), Some(CatalogError::DependencyCycle));
}

#[test]
fn a_raw_item_may_need_itself_and_others() {
    let recipes = vec![
        Recipe::new((ProdItem::IronOre, 60), vec![(ProdItem::IronOre, 0)]),
        Recipe::new((ProdItem::Coal, 60), vec![(ProdItem::IronIngot, 1)]),
        Recipe::new((ProdItem::IronIngot, 30), vec![(ProdItem::IronOre, 30), (ProdItem::Coal, 1)]),
    ];
    assert_eq!(fault_of(recipes, vec![], vec![]), None);
}

#[test]
fn a_chain_listed_from_the_top_down_is_acyclic() {
    let recipes = vec![
        Recipe::new(
            (ProdItem::ReinforcedIronPlate, 5),
            vec![(ProdItem::IronPlate, 30), (ProdItem::Screw, 60)],
        ),
        Recipe::new((ProdItem::Screw, 40), vec![(ProdItem::IronRod, 10)]),
        Recipe::new((ProdItem::IronPlate, 20), vec![(ProdItem::IronIngot, 30)]),
        Recipe::new((ProdItem::IronRod, 15), vec![(ProdItem::IronIngot, 15)]),
        Recipe::new((ProdItem::IronIngot, 30), vec![(ProdItem::IronOre, 30)]),
    ];
    assert_eq!(fault_of(recipes, vec![], vec![]), None);
}

#[test]
fn an_input_without_a_recipe_is_no_fault_of_the_catalog() {
    let recipes = vec![Recipe::new(
        (ProdItem::AluminiumIngot, 60),
        vec![(ProdItem::AluminiumScrap, 90), (ProdItem::Sillica, 75)],
    )];
    assert_eq!(fault_of(recipes, vec![], vec![]), None);
}

#[test]
fn the_faults_are_reported_in_a_fixed_order() {
    let faulty_recipes = || {
        vec![
            Recipe::new((ProdItem::Screw, 40), vec![(ProdItem::Screw, 1)]),
            Recipe::new((ProdItem::Screw, 0), vec![]),
        ]
    };
    let twice = || vec![Machine::new(MachineName::Smelter, 4), Machine::new(MachineName::Smelter, 5)];
    let contested = || {
        vec![(MachineName::Smelter, vec![ProdItem::Wire]), (MachineName::Foundry, vec![ProdItem::Wire])]
    };
    assert_eq!(
        fault_of(faulty_recipes(), twice(), contested()),
        Some(CatalogError::ZeroOutputRate)
    );
    let cyclic_twice = || {
        vec![
            Recipe::new((ProdItem::Screw, 40), vec![(ProdItem::Screw, 1)]),
            Recipe::new((ProdItem::Screw, 10), vec![]),
        ]
    };
    assert_eq!(
        fault_of(cyclic_twice(), twice(), contested()),
        Some(CatalogError::DuplicateRecipe)
    );
    let cyclic = || vec![Recipe::new((ProdItem::Screw, 40), vec![(ProdItem::Screw, 1)])];
    assert_eq!(fault_of(cyclic(), twice(), contested()), Some(CatalogError::DuplicateMachine));
    assert_eq!(fault_of(cyclic(), vec![], contested()), Some(CatalogError::DuplicateProducer));
    assert_eq!(fault_of(cyclic(), vec![], vec![]), Some(CatalogError::DependencyCycle));
}

#[test]
fn the_lookups_find_what_the_catalogs_hold() {
    let calculator = ProductionCalculator::new(
        vec![
            Recipe::new((ProdItem::IronIngot, 30), vec![(ProdItem::IronOre, 30)]),
            Recipe::new((ProdItem::IronOre, 60), vec![]),
        ],
        vec![Machine::new(MachineName::Smelter, 4), Machine::new(MachineName::MinerMk1, 5)],
        vec![
            (MachineName::Smelter, vec![ProdItem::IronIngot, ProdItem::CopperIngot]),
            (MachineName::MinerMk1, vec![ProdItem::IronOre]),
        ],
    )
    .unwrap();
    let recipe = calculator.lookup(ProdItem::IronIngot).unwrap();
    assert_eq!(recipe.output_item, (ProdItem::IronIngot, 30));
    assert_eq!(recipe.input_items, vec![(ProdItem::IronOre, 30)]);
    assert_eq!(calculator.lookup(ProdItem::IronOre).unwrap().output_item, (ProdItem::IronOre, 60));
    assert!(calculator.lookup(ProdItem::CopperIngot).is_none());
    assert_eq!(calculator.machine_producing(ProdItem::IronIngot), Some(MachineName::Smelter));
    assert_eq!(calculator.machine_producing(ProdItem::CopperIngot), Some(MachineName::Smelter));
    assert_eq!(calculator.machine_producing(ProdItem::IronOre), Some(MachineName::MinerMk1));
    assert_eq!(calculator.machine_producing(ProdItem::Wire), None);
    assert_eq!(calculator.power_of(MachineName::Smelter), Some(4));
    assert_eq!(calculator.power_of(MachineName::MinerMk1), Some(5));
    assert_eq!(calculator.power_of(MachineName::Foundry), None);
}

#[test]
fn a_list_holds_the_items_in_it() {
    let items = vec![ProdItem::Wire, ProdItem::Cable];
    assert!(holds_item(&items, ProdItem::Wire));
    assert!(holds_item(&items, ProdItem::Cable));
    assert!(!holds_item(&items, ProdItem::Screw));
    assert!(!holds_item(&vec![], ProdItem::Screw));
}

#[test]
fn the_entries_keep_what_they_are_given() {
    let recipe = Recipe::new((ProdItem::Wire, 30), vec![(ProdItem::CopperIngot, 15)]);
    assert_eq!(recipe.output_item, (ProdItem::Wire, 30));
    assert_eq!(recipe.input_items, vec![(ProdItem::CopperIngot, 15)]);
    let machine = Machine::new(MachineName::Assembler, 16);
    assert_eq!(machine.name, MachineName::Assembler);
    assert_eq!(machine.power_consumption, 16);
}
