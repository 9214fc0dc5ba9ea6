use prodcalc::item::{same_text, MachineName, ProdItem};

#[test]
fn every_item_name_is_read() {
    let names = [
        ("IronIngot", ProdItem::IronIngot),
        ("CopperIngot", ProdItem::CopperIngot),
        ("IronRod", ProdItem::IronRod),
        ("IronOre", ProdItem::IronOre),
        ("CopperOre", ProdItem::CopperOre),
        ("Screw", ProdItem::Screw),
        ("IronPlate", ProdItem::IronPlate),
        ("ReinforcedIronPlate", ProdItem::ReinforcedIronPlate),
        ("AluminiumIngot", ProdItem::AluminiumIngot),
        ("Wire", ProdItem::Wire),
        ("Cable", ProdItem::Cable),
        ("CopperSheet", ProdItem::CopperSheet),
        ("SteelIngot", ProdItem::SteelIngot),
        ("Coal", ProdItem::Coal),
        ("LimeStone", ProdItem::LimeStone),
        ("QuartzOre", ProdItem::QuartzOre),
        ("AluminiumScrap", ProdItem::AluminiumScrap),
        ("Sillica", ProdItem::Sillica),
    ];
    for (name, item) in names {
        assert_eq!(ProdItem::from_string(name), Some(item));
        assert_eq!(item.name(), name);
        assert_eq!(ProdItem::from_string(item.name()), Some(item));
        assert_eq!(format!("{:?}", item), name);
    }
}

#[test]
fn unknown_item_names_are_refused() {
    assert_eq!(ProdItem::from_string(""), None);
    assert_eq!(ProdItem::from_string("ironingot"), None);
    assert_eq!(ProdItem::from_string("IronIngot "), None);
    assert_eq!(ProdItem::from_string(" IronIngot"), None);
    assert_eq!(ProdItem::from_string("IronIngo"), None);
    assert_eq!(ProdItem::from_string("Silica"), None);
    assert_eq!(ProdItem::from_string("Smelter"), None);
    assert_eq!(ProdItem::from_string("q"), None);
}

#[test]
fn every_machine_name_is_read() {
    assert_eq!(MachineName::from_string("Smelter"), Some(MachineName::Smelter));
    assert_eq!(MachineName::from_string("Constructor"), Some(MachineName::Constructor));
    assert_eq!(MachineName::from_string("Assembler"), Some(MachineName::Assembler));
    assert_eq!(MachineName::from_string("MinerMk1"), Some(MachineName::MinerMk1));
    assert_eq!(MachineName::from_string("Foundry"), Some(MachineName::Foundry));
    let machines = [
        (MachineName::Smelter, "Smelter"),
        (MachineName::Constructor, "Constructor"),
        (MachineName::Assembler, "Assembler"),
        (MachineName::MinerMk1, "MinerMk1"),
        (MachineName::Foundry, "Foundry"),
    ];
    for (machine, name) in machines {
        assert_eq!(machine.name(), name);
        assert_eq!(MachineName::from_string(machine.name()), Some(machine));
    }
}

#[test]
fn unknown_machine_names_are_refused() {
    assert_eq!(MachineName::from_string(""), None);
    assert_eq!(MachineName::from_string("smelter"), None);
    assert_eq!(MachineName::from_string("MinerMk2"), None);
    assert_eq!(MachineName::from_string("IronOre"), None);
}

#[test]
fn the_raw_resources_are_the_ores_coal_and_limestone() {
    let raw = [
        ProdItem::IronOre,
        ProdItem::CopperOre,
        ProdItem::Coal,
        ProdItem::LimeStone,
        ProdItem::QuartzOre,
    ];
    let built = [
        ProdItem::IronIngot,
        ProdItem::CopperIngot,
        ProdItem::IronRod,
        ProdItem::Screw,
        ProdItem::IronPlate,
        ProdItem::ReinforcedIronPlate,
        ProdItem::AluminiumIngot,
        ProdItem::Wire,
        ProdItem::Cable,
        ProdItem::CopperSheet,
        ProdItem::SteelIngot,
        ProdItem::AluminiumScrap,
        ProdItem::Sillica,
    ];
    for item in raw {
        assert!(item.is_raw_resource());
    }
    for item in built {
        assert!(!item.is_raw_resource());
    }
}

#[test]
fn texts_are_compared_character_by_character() {
    assert!(same_text("", ""));
    assert!(same_text("Wire", "Wire"));
    assert!(!same_text("Wire", "Wira"));
    assert!(!same_text("Wire", "Wir"));
    assert!(!same_text("Wir", "Wire"));
    assert!(same_text("Erz\u{e4}", "Erz\u{e4}"));
    assert!(!same_text("Erz\u{e4}", "Erza"));
}
