//! The closed sets of goods and of machine types, and their names as text.
use vstd::prelude::*;
use vstd::string::*;

verus! {

/// A tracked production good.
#[derive(Clone, Copy, Debug, PartialEq, Eq, Hash, Structural)]
pub enum ProdItem {
    IronIngot,
    CopperIngot,
    IronRod,
    IronOre,
    CopperOre,
    Screw,
    IronPlate,
    ReinforcedIronPlate,
    AluminiumIngot,
    Wire,
    Cable,
    CopperSheet,
    SteelIngot,
    Coal,
    LimeStone,
    QuartzOre,
    AluminiumScrap,
    Sillica,
}

/// A category of production device.
#[derive(Clone, Copy, Debug, PartialEq, Eq, Hash, Structural)]
pub enum MachineName {
    Smelter,
    Constructor,
    MinerMk1,
    Assembler,
    Foundry,
}

/// Whether two texts hold the same characters.
pub fn same_text(left: &str, right: &str) -> (same: bool)
    ensures
        same == (left@ == right@),
{
    let n: usize = left.unicode_len();
    if right.unicode_len() != n {
        return false;
    }
    let mut i: usize = 0;
    while i < n
        invariant
            i <= n,
            n == left@.len(),
            n == right@.len(),
            forall|k: int| 0 <= k < i ==> left@[k] == right@[k],
        decreases n - i,
    {
        if left.get_char(i) != right.get_char(i) {
            return false;
        }
        i += 1;
    }
    assert(left@ =~= right@);
    true
}

impl ProdItem {
    /// The item that a text names, if it names one.
    pub open spec fn named(text: Seq<char>) -> Option<ProdItem> {
        if text == "IronIngot"@ {
            Some(ProdItem::IronIngot)
        } else if text == "CopperIngot"@ {
            Some(ProdItem::CopperIngot)
        } else if text == "IronRod"@ {
            Some(ProdItem::IronRod)
        } else if text == "IronOre"@ {
            Some(ProdItem::IronOre)
        } else if text == "CopperOre"@ {
            Some(ProdItem::CopperOre)
        } else if text == "Screw"@ {
            Some(ProdItem::Screw)
        } else if text == "IronPlate"@ {
            Some(ProdItem::IronPlate)
        } else if text == "ReinforcedIronPlate"@ {
            Some(ProdItem::ReinforcedIronPlate)
        } else if text == "AluminiumIngot"@ {
            Some(ProdItem::AluminiumIngot)
        } else if text == "Wire"@ {
            Some(ProdItem::Wire)
        } else if text == "Cable"@ {
            Some(ProdItem::Cable)
        } else if text == "CopperSheet"@ {
            Some(ProdItem::CopperSheet)
        } else if text == "SteelIngot"@ {
            Some(ProdItem::SteelIngot)
        } else if text == "Coal"@ {
            Some(ProdItem::Coal)
        } else if text == "LimeStone"@ {
            Some(ProdItem::LimeStone)
        } else if text == "QuartzOre"@ {
            Some(ProdItem::QuartzOre)
        } else if text == "AluminiumScrap"@ {
            Some(ProdItem::AluminiumScrap)
        } else if text == "Sillica"@ {
            Some(ProdItem::Sillica)
        } else {
            None
        }
    }

    /// Reads an item's name; the spelling is exact, with no blanks around it.
    pub fn from_string(input_str: &str) -> (res: Option<Self>)
        ensures
            res == Self::named(input_str@),
            res matches Some(item) ==> input_str@ == item.label(),
    {
        if same_text(input_str, "IronIngot") {
            Some(ProdItem::IronIngot)
        } else if same_text(input_str, "CopperIngot") {
            Some(ProdItem::CopperIngot)
        } else if same_text(input_str, "IronRod") {
            Some(ProdItem::IronRod)
        } else if same_text(input_str, "IronOre") {
            Some(ProdItem::IronOre)
        } else if same_text(input_str, "CopperOre") {
            Some(ProdItem::CopperOre)
        } else if same_text(input_str, "Screw") {
            Some(ProdItem::Screw)
        } else if same_text(input_str, "IronPlate") {
            Some(ProdItem::IronPlate)
        } else if same_text(input_str, "ReinforcedIronPlate") {
            Some(ProdItem::ReinforcedIronPlate)
        } else if same_text(input_str, "AluminiumIngot") {
            Some(ProdItem::AluminiumIngot)
        } else if same_text(input_str, "Wire") {
            Some(ProdItem::Wire)
        } else if same_text(input_str, "Cable") {
            Some(ProdItem::Cable)
        } else if same_text(input_str, "CopperSheet") {
            Some(ProdItem::CopperSheet)
        } else if same_text(input_str, "SteelIngot") {
            Some(ProdItem::SteelIngot)
        } else if same_text(input_str, "Coal") {
            Some(ProdItem::Coal)
        } else if same_text(input_str, "LimeStone") {
            Some(ProdItem::LimeStone)
        } else if same_text(input_str, "QuartzOre") {
            Some(ProdItem::QuartzOre)
        } else if same_text(input_str, "AluminiumScrap") {
            Some(ProdItem::AluminiumScrap)
        } else if same_text(input_str, "Sillica") {
            Some(ProdItem::Sillica)
        } else {
            None
        }
    }

    /// The item's name as text.
    pub open spec fn label(self) -> Seq<char> {
        match self {
            ProdItem::IronIngot => "IronIngot"@,
            ProdItem::CopperIngot => "CopperIngot"@,
            ProdItem::IronRod => "IronRod"@,
            ProdItem::IronOre => "IronOre"@,
            ProdItem::CopperOre => "CopperOre"@,
            ProdItem::Screw => "Screw"@,
            ProdItem::IronPlate => "IronPlate"@,
            ProdItem::ReinforcedIronPlate => "ReinforcedIronPlate"@,
            ProdItem::AluminiumIngot => "AluminiumIngot"@,
            ProdItem::Wire => "Wire"@,
            ProdItem::Cable => "Cable"@,
            ProdItem::CopperSheet => "CopperSheet"@,
            ProdItem::SteelIngot => "SteelIngot"@,
            ProdItem::Coal => "Coal"@,
            ProdItem::LimeStone => "LimeStone"@,
            ProdItem::QuartzOre => "QuartzOre"@,
            ProdItem::AluminiumScrap => "AluminiumScrap"@,
            ProdItem::Sillica => "Sillica"@,
        }
    }

    /// The name under which `from_string` reads the item back.
    pub fn name(&self) -> (text: &'static str)
        ensures
            text@ == self.label(),
            Self::named(text@) == Some(*self),
    {
        proof {
            Self::lemma_names_differ(*self);
        }
        match self {
            ProdItem::IronIngot => "IronIngot",
            ProdItem::CopperIngot => "CopperIngot",
            ProdItem::IronRod => "IronRod",
            ProdItem::IronOre => "IronOre",
            ProdItem::CopperOre => "CopperOre",
            ProdItem::Screw => "Screw",
            ProdItem::IronPlate => "IronPlate",
            ProdItem::ReinforcedIronPlate => "ReinforcedIronPlate",
            ProdItem::AluminiumIngot => "AluminiumIngot",
            ProdItem::Wire => "Wire",
            ProdItem::Cable => "Cable",
            ProdItem::CopperSheet => "CopperSheet",
            ProdItem::SteelIngot => "SteelIngot",
            ProdItem::Coal => "Coal",
            ProdItem::LimeStone => "LimeStone",
            ProdItem::QuartzOre => "QuartzOre",
            ProdItem::AluminiumScrap => "AluminiumScrap",
            ProdItem::Sillica => "Sillica",
        }
    }

    /// No two names are the same text: every name is read back as the item
    /// that it is the name of.
    pub proof fn lemma_names_differ(which: ProdItem)
        ensures
            Self::named(which.label()) == Some(which),
    {
        reveal_strlit("IronIngot");
        reveal_strlit("CopperIngot");
        reveal_strlit("IronRod");
        reveal_strlit("IronOre");
        reveal_strlit("CopperOre");
        reveal_strlit("Screw");
        reveal_strlit("IronPlate");
        reveal_strlit("ReinforcedIronPlate");
        reveal_strlit("AluminiumIngot");
        reveal_strlit("Wire");
        reveal_strlit("Cable");
        reveal_strlit("CopperSheet");
        reveal_strlit("SteelIngot");
        reveal_strlit("Coal");
        reveal_strlit("LimeStone");
        reveal_strlit("QuartzOre");
        reveal_strlit("AluminiumScrap");
        reveal_strlit("Sillica");
        assert("IronIngot"@.len() == 9);
        assert("CopperIngot"@.len() == 11);
        assert("IronRod"@.len() == 7);
        assert("IronOre"@.len() == 7);
        assert("CopperOre"@.len() == 9);
        assert("Screw"@.len() == 5);
        assert("IronPlate"@.len() == 9);
        assert("ReinforcedIronPlate"@.len() == 19);
        assert("AluminiumIngot"@.len() == 14);
        assert("Wire"@.len() == 4);
        assert("Cable"@.len() == 5);
        assert("CopperSheet"@.len() == 11);
        assert("SteelIngot"@.len() == 10);
        assert("Coal"@.len() == 4);
        assert("LimeStone"@.len() == 9);
        assert("QuartzOre"@.len() == 9);
        assert("AluminiumScrap"@.len() == 14);
        assert("Sillica"@.len() == 7);
        assert("IronIngot"@[0] == 'I');
        assert("IronIngot"@[4] == 'I');
        assert("CopperIngot"@[6] == 'I');
        assert("IronRod"@[0] == 'I');
        assert("IronRod"@[4] == 'R');
        assert("IronOre"@[0] == 'I');
        assert("IronOre"@[4] == 'O');
        assert("CopperOre"@[0] == 'C');
        assert("Screw"@[0] == 'S');
        assert("IronPlate"@[0] == 'I');
        assert("IronPlate"@[4] == 'P');
        assert("AluminiumIngot"@[9] == 'I');
        assert("Wire"@[0] == 'W');
        assert("Cable"@[0] == 'C');
        assert("CopperSheet"@[6] == 'S');
        assert("Coal"@[0] == 'C');
        assert("LimeStone"@[0] == 'L');
        assert("QuartzOre"@[0] == 'Q');
        assert("AluminiumScrap"@[9] == 'S');
        assert("Sillica"@[0] == 'S');
    }

    /// Whether the item is extracted rather than built: the ores, coal and
    /// limestone.
    pub open spec fn raw(self) -> bool {
        self == ProdItem::IronOre || self == ProdItem::CopperOre || self == ProdItem::Coal
            || self == ProdItem::LimeStone || self == ProdItem::QuartzOre
    }

    /// Whether the item is a raw resource, at which every expansion stops.
    pub fn is_raw_resource(&self) -> (raw: bool)
        ensures
            raw == self.raw(),
    {
        match self {
            ProdItem::IronOre
            | ProdItem::CopperOre
            | ProdItem::Coal
            | ProdItem::LimeStone
            | ProdItem::QuartzOre => true,
            _ => false,
        }
    }
}

impl MachineName {
    /// The machine type that a text names, if it names one.
    pub open spec fn named(text: Seq<char>) -> Option<MachineName> {
        if text == "Smelter"@ {
            Some(MachineName::Smelter)
        } else if text == "Constructor"@ {
            Some(MachineName::Constructor)
        } else if text == "Assembler"@ {
            Some(MachineName::Assembler)
        } else if text == "MinerMk1"@ {
            Some(MachineName::MinerMk1)
        } else if text == "Foundry"@ {
            Some(MachineName::Foundry)
        } else {
            None
        }
    }

    /// Reads a machine type's name; the spelling is exact.
    pub fn from_string(input_str: &str) -> (res: Option<Self>)
        ensures
            res == Self::named(input_str@),
            res matches Some(machine) ==> input_str@ == machine.label(),
    {
        if same_text(input_str, "Smelter") {
            Some(MachineName::Smelter)
        } else if same_text(input_str, "Constructor") {
            Some(MachineName::Constructor)
        } else if same_text(input_str, "Assembler") {
            Some(MachineName::Assembler)
        } else if same_text(input_str, "MinerMk1") {
            Some(MachineName::MinerMk1)
        } else if same_text(input_str, "Foundry") {
            Some(MachineName::Foundry)
        } else {
            None
        }
    }

    /// The machine type's name as text.
    pub open spec fn label(self) -> Seq<char> {
        match self {
            MachineName::Smelter => "Smelter"@,
            MachineName::Constructor => "Constructor"@,
            MachineName::Assembler => "Assembler"@,
            MachineName::MinerMk1 => "MinerMk1"@,
            MachineName::Foundry => "Foundry"@,
        }
    }

    /// The name under which `from_string` reads the machine type back.
    pub fn name(&self) -> (text: &'static str)
        ensures
            text@ == self.label(),
            Self::named(text@) == Some(*self),
    {
        proof {
            Self::lemma_names_differ(*self);
        }
        match self {
            MachineName::Smelter => "Smelter",
            MachineName::Constructor => "Constructor",
            MachineName::Assembler => "Assembler",
            MachineName::MinerMk1 => "MinerMk1",
            MachineName::Foundry => "Foundry",
        }
    }

    /// No two names are the same text: every name is read back as the machine
    /// type that it is the name of.
    pub proof fn lemma_names_differ(which: MachineName)
        ensures
            Self::named(which.label()) == Some(which),
    {
        reveal_strlit("Smelter");
        reveal_strlit("Constructor");
        reveal_strlit("Assembler");
        reveal_strlit("MinerMk1");
        reveal_strlit("Foundry");
        assert("Smelter"@.len() == 7);
        assert("Constructor"@.len() == 11);
        assert("Assembler"@.len() == 9);
        assert("MinerMk1"@.len() == 8);
        assert("Foundry"@.len() == 7);
        assert("Smelter"@[0] == 'S');
        assert("Foundry"@[0] == 'F');
    }
}

} // verus!
