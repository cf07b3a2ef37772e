//! The buildings that a player can put on a node.
use vstd::prelude::*;

use crate::text::{all_ascii, ascii_lowered, lowercase, lowered, same_text};

verus! {

pub const BARRACKS_COST: i64 = 100_000;

pub const CITY_COST: i64 = 100_000_000;

pub const MARKET_COST: i64 = 100_000;

pub const BANK_COST: i64 = 10_000_000;

pub const HOSPITAL_COST: i64 = 100_000_000;

pub const BAR_COST: i64 = 100_000;

pub const SILO_COST: i64 = 10_000_000;

pub const SAM_COST: i64 = 50_000_000;

#[derive(Clone, Copy, Debug, PartialEq, Eq, Structural)]
pub enum BuildingType {
    Barracks,
    City,
    Market,
    Bank,
    Hospital,
    Bar,
    Silo,
    Sam,
}

/// What a building costs, in gold.
pub open spec fn cost_of(building: BuildingType) -> i64 {
    match building {
        BuildingType::Barracks => BARRACKS_COST,
        BuildingType::City => CITY_COST,
        BuildingType::Market => MARKET_COST,
        BuildingType::Bank => BANK_COST,
        BuildingType::Hospital => HOSPITAL_COST,
        BuildingType::Bar => BAR_COST,
        BuildingType::Silo => SILO_COST,
        BuildingType::Sam => SAM_COST,
    }
}

pub fn building_cost(building: &BuildingType) -> (r: i64)
    ensures
        r == cost_of(*building),
{
    match building {
        BuildingType::Barracks => BARRACKS_COST,
        BuildingType::City => CITY_COST,
        BuildingType::Market => MARKET_COST,
        BuildingType::Bank => BANK_COST,
        BuildingType::Hospital => HOSPITAL_COST,
        BuildingType::Bar => BAR_COST,
        BuildingType::Silo => SILO_COST,
        BuildingType::Sam => SAM_COST,
    }
}

/// The buildings that need a city around them.
pub open spec fn needs_city(building: BuildingType) -> bool {
    building == BuildingType::Market || building == BuildingType::Bank || building
        == BuildingType::Hospital || building == BuildingType::Bar
}

/// Whether `slot` holds the given building.
pub fn holds(slot: &Option<BuildingType>, building: BuildingType) -> (r: bool)
    ensures
        r == (*slot == Some(building)),
{
    match slot {
        Some(b) => *b == building,
        None => false,
    }
}

/// The name of a building as players see it.
pub open spec fn label_of(building: BuildingType) -> Seq<char> {
    match building {
        BuildingType::Barracks => "Barracks"@,
        BuildingType::City => "City"@,
        BuildingType::Market => "Market"@,
        BuildingType::Bank => "Bank"@,
        BuildingType::Hospital => "Hospital"@,
        BuildingType::Bar => "Bar"@,
        BuildingType::Silo => "Silo"@,
        BuildingType::Sam => "SAM"@,
    }
}

/// The building that a lower-case name stands for.
pub open spec fn building_named(name: Seq<char>) -> Option<BuildingType> {
    if name == "barracks"@ {
        Some(BuildingType::Barracks)
    } else if name == "city"@ {
        Some(BuildingType::City)
    } else if name == "market"@ {
        Some(BuildingType::Market)
    } else if name == "bank"@ {
        Some(BuildingType::Bank)
    } else if name == "hospital"@ {
        Some(BuildingType::Hospital)
    } else if name == "bar"@ {
        Some(BuildingType::Bar)
    } else if name == "silo"@ {
        Some(BuildingType::Silo)
    } else if name == "sam"@ {
        Some(BuildingType::Sam)
    } else {
        None
    }
}

/// The building that a lower-case name stands for.
pub fn find_building(name: &str) -> (r: Option<BuildingType>)
    ensures
        r == building_named(name@),
{
    if same_text(name, "barracks") {
        Some(BuildingType::Barracks)
    } else if same_text(name, "city") {
        Some(BuildingType::City)
    } else if same_text(name, "market") {
        Some(BuildingType::Market)
    } else if same_text(name, "bank") {
        Some(BuildingType::Bank)
    } else if same_text(name, "hospital") {
        Some(BuildingType::Hospital)
    } else if same_text(name, "bar") {
        Some(BuildingType::Bar)
    } else if same_text(name, "silo") {
        Some(BuildingType::Silo)
    } else if same_text(name, "sam") {
        Some(BuildingType::Sam)
    } else {
        None
    }
}

/// Every building is found under its own label.
pub proof fn law_label_names_building(building: BuildingType)
    ensures
        building_named(ascii_lowered(label_of(building))) == Some(building),
{
    reveal_strlit("Barracks");
    reveal_strlit("City");
    reveal_strlit("Market");
    reveal_strlit("Bank");
    reveal_strlit("Hospital");
    reveal_strlit("Bar");
    reveal_strlit("Silo");
    reveal_strlit("SAM");
    reveal_strlit("barracks");
    reveal_strlit("city");
    reveal_strlit("market");
    reveal_strlit("bank");
    reveal_strlit("hospital");
    reveal_strlit("bar");
    reveal_strlit("silo");
    reveal_strlit("sam");
    let name = ascii_lowered(label_of(building));
    match building {
        BuildingType::Barracks => {
            assert(name =~= "barracks"@);
        },
        BuildingType::City => {
            assert(name =~= "city"@);
            assert("city"@.len() != "barracks"@.len());
        },
        BuildingType::Market => {
            assert(name =~= "market"@);
        },
        BuildingType::Bank => {
            assert(name =~= "bank"@);
            assert("bank"@[0] != "city"@[0]);
        },
        BuildingType::Hospital => {
            assert(name =~= "hospital"@);
            assert("hospital"@[0] != "barracks"@[0]);
        },
        BuildingType::Bar => {
            assert(name =~= "bar"@);
        },
        BuildingType::Silo => {
            assert(name =~= "silo"@);
            assert("silo"@[0] != "city"@[0]);
            assert("silo"@[0] != "bank"@[0]);
        },
        BuildingType::Sam => {
            assert(name =~= "sam"@);
            assert("sam"@[0] != "bar"@[0]);
        },
    }
}

impl BuildingType {
    /// The building with this name, in whatever case: a name and its lower case stand for
    /// the same.
    pub fn from_str(value: &str) -> (r: Option<Self>)
        ensures
            r == building_named(lowered(value@)),
            r == building_named(lowered(lowered(value@))),
            all_ascii(value@) ==> r == building_named(ascii_lowered(value@)),
    {
        let name = lowercase(value);
        find_building(name.as_str())
    }

    pub fn to_label(&self) -> (r: &'static str)
        ensures
            r@ == label_of(*self),
    {
        match self {
            BuildingType::Barracks => "Barracks",
            BuildingType::City => "City",
            BuildingType::Market => "Market",
            BuildingType::Bank => "Bank",
            BuildingType::Hospital => "Hospital",
            BuildingType::Bar => "Bar",
            BuildingType::Silo => "Silo",
            BuildingType::Sam => "SAM",
        }
    }
}

/// Each building goes by one name, and no other name is that of a building.
pub proof fn law_names_of_buildings(name: Seq<char>)
    ensures
        building_named(name) == Some(BuildingType::Barracks) <==> name == "barracks"@,
        building_named(name) == Some(BuildingType::City) <==> name == "city"@,
        building_named(name) == Some(BuildingType::Market) <==> name == "market"@,
        building_named(name) == Some(BuildingType::Bank) <==> name == "bank"@,
        building_named(name) == Some(BuildingType::Hospital) <==> name == "hospital"@,
        building_named(name) == Some(BuildingType::Bar) <==> name == "bar"@,
        building_named(name) == Some(BuildingType::Silo) <==> name == "silo"@,
        building_named(name) == Some(BuildingType::Sam) <==> name == "sam"@,
{
    reveal_strlit("barracks");
    reveal_strlit("city");
    reveal_strlit("market");
    reveal_strlit("bank");
    reveal_strlit("hospital");
    reveal_strlit("bar");
    reveal_strlit("silo");
    reveal_strlit("sam");
    assert("barracks"@.len() == 8);
    assert("city"@.len() == 4);
    assert("market"@.len() == 6);
    assert("bank"@.len() == 4);
    assert("hospital"@.len() == 8);
    assert("bar"@.len() == 3);
    assert("silo"@.len() == 4);
    assert("sam"@.len() == 3);
    assert("city"@[0] != "bank"@[0]);
    assert("barracks"@[0] != "hospital"@[0]);
    assert("city"@[0] != "silo"@[0]);
    assert("bank"@[0] != "silo"@[0]);
    assert("bar"@[0] != "sam"@[0]);
}

/// What needs a city around it earns or heals there; the rest stands anywhere.
pub proof fn law_what_needs_a_city(building: BuildingType)
    ensures
        needs_city(building) <==> building == BuildingType::Market || building == BuildingType::Bank
            || building == BuildingType::Hospital || building == BuildingType::Bar,
{
}

} // verus!
