//! Model type table: the class of each known script, keyed by the script
//! file name (type id), and the display order of classes.

use vstd::prelude::*;
use crate::duplicate::segment_start;
use crate::text::{
    ascii_lower, chars_of, lower_seq, str_eq, string_from_range, trim_end_all, trim_end_all_range,
    trim_start_all, trim_start_all_range,
};

verus! {

/// Kind of unit a model script stands for.
#[derive(Clone, Copy, Debug, PartialEq, Eq, Structural, Hash)]
pub enum ModelClass {
    Fighter,
    FighterBomber,
    Attack,
    Bomber,
    Transport,
    Armor,
    TankDestroyer,
    Spg,
    LightAaa,
    Truck,
    Jeep,
    Tractor,
    Infantry,
    RocketArtillery,
    LightFlak,
    HeavyFlak,
    Artillery,
    Mortar,
    MachineGun,
    Radar,
    Airfield,
    Dummy,
    CargoShip,
    Destroyer,
    TorpedoBoat,
    LandingCraft,
    Gunboat,
    SmallBoat,
    Locomotive,
    Unknown,
}

/// Display label of a class.
pub open spec fn class_label(c: ModelClass) -> Seq<char> {
    match c {
        ModelClass::Fighter => "Fighter"@,
        ModelClass::FighterBomber => "Fighter-bomber"@,
        ModelClass::Attack => "Attack"@,
        ModelClass::Bomber => "Bomber"@,
        ModelClass::Transport => "Transport"@,
        ModelClass::Armor => "Armor"@,
        ModelClass::TankDestroyer => "Tank destroyer"@,
        ModelClass::Spg => "SPG"@,
        ModelClass::LightAaa => "Light AAA"@,
        ModelClass::Truck => "Truck"@,
        ModelClass::Jeep => "Jeep"@,
        ModelClass::Tractor => "Tractor"@,
        ModelClass::Infantry => "Infantry"@,
        ModelClass::RocketArtillery => "Rocket artillery"@,
        ModelClass::LightFlak => "Light flak"@,
        ModelClass::HeavyFlak => "Heavy flak"@,
        ModelClass::Artillery => "Artillery"@,
        ModelClass::Mortar => "Mortar"@,
        ModelClass::MachineGun => "Machine gun"@,
        ModelClass::Radar => "Radar"@,
        ModelClass::Airfield => "Airfield"@,
        ModelClass::Dummy => "Dummy"@,
        ModelClass::CargoShip => "Cargo"@,
        ModelClass::Destroyer => "Destroyer"@,
        ModelClass::TorpedoBoat => "Torpedo boat"@,
        ModelClass::LandingCraft => "Landing craft"@,
        ModelClass::Gunboat => "Gunboat"@,
        ModelClass::SmallBoat => "Small boat"@,
        ModelClass::Locomotive => "Locomotive"@,
        ModelClass::Unknown => "Unknown"@,
    }
}

/// Display position of a class (fighters first, unknown last).
pub open spec fn class_rank(c: ModelClass) -> int {
    match c {
        ModelClass::Fighter => 0,
        ModelClass::FighterBomber => 1,
        ModelClass::Attack => 2,
        ModelClass::Bomber => 3,
        ModelClass::Transport => 4,
        ModelClass::Armor => 5,
        ModelClass::TankDestroyer => 6,
        ModelClass::Spg => 7,
        ModelClass::LightAaa => 8,
        ModelClass::RocketArtillery => 9,
        ModelClass::Truck => 10,
        ModelClass::Jeep => 11,
        ModelClass::Tractor => 12,
        ModelClass::Infantry => 13,
        ModelClass::LightFlak => 14,
        ModelClass::HeavyFlak => 15,
        ModelClass::Artillery => 16,
        ModelClass::Mortar => 17,
        ModelClass::MachineGun => 18,
        ModelClass::Radar => 19,
        ModelClass::Airfield => 20,
        ModelClass::Dummy => 21,
        ModelClass::CargoShip => 22,
        ModelClass::Destroyer => 23,
        ModelClass::TorpedoBoat => 24,
        ModelClass::LandingCraft => 25,
        ModelClass::Gunboat => 26,
        ModelClass::SmallBoat => 27,
        ModelClass::Locomotive => 28,
        ModelClass::Unknown => 29,
    }
}

impl ModelClass {
    /// Display label.
    pub fn label(self) -> (r: &'static str)
        ensures
            r@ == class_label(self),
    {
        match self {
            ModelClass::Fighter => "Fighter",
            ModelClass::FighterBomber => "Fighter-bomber",
            ModelClass::Attack => "Attack",
            ModelClass::Bomber => "Bomber",
            ModelClass::Transport => "Transport",
            ModelClass::Armor => "Armor",
            ModelClass::TankDestroyer => "Tank destroyer",
            ModelClass::Spg => "SPG",
            ModelClass::LightAaa => "Light AAA",
            ModelClass::Truck => "Truck",
            ModelClass::Jeep => "Jeep",
            ModelClass::Tractor => "Tractor",
            ModelClass::Infantry => "Infantry",
            ModelClass::RocketArtillery => "Rocket artillery",
            ModelClass::LightFlak => "Light flak",
            ModelClass::HeavyFlak => "Heavy flak",
            ModelClass::Artillery => "Artillery",
            ModelClass::Mortar => "Mortar",
            ModelClass::MachineGun => "Machine gun",
            ModelClass::Radar => "Radar",
            ModelClass::Airfield => "Airfield",
            ModelClass::Dummy => "Dummy",
            ModelClass::CargoShip => "Cargo",
            ModelClass::Destroyer => "Destroyer",
            ModelClass::TorpedoBoat => "Torpedo boat",
            ModelClass::LandingCraft => "Landing craft",
            ModelClass::Gunboat => "Gunboat",
            ModelClass::SmallBoat => "Small boat",
            ModelClass::Locomotive => "Locomotive",
            ModelClass::Unknown => "Unknown",
        }
    }

    /// Display position; classes sort by it.
    fn sort_key(self) -> (r: u8)
        ensures
            r as int == class_rank(self),
    {
        match self {
            ModelClass::Fighter => 0,
            ModelClass::FighterBomber => 1,
            ModelClass::Attack => 2,
            ModelClass::Bomber => 3,
            ModelClass::Transport => 4,
            ModelClass::Armor => 5,
            ModelClass::TankDestroyer => 6,
            ModelClass::Spg => 7,
            ModelClass::LightAaa => 8,
            ModelClass::RocketArtillery => 9,
            ModelClass::Truck => 10,
            ModelClass::Jeep => 11,
            ModelClass::Tractor => 12,
            ModelClass::Infantry => 13,
            ModelClass::LightFlak => 14,
            ModelClass::HeavyFlak => 15,
            ModelClass::Artillery => 16,
            ModelClass::Mortar => 17,
            ModelClass::MachineGun => 18,
            ModelClass::Radar => 19,
            ModelClass::Airfield => 20,
            ModelClass::Dummy => 21,
            ModelClass::CargoShip => 22,
            ModelClass::Destroyer => 23,
            ModelClass::TorpedoBoat => 24,
            ModelClass::LandingCraft => 25,
            ModelClass::Gunboat => 26,
            ModelClass::SmallBoat => 27,
            ModelClass::Locomotive => 28,
            ModelClass::Unknown => 29,
        }
    }
}

/// Every class, in display order.
pub open spec fn classes_by_rank() -> Seq<ModelClass> {
    seq![
        ModelClass::Fighter,
        ModelClass::FighterBomber,
        ModelClass::Attack,
        ModelClass::Bomber,
        ModelClass::Transport,
        ModelClass::Armor,
        ModelClass::TankDestroyer,
        ModelClass::Spg,
        ModelClass::LightAaa,
        ModelClass::RocketArtillery,
        ModelClass::Truck,
        ModelClass::Jeep,
        ModelClass::Tractor,
        ModelClass::Infantry,
        ModelClass::LightFlak,
        ModelClass::HeavyFlak,
        ModelClass::Artillery,
        ModelClass::Mortar,
        ModelClass::MachineGun,
        ModelClass::Radar,
        ModelClass::Airfield,
        ModelClass::Dummy,
        ModelClass::CargoShip,
        ModelClass::Destroyer,
        ModelClass::TorpedoBoat,
        ModelClass::LandingCraft,
        ModelClass::Gunboat,
        ModelClass::SmallBoat,
        ModelClass::Locomotive,
        ModelClass::Unknown,
    ]
}

fn classes_in_rank_order() -> (r: Vec<ModelClass>)
    ensures
        r@ == classes_by_rank(),
{
    let r = vec![
        ModelClass::Fighter,
        ModelClass::FighterBomber,
        ModelClass::Attack,
        ModelClass::Bomber,
        ModelClass::Transport,
        ModelClass::Armor,
        ModelClass::TankDestroyer,
        ModelClass::Spg,
        ModelClass::LightAaa,
        ModelClass::RocketArtillery,
        ModelClass::Truck,
        ModelClass::Jeep,
        ModelClass::Tractor,
        ModelClass::Infantry,
        ModelClass::LightFlak,
        ModelClass::HeavyFlak,
        ModelClass::Artillery,
        ModelClass::Mortar,
        ModelClass::MachineGun,
        ModelClass::Radar,
        ModelClass::Airfield,
        ModelClass::Dummy,
        ModelClass::CargoShip,
        ModelClass::Destroyer,
        ModelClass::TorpedoBoat,
        ModelClass::LandingCraft,
        ModelClass::Gunboat,
        ModelClass::SmallBoat,
        ModelClass::Locomotive,
        ModelClass::Unknown,
    ];
    proof {
        assert(r@ =~= classes_by_rank());
    }
    r
}

/// Known model ids (script file names without extension) and their classes.
pub open spec fn model_table() -> Seq<(Seq<char>, ModelClass)> {
    seq![
        ("b29"@, ModelClass::Bomber),
        ("simpleb29"@, ModelClass::Bomber),
        ("c47b"@, ModelClass::Transport),
        ("f51d"@, ModelClass::Fighter),
        ("f80c10"@, ModelClass::Fighter),
        ("f84e"@, ModelClass::FighterBomber),
        ("f86a5"@, ModelClass::Fighter),
        ("il10"@, ModelClass::Attack),
        ("la11"@, ModelClass::Fighter),
        ("li2t"@, ModelClass::Transport),
        ("mig15bis"@, ModelClass::Fighter),
        ("tu2"@, ModelClass::Bomber),
        ("yak9p"@, ModelClass::Fighter),
        ("ba64b"@, ModelClass::Armor),
        ("dodgewc52"@, ModelClass::Jeep),
        ("dodgewc54"@, ModelClass::Truck),
        ("gaz55"@, ModelClass::Truck),
        ("gaz63"@, ModelClass::Truck),
        ("gaz67b"@, ModelClass::Jeep),
        ("gmc-cckw"@, ModelClass::Truck),
        ("gmc-cckw-refueler"@, ModelClass::Truck),
        ("is2"@, ModelClass::Armor),
        ("isu122"@, ModelClass::TankDestroyer),
        ("m16-mgmc"@, ModelClass::LightAaa),
        ("m19"@, ModelClass::LightAaa),
        ("m3a1-halftrack"@, ModelClass::Armor),
        ("m40"@, ModelClass::Spg),
        ("m46"@, ModelClass::Armor),
        ("m4a3e8"@, ModelClass::Armor),
        ("m6-tractor"@, ModelClass::Tractor),
        ("m7b1"@, ModelClass::Spg),
        ("squad-mg-1950-dprk"@, ModelClass::Infantry),
        ("squad-mg-1950-prc"@, ModelClass::Infantry),
        ("squad-mg-1950-usa"@, ModelClass::Infantry),
        ("squad-rifle-1950-dprk"@, ModelClass::Infantry),
        ("squad-rifle-1950-prc"@, ModelClass::Infantry),
        ("squad-rifle-1950-usa"@, ModelClass::Infantry),
        ("squad-smg-1950-dprk"@, ModelClass::Infantry),
        ("squad-smg-1950-prc"@, ModelClass::Infantry),
        ("squad-smg-1950-usa"@, ModelClass::Infantry),
        ("studebakerus6"@, ModelClass::Truck),
        ("studebakerus6-bm13"@, ModelClass::RocketArtillery),
        ("studebakerus6-refueler"@, ModelClass::Truck),
        ("studebakerus6-tanker"@, ModelClass::Truck),
        ("su76m"@, ModelClass::TankDestroyer),
        ("t34-85"@, ModelClass::Armor),
        ("u7144"@, ModelClass::Truck),
        ("willysmb"@, ModelClass::Jeep),
        ("type475-1"@, ModelClass::Locomotive),
        ("usatc-s160"@, ModelClass::Locomotive),
        ("cargoship1"@, ModelClass::CargoShip),
        ("cargoship2"@, ModelClass::CargoShip),
        ("g5"@, ModelClass::TorpedoBoat),
        ("gleaves"@, ModelClass::Destroyer),
        ("lci"@, ModelClass::LandingCraft),
        ("lcvp"@, ModelClass::LandingCraft),
        ("libertyship"@, ModelClass::CargoShip),
        ("lst"@, ModelClass::LandingCraft),
        ("pinnace"@, ModelClass::SmallBoat),
        ("pinnace-gunboat"@, ModelClass::Gunboat),
        ("pinnace-landingcraft"@, ModelClass::LandingCraft),
        ("sampan"@, ModelClass::SmallBoat),
        ("sampan-landingcraft"@, ModelClass::LandingCraft),
        ("seiner"@, ModelClass::SmallBoat),
        ("seiner-gunboat"@, ModelClass::Gunboat),
        ("tankership"@, ModelClass::CargoShip),
        ("61k"@, ModelClass::LightFlak),
        ("72k"@, ModelClass::LightFlak),
        ("boforsl60"@, ModelClass::LightFlak),
        ("dshk-aa"@, ModelClass::LightFlak),
        ("m1919-aa"@, ModelClass::LightFlak),
        ("m2cal50-aa"@, ModelClass::LightFlak),
        ("sg-aa"@, ModelClass::LightFlak),
        ("zpuvz53"@, ModelClass::LightFlak),
        ("ks12"@, ModelClass::HeavyFlak),
        ("ks19"@, ModelClass::HeavyFlak),
        ("m1aaa120"@, ModelClass::HeavyFlak),
        ("m2aaa90"@, ModelClass::HeavyFlak),
        ("s60"@, ModelClass::HeavyFlak),
        ("m1a1-155mm"@, ModelClass::Artillery),
        ("m2-8inch"@, ModelClass::Artillery),
        ("m2a1-105mm"@, ModelClass::Artillery),
        ("m2-longtom"@, ModelClass::Artillery),
        ("m30"@, ModelClass::Artillery),
        ("ml20"@, ModelClass::Artillery),
        ("zis3"@, ModelClass::Artillery),
        ("bm37"@, ModelClass::Mortar),
        ("m29-mortar"@, ModelClass::Mortar),
        ("m30-mortar"@, ModelClass::Mortar),
        ("pm43"@, ModelClass::Mortar),
        ("dshk"@, ModelClass::MachineGun),
        ("m1919"@, ModelClass::MachineGun),
        ("m2cal50"@, ModelClass::MachineGun),
        ("sg"@, ModelClass::MachineGun),
        ("ancps1"@, ModelClass::Radar),
        ("ancps4"@, ModelClass::Radar),
        ("ancps6b"@, ModelClass::Radar),
        ("ancps6b-control"@, ModelClass::Radar),
        ("ancps6b-generator"@, ModelClass::Radar),
        ("antps1c"@, ModelClass::Radar),
        ("ge1942a"@, ModelClass::Radar),
        ("ge1942a-generator"@, ModelClass::Radar),
        ("p20"@, ModelClass::Radar),
        ("p8"@, ModelClass::Radar),
        ("p8-interrogator"@, ModelClass::Radar),
        ("rp15-1"@, ModelClass::Radar),
        ("t66"@, ModelClass::Mortar),
        ("ge1942a-landinglight"@, ModelClass::Airfield),
        ("flagstock-1950"@, ModelClass::Airfield),
        ("flagstock-small-1950"@, ModelClass::Airfield),
        ("ndb"@, ModelClass::Airfield),
        ("windsock"@, ModelClass::Airfield),
        ("windsock-small"@, ModelClass::Airfield),
        ("fake_object"@, ModelClass::Dummy),
        ("fake_object_primary"@, ModelClass::Dummy),
    ]
}

fn model_table_exec() -> (r: Vec<(&'static str, ModelClass)>)
    ensures
        r@.len() == model_table().len(),
        forall|k: int| 0 <= k < r@.len() ==> (#[trigger] r@[k].0@, r@[k].1) == model_table()[k],
{
    let r = vec![
        ("b29", ModelClass::Bomber),
        ("simpleb29", ModelClass::Bomber),
        ("c47b", ModelClass::Transport),
        ("f51d", ModelClass::Fighter),
        ("f80c10", ModelClass::Fighter),
        ("f84e", ModelClass::FighterBomber),
        ("f86a5", ModelClass::Fighter),
        ("il10", ModelClass::Attack),
        ("la11", ModelClass::Fighter),
        ("li2t", ModelClass::Transport),
        ("mig15bis", ModelClass::Fighter),
        ("tu2", ModelClass::Bomber),
        ("yak9p", ModelClass::Fighter),
        ("ba64b", ModelClass::Armor),
        ("dodgewc52", ModelClass::Jeep),
        ("dodgewc54", ModelClass::Truck),
        ("gaz55", ModelClass::Truck),
        ("gaz63", ModelClass::Truck),
        ("gaz67b", ModelClass::Jeep),
        ("gmc-cckw", ModelClass::Truck),
        ("gmc-cckw-refueler", ModelClass::Truck),
        ("is2", ModelClass::Armor),
        ("isu122", ModelClass::TankDestroyer),
        ("m16-mgmc", ModelClass::LightAaa),
        ("m19", ModelClass::LightAaa),
        ("m3a1-halftrack", ModelClass::Armor),
        ("m40", ModelClass::Spg),
        ("m46", ModelClass::Armor),
        ("m4a3e8", ModelClass::Armor),
        ("m6-tractor", ModelClass::Tractor),
        ("m7b1", ModelClass::Spg),
        ("squad-mg-1950-dprk", ModelClass::Infantry),
        ("squad-mg-1950-prc", ModelClass::Infantry),
        ("squad-mg-1950-usa", ModelClass::Infantry),
        ("squad-rifle-1950-dprk", ModelClass::Infantry),
        ("squad-rifle-1950-prc", ModelClass::Infantry),
        ("squad-rifle-1950-usa", ModelClass::Infantry),
        ("squad-smg-1950-dprk", ModelClass::Infantry),
        ("squad-smg-1950-prc", ModelClass::Infantry),
        ("squad-smg-1950-usa", ModelClass::Infantry),
        ("studebakerus6", ModelClass::Truck),
        ("studebakerus6-bm13", ModelClass::RocketArtillery),
        ("studebakerus6-refueler", ModelClass::Truck),
        ("studebakerus6-tanker", ModelClass::Truck),
        ("su76m", ModelClass::TankDestroyer),
        ("t34-85", ModelClass::Armor),
        ("u7144", ModelClass::Truck),
        ("willysmb", ModelClass::Jeep),
        ("type475-1", ModelClass::Locomotive),
        ("usatc-s160", ModelClass::Locomotive),
        ("cargoship1", ModelClass::CargoShip),
        ("cargoship2", ModelClass::CargoShip),
        ("g5", ModelClass::TorpedoBoat),
        ("gleaves", ModelClass::Destroyer),
        ("lci", ModelClass::LandingCraft),
        ("lcvp", ModelClass::LandingCraft),
        ("libertyship", ModelClass::CargoShip),
        ("lst", ModelClass::LandingCraft),
        ("pinnace", ModelClass::SmallBoat),
        ("pinnace-gunboat", ModelClass::Gunboat),
        ("pinnace-landingcraft", ModelClass::LandingCraft),
        ("sampan", ModelClass::SmallBoat),
        ("sampan-landingcraft", ModelClass::LandingCraft),
        ("seiner", ModelClass::SmallBoat),
        ("seiner-gunboat", ModelClass::Gunboat),
        ("tankership", ModelClass::CargoShip),
        ("61k", ModelClass::LightFlak),
        ("72k", ModelClass::LightFlak),
        ("boforsl60", ModelClass::LightFlak),
        ("dshk-aa", ModelClass::LightFlak),
        ("m1919-aa", ModelClass::LightFlak),
        ("m2cal50-aa", ModelClass::LightFlak),
        ("sg-aa", ModelClass::LightFlak),
        ("zpuvz53", ModelClass::LightFlak),
        ("ks12", ModelClass::HeavyFlak),
        ("ks19", ModelClass::HeavyFlak),
        ("m1aaa120", ModelClass::HeavyFlak),
        ("m2aaa90", ModelClass::HeavyFlak),
        ("s60", ModelClass::HeavyFlak),
        ("m1a1-155mm", ModelClass::Artillery),
        ("m2-8inch", ModelClass::Artillery),
        ("m2a1-105mm", ModelClass::Artillery),
        ("m2-longtom", ModelClass::Artillery),
        ("m30", ModelClass::Artillery),
        ("ml20", ModelClass::Artillery),
        ("zis3", ModelClass::Artillery),
        ("bm37", ModelClass::Mortar),
        ("m29-mortar", ModelClass::Mortar),
        ("m30-mortar", ModelClass::Mortar),
        ("pm43", ModelClass::Mortar),
        ("dshk", ModelClass::MachineGun),
        ("m1919", ModelClass::MachineGun),
        ("m2cal50", ModelClass::MachineGun),
        ("sg", ModelClass::MachineGun),
        ("ancps1", ModelClass::Radar),
        ("ancps4", ModelClass::Radar),
        ("ancps6b", ModelClass::Radar),
        ("ancps6b-control", ModelClass::Radar),
        ("ancps6b-generator", ModelClass::Radar),
        ("antps1c", ModelClass::Radar),
        ("ge1942a", ModelClass::Radar),
        ("ge1942a-generator", ModelClass::Radar),
        ("p20", ModelClass::Radar),
        ("p8", ModelClass::Radar),
        ("p8-interrogator", ModelClass::Radar),
        ("rp15-1", ModelClass::Radar),
        ("t66", ModelClass::Mortar),
        ("ge1942a-landinglight", ModelClass::Airfield),
        ("flagstock-1950", ModelClass::Airfield),
        ("flagstock-small-1950", ModelClass::Airfield),
        ("ndb", ModelClass::Airfield),
        ("windsock", ModelClass::Airfield),
        ("windsock-small", ModelClass::Airfield),
        ("fake_object", ModelClass::Dummy),
        ("fake_object_primary", ModelClass::Dummy),
    ];
    r
}

/// A model script's id: surrounding quotes dropped, the last path segment,
/// without `.txt`, lower-cased.
pub open spec fn script_id_of(script: Seq<char>) -> Seq<char> {
    let q = seq!['"'];
    let s1 = trim_end_all(trim_start_all(script, q), q);
    let s2 = s1.subrange(segment_start(s1) as int, s1.len() as int);
    let s3 = trim_end_all(s2, ".txt"@);
    lower_seq(trim_end_all(trim_start_all(s3, q), q))
}

/// Class of the first table entry with that id, `Unknown` when none.
pub open spec fn class_of_id(table: Seq<(Seq<char>, ModelClass)>, id: Seq<char>) -> ModelClass
    decreases table.len(),
{
    if table.len() == 0 {
        ModelClass::Unknown
    } else if table[0].0 == id {
        table[0].1
    } else {
        class_of_id(table.drop_first(), id)
    }
}

/// Class of the model a script names.
pub open spec fn script_class(script: Seq<char>) -> ModelClass {
    class_of_id(model_table(), script_id_of(script))
}

/// Model id of a script path: `LuaScripts\WorldObjects\Planes\mig15bis.txt`
/// gives `mig15bis`.
pub fn script_id(script: &str) -> (r: String)
    ensures
        r@ == script_id_of(script@),
{
    let cs = chars_of(script);
    let len = cs.len();
    proof {
        assert(cs@.subrange(0, len as int) =~= script@);
        reveal_strlit("\"");
        assert("\""@ =~= seq!['"']);
    }
    let a = trim_start_all_range(&cs, 0, len, "\"");
    let b = trim_end_all_range(&cs, a, len, "\"");
    let ghost s1 = cs@.subrange(a as int, b as int);
    let mut st = b;
    while st > a && cs[st - 1] != '\\' && cs[st - 1] != '/'
        invariant
            a <= st <= b <= len == cs@.len(),
            s1 == cs@.subrange(a as int, b as int),
            segment_start(s1) == segment_start(cs@.subrange(a as int, st as int)) + 0,
        decreases st,
    {
        proof {
            assert(cs@.subrange(a as int, st as int).drop_last() =~= cs@.subrange(a as int, st - 1));
        }
        st = st - 1;
    }
    proof {
        let p = cs@.subrange(a as int, st as int);
        if st > a {
            assert(p.last() == cs@[st - 1]);
        }
        assert(segment_start(p) == st - a);
        assert(s1.subrange(st - a, s1.len() as int) =~= cs@.subrange(st as int, b as int));
    }
    let e = trim_end_all_range(&cs, st, b, ".txt");
    let c = trim_start_all_range(&cs, st, e, "\"");
    let d = trim_end_all_range(&cs, c, e, "\"");
    let id = string_from_range(&cs, c, d);
    ascii_lower(id.as_str())
}

fn class_of_id_exec(id: &str) -> (r: ModelClass)
    ensures
        r == class_of_id(model_table(), id@),
{
    let table = model_table_exec();
    let ghost t = model_table();
    let mut i: usize = 0;
    proof {
        assert(t.skip(0) =~= t);
    }
    while i < table.len()
        invariant
            i <= table@.len(),
            table@.len() == t.len(),
            t == model_table(),
            forall|k: int| 0 <= k < table@.len() ==> (#[trigger] table@[k].0@, table@[k].1) == t[k],
            class_of_id(t, id@) == class_of_id(t.skip(i as int), id@),
        decreases table@.len() - i,
    {
        proof {
            assert((table@[i as int].0@, table@[i as int].1) == t[i as int]);
            assert(t.skip(i as int)[0] == t[i as int]);
            assert(t.skip(i as int).drop_first() =~= t.skip(i + 1));
        }
        if str_eq(table[i].0, id) {
            return table[i].1;
        }
        i = i + 1;
    }
    proof {
        assert(t.skip(i as int).len() == 0);
    }
    ModelClass::Unknown
}

/// Class of the model that `script` names (`Unknown` when not in the table).
pub fn class_for(script: &str) -> (r: ModelClass)
    ensures
        r == script_class(script@),
{
    let id = script_id(script);
    class_of_id_exec(id.as_str())
}

/// Classes present among `scripts`, each once, in display order.
pub open spec fn classes_present(scripts: Seq<Seq<char>>) -> Seq<ModelClass> {
    classes_by_rank().filter(|c: ModelClass| class_present(scripts, c))
}

/// Whether one of `scripts` names a model of class `c`.
pub open spec fn class_present(scripts: Seq<Seq<char>>, c: ModelClass) -> bool {
    exists|j: int| 0 <= j < scripts.len() && script_class(scripts[j]) == c
}

/// Classes present among `scripts`, display order (fighters before
/// transports, and so on).
pub fn classes_in(scripts: &[&str]) -> (r: Vec<ModelClass>)
    ensures
        r@ == classes_present(scripts@.map_values(|s: &str| s@)),
{
    let ghost ss = scripts@.map_values(|s: &str| s@);
    let mut found: Vec<ModelClass> = Vec::new();
    let mut j: usize = 0;
    while j < scripts.len()
        invariant
            j <= scripts@.len(),
            ss == scripts@.map_values(|s: &str| s@),
            found@.len() == j,
            forall|k: int| 0 <= k < j ==> #[trigger] found@[k] == script_class(ss[k]),
        decreases scripts@.len() - j,
    {
        found.push(class_for(scripts[j]));
        j = j + 1;
    }
    let order = classes_in_rank_order();
    let ghost order_s = classes_by_rank();
    let ghost pred: spec_fn(ModelClass) -> bool = |c: ModelClass| class_present(ss, c);
    let mut out: Vec<ModelClass> = Vec::new();
    let mut i: usize = 0;
    proof {
        reveal(Seq::filter);
        assert(order_s.take(0).filter(pred) =~= Seq::<ModelClass>::empty());
    }
    while i < order.len()
        invariant
            i <= order@.len(),
            order@ == order_s,
            order_s == classes_by_rank(),
            found@.len() == ss.len(),
            forall|k: int| 0 <= k < found@.len() ==> #[trigger] found@[k] == script_class(ss[k]),
            out@ == order_s.take(i as int).filter(pred),
            pred == (|c: ModelClass| class_present(ss, c)),
        decreases order@.len() - i,
    {
        let c = order[i];
        let mut present = false;
        let mut k: usize = 0;
        while k < found.len()
            invariant
                k <= found@.len(),
                found@.len() == ss.len(),
                forall|q: int| 0 <= q < found@.len() ==> #[trigger] found@[q] == script_class(ss[q]),
                present == exists|q: int| 0 <= q < k && script_class(ss[q]) == c,
            decreases found@.len() - k,
        {
            assert(found@[k as int] == script_class(ss[k as int]));
            if found[k] == c {
                present = true;
            }
            k = k + 1;
        }
        proof {
            assert(order_s.take(i + 1).drop_last() =~= order_s.take(i as int));
            assert(order_s.take(i + 1).last() == c);
            reveal(Seq::filter);
            assert(present == class_present(ss, c)) by {
                if class_present(ss, c) {
                    let q = choose|q: int| 0 <= q < ss.len() && script_class(ss[q]) == c;
                    assert(0 <= q < k);
                }
            }
        }
        proof {
            assert(pred(c) == class_present(ss, c));
            let t1 = order_s.take(i + 1);
            assert(t1.filter(pred) == (if pred(t1.last()) { t1.drop_last().filter(pred).push(t1.last()) } else { t1.drop_last().filter(pred) }));
        }
        if present {
            out.push(c);
        }
        i = i + 1;
    }
    proof {
        assert(order_s.take(i as int) =~= order_s);
    }
    out
}

/// Every known model id, in table order.
pub fn model_ids() -> (r: Vec<&'static str>)
    ensures
        r@.len() == model_table().len(),
        forall|k: int| 0 <= k < r@.len() ==> (#[trigger] r@[k])@ == model_table()[k].0,
{
    let table = model_table_exec();
    let mut r: Vec<&'static str> = Vec::new();
    let mut i: usize = 0;
    while i < table.len()
        invariant
            i <= table@.len(),
            table@.len() == model_table().len(),
            forall|k: int| 0 <= k < table@.len() ==> (#[trigger] table@[k].0@, table@[k].1) == model_table()[k],
            r@.len() == i,
            forall|k: int| 0 <= k < i ==> (#[trigger] r@[k])@ == model_table()[k].0,
        decreases table@.len() - i,
    {
        assert((table@[i as int].0@, table@[i as int].1) == model_table()[i as int]);
        r.push(table[i].0);
        i = i + 1;
    }
    r
}

} // verus!
