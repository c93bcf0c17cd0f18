//! Korea map catalog points: airfields and buildings are `MCU_Waypoint`
//! blocks listed under the catalog sections of the scenery's MARKS groups.
//! Reading the files and their positions is left to the caller.

use vstd::prelude::*;
use crate::ast::{EntityModel, Il2Entity, lemma_children_model, name_of};
use crate::text::str_eq;

verus! {

/// What a catalog point stands for.
#[derive(Clone, Copy, Debug, PartialEq, Eq, Structural)]
pub enum PointKind {
    Airfield,
    Building,
}

/// The catalog section a block's children belong to: its own when it is a
/// section group, else its parent's.
pub open spec fn section_of(name: Option<Seq<char>>, parent: Option<Seq<char>>) -> Option<Seq<char>> {
    if name == Some("AIRFIELDS"@) {
        Some("AIRFIELDS"@)
    } else if name == Some("CITIES"@) {
        Some("CITIES"@)
    } else if name == Some("RW_STATIONS"@) {
        Some("RW_STATIONS"@)
    } else if name == Some("MILITARY_CAMP"@) {
        Some("MILITARY_CAMP"@)
    } else if name == Some("INDUSTRIAL zones and ports"@) {
        Some("INDUSTRIAL"@)
    } else {
        parent
    }
}

/// The kind of point a section lists.
pub open spec fn kind_for(parent: Option<Seq<char>>) -> Option<PointKind> {
    if parent == Some("AIRFIELDS"@) {
        Some(PointKind::Airfield)
    } else if parent == Some("CITIES"@) || parent == Some("RW_STATIONS"@) || parent == Some("MILITARY_CAMP"@) || parent
        == Some("INDUSTRIAL"@) {
        Some(PointKind::Building)
    } else {
        None
    }
}

pub open spec fn opt_view(o: Option<&str>) -> Option<Seq<char>> {
    match o {
        Some(s) => Some(s@),
        None => None,
    }
}

/// The kind of point listed under section `parent`.
pub fn kind_for_parent(parent: Option<&str>) -> (r: Option<PointKind>)
    ensures
        r == kind_for(opt_view(parent)),
{
    match parent {
        Some(p) => {
            if str_eq(p, "AIRFIELDS") {
                Some(PointKind::Airfield)
            } else if str_eq(p, "CITIES") || str_eq(p, "RW_STATIONS") || str_eq(p, "MILITARY_CAMP") || str_eq(p, "INDUSTRIAL") {
                Some(PointKind::Building)
            } else {
                None
            }
        },
        None => None,
    }
}

fn section(name: Option<&str>, parent: Option<&'static str>) -> (r: Option<&'static str>)
    ensures
        opt_view(r) == section_of(opt_view(name), opt_view(parent)),
{
    match name {
        Some(n) => {
            if str_eq(n, "AIRFIELDS") {
                Some("AIRFIELDS")
            } else if str_eq(n, "CITIES") {
                Some("CITIES")
            } else if str_eq(n, "RW_STATIONS") {
                Some("RW_STATIONS")
            } else if str_eq(n, "MILITARY_CAMP") {
                Some("MILITARY_CAMP")
            } else if str_eq(n, "INDUSTRIAL zones and ports") {
                Some("INDUSTRIAL")
            } else {
                parent
            }
        },
        None => parent,
    }
}

/// The catalog waypoints of `e` (inside section `parent`) with their
/// kinds, in pre-order.
pub open spec fn marks(e: EntityModel, parent: Option<Seq<char>>) -> Seq<(EntityModel, PointKind)>
    decreases e,
{
    let here: Seq<(EntityModel, PointKind)> = if e.block_type == "MCU_Waypoint"@ && kind_for(parent) is Some {
        seq![(e, kind_for(parent)->0)]
    } else {
        seq![]
    };
    here + marks_list(e.children, section_of(name_of(e), parent))
}

pub open spec fn marks_list(cs: Seq<EntityModel>, parent: Option<Seq<char>>) -> Seq<(EntityModel, PointKind)>
    decreases cs,
{
    if cs.len() == 0 {
        seq![]
    } else {
        marks(cs[0], parent) + marks_list(cs.drop_first(), parent)
    }
}

pub open spec fn marks_view(v: Seq<(Il2Entity, PointKind)>) -> Seq<(EntityModel, PointKind)> {
    Seq::new(v.len(), |i: int| (v[i].0@, v[i].1))
}

fn collect_marks(e: &Il2Entity, parent: Option<&'static str>, out: &mut Vec<(Il2Entity, PointKind)>)
    ensures
        marks_view(final(out)@) == marks_view(old(out)@) + marks(e@, opt_view(parent)),
    decreases e,
{
    let ghost start = marks_view(out@);
    if str_eq(e.block_type.as_str(), "MCU_Waypoint") {
        match kind_for_parent(parent) {
            Some(kind) => {
                out.push((e.deep_copy(), kind));
            },
            None => {},
        }
    }
    let ghost here = marks_view(out@);
    proof {
        let h: Seq<(EntityModel, PointKind)> = if e@.block_type == "MCU_Waypoint"@ && kind_for(opt_view(parent)) is Some {
            seq![(e@, kind_for(opt_view(parent))->0)]
        } else {
            seq![]
        };
        assert(here =~= start + h);
        lemma_children_model(*e);
        assert(e@.children.skip(0) =~= e@.children);
    }
    let next = section(e.name(), parent);
    let ghost cs = e@.children;
    let mut i: usize = 0;
    while i < e.children.len()
        invariant
            i <= e.children@.len(),
            cs == e@.children,
            cs.len() == e.children@.len(),
            forall|j: int| 0 <= j < cs.len() ==> #[trigger] cs[j] == e.children@[j]@,
            here + marks_list(cs, opt_view(next)) == marks_view(out@) + marks_list(cs.skip(i as int), opt_view(next)),
        decreases e.children@.len() - i,
    {
        proof {
            assert(decreases_to!(*e => e.children));
            assert(decreases_to!(e.children => e.children@));
            assert(decreases_to!(e.children@ => e.children@[i as int]));
            let sk = cs.skip(i as int);
            assert(sk[0] == cs[i as int]);
            assert(sk.drop_first() =~= cs.skip(i + 1));
        }
        let ghost before = marks_view(out@);
        collect_marks(&e.children[i], next, out);
        proof {
            assert(marks_view(out@) + marks_list(cs.skip(i + 1), opt_view(next)) =~= before + marks_list(
                cs.skip(i as int),
                opt_view(next),
            ));
        }
        i = i + 1;
    }
    proof {
        assert(cs.skip(i as int) =~= Seq::<EntityModel>::empty());
        assert(marks_view(out@) =~= start + marks(e@, opt_view(parent)));
    }
}

/// The catalog waypoints of a scenery or airfield block, with their kinds,
/// in pre-order.
pub fn catalog_marks(e: &Il2Entity) -> (r: Vec<(Il2Entity, PointKind)>)
    ensures
        marks_view(r@) == marks(e@, None),
{
    let mut out: Vec<(Il2Entity, PointKind)> = Vec::new();
    proof {
        assert(marks_view(out@) =~= Seq::<(EntityModel, PointKind)>::empty());
    }
    collect_marks(e, None, &mut out);
    proof {
        assert(marks_view(out@) =~= marks(e@, None));
    }
    out
}

} // verus!
