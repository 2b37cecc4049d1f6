//! The building elements, the rule that says which of them stand in the way,
//! and the scene they form.

use vstd::prelude::*;
use crate::math::vector::{fits_i64, Vector3};

pub mod bounds;

pub use self::bounds::{enclosing, Bounds};

verus! {

/// A building element: its box, the class of element it is, where known, and
/// whether it can be passed through, where stated.
#[derive(Debug)]
pub struct BBox {
    pub bounds: Bounds,
    pub class: Option<String>,
    pub penetrable: Option<bool>,
}

impl Clone for BBox {
    /// A copy with the same box and tags.
    fn clone(&self) -> (copy: Self)
        ensures
            copy == *self,
    {
        let class = match &self.class {
            Some(tag) => Some(tag.clone()),
            None => None,
        };
        BBox { bounds: self.bounds, class, penetrable: self.penetrable }
    }
}

/// `str::eq`, the `==` of string slices in the standard library. It compares
/// the bytes of the two slices, so its result tells whether both hold the same
/// characters. Taken on trust.
pub assume_specification[ <str as PartialEq>::eq ](a: &str, b: &str) -> (same: bool)
    ensures
        same == (a@ == b@),
;

/// Whether elements of the class named by `tag` are solid: structure, fixtures
/// and furnishings that stand in the way. Every other class is not.
pub open spec fn is_solid_class(tag: Seq<char>) -> bool {
    ||| tag == "IfcColumn"@
    ||| tag == "IfcSlab"@
    ||| tag == "IfcSanitaryTerminal"@
    ||| tag == "IfcRoof"@
    ||| tag == "IfcWall"@
    ||| tag == "IfcBeam"@
    ||| tag == "IfcCovering"@
    ||| tag == "IfcBuildingElementProxy"@
    ||| tag == "IfcStairFlight"@
    ||| tag == "IfcFurnishingElement"@
    ||| tag == "IfcFooting"@
    ||| tag == "IfcWallStandardCase"@
    ||| tag == "IfcRailing"@
}

/// Whether elements of the class named by `tag` are solid.
fn solid_class(tag: &str) -> (solid: bool)
    ensures
        solid == is_solid_class(tag@),
{
    tag.eq("IfcColumn") || tag.eq("IfcSlab") || tag.eq("IfcSanitaryTerminal") || tag.eq("IfcRoof")
        || tag.eq("IfcWall") || tag.eq("IfcBeam") || tag.eq("IfcCovering") || tag.eq(
        "IfcBuildingElementProxy",
    ) || tag.eq("IfcStairFlight") || tag.eq("IfcFurnishingElement") || tag.eq("IfcFooting")
        || tag.eq("IfcWallStandardCase") || tag.eq("IfcRailing")
}

/// A building element as it is recorded: the least corner of its box, the
/// lengths of the box along the axes, and the two optional tags.
#[derive(Debug)]
pub struct BoxRecord {
    pub x: i64,
    pub y: i64,
    pub z: i64,
    pub x_dist: i64,
    pub y_dist: i64,
    pub z_dist: i64,
    pub class: Option<String>,
    pub penetrable: Option<bool>,
}

impl BoxRecord {
    /// Whether the greatest corner of the recorded box is on the lattice.
    pub open spec fn in_range(self) -> bool {
        &&& fits_i64(self.x + self.x_dist)
        &&& fits_i64(self.y + self.y_dist)
        &&& fits_i64(self.z + self.z_dist)
    }

    /// The element that is recorded: its box reaches from the recorded corner
    /// over the recorded lengths.
    pub open spec fn element(self) -> BBox {
        BBox {
            bounds: Bounds {
                min: Vector3 { x: self.x, y: self.y, z: self.z },
                max: Vector3 {
                    x: (self.x + self.x_dist) as i64,
                    y: (self.y + self.y_dist) as i64,
                    z: (self.z + self.z_dist) as i64,
                },
            },
            class: self.class,
            penetrable: self.penetrable,
        }
    }
}

/// The elements that the records of a list stand for, in their order.
pub open spec fn elements_of(records: Seq<BoxRecord>) -> Seq<BBox> {
    records.map_values(|record: BoxRecord| record.element())
}

impl BBox {
    /// Whether the element stands in the way. An element stated to be
    /// impenetrable does, whatever its class; otherwise an element does if its
    /// class is known and solid.
    pub open spec fn blocks_movement(self) -> bool {
        self.penetrable == Some(false) || (self.class is Some && is_solid_class(
            self.class->0@,
        ))
    }

    /// Whether the element stands in the way and so takes part in the indexes.
    pub fn is_blocking(&self) -> (blocking: bool)
        ensures
            blocking == self.blocks_movement(),
            self.penetrable == Some(false) ==> blocking,
    {
        if let Some(penetrable) = self.penetrable {
            if !penetrable {
                return true;
            }
        }
        if let Some(ifc_class) = &self.class {
            solid_class(ifc_class.as_str())
        } else {
            false
        }
    }

    /// The element of a record: its box reaches from the recorded corner over
    /// the recorded lengths.
    pub fn from_record(value: BoxRecord) -> (element: BBox)
        requires
            value.in_range(),
        ensures
            element == value.element(),
    {
        BBox {
            bounds: Bounds::new(
                Vector3::new(value.x, value.y, value.z),
                Vector3::new(value.x + value.x_dist, value.y + value.y_dist, value.z + value.z_dist),
            ),
            class: value.class,
            penetrable: value.penetrable,
        }
    }
}

/// The elements of the list that stand in the way, in their order.
pub open spec fn blocking(elements: Seq<BBox>) -> Seq<BBox> {
    elements.filter(|element: BBox| element.blocks_movement())
}

/// The boxes of the elements, in their order.
pub open spec fn boxes_of(elements: Seq<BBox>) -> Seq<Bounds> {
    elements.map_values(|element: BBox| element.bounds)
}

/// Copies of the elements of the list that stand in the way, in their order.
fn select_blocking(elements: &Vec<BBox>) -> (chosen: Vec<BBox>)
    ensures
        chosen@ == blocking(elements@),
{
    let mut chosen: Vec<BBox> = Vec::new();
    let mut i: usize = 0;
    while i < elements.len()
        invariant
            i <= elements.len(),
            chosen@ == blocking(elements@.take(i as int)),
        decreases elements.len() - i,
    {
        proof {
            assert(elements@.take(i + 1) =~= elements@.take(i as int).push(elements@[i as int]));
            elements@.take(i as int).lemma_filter_push(
                elements@[i as int],
                |element: BBox| element.blocks_movement(),
            );
        }
        if elements[i].is_blocking() {
            chosen.push(elements[i].clone());
        }
        i += 1;
    }
    assert(elements@.take(i as int) =~= elements@);
    chosen
}

/// The boxes of the elements, in their order.
fn collect_boxes(elements: &Vec<BBox>) -> (boxes: Vec<Bounds>)
    ensures
        boxes@ == boxes_of(elements@),
{
    let mut boxes: Vec<Bounds> = Vec::new();
    let mut i: usize = 0;
    while i < elements.len()
        invariant
            i <= elements.len(),
            boxes@ == boxes_of(elements@.take(i as int)),
        decreases elements.len() - i,
    {
        boxes.push(elements[i].bounds);
        assert(boxes@ =~= boxes_of(elements@.take(i + 1)));
        i += 1;
    }
    assert(elements@.take(i as int) =~= elements@);
    boxes
}

/// A room with the elements in it.
pub struct Scene {
    pub room: BBox,
    pub obstacles: Vec<BBox>,
    pub bounds: Bounds,
}

/// A scene as it is recorded: the room and the elements in it.
pub struct SceneRecord {
    pub room: BoxRecord,
    pub obstacles: Vec<BoxRecord>,
}

impl SceneRecord {
    /// Whether every recorded box has its greatest corner on the lattice.
    pub open spec fn in_range(self) -> bool {
        &&& self.room.in_range()
        &&& forall|i: int| 0 <= i < self.obstacles@.len() ==> #[trigger] self.obstacles@[i].in_range()
    }
}

impl Scene {
    /// Whether `bounds` is what the obstacles give: the smallest box that
    /// encloses every obstacle that stands in the way, and the box that is the
    /// single point at the origin where none does.
    pub open spec fn well_formed(self) -> bool {
        self.bounds == enclosing(boxes_of(blocking(self.obstacles@)))
    }

    /// The scene of a room and the elements in it.
    pub fn new(room: BBox, obstacles: Vec<BBox>) -> (scene: Scene)
        ensures
            scene.room == room,
            scene.obstacles == obstacles,
            scene.well_formed(),
    {
        let chosen = select_blocking(&obstacles);
        let boxes = collect_boxes(&chosen);
        let bounds = Bounds::from(&boxes);
        Scene { room, obstacles, bounds }
    }

    /// The scene of a record: each recorded element in its order.
    pub fn from_record(value: SceneRecord) -> (scene: Scene)
        requires
            value.in_range(),
        ensures
            scene.room == value.room.element(),
            scene.obstacles@ == elements_of(value.obstacles@),
            scene.well_formed(),
    {
        let ghost records = value.obstacles@;
        let mut obstacles: Vec<BBox> = Vec::new();
        for record in iter: value.obstacles
            invariant
                iter.seq() == records,
                forall|i: int| 0 <= i < records.len() ==> #[trigger] records[i].in_range(),
                obstacles@ == elements_of(records.take(iter.index() as int)),
        {
            assert(records.take(iter.index() + 1).drop_last() =~= records.take(iter.index() as int));
            obstacles.push(BBox::from_record(record));
            assert(obstacles@ =~= elements_of(records.take(iter.index() + 1)));
        }
        assert(records.take(records.len() as int) =~= records);
        Scene::new(BBox::from_record(value.room), obstacles)
    }

    /// The box of every element of the scene, in the order of the elements.
    pub fn get_bounds_instances(&self) -> (boxes: Vec<Bounds>)
        ensures
            boxes@ == boxes_of(self.obstacles@),
    {
        collect_boxes(&self.obstacles)
    }

    /// The elements of the scene that stand in the way, in their order.
    pub fn get_obstacles(&self) -> (obstacles: Vec<BBox>)
        ensures
            obstacles@ == blocking(self.obstacles@),
    {
        select_blocking(&self.obstacles)
    }
}

} // verus!
