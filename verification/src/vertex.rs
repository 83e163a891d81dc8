//! Vertices and the bounding-box reduction.

use vstd::prelude::*;
use crate::PcError;

verus! {

/// Largest coordinate magnitude the library admits, in fixed-point units
/// (a millionth of the input's physical unit): one quintillion units, i.e.
/// one trillion whole physical units. Keeps every later sum and scaled
/// product inside `i64`.
pub const COORD_LIMIT: i64 = 1_000_000_000_000_000_000;

/// One 3D point of the cloud. Each coordinate is a fixed-point number in
/// millionths of the input's physical unit.
#[derive(Clone, Copy, Debug, PartialEq, Eq, Structural)]
pub struct Vertex {
    pub x: i64,
    pub y: i64,
    pub z: i64,
}

impl Vertex {
    /// All three coordinates are inside the admitted range.
    pub open spec fn wf(self) -> bool {
        &&& -COORD_LIMIT <= self.x <= COORD_LIMIT
        &&& -COORD_LIMIT <= self.y <= COORD_LIMIT
        &&& -COORD_LIMIT <= self.z <= COORD_LIMIT
    }
}

/// The least and greatest observed coordinate on each axis.
#[derive(Clone, Copy, Debug, PartialEq, Eq, Structural)]
pub struct BoundingBox {
    pub min: Vertex,
    pub max: Vertex,
}

impl BoundingBox {
    /// Axis-wise ordering of the two corners.
    pub open spec fn wf(self) -> bool {
        &&& self.min.x <= self.max.x
        &&& self.min.y <= self.max.y
        &&& self.min.z <= self.max.z
    }

    /// The vertex lies inside the box on every axis.
    pub open spec fn contains(self, v: Vertex) -> bool {
        &&& self.min.x <= v.x <= self.max.x
        &&& self.min.y <= v.y <= self.max.y
        &&& self.min.z <= v.z <= self.max.z
    }
}

/// The box is exactly the axis-wise minimum and maximum of the vertices:
/// it contains them all and each face touches one of them.
pub open spec fn exact_bounds(bb: BoundingBox, vs: Seq<Vertex>) -> bool {
    &&& forall|j: int| 0 <= j < vs.len() ==> bb.contains(#[trigger] vs[j])
    &&& exists|j: int| 0 <= j < vs.len() && #[trigger] vs[j].x == bb.min.x
    &&& exists|j: int| 0 <= j < vs.len() && #[trigger] vs[j].y == bb.min.y
    &&& exists|j: int| 0 <= j < vs.len() && #[trigger] vs[j].z == bb.min.z
    &&& exists|j: int| 0 <= j < vs.len() && #[trigger] vs[j].x == bb.max.x
    &&& exists|j: int| 0 <= j < vs.len() && #[trigger] vs[j].y == bb.max.y
    &&& exists|j: int| 0 <= j < vs.len() && #[trigger] vs[j].z == bb.max.z
}

/// Folds one pass of the vertex sequence into its bounding box, updating the
/// minimum and the maximum of each axis independently, so that the result is
/// the exact extent of the input. An empty sequence is `EmptyInput`.
pub fn find_bounds(vs: &Vec<Vertex>) -> (r: Result<BoundingBox, PcError>)
    ensures
        vs@.len() == 0 <==> r == Err::<BoundingBox, PcError>(PcError::EmptyInput),
        match r {
            Ok(bb) => bb.wf() && exact_bounds(bb, vs@),
            Err(e) => e == PcError::EmptyInput,
        },
{
    if vs.len() == 0 {
        return Err(PcError::EmptyInput);
    }
    let first = vs[0];
    let mut bb = BoundingBox { min: first, max: first };
    let mut i: usize = 1;
    proof {
        let s = vs@.take(1);
        assert(s[0] == first);
        assert(s[0].x == first.x && s[0].y == first.y && s[0].z == first.z);
    }
    while i < vs.len()
        invariant
            1 <= i <= vs@.len(),
            bb.wf(),
            exact_bounds(bb, vs@.take(i as int)),
        decreases vs@.len() - i,
    {
        let v = vs[i];
        if v.x < bb.min.x {
            bb.min.x = v.x;
        }
        if v.x > bb.max.x {
            bb.max.x = v.x;
        }
        if v.y < bb.min.y {
            bb.min.y = v.y;
        }
        if v.y > bb.max.y {
            bb.max.y = v.y;
        }
        if v.z < bb.min.z {
            bb.min.z = v.z;
        }
        if v.z > bb.max.z {
            bb.max.z = v.z;
        }
        i = i + 1;
        assert(vs@.take(i as int).drop_last() =~= vs@.take(i - 1));
        assert(vs@.take(i as int).last() == vs@[i - 1]);
    }
    assert(vs@.take(vs@.len() as int) =~= vs@);
    Ok(bb)
}

} // verus!
