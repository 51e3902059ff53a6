//! Dense lookup from model coordinates to colour slots.
use vstd::prelude::*;

verus! {

/// Exclusive upper bound of a supported model coordinate on each axis.
pub const VOXEL_MAX_SIDE: usize = 255;

/// Number of cells in the dense lookup table (`VOXEL_MAX_SIDE` cubed).
pub const VOXEL_CELLS: usize = 16581375;

/// Cell of the dense table that holds position `(x, y, z)`.
pub open spec fn cell_index(x: int, y: int, z: int) -> int {
    x * 65025 + y * 255 + z
}

/// One voxel of a model: its position and the colour slot it is painted with.
#[derive(Clone, Copy, Debug, PartialEq, Eq)]
pub struct Voxel {
    pub x: u8,
    pub y: u8,
    pub z: u8,
    pub i: u8,
}

pub open spec fn in_range(v: Voxel) -> bool {
    v.x < 255 && v.y < 255 && v.z < 255
}

pub open spec fn voxel_cell(v: Voxel) -> int {
    cell_index(v.x as int, v.y as int, v.z as int)
}

/// Colour slot that the last voxel placed on `cell` carries, if any voxel lies there.
pub open spec fn last_slot(vs: Seq<Voxel>, cell: int) -> Option<u8>
    decreases vs.len(),
{
    if vs.len() == 0 {
        None
    } else if voxel_cell(vs.last()) == cell {
        Some(vs.last().i)
    } else {
        last_slot(vs.drop_last(), cell)
    }
}

/// Errors in the input model.
#[derive(Clone, Copy, Debug, PartialEq, Eq)]
pub enum ModelError {
    /// A voxel lies outside the supported coordinate range.
    VoxelOutOfRange,
    /// The model is larger than the supported coordinate range.
    SizeOutOfRange,
}

pub fn index_from_position(x: u8, y: u8, z: u8) -> (r: usize)
    ensures
        r as int == cell_index(x as int, y as int, z as int),
{
    assert(x as int * 255 * 255 <= 255 * 255 * 255) by (nonlinear_arith)
        requires x <= 255;
    assert(y as int * 255 <= 255 * 255) by (nonlinear_arith)
        requires y <= 255;
    x as usize * VOXEL_MAX_SIDE * VOXEL_MAX_SIDE + y as usize * VOXEL_MAX_SIDE + z as usize
}

/// Position of the `index`-th cell of a 16-sided chunk, first axis slowest.
pub fn position_from_index(index: usize) -> (r: (u8, u8, u8))
    requires
        index < 4096,
    ensures
        r.0 as int == index as int / 256,
        r.1 as int == (index as int % 256) / 16,
        r.2 as int == index as int % 16,
{
    let x = index / 256;
    let y = (index - x * 256) / 16;
    let z = index - x * 256 - y * 16;
    (x as u8, y as u8, z as u8)
}

/// What a dense table of cells holds at a position: nothing outside the
/// supported range.
pub open spec fn cell_at(cells: Seq<Option<u8>>, x: int, y: int, z: int) -> Option<u8> {
    if 0 <= x < 255 && 0 <= y < 255 && 0 <= z < 255 {
        cells[cell_index(x, y, z)]
    } else {
        None
    }
}

/// The table of a model's voxels: each cell holds the slot of the last voxel
/// placed on it.
pub open spec fn model_cells(voxels: Seq<Voxel>) -> Seq<Option<u8>> {
    Seq::new(VOXEL_CELLS as nat, |c: int| last_slot(voxels, c))
}

/// A dense table with one optional colour slot per supported position.
pub struct VoxelIndex {
    pub cells: Vec<Option<u8>>,
}

impl VoxelIndex {
    pub open spec fn wf(&self) -> bool {
        self.cells@.len() == VOXEL_CELLS
    }


    /// Builds the table from a model's voxels; a voxel outside the supported
    /// range is an error. Where voxels share a position the last one wins.
    pub fn from_voxels(voxels: &Vec<Voxel>) -> (r: Result<VoxelIndex, ModelError>)
        ensures
            r is Err <==> exists|k: int| 0 <= k < voxels@.len() && !in_range(#[trigger] voxels@[k]),
            r is Err ==> r == Err::<VoxelIndex, ModelError>(ModelError::VoxelOutOfRange),
            r matches Ok(t) ==> t.wf() && t.cells@ == model_cells(voxels@),
    {
        let mut k: usize = 0;
        while k < voxels.len()
            invariant
                k <= voxels@.len(),
                forall|j: int| 0 <= j < k ==> in_range(#[trigger] voxels@[j]),
            decreases voxels@.len() - k,
        {
            let v = voxels[k];
            if v.x as usize >= VOXEL_MAX_SIDE || v.y as usize >= VOXEL_MAX_SIDE
                || v.z as usize >= VOXEL_MAX_SIDE {
                return Err(ModelError::VoxelOutOfRange);
            }
            k = k + 1;
        }
        let mut cells: Vec<Option<u8>> = Vec::new();
        while cells.len() < VOXEL_CELLS
            invariant
                cells@.len() <= VOXEL_CELLS,
                forall|c: int| 0 <= c < cells@.len() ==> #[trigger] cells@[c] == None::<u8>,
            decreases VOXEL_CELLS - cells@.len(),
        {
            cells.push(None);
        }
        let mut k: usize = 0;
        while k < voxels.len()
            invariant
                k <= voxels@.len(),
                cells@.len() == VOXEL_CELLS,
                forall|j: int| 0 <= j < voxels@.len() ==> in_range(#[trigger] voxels@[j]),
                forall|c: int|
                    0 <= c < VOXEL_CELLS ==> #[trigger] cells@[c] == last_slot(
                        voxels@.take(k as int),
                        c,
                    ),
            decreases voxels@.len() - k,
        {
            let v = voxels[k];
            assert(in_range(voxels@[k as int]));
            let at = index_from_position(v.x, v.y, v.z);
            assert(voxel_cell(v) < VOXEL_CELLS) by (nonlinear_arith)
                requires
                    v.x < 255,
                    v.y < 255,
                    v.z < 255,
                    voxel_cell(v) == v.x * 65025 + v.y * 255 + v.z,
            ;
            cells.set(at, Some(v.i));
            assert(voxels@.take(k as int + 1).drop_last() =~= voxels@.take(k as int));
            k = k + 1;
        }
        assert(voxels@.take(voxels@.len() as int) =~= voxels@);
        assert(cells@ =~= model_cells(voxels@));
        Ok(VoxelIndex { cells })
    }

    /// The colour slot stored at a position; positions outside the supported
    /// range hold nothing.
    pub fn get(&self, x: u32, y: u32, z: u32) -> (r: Option<u8>)
        requires
            self.wf(),
        ensures
            r == cell_at(self.cells@, x as int, y as int, z as int),
    {
        if x >= 255 || y >= 255 || z >= 255 {
            None
        } else {
            let at = index_from_position(x as u8, y as u8, z as u8);
            assert(at < VOXEL_CELLS) by (nonlinear_arith)
                requires
                    x < 255,
                    y < 255,
                    z < 255,
                    at == x * 65025 + y * 255 + z,
            ;
            self.cells[at]
        }
    }
}

} // verus!
