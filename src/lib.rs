//! Conversion of voxel models into chiselled block pattern files.
//!
//! A model's voxels go into a dense [`voxel::VoxelIndex`]; each colour slot
//! the model uses gets the nearest block of a [`color::BlockPalette`]; the
//! model is cut into 16-sided chunks, each packed against the shared palette
//! ([`chunk::encode_chunk`]) and serialised into a pattern file
//! ([`codec::data_to_pattern`]). [`convert::create_patterns`] runs the whole
//! conversion of one model.
use vstd::prelude::*;

pub mod chunk;
pub mod codec;
pub mod color;
pub mod convert;
pub mod palette;
pub mod select;
pub mod voxel;

pub use chunk::{chunk_count, encode_chunk, entry_width, EncodedChunk};
pub use codec::{data_to_pattern, EncodeError};
pub use color::{BlockPalette, PaletteError};
pub use convert::{create_patterns, ConvertError, PatternFile};
pub use palette::{block_state, palette_mapping, shared_palette, used_colors};
pub use select::{ModelGroup, SelectError};
pub use voxel::{index_from_position, position_from_index, ModelError, Voxel, VoxelIndex};

verus! {

} // verus!
