use vox2cb::{
    chunk_count, encode_chunk, entry_width, index_from_position, palette_mapping,
    position_from_index, used_colors, ModelError, Voxel, VoxelIndex,
};

fn voxel(x: u8, y: u8, z: u8, i: u8) -> Voxel {
    Voxel { x, y, z, i }
}

#[test]
fn index_from_position_is_row_major() {
    assert_eq!(index_from_position(0, 0, 0), 0);
    assert_eq!(index_from_position(1, 2, 3), 65025 + 2 * 255 + 3);
    assert_eq!(index_from_position(254, 254, 254), 255 * 255 * 255 - 1);
}

#[test]
fn position_from_index_splits_chunk_cells() {
    assert_eq!(position_from_index(0), (0, 0, 0));
    assert_eq!(position_from_index(256 + 16 + 1), (1, 1, 1));
    assert_eq!(position_from_index(4095), (15, 15, 15));
    assert_eq!(position_from_index(17), (0, 1, 1));
}

#[test]
fn voxel_index_rejects_out_of_range() {
    let r = VoxelIndex::from_voxels(&vec![voxel(1, 1, 1, 0), voxel(255, 0, 0, 1)]);
    assert!(matches!(r, Err(ModelError::VoxelOutOfRange)));
}

#[test]
fn voxel_index_last_voxel_wins() {
    let t = VoxelIndex::from_voxels(&vec![voxel(3, 4, 5, 1), voxel(3, 4, 5, 9)]).unwrap();
    assert_eq!(t.get(3, 4, 5), Some(9));
    assert_eq!(t.get(4, 3, 5), None);
    assert_eq!(t.get(300, 0, 0), None);
}

#[test]
fn used_colors_keep_first_use_order() {
    let vs = vec![voxel(0, 0, 0, 5), voxel(1, 0, 0, 3), voxel(2, 0, 0, 5), voxel(3, 0, 0, 7)];
    assert_eq!(used_colors(&vs), vec![5, 3, 7]);
    assert_eq!(used_colors(&vec![]), Vec::<u8>::new());
}

#[test]
fn mapping_points_unused_slots_at_air() {
    let m = palette_mapping(&vec![5, 3, 7]);
    assert_eq!(m.len(), 256);
    assert_eq!(m[5], 0);
    assert_eq!(m[3], 1);
    assert_eq!(m[7], 2);
    assert_eq!(m[0], 3);
    assert_eq!(m[255], 3);
}

#[test]
fn chunk_count_rounds_up() {
    assert_eq!(chunk_count(0), 0);
    assert_eq!(chunk_count(1), 1);
    assert_eq!(chunk_count(16), 1);
    assert_eq!(chunk_count(17), 2);
    assert_eq!(chunk_count(256), 16);
}

#[test]
fn entry_width_is_ceil_log2() {
    assert_eq!(entry_width(1), 0);
    assert_eq!(entry_width(2), 1);
    assert_eq!(entry_width(3), 2);
    assert_eq!(entry_width(4), 2);
    assert_eq!(entry_width(5), 3);
    assert_eq!(entry_width(256), 8);
    assert_eq!(entry_width(257), 9);
}

fn one_color_mapping() -> Vec<u16> {
    palette_mapping(&vec![1])
}

#[test]
fn all_air_chunk_gives_nothing() {
    let t = VoxelIndex::from_voxels(&vec![voxel(20, 0, 0, 1)]).unwrap();
    assert!(encode_chunk(&t, &one_color_mapping(), 2, (0, 0, 0)).is_none());
    assert!(encode_chunk(&t, &one_color_mapping(), 2, (16, 0, 0)).is_some());
}

#[test]
fn single_voxel_packs_least_significant_bit_first() {
    let t = VoxelIndex::from_voxels(&vec![voxel(0, 0, 0, 1)]).unwrap();
    let c = encode_chunk(&t, &one_color_mapping(), 2, (0, 0, 0)).unwrap();
    assert_eq!(c.width, 1);
    assert_eq!(c.data.len(), 512);
    assert_eq!(c.data[0], 0b1111_1110);
    assert!(c.data[1..].iter().all(|b| *b == 0xff));
    assert_eq!(c.counts, vec![1, 4095]);
}

#[test]
fn chunk_axes_follow_the_pattern_order() {
    // model x runs along the chunk's third local axis
    let t = VoxelIndex::from_voxels(&vec![voxel(1, 0, 0, 1)]).unwrap();
    let c = encode_chunk(&t, &one_color_mapping(), 2, (0, 0, 0)).unwrap();
    assert_eq!(c.data[0], 0b1111_1101);
    // model y runs along the first local axis
    let t = VoxelIndex::from_voxels(&vec![voxel(0, 1, 0, 1)]).unwrap();
    let c = encode_chunk(&t, &one_color_mapping(), 2, (0, 0, 0)).unwrap();
    assert_eq!(c.data[32], 0b1111_1110);
    assert_eq!(c.data[0], 0xff);
    // model z runs along the second local axis
    let t = VoxelIndex::from_voxels(&vec![voxel(0, 0, 1, 1)]).unwrap();
    let c = encode_chunk(&t, &one_color_mapping(), 2, (0, 0, 0)).unwrap();
    assert_eq!(c.data[2], 0b1111_1110);
}

#[test]
fn chunk_offset_moves_the_window() {
    let t = VoxelIndex::from_voxels(&vec![voxel(17, 0, 0, 1)]).unwrap();
    let c = encode_chunk(&t, &one_color_mapping(), 2, (16, 0, 0)).unwrap();
    assert_eq!(c.data[0], 0b1111_1101);
}

#[test]
fn wide_palette_uses_wider_entries() {
    let used: Vec<u8> = vec![0, 1, 2, 3, 4];
    let m = palette_mapping(&used);
    let t = VoxelIndex::from_voxels(&vec![voxel(0, 0, 0, 4), voxel(1, 0, 0, 2)]).unwrap();
    let c = encode_chunk(&t, &m, 6, (0, 0, 0)).unwrap();
    assert_eq!(c.width, 3);
    assert_eq!(c.data.len(), 4096 * 3 / 8);
    // entries 4, 2, then air (5) packed three bits each, first bit least significant
    assert_eq!(c.data[0], 4 | (2 << 3) | ((5 & 0b11) << 6));
    assert_eq!(c.counts, vec![0, 0, 1, 0, 1, 4094]);
}
