use std::io::Read;

use base64::Engine;
use fastnbt::Value;
use vox2cb::{
    block_state, create_patterns, data_to_pattern, shared_palette, BlockPalette, ConvertError,
    ModelError, ModelGroup, PaletteError, SelectError, Voxel,
};

fn compound(v: &Value) -> &std::collections::HashMap<String, Value> {
    match v {
        Value::Compound(m) => m,
        other => panic!("not a compound: {:?}", other),
    }
}

/// Undoes every layer of a pattern file and returns the chunk document.
fn decode(pattern: &[u8]) -> Value {
    let outer = miniz_oxide::inflate::decompress_to_vec_zlib(pattern).unwrap();
    let json = base64::engine::general_purpose::STANDARD.decode(&outer).unwrap();
    let json: serde_json::Value = serde_json::from_slice(&json).unwrap();
    assert_eq!(json["version"], serde_json::Value::String("1.0".to_string()));
    let text = json["chiselData"].as_str().unwrap();
    let container = base64::engine::general_purpose::STANDARD.decode(text).unwrap();
    let container: Value = fastnbt::from_bytes(&container).unwrap();
    let top = compound(&container);
    assert_eq!(top["version"], Value::Int(0));
    let data = compound(&top["data"]);
    assert_eq!(data["compressed"], Value::Byte(1));
    let compressed: Vec<u8> = match &data["data"] {
        Value::ByteArray(b) => b.iter().map(|x| *x as u8).collect(),
        other => panic!("not a byte array: {:?}", other),
    };
    let mut document = Vec::new();
    lz4_flex::frame::FrameDecoder::new(compressed.as_slice()).read_to_end(&mut document).unwrap();
    fastnbt::from_bytes(&document).unwrap()
}

fn states_of(list: &Value) -> Vec<String> {
    match list {
        Value::List(items) => items
            .iter()
            .map(|e| match &compound(e)["state"] {
                Value::String(s) => s.clone(),
                other => panic!("not a string: {:?}", other),
            })
            .collect(),
        other => panic!("not a list: {:?}", other),
    }
}

fn chunk_palette(document: &Value) -> Vec<String> {
    states_of(&compound(&compound(document)["chiseledData"])["palette"])
}

fn chunk_bytes(document: &Value) -> Vec<u8> {
    match &compound(&compound(document)["chiseledData"])["data"] {
        Value::ByteArray(b) => b.iter().map(|x| *x as u8).collect(),
        other => panic!("not a byte array: {:?}", other),
    }
}

fn stone_palette() -> Vec<String> {
    let mut m = vec![String::new(); 256];
    m[1] = "minecraft:stone".to_string();
    m[2] = "minecraft:dirt".to_string();
    m
}

fn fill(x0: u8, x1: u8, y1: u8, z1: u8, i: u8) -> Vec<Voxel> {
    let mut vs = Vec::new();
    for x in x0..x1 {
        for y in 0..y1 {
            for z in 0..z1 {
                vs.push(Voxel { x, y, z, i });
            }
        }
    }
    vs
}

#[test]
fn block_state_wraps_the_name() {
    assert_eq!(block_state("minecraft:stone"), "{\"Name\":\"minecraft:stone\"}");
}

#[test]
fn shared_palette_ends_with_air() {
    let p = shared_palette(&vec!["a:b".to_string(), "c:d".to_string()]);
    assert_eq!(
        p,
        vec![
            "{\"Name\":\"a:b\"}".to_string(),
            "{\"Name\":\"c:d\"}".to_string(),
            "{\"Name\":\"minecraft:air\"}".to_string()
        ]
    );
}

#[test]
fn pattern_decodes_to_the_document() {
    let data: Vec<u8> = vec![1, 2, 3, 250];
    let states = vec!["{\"Name\":\"x:y\"}".to_string(), "{\"Name\":\"minecraft:air\"}".to_string()];
    let counts = vec![7u32, 9];
    let bytes = data_to_pattern(&data, &states, &counts).unwrap();
    let document = decode(&bytes);
    assert_eq!(chunk_bytes(&document), data);
    assert_eq!(chunk_palette(&document), states);
    let stats = compound(&compound(&document)["statistics"]);
    assert_eq!(compound(&stats["primaryState"])["state"], Value::String(states[0].clone()));
    match &stats["blockStates"] {
        Value::List(items) => {
            assert_eq!(items.len(), 2);
            for (k, item) in items.iter().enumerate() {
                let c = compound(item);
                assert_eq!(c["count"], Value::Int(counts[k] as i32));
                assert_eq!(compound(&c["blockInformation"])["state"], Value::String(states[k].clone()));
            }
        }
        other => panic!("not a list: {:?}", other),
    }
}

#[test]
fn single_chunk_model_gives_one_unsuffixed_file() {
    let vs = fill(0, 16, 16, 16, 1);
    let files = create_patterns(&vs, (16, 16, 16), &stone_palette()).unwrap();
    assert_eq!(files.len(), 1);
    assert_eq!(files[0].suffix, None);
    let document = decode(&files[0].bytes);
    assert_eq!(
        chunk_palette(&document),
        vec!["{\"Name\":\"minecraft:stone\"}".to_string(), "{\"Name\":\"minecraft:air\"}".to_string()]
    );
    // one bit per cell, all of them the first entry
    assert_eq!(chunk_bytes(&document), vec![0u8; 512]);
}

#[test]
fn two_chunk_model_gives_two_suffixed_files() {
    let mut vs = fill(0, 16, 16, 16, 1);
    vs.extend(fill(16, 32, 4, 4, 2));
    let files = create_patterns(&vs, (32, 16, 16), &stone_palette()).unwrap();
    assert_eq!(files.len(), 2);
    assert_eq!(files[0].suffix, Some(0));
    assert_eq!(files[1].suffix, Some(1));
    let first = decode(&files[0].bytes);
    let second = decode(&files[1].bytes);
    assert_eq!(chunk_palette(&first), chunk_palette(&second));
    assert_eq!(chunk_palette(&first).len(), 3);
    assert_eq!(chunk_bytes(&first).len(), 4096 * 2 / 8);
}

#[test]
fn empty_chunks_take_no_index() {
    let vs = vec![Voxel { x: 0, y: 0, z: 0, i: 1 }, Voxel { x: 40, y: 0, z: 0, i: 1 }];
    let files = create_patterns(&vs, (48, 16, 16), &stone_palette()).unwrap();
    assert_eq!(files.len(), 2);
    assert_eq!(files[0].suffix, Some(0));
    assert_eq!(files[1].suffix, Some(1));
}

#[test]
fn model_out_of_range_is_rejected() {
    let vs = vec![Voxel { x: 255, y: 0, z: 0, i: 1 }];
    assert!(matches!(
        create_patterns(&vs, (256, 16, 16), &stone_palette()),
        Err(ConvertError::Model(ModelError::VoxelOutOfRange))
    ));
    assert!(matches!(
        create_patterns(&vec![], (300, 16, 16), &stone_palette()),
        Err(ConvertError::Model(ModelError::SizeOutOfRange))
    ));
}

#[test]
fn requested_model_out_of_range_fails() {
    let g = ModelGroup { all_models: false, models: Some(vec![5]) };
    assert_eq!(g.select(2), Err(SelectError::InvalidModelIndex));
    let g = ModelGroup { all_models: false, models: Some(vec![0]) };
    assert_eq!(g.select(2), Err(SelectError::InvalidModelIndex));
}

#[test]
fn model_selection() {
    let g = ModelGroup { all_models: true, models: None };
    assert_eq!(g.select(3), Ok(vec![0, 1, 2]));
    let g = ModelGroup { all_models: false, models: None };
    assert_eq!(g.select(1), Ok(vec![0]));
    assert_eq!(g.select(2), Err(SelectError::MultipleModels));
    let g = ModelGroup { all_models: false, models: Some(vec![2, 1]) };
    assert_eq!(g.select(2), Ok(vec![1, 0]));
}

#[test]
fn palette_reads_json() {
    let p = BlockPalette::from_json(b"{\"#ff0000\":\"minecraft:red_wool\",\"00ff00\":\"minecraft:lime_wool\",\"#abc\":\"x:y\"}")
        .unwrap();
    // pairs come by ascending key
    assert_eq!(p.colors, vec![(0xaa, 0xbb, 0xcc), (0xff, 0, 0), (0, 255, 0)]);
    assert_eq!(p.blocks, vec!["x:y", "minecraft:red_wool", "minecraft:lime_wool"]);
}

#[test]
fn palette_errors() {
    assert!(matches!(BlockPalette::from_json(b"[1, 2]"), Err(PaletteError::InvalidJson)));
    assert!(matches!(BlockPalette::from_json(b"{}"), Err(PaletteError::Empty)));
    assert!(matches!(BlockPalette::from_json(b"{\"#zzzzzz\":\"a\"}"), Err(PaletteError::InvalidColor)));
}

#[test]
fn closest_block_takes_the_first_smallest_distance() {
    let p = BlockPalette::from_json(b"{\"#000000\":\"a\",\"#111111\":\"b\",\"#222222\":\"c\",\"#333333\":\"d\"}")
        .unwrap();
    assert_eq!(p.closest_index(&vec![5, 3, 3, 7]), 1);
    assert_eq!(p.closest_block(&vec![9, 8, 7, 1]), "d");
    assert_eq!(p.closest_index(&vec![0, 0, 0, 0]), 0);
}

#[test]
fn overlong_block_state_is_rejected() {
    let states = vec!["x".repeat(70000), "{\"Name\":\"minecraft:air\"}".to_string()];
    assert_eq!(
        data_to_pattern(&vec![0u8; 16], &states, &vec![1, 2]),
        Err(vox2cb::EncodeError::StringTooLong)
    );
}

#[test]
fn palette_size_counts_distinct_colours() {
    let vs = vec![
        Voxel { x: 0, y: 0, z: 0, i: 1 },
        Voxel { x: 1, y: 0, z: 0, i: 2 },
        Voxel { x: 2, y: 0, z: 0, i: 1 },
    ];
    let files = create_patterns(&vs, (16, 16, 16), &stone_palette()).unwrap();
    let document = decode(&files[0].bytes);
    let palette = chunk_palette(&document);
    assert_eq!(palette.len(), 3);
    assert_eq!(palette[2], "{\"Name\":\"minecraft:air\"}");
    // three entries need two bits each
    assert_eq!(chunk_bytes(&document).len(), 4096 * 2 / 8);
}

#[test]
fn non_ascii_colour_key_is_invalid() {
    let json = "{\"a\u{e9}123\":\"x:y\"}";
    assert!(matches!(BlockPalette::from_json(json.as_bytes()), Err(PaletteError::InvalidColor)));
}

#[test]
fn signed_two_digit_groups_read_as_numbers() {
    let p = BlockPalette::from_json(b"{\"+f0a0b\":\"x:y\"}").unwrap();
    assert_eq!(p.colors, vec![(15, 10, 11)]);
}

#[test]
fn states_use_modified_utf8() {
    let states = vec!["a\u{0}b\u{1F600}".to_string(), "{\"Name\":\"minecraft:air\"}".to_string()];
    let bytes = data_to_pattern(&vec![1, 2], &states, &vec![1, 1]).unwrap();
    let document = decode(&bytes);
    assert_eq!(chunk_palette(&document), states);
}

#[test]
fn requested_model_out_of_range_fails_on_one_model_file() {
    let g = ModelGroup { all_models: false, models: Some(vec![5]) };
    assert_eq!(g.select(1), Err(SelectError::InvalidModelIndex));
    let g = ModelGroup { all_models: false, models: Some(vec![1]) };
    assert_eq!(g.select(1), Ok(vec![0]));
}
