//! The whole conversion of one model into pattern files.
use vstd::prelude::*;
use crate::chunk::{
    chunk_bits, chunk_count, chunk_is_air, encode_chunk, entry_count, is_ceil_log2, pack_bits,
};
use crate::codec::{
    chunk_document, data_to_pattern, document_fits, lz4_frame_of, pattern_bytes, state_bytes,
    EncodeError, MAX_ARRAY_LEN,
};
use crate::palette::{
    air_name, first_use_order, mapping_of, palette_mapping, shared_palette, state_of, used_colors,
};
use crate::voxel::{model_cells, ModelError, Voxel, VoxelIndex};

verus! {

/// Why a model could not be converted.
#[derive(Clone, Copy, Debug, PartialEq, Eq)]
pub enum ConvertError {
    /// The model itself is not supported.
    Model(ModelError),
    /// A chunk does not fit the pattern format.
    Encode(EncodeError),
}

/// One pattern file: its bytes, and the index that its name carries where
/// the model spans more than one chunk.
pub struct PatternFile {
    pub suffix: Option<usize>,
    pub bytes: Vec<u8>,
}

/// The model's dimensions (cells along each axis) lie within the supported range.
pub open spec fn size_supported(size: (u32, u32, u32)) -> bool {
    size.0 <= 256 && size.1 <= 256 && size.2 <= 256
}

pub open spec fn chunks_along(dim: u32) -> int {
    (dim as int + 15) / 16
}

pub open spec fn chunk_total(size: (u32, u32, u32)) -> int {
    chunks_along(size.0) * chunks_along(size.1) * chunks_along(size.2)
}

/// Offset of the `i`-th chunk: chunks are enumerated with the first axis
/// outermost and the third innermost.
pub open spec fn chunk_offset(size: (u32, u32, u32), i: int) -> (u32, u32, u32) {
    let w = chunks_along(size.1);
    let h = chunks_along(size.2);
    (((i / (w * h)) * 16) as u32, (((i / h) % w) * 16) as u32, ((i % h) * 16) as u32)
}

/// Offsets of the chunks among the first `n` that hold at least one voxel.
pub open spec fn emitted_offsets(cells: Seq<Option<u8>>, size: (u32, u32, u32), n: nat) -> Seq<
    (u32, u32, u32),
>
    decreases n,
{
    if n == 0 {
        Seq::empty()
    } else {
        let before = emitted_offsets(cells, size, (n - 1) as nat);
        if chunk_is_air(cells, chunk_offset(size, n - 1)) {
            before
        } else {
            before.push(chunk_offset(size, n - 1))
        }
    }
}

/// The encoded block states of the shared palette of a model, given the block
/// chosen for each colour slot.
pub open spec fn model_states(voxels: Seq<Voxel>, materials: Seq<String>) -> Seq<Seq<u8>> {
    let used = first_use_order(voxels);
    Seq::new(
        used.len() + 1,
        |k: int|
            crate::codec::modified_utf8(
                if k < used.len() {
                    state_of(materials[used[k] as int]@)
                } else {
                    state_of(air_name())
                },
            ),
    )
}

/// Bits per palette index for a palette of `n` entries.
pub open spec fn width_of(n: nat) -> nat {
    choose|w: nat| is_ceil_log2(w, n)
}

/// The packed palette indices of the chunk at `offset`.
pub open spec fn model_chunk_data(voxels: Seq<Voxel>, offset: (u32, u32, u32)) -> Seq<u8> {
    let pl = first_use_order(voxels).len() + 1;
    pack_bits(
        chunk_bits(
            model_cells(voxels),
            mapping_of(first_use_order(voxels)),
            pl,
            offset,
            width_of(pl),
            4096,
        ),
    )
}

/// How many cells of the chunk at `offset` use each palette entry.
pub open spec fn model_chunk_counts(voxels: Seq<Voxel>, offset: (u32, u32, u32)) -> Seq<u32> {
    let pl = first_use_order(voxels).len() + 1;
    Seq::new(
        pl,
        |k: int|
            entry_count(model_cells(voxels), mapping_of(first_use_order(voxels)), pl, offset, k, 4096)
                as u32,
    )
}

/// The chunk document of the chunk at `offset`.
#[verifier::opaque]
pub open spec fn model_chunk_document(
    voxels: Seq<Voxel>,
    materials: Seq<String>,
    offset: (u32, u32, u32),
) -> Seq<u8> {
    chunk_document(
        model_chunk_data(voxels, offset),
        model_states(voxels, materials),
        model_chunk_counts(voxels, offset),
    )
}

/// The chunk at `offset` can be encoded within the format's limits.
#[verifier::opaque]
pub open spec fn chunk_fits(voxels: Seq<Voxel>, materials: Seq<String>, offset: (u32, u32, u32)) -> bool {
    &&& document_fits(model_chunk_data(voxels, offset), model_states(voxels, materials))
    &&& lz4_frame_of(model_chunk_document(voxels, materials, offset)).len() <= MAX_ARRAY_LEN
}

/// Converts one model into its pattern files, given the block chosen for
/// each of the 256 colour slots. Chunks without voxels give no file; where
/// the model spans one chunk only, its file carries no index.
pub fn create_patterns(voxels: &Vec<Voxel>, size: (u32, u32, u32), materials: &Vec<String>) -> (r:
    Result<Vec<PatternFile>, ConvertError>)
    requires
        materials@.len() == 256,
    ensures
        !size_supported(size) ==> r == Err::<Vec<PatternFile>, ConvertError>(
            ConvertError::Model(ModelError::SizeOutOfRange),
        ),
        size_supported(size) && (exists|k: int|
            0 <= k < voxels@.len() && !crate::voxel::in_range(#[trigger] voxels@[k])) ==> r == Err::<
            Vec<PatternFile>,
            ConvertError,
        >(ConvertError::Model(ModelError::VoxelOutOfRange)),
        r matches Err(ConvertError::Encode(_)) ==> exists|k: int|
            0 <= k < emitted_offsets(model_cells(voxels@), size, chunk_total(size) as nat).len()
                && !chunk_fits(
                voxels@,
                materials@,
                #[trigger] emitted_offsets(model_cells(voxels@), size, chunk_total(size) as nat)[k],
            ),
        size_supported(size) && (forall|k: int|
            0 <= k < voxels@.len() ==> crate::voxel::in_range(#[trigger] voxels@[k])) && (forall|k: int|
            0 <= k < emitted_offsets(model_cells(voxels@), size, chunk_total(size) as nat).len()
                ==> chunk_fits(
                voxels@,
                materials@,
                #[trigger] emitted_offsets(model_cells(voxels@), size, chunk_total(size) as nat)[k],
            )) ==> r is Ok,
        size_supported(size) && (forall|k: int|
            0 <= k < voxels@.len() ==> crate::voxel::in_range(#[trigger] voxels@[k])) && (exists|k: int|
            0 <= k < emitted_offsets(model_cells(voxels@), size, chunk_total(size) as nat).len()
                && !chunk_fits(
                voxels@,
                materials@,
                #[trigger] emitted_offsets(model_cells(voxels@), size, chunk_total(size) as nat)[k],
            )) ==> r matches Err(ConvertError::Encode(_)),
        size_supported(size) && (forall|k: int|
            0 <= k < voxels@.len() ==> crate::voxel::in_range(#[trigger] voxels@[k]))
            && crate::codec::states_fit(model_states(voxels@, materials@)) ==> r is Ok,
        r matches Ok(files) ==> {
            let emitted = emitted_offsets(model_cells(voxels@), size, chunk_total(size) as nat);
            &&& files@.len() == emitted.len()
            &&& forall|k: int|
                0 <= k < files@.len() ==> (#[trigger] files@[k]).suffix == (if chunk_total(size) == 1 {
                    None
                } else {
                    Some(k as usize)
                }) && files@[k].bytes@ == pattern_bytes(
                    model_chunk_document(voxels@, materials@, emitted[k]),
                )
        },
{
    if size.0 > 256 || size.1 > 256 || size.2 > 256 {
        return Err(ConvertError::Model(ModelError::SizeOutOfRange));
    }
    let index = match VoxelIndex::from_voxels(voxels) {
        Ok(t) => t,
        Err(e) => {
            return Err(ConvertError::Model(e));
        },
    };
    let used = used_colors(voxels);
    let mut chosen: Vec<String> = Vec::new();
    let mut k: usize = 0;
    while k < used.len()
        invariant
            k <= used@.len(),
            materials@.len() == 256,
            chosen@.len() == k,
            forall|j: int| 0 <= j < k ==> (#[trigger] chosen@[j])@ == materials@[used@[j] as int]@,
        decreases used@.len() - k,
    {
        chosen.push(materials[used[k] as usize].clone());
        k = k + 1;
    }
    let states = shared_palette(&chosen);
    let mapping = palette_mapping(&used);
    let pl = states.len();
    let ghost sv = model_states(voxels@, materials@);
    proof {
        reveal_strlit("minecraft:air");
        assert(state_bytes(states@) =~= sv);
    }
    let cx = chunk_count(size.0);
    let cy = chunk_count(size.1);
    let cz = chunk_count(size.2);
    assert(cx <= 16 && cy <= 16 && cz <= 16);
    assert(cy * cz <= 256) by (nonlinear_arith)
        requires
            cy <= 16,
            cz <= 16,
    ;
    assert(cx * (cy * cz) <= 4096) by (nonlinear_arith)
        requires
            cx <= 16,
            cy * cz <= 256,
    ;
    let total: u32 = cx * (cy * cz);
    assert(total == chunk_total(size)) by (nonlinear_arith)
        requires
            total == cx * (cy * cz),
            cx == chunks_along(size.0),
            cy == chunks_along(size.1),
            cz == chunks_along(size.2),
    ;
    let single = total == 1;
    let ghost cells = model_cells(voxels@);
    let mut files: Vec<PatternFile> = Vec::new();
    let mut i: u32 = 0;
    while i < total
        invariant
            i <= total,
            total <= 4096,
            total == chunk_total(size),
            total == cx * (cy * cz),
            cx == chunks_along(size.0),
            cy == chunks_along(size.1),
            cz == chunks_along(size.2),
            cx <= 16,
            cy <= 16,
            cz <= 16,
            single == (total == 1),
            index.wf(),
            index.cells@ == cells,
            !(exists|k: int|
                0 <= k < voxels@.len() && !crate::voxel::in_range(#[trigger] voxels@[k])),
            cells == model_cells(voxels@),
            used@ == first_use_order(voxels@),
            mapping@ == mapping_of(used@),
            mapping@.len() == 256,
            forall|s: int| 0 <= s < 256 ==> #[trigger] mapping@[s] <= used@.len(),
            used@.len() <= 256,
            pl == used@.len() + 1,
            states@.len() == pl,
            state_bytes(states@) == sv,
            sv == model_states(voxels@, materials@),
            files@.len() == emitted_offsets(cells, size, i as nat).len(),
            files@.len() <= i,
            forall|k: int|
                0 <= k < files@.len() ==> chunk_fits(
                    voxels@,
                    materials@,
                    #[trigger] emitted_offsets(cells, size, i as nat)[k],
                ),
            forall|k: int|
                0 <= k < files@.len() ==> (#[trigger] files@[k]).suffix == (if total == 1 {
                    None
                } else {
                    Some(k as usize)
                }) && files@[k].bytes@ == pattern_bytes(
                    model_chunk_document(voxels@, materials@, emitted_offsets(cells, size, i as nat)[k]),
                ),
        decreases total - i,
    {
        let offset = chunk_offset_of(i, cx, cy, cz, Ghost(size));
        let ghost before = emitted_offsets(cells, size, i as nat);
        match encode_model_chunk(&index, &mapping, &states, offset, Ghost(voxels@), Ghost(materials@)) {
            None => {
                assert(emitted_offsets(cells, size, (i + 1) as nat) == before);
            },
            Some(Err(e)) => {
                proof {
                    let all = emitted_offsets(cells, size, total as nat);
                    lemma_emitted_prefix(cells, size, (i + 1) as nat, total as nat);
                    assert(emitted_offsets(cells, size, (i + 1) as nat) == before.push(offset));
                    assert(emitted_offsets(cells, size, (i + 1) as nat)[before.len() as int] == offset);
                    assert(all[before.len() as int] == offset);
                    assert(!chunk_fits(voxels@, materials@, all[before.len() as int]));
                    assert(all == emitted_offsets(model_cells(voxels@), size, chunk_total(size) as nat));
                    assert(before.len() < all.len());
                    let k = before.len() as int;
                    assert(!chunk_fits(voxels@, materials@, emitted_offsets(model_cells(voxels@), size, chunk_total(size) as nat)[k]));
                }
                return Err(ConvertError::Encode(e));
            },
            Some(Ok(bytes)) => {
                let suffix = if single { None } else { Some(files.len()) };
                files.push(PatternFile { suffix, bytes });
                assert(emitted_offsets(cells, size, (i + 1) as nat) == before.push(offset));
            },
        }
        i = i + 1;
    }
    Ok(files)
}

fn chunk_offset_of(i: u32, cx: u32, cy: u32, cz: u32, Ghost(size): Ghost<(u32, u32, u32)>) -> (r: (
    u32,
    u32,
    u32,
))
    requires
        cx == chunks_along(size.0),
        cy == chunks_along(size.1),
        cz == chunks_along(size.2),
        cx <= 16,
        cy <= 16,
        cz <= 16,
        (i as int) < cx as int * (cy as int * cz as int),
    ensures
        r == chunk_offset(size, i as int),
        crate::chunk::valid_offset(r),
{
    assert(cy as int * cz as int > 0) by (nonlinear_arith)
        requires
            (i as int) < cx as int * (cy as int * cz as int),
    ;
    assert(cy as int * cz as int <= 256) by (nonlinear_arith)
        requires
            cy <= 16,
            cz <= 16,
    ;
    let wh = cy * cz;
    assert((i as int) / (wh as int) < cx as int) by (nonlinear_arith)
        requires
            (i as int) < cx as int * wh as int,
            wh > 0,
    ;
    ((i / wh) * 16, ((i / cz) % cy) * 16, (i % cz) * 16)
}

/// Encodes the chunk at `offset` of the model: `None` where it holds no voxel.
fn encode_model_chunk(
    index: &VoxelIndex,
    mapping: &Vec<u16>,
    states: &Vec<String>,
    offset: (u32, u32, u32),
    Ghost(voxels): Ghost<Seq<Voxel>>,
    Ghost(materials): Ghost<Seq<String>>,
) -> (r: Option<Result<Vec<u8>, EncodeError>>)
    requires
        index.wf(),
        index.cells@ == model_cells(voxels),
        mapping@ == mapping_of(first_use_order(voxels)),
        forall|s: int| 0 <= s < 256 ==> #[trigger] mapping@[s] <= first_use_order(voxels).len(),
        first_use_order(voxels).len() <= 256,
        states@.len() == first_use_order(voxels).len() + 1,
        state_bytes(states@) == model_states(voxels, materials),
        crate::chunk::valid_offset(offset),
    ensures
        r is None <==> chunk_is_air(model_cells(voxels), offset),
        r matches Some(Ok(b)) ==> b@ == pattern_bytes(model_chunk_document(voxels, materials, offset)),
        r matches Some(Err(_)) ==> !chunk_fits(voxels, materials, offset),
        !chunk_is_air(model_cells(voxels), offset) && !chunk_fits(voxels, materials, offset) ==> r matches Some(
            Err(_),
        ),
        crate::codec::states_fit(model_states(voxels, materials)) ==> !(r matches Some(Err(_))),
{
    let pl = states.len();
    let ghost pls = pl as nat;
    match encode_chunk(index, mapping, pl, offset) {
        None => None,
        Some(c) => {
            proof {
                lemma_ceil_log2_unique(c.width as nat, width_of(pls), pls);
                assert(c.data@ == model_chunk_data(voxels, offset));
                assert(c.counts@ =~= model_chunk_counts(voxels, offset));
                assert(4096 * (c.width as int) / 8 <= 8192) by (nonlinear_arith)
                    requires
                        c.width <= 16,
                ;
                if crate::codec::states_fit(model_states(voxels, materials)) {
                    crate::codec::lemma_document_len(c.data@, state_bytes(states@), c.counts@);
                }
                reveal(model_chunk_document);
                reveal(chunk_fits);
            }
            Some(data_to_pattern(&c.data, states, &c.counts))
        },
    }
}

/// The chunks emitted among the first `m` begin with those among the first `n`.
pub proof fn lemma_emitted_prefix(cells: Seq<Option<u8>>, size: (u32, u32, u32), n: nat, m: nat)
    requires
        n <= m,
    ensures
        emitted_offsets(cells, size, n).len() <= emitted_offsets(cells, size, m).len(),
        forall|k: int|
            0 <= k < emitted_offsets(cells, size, n).len() ==> emitted_offsets(cells, size, m)[k]
                == #[trigger] emitted_offsets(cells, size, n)[k],
    decreases m - n,
{
    if n < m {
        lemma_emitted_prefix(cells, size, n, (m - 1) as nat);
    }
}

pub proof fn lemma_ceil_log2_unique(a: nat, b: nat, n: nat)
    requires
        is_ceil_log2(a, n),
        is_ceil_log2(b, n),
    ensures
        a == b,
{
    if a < b {
        if a < (b - 1) as nat {
            vstd::arithmetic::power2::lemma_pow2_strictly_increases(a, (b - 1) as nat);
        }
    } else if b < a {
        if b < (a - 1) as nat {
            vstd::arithmetic::power2::lemma_pow2_strictly_increases(b, (a - 1) as nat);
        }
    }
}

/// The shared palette of a model has one entry per distinct colour slot that
/// the model uses, and then the air entry, last.
pub proof fn lemma_shared_palette_size(voxels: Seq<Voxel>, materials: Seq<String>)
    ensures
        model_states(voxels, materials).len() == crate::palette::distinct_slots(voxels).len() + 1,
        model_states(voxels, materials).last() == crate::codec::modified_utf8(state_of(air_name())),
{
    crate::palette::lemma_first_use_order(voxels);
    crate::palette::lemma_used_colors_count(voxels, first_use_order(voxels));
}

/// A chunk without voxels gives no file and takes no file index: the files
/// after it are numbered as if it were not there.
pub proof fn lemma_air_chunk_no_file(cells: Seq<Option<u8>>, size: (u32, u32, u32), i: nat)
    requires
        chunk_is_air(cells, chunk_offset(size, i as int)),
    ensures
        emitted_offsets(cells, size, i + 1) == emitted_offsets(cells, size, i),
{
}

/// A model that spans one chunk, holding some voxel, gives exactly one file:
/// the chunk at the origin.
pub proof fn lemma_one_chunk_one_file(cells: Seq<Option<u8>>, size: (u32, u32, u32))
    requires
        chunk_total(size) == 1,
        !chunk_is_air(cells, (0, 0, 0)),
    ensures
        emitted_offsets(cells, size, chunk_total(size) as nat) == seq![(0u32, 0u32, 0u32)],
{
    let w = chunks_along(size.1);
    let h = chunks_along(size.2);
    let l = chunks_along(size.0);
    assert(w == 1 && h == 1) by (nonlinear_arith)
        requires
            l * w * h == 1,
            l >= 0,
            w >= 0,
            h >= 0,
    ;
    assert(chunk_offset(size, 0) == (0u32, 0u32, 0u32));
    assert(emitted_offsets(cells, size, 0) == Seq::<(u32, u32, u32)>::empty());
    assert(emitted_offsets(cells, size, 1) =~= seq![(0u32, 0u32, 0u32)]);
}

/// A model two chunks long along the first axis, with voxels in both, gives
/// two files: the first chunk's, then the second's.
pub proof fn lemma_two_chunks_two_files(cells: Seq<Option<u8>>, size: (u32, u32, u32))
    requires
        17 <= size.0 <= 32,
        1 <= size.1 <= 16,
        1 <= size.2 <= 16,
        !chunk_is_air(cells, (0, 0, 0)),
        !chunk_is_air(cells, (16, 0, 0)),
    ensures
        chunk_total(size) == 2,
        emitted_offsets(cells, size, chunk_total(size) as nat) == seq![
            (0u32, 0u32, 0u32),
            (16u32, 0u32, 0u32),
        ],
{
    assert(chunks_along(size.0) == 2);
    assert(chunks_along(size.1) == 1);
    assert(chunks_along(size.2) == 1);
    assert(chunk_offset(size, 0) == (0u32, 0u32, 0u32));
    assert(chunk_offset(size, 1) == (16u32, 0u32, 0u32));
    assert(emitted_offsets(cells, size, 0) == Seq::<(u32, u32, u32)>::empty());
    assert(emitted_offsets(cells, size, 1) =~= seq![(0u32, 0u32, 0u32)]);
    assert(emitted_offsets(cells, size, 2) =~= seq![(0u32, 0u32, 0u32), (16u32, 0u32, 0u32)]);
}

} // verus!
