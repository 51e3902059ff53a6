//! Splitting a model into 16-sided chunks and packing each chunk's materials.
use vstd::arithmetic::power2::pow2;
use vstd::prelude::*;
use bitstream_io::{BitWrite, BitWriter, LittleEndian};
use crate::voxel::{cell_at, position_from_index, VoxelIndex};

verus! {

/// Edge length of a chunk on each axis.
pub const BLOCK_SIDE: usize = 16;

/// Number of cells in one chunk.
pub const CHUNK_VOLUME: usize = 4096;

/// A least-significant-bit-first writer into a growing byte vector.
#[verifier::external_body]
pub struct BitSink {
    writer: BitWriter<Vec<u8>, LittleEndian>,
}

/// The bits written so far to a sink, in order.
pub uninterp spec fn written_bits(w: BitSink) -> Seq<bool>;

/// The `n` lowest bits of `v`, least significant first.
pub open spec fn low_bits(v: int, n: nat) -> Seq<bool> {
    Seq::new(n, |j: int| (v / pow2(j as nat) as int) % 2 == 1)
}

pub open spec fn bit_value(b: Seq<bool>, k: int) -> int {
    if b[k] { 1 } else { 0 }
}

/// The byte made of the eight bits of `b` from `s` on, the first one least significant.
pub open spec fn byte_at(b: Seq<bool>, s: int) -> u8 {
    (bit_value(b, s) + 2 * bit_value(b, s + 1) + 4 * bit_value(b, s + 2) + 8 * bit_value(b, s + 3)
        + 16 * bit_value(b, s + 4) + 32 * bit_value(b, s + 5) + 64 * bit_value(b, s + 6)
        + 128 * bit_value(b, s + 7)) as u8
}

/// Bits grouped into bytes, least significant bit first within each byte.
pub open spec fn pack_bits(b: Seq<bool>) -> Seq<u8> {
    Seq::new(b.len() / 8, |i: int| byte_at(b, 8 * i))
}

/// `w` is the ceiling of the base-two logarithm of `n`: the fewest bits that
/// tell `n` values apart.
pub open spec fn is_ceil_log2(w: nat, n: nat) -> bool {
    n <= pow2(w) && (w == 0 || pow2((w - 1) as nat) < n)
}

/// Relies on bitstream_io's `BitWriter::endian`: a new writer over an empty
/// vector has written nothing.
#[verifier::external_body]
fn new_bit_writer() -> (w: BitSink)
    ensures
        written_bits(w) == Seq::<bool>::empty(),
{
    BitSink { writer: BitWriter::endian(Vec::new(), LittleEndian) }
}

/// Relies on bitstream_io's `BitWrite::write` for a little-endian writer:
/// appends the `bits` low bits of `value`, least significant first. It fails
/// only on a value too wide for `bits` or on an error of the vector, which
/// never fails to grow.
#[verifier::external_body]
fn write_bits(w: &mut BitSink, bits: u32, value: u16)
    requires
        bits <= 16,
        value < pow2(bits as nat),
    ensures
        written_bits(*final(w)) == written_bits(*old(w)) + low_bits(value as int, bits as nat),
{
    w.writer.write(bits, value).unwrap()
}

/// Relies on bitstream_io's `BitWriter::into_writer`: each completed byte has
/// been handed to the vector, first bit least significant.
#[verifier::external_body]
fn into_bytes(w: BitSink) -> (r: Vec<u8>)
    requires
        written_bits(w).len() % 8 == 0,
    ensures
        r@ == pack_bits(written_bits(w)),
{
    w.writer.into_writer()
}

/// Number of chunks needed to cover `dim` cells along one axis.
pub fn chunk_count(dim: u32) -> (r: u32)
    ensures
        r == (dim as int + 15) / 16,
{
    dim / 16 + if dim % 16 == 0 { 0 } else { 1 }
}

/// Bits needed for one material index into a palette of `len` entries.
pub fn entry_width(len: usize) -> (r: u32)
    requires
        1 <= len <= 65536,
    ensures
        is_ceil_log2(r as nat, len as nat),
        r <= 16,
{
    let mut w: u32 = 0;
    let mut p: usize = 1;
    proof {
        vstd::arithmetic::power2::lemma2_to64();
    }
    while p < len
        invariant
            1 <= len <= 65536,
            p == pow2(w as nat),
            w <= 16,
            w == 0 || pow2((w - 1) as nat) < len,
            p <= 65536,
        decreases 65536 - p,
    {
        proof {
            vstd::arithmetic::power2::lemma_pow2_unfold((w + 1) as nat);
            vstd::arithmetic::power2::lemma2_to64();
            if w >= 16 {
                vstd::arithmetic::power2::lemma_pow2_strictly_increases(16, w as nat);
            }
        }
        p = p * 2;
        w = w + 1;
    }
    w
}

/// Model coordinate of a chunk cell. The pattern format orders its axes
/// differently from the model: the chunk's third local axis runs along the
/// model's first, its first along the model's second, its second along the
/// model's third.
pub open spec fn model_position(local: (int, int, int), offset: (int, int, int)) -> (int, int, int) {
    (local.2 + offset.0, local.0 + offset.1, local.1 + offset.2)
}

pub open spec fn local_position(i: int) -> (int, int, int) {
    (i / 256, (i % 256) / 16, i % 16)
}

/// Offset of a chunk: its coordinates times the chunk edge.
pub open spec fn valid_offset(offset: (u32, u32, u32)) -> bool {
    offset.0 <= 240 && offset.1 <= 240 && offset.2 <= 240
}

pub fn model_position_of(i: usize, offset: (u32, u32, u32)) -> (r: (u32, u32, u32))
    requires
        i < 4096,
        valid_offset(offset),
    ensures
        (r.0 as int, r.1 as int, r.2 as int) == model_position(
            local_position(i as int),
            (offset.0 as int, offset.1 as int, offset.2 as int),
        ),
{
    let (x, y, z) = position_from_index(i);
    (z as u32 + offset.0, x as u32 + offset.1, y as u32 + offset.2)
}

/// The colour slot found at the `i`-th cell of the chunk at `offset`.
pub open spec fn cell_slot(cells: Seq<Option<u8>>, offset: (u32, u32, u32), i: int) -> Option<u8> {
    let p = model_position(local_position(i), (offset.0 as int, offset.1 as int, offset.2 as int));
    cell_at(cells, p.0, p.1, p.2)
}

/// Palette index of the `i`-th cell: its colour's entry, or the last entry (air).
pub open spec fn cell_entry(
    cells: Seq<Option<u8>>,
    mapping: Seq<u16>,
    palette_len: nat,
    offset: (u32, u32, u32),
    i: int,
) -> int {
    match cell_slot(cells, offset, i) {
        Some(s) => mapping[s as int] as int,
        None => palette_len - 1,
    }
}

/// Bits of the first `n` cells of a chunk, each entry `width` bits wide.
pub open spec fn chunk_bits(
    cells: Seq<Option<u8>>,
    mapping: Seq<u16>,
    palette_len: nat,
    offset: (u32, u32, u32),
    width: nat,
    n: nat,
) -> Seq<bool>
    decreases n,
{
    if n == 0 {
        Seq::empty()
    } else {
        chunk_bits(cells, mapping, palette_len, offset, width, (n - 1) as nat) + low_bits(
            cell_entry(cells, mapping, palette_len, offset, n - 1),
            width,
        )
    }
}

/// How many of the first `n` cells of a chunk resolve to palette entry `k`.
pub open spec fn entry_count(
    cells: Seq<Option<u8>>,
    mapping: Seq<u16>,
    palette_len: nat,
    offset: (u32, u32, u32),
    k: int,
    n: nat,
) -> nat
    decreases n,
{
    if n == 0 {
        0
    } else {
        entry_count(cells, mapping, palette_len, offset, k, (n - 1) as nat) + if cell_entry(
            cells,
            mapping,
            palette_len,
            offset,
            n - 1,
        ) == k {
            1nat
        } else {
            0nat
        }
    }
}

/// No cell of the chunk holds a voxel.
pub open spec fn chunk_is_air(cells: Seq<Option<u8>>, offset: (u32, u32, u32)) -> bool {
    forall|i: int| 0 <= i < 4096 ==> #[trigger] cell_slot(cells, offset, i) is None
}

pub proof fn lemma_chunk_bits_len(
    cells: Seq<Option<u8>>,
    mapping: Seq<u16>,
    palette_len: nat,
    offset: (u32, u32, u32),
    width: nat,
    n: nat,
)
    ensures
        chunk_bits(cells, mapping, palette_len, offset, width, n).len() == n * width,
    decreases n,
{
    if n > 0 {
        lemma_chunk_bits_len(cells, mapping, palette_len, offset, width, (n - 1) as nat);
        let e = cell_entry(cells, mapping, palette_len, offset, n - 1);
        assert(low_bits(e, width).len() == width);
        assert(chunk_bits(cells, mapping, palette_len, offset, width, n) == chunk_bits(cells, mapping, palette_len, offset, width, (n - 1) as nat) + low_bits(e, width));
        let prev = chunk_bits(cells, mapping, palette_len, offset, width, (n - 1) as nat);
        assert(prev.len() == (n - 1) as nat * width);
        assert((n - 1) as nat * width + width == n * width) by (nonlinear_arith)
            requires
                n > 0,
        ;
        assert((prev + low_bits(e, width)).len() == n * width);
    } else {
        assert(chunk_bits(cells, mapping, palette_len, offset, width, n) == Seq::<bool>::empty());
        assert(n * width == 0) by (nonlinear_arith)
            requires
                n == 0,
        ;
    }
}

/// One chunk packed against the shared palette.
pub struct EncodedChunk {
    /// Bits per material index.
    pub width: u32,
    /// The packed indices of all 4096 cells.
    pub data: Vec<u8>,
    /// How many cells use each palette entry.
    pub counts: Vec<u32>,
}

/// Packs the chunk at `offset`: each cell becomes the palette index of its
/// colour, or the last index (air) where it is empty. A chunk without any
/// voxel gives `None`.
pub fn encode_chunk(
    index: &VoxelIndex,
    mapping: &Vec<u16>,
    palette_len: usize,
    offset: (u32, u32, u32),
) -> (r: Option<EncodedChunk>)
    requires
        index.wf(),
        mapping@.len() == 256,
        1 <= palette_len <= 257,
        forall|s: int| 0 <= s < 256 ==> #[trigger] mapping@[s] < palette_len,
        valid_offset(offset),
    ensures
        r is None <==> chunk_is_air(index.cells@, offset),
        r matches Some(c) ==> {
            &&& is_ceil_log2(c.width as nat, palette_len as nat)
            &&& c.width <= 16
            &&& c.data@ == pack_bits(
                chunk_bits(index.cells@, mapping@, palette_len as nat, offset, c.width as nat, 4096),
            )
            &&& c.data@.len() == 4096 * c.width / 8
            &&& c.counts@.len() == palette_len
            &&& forall|k: int|
                0 <= k < palette_len ==> #[trigger] c.counts@[k] == entry_count(
                    index.cells@,
                    mapping@,
                    palette_len as nat,
                    offset,
                    k,
                    4096,
                )
        },
{
    let width = entry_width(palette_len);
    let mut writer = new_bit_writer();
    let mut counts: Vec<u32> = Vec::new();
    while counts.len() < palette_len
        invariant
            counts@.len() <= palette_len,
            forall|k: int| 0 <= k < counts@.len() ==> #[trigger] counts@[k] == 0,
        decreases palette_len - counts@.len(),
    {
        counts.push(0);
    }
    let ghost pl = palette_len as nat;
    let mut only_air = true;
    let mut i: usize = 0;
    while i < CHUNK_VOLUME
        invariant
            index.wf(),
            mapping@.len() == 256,
            1 <= palette_len <= 257,
            forall|s: int| 0 <= s < 256 ==> #[trigger] mapping@[s] < palette_len,
            valid_offset(offset),
            is_ceil_log2(width as nat, palette_len as nat),
            width <= 16,
            i <= 4096,
            pl == palette_len,
            counts@.len() == palette_len,
            written_bits(writer) == chunk_bits(index.cells@, mapping@, pl, offset, width as nat, i as nat),
            forall|k: int|
                0 <= k < palette_len ==> #[trigger] counts@[k] == entry_count(
                    index.cells@,
                    mapping@,
                    pl,
                    offset,
                    k,
                    i as nat,
                ),
            forall|k: int| 0 <= k < palette_len ==> #[trigger] counts@[k] <= i,
            only_air <==> forall|j: int| 0 <= j < i ==> #[trigger] cell_slot(index.cells@, offset, j) is None,
        decreases 4096 - i,
    {
        let (x, y, z) = model_position_of(i, offset);
        let voxel = index.get(x, y, z);
        assert(voxel == cell_slot(index.cells@, offset, i as int));
        let val: u16 = match voxel {
            Some(v) => {
                only_air = false;
                mapping[v as usize]
            },
            None => (palette_len - 1) as u16,
        };
        proof {
            match voxel {
                Some(v) => {
                    assert(val == mapping@[v as int]);
                },
                None => {
                    assert(val as int == pl - 1);
                },
            }
        }
        assert(val as int == cell_entry(index.cells@, mapping@, pl, offset, i as int));
        write_bits(&mut writer, width, val);
        let c = counts[val as usize];
        counts.set(val as usize, c + 1);
        i = i + 1;
    }
    if only_air {
        return None;
    }
    proof {
        lemma_chunk_bits_len(index.cells@, mapping@, pl, offset, width as nat, 4096);
        assert((4096 * width as nat) % 8 == 0) by (nonlinear_arith);
    }
    let data = into_bytes(writer);
    Some(EncodedChunk { width, data, counts })
}

} // verus!
