//! The pattern file: a tag-structured document, compressed and wrapped in
//! several layers as the consuming mod reads it.
use vstd::prelude::*;
use vstd::string::StringSliceAdditionalSpecFns;
use base64::Engine;
use lz4_flex::frame::FrameEncoder;
use std::io::Write;

verus! {

pub const TAG_END: u8 = 0;
pub const TAG_BYTE: u8 = 1;
pub const TAG_INT: u8 = 3;
pub const TAG_BYTE_ARRAY: u8 = 7;
pub const TAG_STRING: u8 = 8;
pub const TAG_LIST: u8 = 9;
pub const TAG_COMPOUND: u8 = 10;

/// Largest byte length of a string in the tag format.
pub const MAX_STRING_BYTES: usize = 65535;

/// Largest length of a byte array or a list in the tag format.
pub const MAX_ARRAY_LEN: usize = 2147483647;

/// A chunk document of at most this many bytes always compresses into a
/// container that fits the tag format.
pub const MAX_DOCUMENT_LEN: usize = 1073741824;

/// Errors of the encoding pipeline.
#[derive(Clone, Copy, Debug, PartialEq, Eq)]
pub enum EncodeError {
    /// A string is too long for the tag format.
    StringTooLong,
    /// A byte array is too long for the tag format.
    ArrayTooLong,
}

/// The LZ4 frame that compresses `data`, as this build's encoder writes it
/// (its hash function differs with pointer width and byte order).
pub uninterp spec fn lz4_frame_of(data: Seq<u8>) -> Seq<u8>;

/// The standard base64 alphabet.
pub open spec fn base64_alphabet() -> Seq<char> {
    "ABCDEFGHIJKLMNOPQRSTUVWXYZabcdefghijklmnopqrstuvwxyz0123456789+/"@
}

/// Four characters for a group of one to three bytes, padded with `=`.
pub open spec fn base64_group(b: Seq<u8>) -> Seq<char> {
    let a = base64_alphabet();
    let v0 = b[0] as int;
    let v1 = if b.len() > 1 { b[1] as int } else { 0 };
    let v2 = if b.len() > 2 { b[2] as int } else { 0 };
    seq![
        a[v0 / 4],
        a[(v0 % 4) * 16 + v1 / 16],
        if b.len() > 1 { a[(v1 % 16) * 4 + v2 / 64] } else { '=' },
        if b.len() > 2 { a[v2 % 64] } else { '=' },
    ]
}

/// Standard base64 with padding of `data`.
pub open spec fn base64_of(data: Seq<u8>) -> Seq<char>
    decreases data.len(),
{
    if data.len() == 0 {
        Seq::empty()
    } else if data.len() <= 3 {
        base64_group(data)
    } else {
        base64_group(data.take(3)) + base64_of(data.skip(3))
    }
}

/// The zlib stream (deflate at level 6) of `data`.
pub uninterp spec fn zlib_of(data: Seq<u8>) -> Seq<u8>;

/// Relies on lz4_flex's `FrameEncoder`: the frame compression of the input,
/// written to a vector, which never fails to grow. With the default frame
/// settings there are no checksums, blocks hold at least 64 KiB, and a block
/// that does not shrink is stored as it is: a header of at most 19 bytes, a
/// 4-byte size per block, and a 4-byte end mark.
#[verifier::external_body]
fn lz4_compress(data: &[u8]) -> (r: Vec<u8>)
    ensures
        r@ == lz4_frame_of(data@),
        r@.len() <= data@.len() + 4 * (data@.len() / 65536 + 1) + 32,
{
    let mut encoder = FrameEncoder::new(Vec::new());
    encoder.write_all(data).unwrap();
    encoder.finish().unwrap()
}

/// Relies on base64's `STANDARD` engine: standard alphabet, padded, four
/// characters for every started group of three bytes.
#[verifier::external_body]
fn base64_encode(data: &[u8]) -> (r: String)
    ensures
        r@ == base64_of(data@),
{
    base64::engine::general_purpose::STANDARD.encode(data)
}

/// Relies on miniz_oxide's `compress_to_vec_zlib` at level 6.
#[verifier::external_body]
fn zlib_compress(data: &[u8]) -> (r: Vec<u8>)
    ensures
        r@ == zlib_of(data@),
{
    miniz_oxide::deflate::compress_to_vec_zlib(data, 6)
}

pub open spec fn be16(n: int) -> Seq<u8> {
    seq![(n / 256) as u8, (n % 256) as u8]
}

pub open spec fn be32(n: int) -> Seq<u8> {
    seq![(n / 16777216) as u8, ((n / 65536) % 256) as u8, ((n / 256) % 256) as u8, (n % 256) as u8]
}

/// A string payload: its byte length, then its bytes.
pub open spec fn str_payload(s: Seq<u8>) -> Seq<u8> {
    be16(s.len() as int) + s
}

/// The head of a named field: its tag, then its name.
pub open spec fn field_head(tag: u8, name: Seq<u8>) -> Seq<u8> {
    seq![tag] + str_payload(name)
}

pub open spec fn bytes_of(s: &str) -> Seq<u8> {
    s.spec_bytes()
}

/// A compound `{state: <state>}`, without its head.
pub open spec fn state_compound(state: Seq<u8>) -> Seq<u8> {
    field_head(TAG_STRING, bytes_of("state")) + str_payload(state) + seq![TAG_END]
}

/// The palette list's elements.
pub open spec fn palette_elements(states: Seq<Seq<u8>>) -> Seq<u8>
    decreases states.len(),
{
    if states.len() == 0 {
        Seq::empty()
    } else {
        palette_elements(states.drop_last()) + state_compound(states.last())
    }
}

/// One element of the block statistics list.
pub open spec fn block_state_compound(state: Seq<u8>, count: u32) -> Seq<u8> {
    field_head(TAG_COMPOUND, bytes_of("blockInformation")) + state_compound(state) + field_head(
        TAG_INT,
        bytes_of("count"),
    ) + be32(count as int) + seq![TAG_END]
}

/// The block statistics list's elements.
pub open spec fn block_state_elements(states: Seq<Seq<u8>>, counts: Seq<u32>) -> Seq<u8>
    decreases states.len(),
{
    if states.len() == 0 {
        Seq::empty()
    } else {
        block_state_elements(states.drop_last(), counts) + block_state_compound(
            states.last(),
            counts[states.len() - 1],
        )
    }
}

/// Heads of the root, the `chiseledData` compound and its `data` array.
pub open spec fn document_head() -> Seq<u8> {
    field_head(TAG_COMPOUND, Seq::empty()) + field_head(TAG_COMPOUND, bytes_of("chiseledData"))
        + field_head(TAG_BYTE_ARRAY, bytes_of("data"))
}

/// Head of the `palette` list and its element tag.
pub open spec fn palette_head() -> Seq<u8> {
    field_head(TAG_LIST, bytes_of("palette")) + seq![TAG_COMPOUND]
}

/// End of `chiseledData`, heads of `statistics` and `primaryState`.
pub open spec fn statistics_head() -> Seq<u8> {
    seq![TAG_END] + field_head(TAG_COMPOUND, bytes_of("statistics")) + field_head(
        TAG_COMPOUND,
        bytes_of("primaryState"),
    )
}

/// Head of the `blockStates` list and its element tag.
pub open spec fn block_states_head() -> Seq<u8> {
    field_head(TAG_LIST, bytes_of("blockStates")) + seq![TAG_COMPOUND]
}

/// What follows the palette list's elements.
pub open spec fn document_rest(s: Seq<Seq<u8>>, c: Seq<u32>) -> Seq<u8> {
    statistics_head() + (state_compound(s[0]) + (block_states_head() + (be32(s.len() as int) + (
    block_state_elements(s, c) + (seq![TAG_END] + seq![TAG_END])))))
}

/// What follows the packed data.
pub open spec fn document_after_data(s: Seq<Seq<u8>>, c: Seq<u32>) -> Seq<u8> {
    palette_head() + (be32(s.len() as int) + (palette_elements(s) + document_rest(s, c)))
}

/// The chunk document:
/// `{chiseledData: {data, palette: [{state}]}, statistics: {primaryState, blockStates: [{blockInformation, count}]}}`.
pub open spec fn chunk_document(data: Seq<u8>, states: Seq<Seq<u8>>, counts: Seq<u32>) -> Seq<u8> {
    document_head() + (be32(data.len() as int) + (data + document_after_data(states, counts)))
}

/// The container document: `{version: 0, data: {data, compressed: 1}}`.
pub open spec fn container_document(compressed: Seq<u8>) -> Seq<u8> {
    field_head(TAG_COMPOUND, Seq::empty())
        + field_head(TAG_INT, bytes_of("version")) + be32(0)
        + field_head(TAG_COMPOUND, bytes_of("data"))
        + field_head(TAG_BYTE_ARRAY, bytes_of("data")) + be32(compressed.len() as int) + compressed
        + field_head(TAG_BYTE, bytes_of("compressed")) + seq![1u8]
        + seq![TAG_END]
        + seq![TAG_END]
}

/// The JSON text `{"chiselData":"<text>","version":"1.0"}`.
pub open spec fn pattern_json(text: Seq<char>) -> Seq<char> {
    "{\"chiselData\":\""@ + text + "\",\"version\":\"1.0\"}"@
}

/// The bytes of a pattern file for a chunk document.
pub open spec fn pattern_bytes(document: Seq<u8>) -> Seq<u8> {
    let container = container_document(lz4_frame_of(document));
    let json = pattern_json(base64_of(container));
    zlib_of(vstd::utf8::encode_utf8(base64_of(vstd::utf8::encode_utf8(json))))
}

fn push_bytes(out: &mut Vec<u8>, b: &[u8])
    ensures
        final(out)@ == old(out)@ + b@,
{
    let mut k: usize = 0;
    let ghost start = out@;
    while k < b.len()
        invariant
            k <= b@.len(),
            out@ == start + b@.take(k as int),
        decreases b@.len() - k,
    {
        out.push(b[k]);
        assert(b@.take(k + 1) =~= b@.take(k as int).push(b@[k as int]));
        k = k + 1;
    }
    assert(b@.take(b@.len() as int) =~= b@);
}

fn push_u16(out: &mut Vec<u8>, n: usize)
    requires
        n < 65536,
    ensures
        final(out)@ == old(out)@ + be16(n as int),
{
    out.push((n / 256) as u8);
    out.push((n % 256) as u8);
    assert(final(out)@ =~= old(out)@ + be16(n as int));
}

fn push_u32(out: &mut Vec<u8>, n: u32)
    ensures
        final(out)@ == old(out)@ + be32(n as int),
{
    out.push((n / 16777216) as u8);
    out.push(((n / 65536) % 256) as u8);
    out.push(((n / 256) % 256) as u8);
    out.push((n % 256) as u8);
    assert(final(out)@ =~= old(out)@ + be32(n as int));
}

fn push_str(out: &mut Vec<u8>, s: &[u8])
    requires
        s@.len() <= 65535,
    ensures
        final(out)@ == old(out)@ + str_payload(s@),
{
    push_u16(out, s.len());
    push_bytes(out, s);
    assert(final(out)@ =~= old(out)@ + str_payload(s@));
}

fn push_head(out: &mut Vec<u8>, tag: u8, name: &str)
    requires
        vstd::utf8::is_ascii_chars(name@),
        name@.len() <= 65535,
    ensures
        final(out)@ == old(out)@ + field_head(tag, bytes_of(name)),
{
    proof {
        vstd::utf8::is_ascii_chars_encode_utf8(name@);
    }
    out.push(tag);
    push_str(out, name.as_bytes());
    assert(final(out)@ =~= old(out)@ + field_head(tag, bytes_of(name)));
}


/// The bytes of each block state in the tag format.
pub open spec fn state_bytes(states: Seq<String>) -> Seq<Seq<u8>> {
    states.map_values(|s: String| modified_utf8(s@))
}

/// Every block state fits a string of the tag format.
pub open spec fn states_fit(states: Seq<Seq<u8>>) -> bool {
    forall|k: int| 0 <= k < states.len() ==> (#[trigger] states[k]).len() <= 65535
}

/// The chunk document fits the tag format.
pub open spec fn document_fits(data: Seq<u8>, states: Seq<Seq<u8>>) -> bool {
    states_fit(states) && data.len() <= MAX_ARRAY_LEN && states.len() <= MAX_ARRAY_LEN
}

/// One UTF-16 code unit in modified UTF-8: NUL takes two bytes, every other
/// unit its UTF-8 form.
pub open spec fn modified_utf8_unit(u: int) -> Seq<u8> {
    if u == 0 {
        seq![0xC0u8, 0x80u8]
    } else if u < 0x80 {
        seq![u as u8]
    } else if u < 0x800 {
        seq![(0xC0 + u / 64) as u8, (0x80 + u % 64) as u8]
    } else {
        seq![(0xE0 + u / 4096) as u8, (0x80 + (u / 64) % 64) as u8, (0x80 + u % 64) as u8]
    }
}

/// One character in modified UTF-8: a character beyond the Basic
/// Multilingual Plane becomes its two UTF-16 surrogates, three bytes each.
pub open spec fn modified_utf8_char(c: char) -> Seq<u8> {
    let v = c as int;
    if v < 0x10000 {
        modified_utf8_unit(v)
    } else {
        modified_utf8_unit(0xD800 + (v - 0x10000) / 1024) + modified_utf8_unit(
            0xDC00 + (v - 0x10000) % 1024,
        )
    }
}

/// Text in modified UTF-8, the string encoding of the tag format.
pub open spec fn modified_utf8(s: Seq<char>) -> Seq<u8>
    decreases s.len(),
{
    if s.len() == 0 {
        Seq::empty()
    } else {
        modified_utf8(s.drop_last()) + modified_utf8_char(s.last())
    }
}

/// Relies on cesu8's `to_java_cesu8`: the text in modified UTF-8 (NUL as two
/// bytes, characters beyond the Basic Multilingual Plane as surrogate pairs).
#[verifier::external_body]
fn string_bytes(s: &str) -> (r: Vec<u8>)
    ensures
        r@ == modified_utf8(s@),
{
    cesu8::to_java_cesu8(s).into_owned()
}

/// Writes the chunk document of a packed chunk, its block states and their counts.
pub fn chunk_document_bytes(data: &Vec<u8>, states: &Vec<String>, counts: &Vec<u32>) -> (r: Result<
    Vec<u8>,
    EncodeError,
>)
    requires
        states@.len() >= 1,
        counts@.len() == states@.len(),
    ensures
        !states_fit(state_bytes(states@)) ==> r == Err::<Vec<u8>, EncodeError>(EncodeError::StringTooLong),
        states_fit(state_bytes(states@)) && !document_fits(data@, state_bytes(states@)) ==> r == Err::<Vec<u8>, EncodeError>(
            EncodeError::ArrayTooLong,
        ),
        document_fits(data@, state_bytes(states@)) ==> (r matches Ok(b) && b@ == chunk_document(
            data@,
            state_bytes(states@),
            counts@,
        )),
{
    let ghost sb = state_bytes(states@);
    let mut k: usize = 0;
    while k < states.len()
        invariant
            k <= states@.len(),
            sb == state_bytes(states@),
            forall|j: int| 0 <= j < k ==> (#[trigger] sb[j]).len() <= 65535,
        decreases states@.len() - k,
    {
        if string_bytes(states[k].as_str()).len() > MAX_STRING_BYTES {
            assert(sb[k as int].len() > 65535);
            return Err(EncodeError::StringTooLong);
        }
        k = k + 1;
    }
    if data.len() > MAX_ARRAY_LEN || states.len() > MAX_ARRAY_LEN {
        return Err(EncodeError::ArrayTooLong);
    }
    proof {
        reveal_strlit("chiseledData");
        reveal_strlit("data");
    }
    let mut out: Vec<u8> = Vec::new();
    out.push(TAG_COMPOUND);
    push_u16(&mut out, 0);
    push_head(&mut out, TAG_COMPOUND, "chiseledData");
    push_head(&mut out, TAG_BYTE_ARRAY, "data");
    assert(out@ =~= document_head());
    push_u32(&mut out, data.len() as u32);
    push_bytes(&mut out, data.as_slice());
    push_after_data(&mut out, states, counts);
    assert(out@ =~= chunk_document(data@, sb, counts@));
    Ok(out)
}

#[verifier::spinoff_prover]
#[verifier::rlimit(50)]
fn push_after_data(out: &mut Vec<u8>, states: &Vec<String>, counts: &Vec<u32>)
    requires
        states@.len() >= 1,
        states@.len() <= MAX_ARRAY_LEN,
        counts@.len() == states@.len(),
        states_fit(state_bytes(states@)),
    ensures
        final(out)@ == old(out)@ + document_after_data(state_bytes(states@), counts@),
{
    let ghost sb = state_bytes(states@);
    proof {
        reveal_strlit("palette");
    }
    let ghost start = out@;
    push_head(out, TAG_LIST, "palette");
    out.push(TAG_COMPOUND);
    assert(out@ =~= start + palette_head());
    let n = states.len() as u32;
    push_u32(out, n);
    let ghost head = out@;
    let mut k: usize = 0;
    while k < states.len()
        invariant
            k <= states@.len(),
            sb == state_bytes(states@),
            forall|j: int| 0 <= j < states@.len() ==> (#[trigger] sb[j]).len() <= 65535,
            out@ == head + palette_elements(sb.take(k as int)),
        decreases states@.len() - k,
    {
        assert(sb[k as int] == modified_utf8(states@[k as int]@));
        push_state_compound(out, &states[k]);
        assert(sb.take(k + 1).drop_last() =~= sb.take(k as int));
        k = k + 1;
    }
    assert(sb.take(states@.len() as int) =~= sb);
    push_rest(out, states, counts);
    assert(out@ =~= start + document_after_data(sb, counts@));
}

#[verifier::spinoff_prover]
#[verifier::rlimit(50)]
fn push_rest(out: &mut Vec<u8>, states: &Vec<String>, counts: &Vec<u32>)
    requires
        states@.len() >= 1,
        states@.len() <= MAX_ARRAY_LEN,
        counts@.len() == states@.len(),
        states_fit(state_bytes(states@)),
    ensures
        final(out)@ == old(out)@ + document_rest(state_bytes(states@), counts@),
{
    let ghost sb = state_bytes(states@);
    proof {
        reveal_strlit("statistics");
        reveal_strlit("primaryState");
        reveal_strlit("blockStates");
    }
    let ghost start = out@;
    out.push(TAG_END);
    push_head(out, TAG_COMPOUND, "statistics");
    push_head(out, TAG_COMPOUND, "primaryState");
    assert(out@ =~= start + statistics_head());
    let ghost p1 = out@;
    assert(sb[0] == modified_utf8(states@[0]@));
    push_state_compound(out, &states[0]);
    let ghost p2 = out@;
    assert(p2 == p1 + state_compound(sb[0]));
    push_head(out, TAG_LIST, "blockStates");
    out.push(TAG_COMPOUND);
    assert(out@ =~= p2 + block_states_head());
    let ghost p3 = out@;
    push_u32(out, states.len() as u32);
    assert(out@ == p3 + be32(states@.len() as int));
    let ghost head2 = out@;
    let mut k: usize = 0;
    while k < states.len()
        invariant
            k <= states@.len(),
            counts@.len() == states@.len(),
            sb == state_bytes(states@),
            forall|j: int| 0 <= j < states@.len() ==> (#[trigger] sb[j]).len() <= 65535,
            out@ == head2 + block_state_elements(sb.take(k as int), counts@),
        decreases states@.len() - k,
    {
        proof {
            reveal_strlit("blockInformation");
            reveal_strlit("count");
        }
        let ghost before = out@;
        assert(sb[k as int] == modified_utf8(states@[k as int]@));
        push_head(out, TAG_COMPOUND, "blockInformation");
        push_state_compound(out, &states[k]);
        push_head(out, TAG_INT, "count");
        push_u32(out, counts[k]);
        out.push(TAG_END);
        assert(sb.take(k + 1).drop_last() =~= sb.take(k as int));
        assert(out@ =~= before + block_state_compound(sb[k as int], counts@[k as int]));
        k = k + 1;
    }
    assert(sb.take(states@.len() as int) =~= sb);
    let ghost q = out@;
    out.push(TAG_END);
    out.push(TAG_END);
    let ghost e = seq![TAG_END] + seq![TAG_END];
    let ghost bse = block_state_elements(sb, counts@);
    let ghost n4 = be32(states@.len() as int);
    let ghost sc = state_compound(sb[0]);
    assert(out@ =~= q + e);
    assert(out@ =~= head2 + (bse + e));
    assert(out@ =~= p2 + (block_states_head() + (n4 + (bse + e))));
    assert(out@ =~= p1 + (sc + (block_states_head() + (n4 + (bse + e)))));
    assert(out@ =~= start + (statistics_head() + (sc + (block_states_head() + (n4 + (bse + e))))));
}

fn push_state_compound(out: &mut Vec<u8>, state: &String)
    requires
        modified_utf8(state@).len() <= 65535,
    ensures
        final(out)@ == old(out)@ + state_compound(modified_utf8(state@)),
{
    proof {
        reveal_strlit("state");
    }
    push_head(out, TAG_STRING, "state");
    push_str(out, string_bytes(state.as_str()).as_slice());
    out.push(TAG_END);
    assert(final(out)@ =~= old(out)@ + state_compound(modified_utf8(state@)));
}

/// Writes the container document around a compressed chunk document.
pub fn container_bytes(compressed: &Vec<u8>) -> (r: Result<Vec<u8>, EncodeError>)
    ensures
        compressed@.len() > MAX_ARRAY_LEN ==> r == Err::<Vec<u8>, EncodeError>(
            EncodeError::ArrayTooLong,
        ),
        compressed@.len() <= MAX_ARRAY_LEN ==> (r matches Ok(b) && b@ == container_document(
            compressed@,
        )),
{
    if compressed.len() > MAX_ARRAY_LEN {
        return Err(EncodeError::ArrayTooLong);
    }
    proof {
        reveal_strlit("version");
        reveal_strlit("data");
        reveal_strlit("compressed");
    }
    let mut out: Vec<u8> = Vec::new();
    out.push(TAG_COMPOUND);
    push_u16(&mut out, 0);
    push_head(&mut out, TAG_INT, "version");
    push_u32(&mut out, 0);
    push_head(&mut out, TAG_COMPOUND, "data");
    push_head(&mut out, TAG_BYTE_ARRAY, "data");
    push_u32(&mut out, compressed.len() as u32);
    push_bytes(&mut out, compressed.as_slice());
    push_head(&mut out, TAG_BYTE, "compressed");
    out.push(1);
    out.push(TAG_END);
    out.push(TAG_END);
    assert(out@ =~= container_document(compressed@));
    Ok(out)
}

/// The JSON object that carries the encoded container.
pub fn pattern_json_text(text: &String) -> (r: String)
    ensures
        r@ == pattern_json(text@),
{
    let mut s = <String as vstd::string::StringExecFns>::from_str("{\"chiselData\":\"");
    vstd::string::StringExecFns::append(&mut s, text.as_str());
    vstd::string::StringExecFns::append(&mut s, "\",\"version\":\"1.0\"}");
    s
}


/// Serialises one packed chunk into the bytes of its pattern file: the chunk
/// document, LZ4-framed, inside the container document, base64 text inside
/// a JSON object, base64 again, then zlib.
pub fn data_to_pattern(data: &Vec<u8>, states: &Vec<String>, counts: &Vec<u32>) -> (r: Result<
    Vec<u8>,
    EncodeError,
>)
    requires
        states@.len() >= 1,
        counts@.len() == states@.len(),
    ensures
        !states_fit(state_bytes(states@)) ==> r == Err::<Vec<u8>, EncodeError>(EncodeError::StringTooLong),
        states_fit(state_bytes(states@)) && !document_fits(data@, state_bytes(states@)) ==> r == Err::<Vec<u8>, EncodeError>(
            EncodeError::ArrayTooLong,
        ),
        document_fits(data@, state_bytes(states@)) ==> {
            let document = chunk_document(data@, state_bytes(states@), counts@);
            &&& lz4_frame_of(document).len() > MAX_ARRAY_LEN ==> r == Err::<Vec<u8>, EncodeError>(
                EncodeError::ArrayTooLong,
            )
            &&& lz4_frame_of(document).len() <= MAX_ARRAY_LEN ==> (r matches Ok(b) && b@
                == pattern_bytes(document))
            &&& document.len() <= MAX_DOCUMENT_LEN ==> r is Ok
        },
{
    let document = chunk_document_bytes(data, states, counts)?;
    let compressed = lz4_compress(document.as_slice());
    assert(document@.len() <= MAX_DOCUMENT_LEN ==> compressed@.len() <= MAX_ARRAY_LEN);
    let container = container_bytes(&compressed)?;
    let text = base64_encode(container.as_slice());
    let json = pattern_json_text(&text);
    let outer = base64_encode(json.as_str().as_bytes());
    Ok(zlib_compress(outer.as_str().as_bytes()))
}


/// The container document loses nothing: different compressed chunks give
/// different containers.
pub proof fn lemma_container_lossless(a: Seq<u8>, b: Seq<u8>)
    requires
        container_document(a) == container_document(b),
    ensures
        a == b,
{
    let pre = field_head(TAG_COMPOUND, Seq::empty()) + field_head(TAG_INT, bytes_of("version"))
        + be32(0) + field_head(TAG_COMPOUND, bytes_of("data")) + field_head(
        TAG_BYTE_ARRAY,
        bytes_of("data"),
    );
    let suf = field_head(TAG_BYTE, bytes_of("compressed")) + seq![1u8] + seq![TAG_END] + seq![
        TAG_END,
    ];
    assert(container_document(a) =~= pre + be32(a.len() as int) + a + suf);
    assert(container_document(b) =~= pre + be32(b.len() as int) + b + suf);
    let start = pre.len() as int + 4;
    assert(a =~= container_document(a).subrange(start, start + a.len() as int));
    assert(b =~= container_document(b).subrange(start, start + b.len() as int));
}

/// The JSON wrapping loses nothing: different texts give different objects.
pub proof fn lemma_pattern_json_lossless(a: Seq<char>, b: Seq<char>)
    requires
        pattern_json(a) == pattern_json(b),
    ensures
        a == b,
{
    let pre = "{\"chiselData\":\""@;
    let suf = "\",\"version\":\"1.0\"}"@;
    assert(a =~= pattern_json(a).subrange(pre.len() as int, (pre.len() + a.len()) as int));
    assert(b =~= pattern_json(b).subrange(pre.len() as int, (pre.len() + b.len()) as int));
    assert(pattern_json(a).len() == pre.len() + a.len() + suf.len());
}

#[verifier::spinoff_prover]
#[verifier::rlimit(30)]
proof fn lemma_be32_injective(a: int, b: int)
    requires
        0 <= a < 0x1_0000_0000,
        0 <= b < 0x1_0000_0000,
        be32(a) == be32(b),
    ensures
        a == b,
{
    assert(be32(a)[0] == be32(b)[0]);
    assert(be32(a)[1] == be32(b)[1]);
    assert(be32(a)[2] == be32(b)[2]);
    assert(be32(a)[3] == be32(b)[3]);
}

proof fn lemma_be16_injective(a: int, b: int)
    requires
        0 <= a < 65536,
        0 <= b < 65536,
        be16(a) == be16(b),
    ensures
        a == b,
{
    assert(be16(a)[0] == be16(b)[0]);
    assert(be16(a)[1] == be16(b)[1]);
}

/// A common prefix cancels, and so does a prefix of the same length.
proof fn lemma_split_equal(p1: Seq<u8>, r1: Seq<u8>, p2: Seq<u8>, r2: Seq<u8>)
    requires
        p1 + r1 == p2 + r2,
        p1.len() == p2.len(),
    ensures
        p1 == p2,
        r1 == r2,
{
    assert(p1 =~= (p1 + r1).subrange(0, p1.len() as int));
    assert(p2 =~= (p2 + r2).subrange(0, p2.len() as int));
    assert(r1 =~= (p1 + r1).subrange(p1.len() as int, (p1 + r1).len() as int));
    assert(r2 =~= (p2 + r2).subrange(p2.len() as int, (p2 + r2).len() as int));
}

proof fn lemma_str_payload_prefix(x: Seq<u8>, r1: Seq<u8>, y: Seq<u8>, r2: Seq<u8>)
    requires
        str_payload(x) + r1 == str_payload(y) + r2,
        x.len() <= 65535,
        y.len() <= 65535,
    ensures
        x == y,
        r1 == r2,
{
    assert(str_payload(x) + r1 =~= be16(x.len() as int) + (x + r1));
    assert(str_payload(y) + r2 =~= be16(y.len() as int) + (y + r2));
    lemma_split_equal(be16(x.len() as int), x + r1, be16(y.len() as int), y + r2);
    lemma_be16_injective(x.len() as int, y.len() as int);
    lemma_split_equal(x, r1, y, r2);
}

proof fn lemma_state_compound_prefix(x: Seq<u8>, r1: Seq<u8>, y: Seq<u8>, r2: Seq<u8>)
    requires
        state_compound(x) + r1 == state_compound(y) + r2,
        x.len() <= 65535,
        y.len() <= 65535,
    ensures
        x == y,
        r1 == r2,
{
    let h = field_head(TAG_STRING, bytes_of("state"));
    assert(state_compound(x) + r1 =~= h + (str_payload(x) + (seq![TAG_END] + r1)));
    assert(state_compound(y) + r2 =~= h + (str_payload(y) + (seq![TAG_END] + r2)));
    lemma_split_equal(h, str_payload(x) + (seq![TAG_END] + r1), h, str_payload(y) + (seq![TAG_END] + r2));
    lemma_str_payload_prefix(x, seq![TAG_END] + r1, y, seq![TAG_END] + r2);
    lemma_split_equal(seq![TAG_END], r1, seq![TAG_END], r2);
}

proof fn lemma_palette_elements_front(s: Seq<Seq<u8>>)
    requires
        s.len() > 0,
    ensures
        palette_elements(s) == state_compound(s[0]) + palette_elements(s.drop_first()),
    decreases s.len(),
{
    if s.len() > 1 {
        lemma_palette_elements_front(s.drop_last());
        assert(s.drop_last().drop_first() =~= s.drop_first().drop_last());
        assert(s.drop_last()[0] == s[0]);
        assert(s.drop_first().last() == s.last());
        assert(palette_elements(s) =~= state_compound(s[0]) + palette_elements(s.drop_first()));
    } else {
        assert(s.drop_last() =~= Seq::<Seq<u8>>::empty());
        assert(s.drop_first() =~= Seq::<Seq<u8>>::empty());
        assert(palette_elements(s) =~= state_compound(s[0]) + palette_elements(s.drop_first()));
    }
}

proof fn lemma_palette_elements_prefix(s1: Seq<Seq<u8>>, r1: Seq<u8>, s2: Seq<Seq<u8>>, r2: Seq<u8>)
    requires
        palette_elements(s1) + r1 == palette_elements(s2) + r2,
        s1.len() == s2.len(),
        states_fit(s1),
        states_fit(s2),
    ensures
        s1 == s2,
        r1 == r2,
    decreases s1.len(),
{
    if s1.len() == 0 {
        assert(palette_elements(s1) + r1 =~= r1);
        assert(palette_elements(s2) + r2 =~= r2);
        assert(s1 =~= s2);
    } else {
        lemma_palette_elements_front(s1);
        lemma_palette_elements_front(s2);
        assert(palette_elements(s1) + r1 =~= state_compound(s1[0]) + (palette_elements(
            s1.drop_first(),
        ) + r1));
        assert(palette_elements(s2) + r2 =~= state_compound(s2[0]) + (palette_elements(
            s2.drop_first(),
        ) + r2));
        assert(s1[0].len() <= 65535);
        assert(s2[0].len() <= 65535);
        lemma_state_compound_prefix(
            s1[0],
            palette_elements(s1.drop_first()) + r1,
            s2[0],
            palette_elements(s2.drop_first()) + r2,
        );
        assert(states_fit(s1.drop_first())) by {
            assert forall|k: int| 0 <= k < s1.drop_first().len() implies (
            #[trigger] s1.drop_first()[k]).len() <= 65535 by {
                assert(s1.drop_first()[k] == s1[k + 1]);
            }
        }
        assert(states_fit(s2.drop_first())) by {
            assert forall|k: int| 0 <= k < s2.drop_first().len() implies (
            #[trigger] s2.drop_first()[k]).len() <= 65535 by {
                assert(s2.drop_first()[k] == s2[k + 1]);
            }
        }
        lemma_palette_elements_prefix(s1.drop_first(), r1, s2.drop_first(), r2);
        assert(s1 =~= seq![s1[0]] + s1.drop_first());
        assert(s2 =~= seq![s2[0]] + s2.drop_first());
    }
}

proof fn lemma_block_state_elements_front(s: Seq<Seq<u8>>, c: Seq<u32>)
    requires
        s.len() > 0,
        c.len() == s.len(),
    ensures
        block_state_elements(s, c) == block_state_compound(s[0], c[0]) + block_state_elements(
            s.drop_first(),
            c.drop_first(),
        ),
    decreases s.len(),
{
    if s.len() > 1 {
        lemma_block_state_elements_front(s.drop_last(), c.drop_last());
        lemma_block_state_elements_counts(s.drop_last(), c, c.drop_last());
        lemma_block_state_elements_counts(
            s.drop_first().drop_last(),
            c.drop_first(),
            c.drop_last().drop_first(),
        );
        assert(s.drop_last().drop_first() =~= s.drop_first().drop_last());
        assert(s.drop_last()[0] == s[0]);
        assert(s.drop_first().last() == s.last());
        assert(c.drop_first()[s.drop_first().len() - 1] == c[s.len() - 1]);
        assert(c.drop_last()[0] == c[0]);
        let inner = block_state_elements(s.drop_first().drop_last(), c.drop_first());
        assert(block_state_elements(s.drop_last(), c) == block_state_compound(s[0], c[0]) + inner);
        assert(block_state_elements(s, c) == block_state_elements(s.drop_last(), c)
            + block_state_compound(s.last(), c[s.len() - 1]));
        assert(block_state_elements(s.drop_first(), c.drop_first()) == inner
            + block_state_compound(s.last(), c[s.len() - 1]));
        let x = block_state_compound(s[0], c[0]);
        let y = block_state_compound(s.last(), c[s.len() - 1]);
        assert((x + inner) + y =~= x + (inner + y));
    } else {
        assert(s.drop_last() =~= Seq::<Seq<u8>>::empty());
        assert(s.drop_first() =~= Seq::<Seq<u8>>::empty());
        assert(block_state_elements(s.drop_last(), c) == Seq::<u8>::empty());
        assert(block_state_elements(s.drop_first(), c.drop_first()) == Seq::<u8>::empty());
        assert(block_state_elements(s, c) =~= block_state_compound(s[0], c[0])
            + block_state_elements(s.drop_first(), c.drop_first()));
    }
}

/// Only the counts of the listed states matter.
proof fn lemma_block_state_elements_counts(s: Seq<Seq<u8>>, c1: Seq<u32>, c2: Seq<u32>)
    requires
        c1.len() >= s.len(),
        c2.len() >= s.len(),
        forall|k: int| 0 <= k < s.len() ==> c1[k] == c2[k],
    ensures
        block_state_elements(s, c1) == block_state_elements(s, c2),
    decreases s.len(),
{
    if s.len() > 0 {
        lemma_block_state_elements_counts(s.drop_last(), c1, c2);
    }
}

proof fn lemma_block_state_compound_prefix(
    x: Seq<u8>,
    n: u32,
    r1: Seq<u8>,
    y: Seq<u8>,
    m: u32,
    r2: Seq<u8>,
)
    requires
        block_state_compound(x, n) + r1 == block_state_compound(y, m) + r2,
        x.len() <= 65535,
        y.len() <= 65535,
    ensures
        x == y,
        n == m,
        r1 == r2,
{
    let h1 = field_head(TAG_COMPOUND, bytes_of("blockInformation"));
    let h2 = field_head(TAG_INT, bytes_of("count"));
    assert(block_state_compound(x, n) + r1 =~= h1 + (state_compound(x) + (h2 + (be32(n as int) + (
    seq![TAG_END] + r1)))));
    assert(block_state_compound(y, m) + r2 =~= h1 + (state_compound(y) + (h2 + (be32(m as int) + (
    seq![TAG_END] + r2)))));
    lemma_split_equal(
        h1,
        state_compound(x) + (h2 + (be32(n as int) + (seq![TAG_END] + r1))),
        h1,
        state_compound(y) + (h2 + (be32(m as int) + (seq![TAG_END] + r2))),
    );
    lemma_state_compound_prefix(
        x,
        h2 + (be32(n as int) + (seq![TAG_END] + r1)),
        y,
        h2 + (be32(m as int) + (seq![TAG_END] + r2)),
    );
    lemma_split_equal(h2, be32(n as int) + (seq![TAG_END] + r1), h2, be32(m as int) + (seq![TAG_END] + r2));
    lemma_split_equal(be32(n as int), seq![TAG_END] + r1, be32(m as int), seq![TAG_END] + r2);
    lemma_be32_injective(n as int, m as int);
    lemma_split_equal(seq![TAG_END], r1, seq![TAG_END], r2);
}

proof fn lemma_block_state_elements_prefix(
    s1: Seq<Seq<u8>>,
    c1: Seq<u32>,
    r1: Seq<u8>,
    s2: Seq<Seq<u8>>,
    c2: Seq<u32>,
    r2: Seq<u8>,
)
    requires
        block_state_elements(s1, c1) + r1 == block_state_elements(s2, c2) + r2,
        s1.len() == s2.len(),
        c1.len() == s1.len(),
        c2.len() == s2.len(),
        states_fit(s1),
        states_fit(s2),
    ensures
        s1 == s2,
        c1 == c2,
        r1 == r2,
    decreases s1.len(),
{
    if s1.len() == 0 {
        assert(block_state_elements(s1, c1) + r1 =~= r1);
        assert(block_state_elements(s2, c2) + r2 =~= r2);
        assert(s1 =~= s2);
        assert(c1 =~= c2);
    } else {
        lemma_block_state_elements_front(s1, c1);
        lemma_block_state_elements_front(s2, c2);
        let t1 = block_state_elements(s1.drop_first(), c1.drop_first()) + r1;
        let t2 = block_state_elements(s2.drop_first(), c2.drop_first()) + r2;
        assert(block_state_elements(s1, c1) + r1 =~= block_state_compound(s1[0], c1[0]) + t1);
        assert(block_state_elements(s2, c2) + r2 =~= block_state_compound(s2[0], c2[0]) + t2);
        assert(s1[0].len() <= 65535);
        assert(s2[0].len() <= 65535);
        lemma_block_state_compound_prefix(s1[0], c1[0], t1, s2[0], c2[0], t2);
        assert(states_fit(s1.drop_first())) by {
            assert forall|k: int| 0 <= k < s1.drop_first().len() implies (
            #[trigger] s1.drop_first()[k]).len() <= 65535 by {
                assert(s1.drop_first()[k] == s1[k + 1]);
            }
        }
        assert(states_fit(s2.drop_first())) by {
            assert forall|k: int| 0 <= k < s2.drop_first().len() implies (
            #[trigger] s2.drop_first()[k]).len() <= 65535 by {
                assert(s2.drop_first()[k] == s2[k + 1]);
            }
        }
        lemma_block_state_elements_prefix(
            s1.drop_first(),
            c1.drop_first(),
            r1,
            s2.drop_first(),
            c2.drop_first(),
            r2,
        );
        assert(s1 =~= seq![s1[0]] + s1.drop_first());
        assert(s2 =~= seq![s2[0]] + s2.drop_first());
        assert(c1 =~= seq![c1[0]] + c1.drop_first());
        assert(c2 =~= seq![c2[0]] + c2.drop_first());
    }
}

/// The chunk document loses nothing: the packed data, the block states and
/// their counts can all be read back from it.
pub proof fn lemma_chunk_document_lossless(
    d1: Seq<u8>,
    s1: Seq<Seq<u8>>,
    c1: Seq<u32>,
    d2: Seq<u8>,
    s2: Seq<Seq<u8>>,
    c2: Seq<u32>,
)
    requires
        chunk_document(d1, s1, c1) == chunk_document(d2, s2, c2),
        document_fits(d1, s1),
        document_fits(d2, s2),
        s1.len() >= 1,
        s2.len() >= 1,
        c1.len() == s1.len(),
        c2.len() == s2.len(),
    ensures
        d1 == d2,
        s1 == s2,
        c1 == c2,
{
    let a = document_head();
    let b = palette_head();
    let m = statistics_head();
    let l = block_states_head();
    let e = seq![TAG_END] + seq![TAG_END];
    let r1 = document_rest(s1, c1);
    let r2 = document_rest(s2, c2);
    let t1 = document_after_data(s1, c1);
    let t2 = document_after_data(s2, c2);
    lemma_split_equal(a, be32(d1.len() as int) + (d1 + t1), a, be32(d2.len() as int) + (d2 + t2));
    lemma_split_equal(be32(d1.len() as int), d1 + t1, be32(d2.len() as int), d2 + t2);
    lemma_be32_injective(d1.len() as int, d2.len() as int);
    lemma_split_equal(d1, t1, d2, t2);
    lemma_split_equal(
        b,
        be32(s1.len() as int) + (palette_elements(s1) + r1),
        b,
        be32(s2.len() as int) + (palette_elements(s2) + r2),
    );
    lemma_split_equal(
        be32(s1.len() as int),
        palette_elements(s1) + r1,
        be32(s2.len() as int),
        palette_elements(s2) + r2,
    );
    lemma_be32_injective(s1.len() as int, s2.len() as int);
    lemma_palette_elements_prefix(s1, r1, s2, r2);
    lemma_split_equal(
        m,
        state_compound(s1[0]) + (l + (be32(s1.len() as int) + (block_state_elements(s1, c1) + e))),
        m,
        state_compound(s2[0]) + (l + (be32(s2.len() as int) + (block_state_elements(s2, c2) + e))),
    );
    lemma_split_equal(
        state_compound(s1[0]),
        l + (be32(s1.len() as int) + (block_state_elements(s1, c1) + e)),
        state_compound(s2[0]),
        l + (be32(s2.len() as int) + (block_state_elements(s2, c2) + e)),
    );
    lemma_split_equal(
        l,
        be32(s1.len() as int) + (block_state_elements(s1, c1) + e),
        l,
        be32(s2.len() as int) + (block_state_elements(s2, c2) + e),
    );
    lemma_split_equal(
        be32(s1.len() as int),
        block_state_elements(s1, c1) + e,
        be32(s2.len() as int),
        block_state_elements(s2, c2) + e,
    );
    lemma_block_state_elements_prefix(s1, c1, e, s2, c2, e);
}

proof fn lemma_ascii_literal_len(s: &str)
    requires
        vstd::utf8::is_ascii_chars(s@),
    ensures
        bytes_of(s).len() == s@.len(),
{
    vstd::utf8::is_ascii_chars_encode_utf8(s@);
}

proof fn lemma_palette_elements_len(s: Seq<Seq<u8>>)
    requires
        states_fit(s),
    ensures
        palette_elements(s).len() <= s.len() * 65600,
    decreases s.len(),
{
    if s.len() > 0 {
        assert(states_fit(s.drop_last()));
        lemma_palette_elements_len(s.drop_last());
        reveal_strlit("state");
        lemma_ascii_literal_len("state");
        assert(s[s.len() - 1].len() <= 65535);
        assert(state_compound(s.last()).len() <= 65600);
        assert((s.len() - 1) * 65600 + 65600 == s.len() * 65600) by (nonlinear_arith);
    }
}

proof fn lemma_block_state_elements_len(s: Seq<Seq<u8>>, c: Seq<u32>)
    requires
        states_fit(s),
    ensures
        block_state_elements(s, c).len() <= s.len() * 65700,
    decreases s.len(),
{
    if s.len() > 0 {
        assert(states_fit(s.drop_last()));
        lemma_block_state_elements_len(s.drop_last(), c);
        reveal_strlit("state");
        reveal_strlit("blockInformation");
        reveal_strlit("count");
        lemma_ascii_literal_len("state");
        lemma_ascii_literal_len("blockInformation");
        lemma_ascii_literal_len("count");
        assert(s[s.len() - 1].len() <= 65535);
        assert(block_state_compound(s.last(), c[s.len() - 1]).len() <= 65700);
        assert((s.len() - 1) * 65700 + 65700 == s.len() * 65700) by (nonlinear_arith);
    }
}

/// A chunk document of at most 257 block states and 8192 data bytes is
/// short enough to be encoded.
pub proof fn lemma_document_len(d: Seq<u8>, s: Seq<Seq<u8>>, c: Seq<u32>)
    requires
        states_fit(s),
        1 <= s.len() <= 257,
        d.len() <= 8192,
    ensures
        chunk_document(d, s, c).len() <= MAX_DOCUMENT_LEN,
{
    lemma_palette_elements_len(s);
    lemma_block_state_elements_len(s, c);
    assert(s.len() * 65600 <= 257 * 65600) by (nonlinear_arith)
        requires
            s.len() <= 257,
    ;
    assert(s.len() * 65700 <= 257 * 65700) by (nonlinear_arith)
        requires
            s.len() <= 257,
    ;
    reveal_strlit("chiseledData");
    reveal_strlit("data");
    reveal_strlit("palette");
    reveal_strlit("statistics");
    reveal_strlit("primaryState");
    reveal_strlit("blockStates");
    reveal_strlit("state");
    lemma_ascii_literal_len("chiseledData");
    lemma_ascii_literal_len("data");
    lemma_ascii_literal_len("palette");
    lemma_ascii_literal_len("statistics");
    lemma_ascii_literal_len("primaryState");
    lemma_ascii_literal_len("blockStates");
    lemma_ascii_literal_len("state");
    assert(s[0].len() <= 65535);
}
} // verus!
