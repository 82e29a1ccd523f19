//! The PNG container codec: signature and chunk-stream validation, and
//! locating, reading, removing and writing the zTXt chunk that carries the
//! metadata.

use vstd::prelude::*;
use vstd::slice::slice_subrange;

use crate::bytes::insert_multiple_at;
use crate::bytes::range_remove;
use crate::codec::crc32;
use crate::codec::crc32_of;
use crate::codec::zlib_deflate;
use crate::codec::zlib_inflate;
use crate::codec::zlib_deflated;
use crate::codec::zlib_inflated;

verus! {

/// Why a PNG buffer was refused, or why no metadata came out of it.
#[derive(Clone, Copy, Debug, PartialEq, Eq, Structural)]
pub enum PngError {
    /// The first eight bytes are not the PNG signature.
    InvalidSignature,
    /// A chunk header, payload or trailer runs past the end of the buffer.
    Truncated,
    /// A chunk's CRC trailer does not match its type and payload.
    ChecksumMismatch,
    /// A chunk's type is not four ASCII letters.
    InvalidChunkName,
    /// The metadata chunk's payload could not be inflated.
    InflateFailed,
    /// No chunk carries metadata.
    NoMetadata,
    /// The metadata chunk would not fit a chunk length field or the buffer.
    ChunkTooLarge,
}

/// A parsed chunk header: type name and payload length.
pub struct ChunkDesc {
    pub name: Seq<u8>,
    pub length: nat,
}

/// The descriptor of one chunk; the payload stays in the buffer.
#[derive(Debug)]
pub struct PngChunk {
    name: Vec<u8>,
    length: u32,
}

impl View for PngChunk {
    type V = ChunkDesc;

    closed spec fn view(&self) -> ChunkDesc {
        ChunkDesc { name: self.name@, length: self.length as nat }
    }
}

impl PngChunk {
    /// The four bytes of the chunk type.
    pub fn name(&self) -> (r: &Vec<u8>)
        ensures
            r@ == self@.name,
    {
        &self.name
    }

    /// The payload length, without length field, type and CRC.
    pub fn length(&self) -> (r: u32)
        ensures
            r as nat == self@.length,
    {
        self.length
    }
}

pub open spec fn descs(cs: Seq<PngChunk>) -> Seq<ChunkDesc> {
    cs.map_values(|c: PngChunk| c@)
}

pub open spec fn png_signature() -> Seq<u8> {
    seq![0x89u8, 0x50u8, 0x4eu8, 0x47u8, 0x0du8, 0x0au8, 0x1au8, 0x0au8]
}

/// Type of the chunk that carries the metadata.
pub open spec fn ztxt_name() -> Seq<u8> {
    seq![0x7au8, 0x54u8, 0x58u8, 0x74u8]
}

/// Type of the chunk that ends the stream.
pub open spec fn iend_name() -> Seq<u8> {
    seq![0x49u8, 0x45u8, 0x4eu8, 0x44u8]
}

/// Keyword and compression method that open an Exif-carrying zTXt payload.
pub open spec fn raw_profile_type_exif() -> Seq<u8> {
    seq![0x52u8, 0x61u8, 0x77u8, 0x20u8, 0x70u8, 0x72u8, 0x6fu8, 0x66u8, 0x69u8, 0x6cu8, 0x65u8, 0x20u8, 0x74u8, 0x79u8, 0x70u8, 0x65u8, 0x20u8, 0x65u8, 0x78u8, 0x69u8, 0x66u8, 0x00u8, 0x00u8]
}

/// Big-endian value of the four bytes at `at`.
pub open spec fn be32(b: Seq<u8>, at: int) -> nat {
    (((b[at] as int * 256 + b[at + 1] as int) * 256 + b[at + 2] as int) * 256 + b[at + 3] as int) as nat
}

/// The four big-endian bytes of `x`.
pub open spec fn be32_bytes(x: nat) -> Seq<u8> {
    seq![(x / 16777216 % 256) as u8, (x / 65536 % 256) as u8, (x / 256 % 256) as u8, (x % 256) as u8]
}

pub open spec fn is_ascii_letter(c: u8) -> bool {
    (0x41 <= c <= 0x5a) || (0x61 <= c <= 0x7a)
}

/// Chunk types are four ASCII letters.
pub open spec fn valid_chunk_name(n: Seq<u8>) -> bool {
    n.len() == 4 && forall|k: int| 0 <= k < 4 ==> is_ascii_letter(#[trigger] n[k])
}

/// The chunk whose length field starts at `pos`, or why it is refused.
pub open spec fn chunk_at(b: Seq<u8>, pos: int) -> Result<ChunkDesc, PngError> {
    if pos < 0 || pos + 8 > b.len() {
        Err(PngError::Truncated)
    } else {
        let len = be32(b, pos);
        if pos + 12 + len > b.len() {
            Err(PngError::Truncated)
        } else if crc32_of(b.subrange(pos + 4, pos + 8 + len)) as nat != be32(b, pos + 8 + len) {
            Err(PngError::ChecksumMismatch)
        } else if !valid_chunk_name(b.subrange(pos + 4, pos + 8)) {
            Err(PngError::InvalidChunkName)
        } else {
            Ok(ChunkDesc { name: b.subrange(pos + 4, pos + 8), length: len })
        }
    }
}

/// The chunks from `pos` up to and including the first IEND chunk, or the
/// first failure on the way.
pub open spec fn parse_from(b: Seq<u8>, pos: int) -> Result<Seq<ChunkDesc>, PngError>
    decreases b.len() - pos,
{
    match chunk_at(b, pos) {
        Err(e) => Err(e),
        Ok(c) => if c.name == iend_name() {
            Ok(seq![c])
        } else if pos + 12 + c.length > pos {
            match parse_from(b, pos + 12 + c.length) {
                Ok(rest) => Ok(seq![c] + rest),
                Err(e) => Err(e),
            }
        } else {
            Err(PngError::Truncated)
        },
    }
}

/// What parsing a whole buffer gives.
pub open spec fn parse_spec(b: Seq<u8>) -> Result<Seq<ChunkDesc>, PngError> {
    if b.len() < 8 || b.subrange(0, 8) != png_signature() {
        Err(PngError::InvalidSignature)
    } else {
        parse_from(b, 8)
    }
}

fn read_be32(b: &Vec<u8>, pos: usize) -> (r: u32)
    requires
        pos + 4 <= b@.len(),
    ensures
        r as nat == be32(b@, pos as int),
{
    let n = b.len();
    assert(pos + 4 <= n);
    let b0 = b[pos] as u64;
    let b1 = b[pos + 1] as u64;
    let b2 = b[pos + 2] as u64;
    let b3 = b[pos + 3] as u64;
    assert(b0 < 256 && b1 < 256 && b2 < 256 && b3 < 256);
    let h1 = b0 * 256 + b1;
    assert(h1 < 65536);
    let h2 = h1 * 256 + b2;
    assert(h2 < 16777216);
    let v = h2 * 256 + b3;
    assert(v < 4294967296);
    v as u32
}

fn check_signature(b: &Vec<u8>) -> (r: Result<usize, PngError>)
    ensures
        r is Ok <==> (b@.len() >= 8 && b@.subrange(0, 8) == png_signature()),
        r is Ok ==> r == Ok::<usize, PngError>(8),
        r is Err ==> r == Err::<usize, PngError>(PngError::InvalidSignature),
{
    if b.len() < 8 {
        return Err(PngError::InvalidSignature);
    }
    let ok = b[0] == 0x89 && b[1] == 0x50 && b[2] == 0x4e && b[3] == 0x47 && b[4] == 0x0d && b[5]
        == 0x0a && b[6] == 0x1a && b[7] == 0x0a;
    if ok {
        assert(b@.subrange(0, 8) =~= png_signature());
        Ok(8)
    } else {
        assert(b@.subrange(0, 8) != png_signature()) by {
            if b@.subrange(0, 8) == png_signature() {
                assert(b@[0] == b@.subrange(0, 8)[0]);
                assert(b@[1] == b@.subrange(0, 8)[1]);
                assert(b@[2] == b@.subrange(0, 8)[2]);
                assert(b@[3] == b@.subrange(0, 8)[3]);
                assert(b@[4] == b@.subrange(0, 8)[4]);
                assert(b@[5] == b@.subrange(0, 8)[5]);
                assert(b@[6] == b@.subrange(0, 8)[6]);
                assert(b@[7] == b@.subrange(0, 8)[7]);
            }
        }
        Err(PngError::InvalidSignature)
    }
}

fn is_letter(c: u8) -> (r: bool)
    ensures
        r == is_ascii_letter(c),
{
    (0x41 <= c && c <= 0x5a) || (0x61 <= c && c <= 0x7a)
}

/// Reads and validates the chunk whose length field starts at `pos`.
fn get_next_chunk_descriptor(b: &Vec<u8>, pos: usize) -> (r: Result<PngChunk, PngError>)
    ensures
        match r {
            Ok(c) => chunk_at(b@, pos as int) == Ok::<ChunkDesc, PngError>(c@),
            Err(e) => chunk_at(b@, pos as int) == Err::<ChunkDesc, PngError>(e),
        },
        r is Ok ==> pos + 12 + r->Ok_0@.length <= b@.len(),
{
    if b.len() < 8 || pos > b.len() - 8 {
        return Err(PngError::Truncated);
    }
    let len = read_be32(b, pos);
    if b.len() - pos < 12 || len as usize > b.len() - pos - 12 {
        return Err(PngError::Truncated);
    }
    let end = pos + 8 + len as usize;
    let data = slice_subrange(b.as_slice(), pos + 4, end);
    let checksum = crc32(data);
    let stored = read_be32(b, end);
    if checksum != stored {
        return Err(PngError::ChecksumMismatch);
    }
    let name_ok = is_letter(b[pos + 4]) && is_letter(b[pos + 5]) && is_letter(b[pos + 6]) && is_letter(
        b[pos + 7],
    );
    let ghost n = b@.subrange(pos + 4, pos + 8);
    assert(n[0] == b@[pos + 4] && n[1] == b@[pos + 5] && n[2] == b@[pos + 6] && n[3] == b@[pos + 7]);
    if !name_ok {
        return Err(PngError::InvalidChunkName);
    }
    let mut name: Vec<u8> = Vec::new();
    name.push(b[pos + 4]);
    name.push(b[pos + 5]);
    name.push(b[pos + 6]);
    name.push(b[pos + 7]);
    assert(name@ =~= n);
    Ok(PngChunk { name, length: len })
}

fn is_iend(c: &PngChunk) -> (r: bool)
    ensures
        r == (c@.name == iend_name()),
{
    let n = &c.name;
    if n.len() != 4 {
        return false;
    }
    let r = n[0] == 0x49 && n[1] == 0x45 && n[2] == 0x4e && n[3] == 0x44;
    if r {
        assert(n@ =~= iend_name());
    }
    r
}

/// Validates the signature and every chunk up to and including the first
/// IEND chunk, and returns their descriptors in order.
pub fn parse_png(file_buffer: &Vec<u8>) -> (r: Result<Vec<PngChunk>, PngError>)
    ensures
        match r {
            Ok(cs) => parse_spec(file_buffer@) == Ok::<Seq<ChunkDesc>, PngError>(descs(cs@)),
            Err(e) => parse_spec(file_buffer@) == Err::<Seq<ChunkDesc>, PngError>(e),
        },
{
    let mut pos = match check_signature(file_buffer) {
        Ok(p) => p,
        Err(e) => return Err(e),
    };
    let mut chunks: Vec<PngChunk> = Vec::new();
    loop
        invariant
            8 <= pos,
            parse_spec(file_buffer@) == match parse_from(file_buffer@, pos as int) {
                Ok(rest) => Ok::<Seq<ChunkDesc>, PngError>(descs(chunks@) + rest),
                Err(e) => Err::<Seq<ChunkDesc>, PngError>(e),
            },
        decreases file_buffer@.len() - pos,
    {
        let c = match get_next_chunk_descriptor(file_buffer, pos) {
            Ok(c) => c,
            Err(e) => return Err(e),
        };
        let ghost before = chunks@;
        let last = is_iend(&c);
        let clen = c.length();
        let blen = file_buffer.len();
        assert(pos + 12 + clen <= blen);
        let next = pos + 12 + clen as usize;
        chunks.push(c);
        assert(descs(chunks@) =~= descs(before) + seq![c@]);
        if last {
            assert(descs(before) + seq![c@] =~= descs(chunks@));
            return Ok(chunks);
        }
        assert forall|rest: Seq<ChunkDesc>| #[trigger] (descs(before) + (seq![c@] + rest)) == descs(chunks@) + rest by {
            assert(descs(before) + (seq![c@] + rest) =~= descs(chunks@) + rest);
        }
        pos = next;
    }
}

/// Offset of the length field of chunk `i`, when the first one starts at
/// `base`.
pub open spec fn chunk_offset(cs: Seq<ChunkDesc>, base: int, i: int) -> int
    decreases i,
{
    if i <= 0 {
        base
    } else {
        chunk_offset(cs, base, i - 1) + cs[i - 1].length + 12
    }
}

/// The chunk `c` at `pos` is a zTXt chunk whose payload opens with the
/// Exif raw-profile keyword.
pub open spec fn is_exif_chunk(b: Seq<u8>, pos: int, c: ChunkDesc) -> bool {
    &&& c.name == ztxt_name()
    &&& c.length >= raw_profile_type_exif().len()
    &&& b.subrange(pos + 8, pos + 8 + raw_profile_type_exif().len()) == raw_profile_type_exif()
}

/// The bytes of the first `n` chunks of `cs` that do not carry metadata.
pub open spec fn kept(b: Seq<u8>, cs: Seq<ChunkDesc>, n: int) -> Seq<u8>
    decreases n,
{
    if n <= 0 {
        Seq::empty()
    } else {
        let s = chunk_offset(cs, 8, n - 1);
        kept(b, cs, n - 1) + if is_exif_chunk(b, s, cs[n - 1]) {
            Seq::empty()
        } else {
            b.subrange(s, s + cs[n - 1].length + 12)
        }
    }
}

/// `b`, whose chunks are `cs`, without its metadata chunks; the signature
/// and whatever follows the IEND chunk stay.
pub open spec fn cleared(b: Seq<u8>, cs: Seq<ChunkDesc>) -> Seq<u8> {
    b.subrange(0, 8) + kept(b, cs, cs.len() as int) + b.subrange(chunk_offset(cs, 8, cs.len() as int), b.len() as int)
}

/// Index of the first metadata chunk from chunk `i` on.
pub open spec fn first_exif(b: Seq<u8>, cs: Seq<ChunkDesc>, i: int) -> Option<int>
    decreases cs.len() - i,
{
    if i < 0 || i >= cs.len() {
        None
    } else if is_exif_chunk(b, chunk_offset(cs, 8, i), cs[i]) {
        Some(i)
    } else {
        first_exif(b, cs, i + 1)
    }
}

/// What reading the metadata of `b` gives.
pub open spec fn read_spec(b: Seq<u8>) -> Result<Seq<u8>, PngError> {
    match parse_spec(b) {
        Err(e) => Err(e),
        Ok(cs) => match first_exif(b, cs, 0) {
            None => Err(PngError::NoMetadata),
            Some(i) => {
                let s = chunk_offset(cs, 8, i);
                match zlib_inflated(b.subrange(s + 8 + raw_profile_type_exif().len(), s + 8 + cs[i].length)) {
                    Some(d) => Ok(d),
                    None => Err(PngError::InflateFailed),
                }
            },
        },
    }
}

/// Type, keyword and compressed data of a metadata chunk.
pub open spec fn exif_chunk_body(compressed: Seq<u8>) -> Seq<u8> {
    ztxt_name() + raw_profile_type_exif() + compressed
}

/// The whole metadata chunk that carries `compressed`.
#[verifier::opaque]
pub open spec fn exif_chunk(compressed: Seq<u8>) -> Seq<u8> {
    be32_bytes(raw_profile_type_exif().len() + compressed.len()) + exif_chunk_body(compressed) + be32_bytes(
        crc32_of(exif_chunk_body(compressed)) as nat,
    )
}

/// A chunk with `compressed` fits its length field, and a buffer of
/// `buf_len` bytes with it fits memory.
pub open spec fn exif_chunk_fits(buf_len: nat, compressed: Seq<u8>) -> bool {
    &&& raw_profile_type_exif().len() + compressed.len() <= u32::MAX
    &&& buf_len + 12 + raw_profile_type_exif().len() + compressed.len() <= usize::MAX
}

/// What writing `encoded` into `b` gives: the buffer afterwards, and the
/// result.
pub open spec fn write_spec(b: Seq<u8>, encoded: Seq<u8>) -> (Seq<u8>, Result<(), PngError>) {
    match parse_spec(b) {
        Err(e) => (b, Err(e)),
        Ok(cs) => if !exif_chunk_fits(b.len(), zlib_deflated(encoded)) {
            (b, Err(PngError::ChunkTooLarge))
        } else {
            let c = cleared(b, cs);
            match parse_spec(c) {
                Err(e) => (c, Err(e)),
                Ok(cs2) => {
                    let at = (8 + cs2[0].length + 12) as int;
                    (c.subrange(0, at) + exif_chunk(zlib_deflated(encoded)) + c.subrange(at, c.len() as int), Ok(()))
                },
            }
        },
    }
}

proof fn lemma_offset_shift(cs: Seq<ChunkDesc>, base: int, i: int)
    requires
        cs.len() > 0,
        0 <= i < cs.len(),
    ensures
        chunk_offset(cs, base, i + 1) == chunk_offset(cs.drop_first(), base + cs[0].length + 12, i),
    decreases i,
{
    assert(chunk_offset(cs, base, 0) == base);
    assert(chunk_offset(cs.drop_first(), base + cs[0].length + 12, 0) == base + cs[0].length + 12);
    if i > 0 {
        lemma_offset_shift(cs, base, i - 1);
        assert(cs.drop_first()[i - 1] == cs[i]);
    }
}

/// Where a successful parse places each chunk.
proof fn lemma_parse_layout(b: Seq<u8>, pos: int, cs: Seq<ChunkDesc>)
    requires
        parse_from(b, pos) == Ok::<Seq<ChunkDesc>, PngError>(cs),
    ensures
        cs.len() > 0,
        pos >= 0,
        chunk_offset(cs, pos, cs.len() as int) <= b.len(),
        cs[cs.len() - 1].name == iend_name(),
        forall|i: int|
            0 <= i < cs.len() ==> chunk_at(b, #[trigger] chunk_offset(cs, pos, i)) == Ok::<ChunkDesc, PngError>(cs[i])
                && chunk_offset(cs, pos, i) >= pos && chunk_offset(cs, pos, i) + 12 + cs[i].length <= b.len(),
        forall|i: int| 0 <= i < cs.len() - 1 ==> #[trigger] cs[i].name != iend_name(),
    decreases b.len() - pos,
{
    let c = chunk_at(b, pos)->Ok_0;
    if c.name == iend_name() {
        assert(chunk_offset(cs, pos, 1) == chunk_offset(cs, pos, 0) + cs[0].length + 12);
    } else {
        let next = pos + 12 + c.length;
        let rest = parse_from(b, next)->Ok_0;
        lemma_parse_layout(b, next, rest);
        assert(cs == seq![c] + rest);
        assert(cs.drop_first() =~= rest);
        assert forall|i: int| 0 <= i < cs.len() implies chunk_at(b, #[trigger] chunk_offset(cs, pos, i)) == Ok::<
            ChunkDesc,
            PngError,
        >(cs[i]) && chunk_offset(cs, pos, i) >= pos && chunk_offset(cs, pos, i) + 12 + cs[i].length
            <= b.len() by {
            if i > 0 {
                lemma_offset_shift(cs, pos, i - 1);
                assert(cs[i] == rest[i - 1]);
            }
        }
        lemma_offset_shift(cs, pos, cs.len() - 1);
        assert forall|i: int| 0 <= i < cs.len() - 1 implies #[trigger] cs[i].name != iend_name() by {
            if i > 0 {
                assert(cs[i] == rest[i - 1]);
            }
        }
    }
}

/// The kept chunks of the first `n` take no more room than those chunks.
proof fn lemma_kept_len(b: Seq<u8>, cs: Seq<ChunkDesc>, n: int)
    requires
        0 <= n <= cs.len(),
        forall|j: int|
            0 <= j < cs.len() ==> #[trigger] chunk_offset(cs, 8, j) >= 8 && chunk_offset(cs, 8, j) + 12
                + cs[j].length <= b.len(),
    ensures
        kept(b, cs, n).len() <= chunk_offset(cs, 8, n) - 8,
    decreases n,
{
    if n > 0 {
        lemma_kept_len(b, cs, n - 1);
        assert(chunk_offset(cs, 8, n - 1) >= 8);
    }
}

fn raw_profile_prefix() -> (r: Vec<u8>)
    ensures
        r@ == raw_profile_type_exif(),
{
    let mut v: Vec<u8> = Vec::new();
    v.push(0x52);
    v.push(0x61);
    v.push(0x77);
    v.push(0x20);
    v.push(0x70);
    v.push(0x72);
    v.push(0x6f);
    v.push(0x66);
    v.push(0x69);
    v.push(0x6c);
    v.push(0x65);
    v.push(0x20);
    v.push(0x74);
    v.push(0x79);
    v.push(0x70);
    v.push(0x65);
    v.push(0x20);
    v.push(0x65);
    v.push(0x78);
    v.push(0x69);
    v.push(0x66);
    v.push(0x00);
    v.push(0x00);
    assert(v@ =~= raw_profile_type_exif());
    v
}

/// Whether the chunk `c`, whose length field starts at `pos`, carries the
/// metadata.
fn is_exif_at(b: &Vec<u8>, pos: usize, c: &PngChunk, prefix: &Vec<u8>) -> (r: bool)
    requires
        pos + 12 + c@.length <= b@.len(),
        prefix@ == raw_profile_type_exif(),
    ensures
        r == is_exif_chunk(b@, pos as int, c@),
{
    let n = &c.name;
    let is_ztxt = n.len() == 4 && n[0] == 0x7a && n[1] == 0x54 && n[2] == 0x58 && n[3] == 0x74;
    if is_ztxt {
        assert(n@ =~= ztxt_name());
    }
    if !is_ztxt || (c.length as usize) < prefix.len() {
        return false;
    }
    let blen = b.len();
    let mut k: usize = 0;
    while k < prefix.len()
        invariant
            k <= prefix@.len(),
            prefix@ == raw_profile_type_exif(),
            pos + 8 + prefix@.len() <= b@.len(),
            b@.len() == blen,
            forall|j: int| 0 <= j < k ==> b@[pos + 8 + j] == prefix@[j],
        decreases prefix@.len() - k,
    {
        if b[pos + 8 + k] != prefix[k] {
            assert(b@.subrange(pos + 8, pos + 8 + prefix@.len())[k as int] != prefix@[k as int]);
            return false;
        }
        k = k + 1;
    }
    assert(b@.subrange(pos + 8, pos + 8 + prefix@.len()) =~= prefix@);
    true
}

/// Equal windows have equal sub-windows.
proof fn lemma_window(a: Seq<u8>, p: int, b: Seq<u8>, q: int, n: int, s: int, e: int)
    requires
        0 <= p && p + n <= a.len(),
        0 <= q && q + n <= b.len(),
        0 <= s <= e <= n,
        a.subrange(p, p + n) == b.subrange(q, q + n),
    ensures
        a.subrange(p + s, p + e) == b.subrange(q + s, q + e),
{
    assert forall|k: int| 0 <= k < e - s implies #[trigger] a.subrange(p + s, p + e)[k] == b.subrange(q + s, q + e)[k] by {
        assert(a.subrange(p, p + n)[s + k] == b.subrange(q, q + n)[s + k]);
        assert(a.subrange(p, p + n)[s + k] == a[p + s + k]);
        assert(b.subrange(q, q + n)[s + k] == b[q + s + k]);
        assert(a.subrange(p + s, p + e)[k] == a[p + s + k]);
        assert(b.subrange(q + s, q + e)[k] == b[q + s + k]);
    }
    assert(a.subrange(p + s, p + e) =~= b.subrange(q + s, q + e));
}

/// Removes every zTXt chunk that carries metadata. A buffer that does not
/// parse is left as it is and the parse failure is returned.
pub fn clear_metadata(file_buffer: &mut Vec<u8>) -> (r: Result<(), PngError>)
    ensures
        match parse_spec(old(file_buffer)@) {
            Err(e) => r == Err::<(), PngError>(e) && final(file_buffer)@ == old(file_buffer)@,
            Ok(cs) => r is Ok && final(file_buffer)@ == cleared(old(file_buffer)@, cs),
        },
        final(file_buffer)@.len() <= old(file_buffer)@.len(),
{
    let chunks = match parse_png(file_buffer) {
        Ok(c) => c,
        Err(e) => return Err(e),
    };
    let ghost b = old(file_buffer)@;
    let ghost cs = descs(chunks@);
    proof {
        lemma_parse_layout(b, 8, cs);
        lemma_kept_len(b, cs, cs.len() as int);
    }
    let prefix = raw_profile_prefix();
    let mut write_pos: usize = 8;
    let mut i: usize = 0;
    while i < chunks.len()
        invariant
            b == old(file_buffer)@,
            parse_spec(b) == Ok::<Seq<ChunkDesc>, PngError>(cs),
            cs == descs(chunks@),
            prefix@ == raw_profile_type_exif(),
            i <= cs.len(),
            b.len() >= 8,
            chunk_offset(cs, 8, cs.len() as int) <= b.len(),
            forall|j: int|
                0 <= j < cs.len() ==> chunk_at(b, #[trigger] chunk_offset(cs, 8, j)) == Ok::<ChunkDesc, PngError>(cs[j])
                    && chunk_offset(cs, 8, j) >= 8 && chunk_offset(cs, 8, j) + 12 + cs[j].length <= b.len(),
            write_pos == 8 + kept(b, cs, i as int).len(),
            file_buffer@ == b.subrange(0, 8) + kept(b, cs, i as int) + b.subrange(chunk_offset(cs, 8, i as int), b.len() as int),
        decreases cs.len() - i,
    {
        let ghost cur = file_buffer@;
        let ghost off = chunk_offset(cs, 8, i as int);
        let ghost n = (cs[i as int].length + 12) as int;
        assert(chunk_offset(cs, 8, i + 1) == off + n);
        assert(cs[i as int] == chunks@[i as int]@);
        let len = chunks[i].length() as usize;
        assert(cur.subrange(write_pos as int, write_pos + n) =~= b.subrange(off, off + n));
        proof {
            if cs[i as int].length >= raw_profile_type_exif().len() {
                lemma_window(cur, write_pos as int, b, off, n, 8, 8 + raw_profile_type_exif().len() as int);
            }
        }
        let cl = file_buffer.len();
        assert(write_pos + n <= cl);
        let exif = is_exif_at(file_buffer, write_pos, &chunks[i], &prefix);
        let end = write_pos + len + 12;
        if exif {
            range_remove(file_buffer, write_pos, end);
            assert(file_buffer@ =~= b.subrange(0, 8) + kept(b, cs, i + 1) + b.subrange(off + n, b.len() as int));
        } else {
            assert(kept(b, cs, i + 1) == kept(b, cs, i as int) + b.subrange(off, off + n));
            assert(file_buffer@ =~= b.subrange(0, 8) + kept(b, cs, i + 1) + b.subrange(off + n, b.len() as int));
            write_pos = end;
        }
        i = i + 1;
    }
    Ok(())
}

/// The inflated payload of the first metadata chunk.
pub fn read_metadata(file_buffer: &Vec<u8>) -> (r: Result<Vec<u8>, PngError>)
    ensures
        match r {
            Ok(d) => read_spec(file_buffer@) == Ok::<Seq<u8>, PngError>(d@),
            Err(e) => read_spec(file_buffer@) == Err::<Seq<u8>, PngError>(e),
        },
{
    let chunks = match parse_png(file_buffer) {
        Ok(c) => c,
        Err(e) => return Err(e),
    };
    let ghost b = file_buffer@;
    let ghost cs = descs(chunks@);
    proof {
        lemma_parse_layout(b, 8, cs);
    }
    let prefix = raw_profile_prefix();
    let mut pos: usize = 8;
    let mut i: usize = 0;
    while i < chunks.len()
        invariant
            b == file_buffer@,
            parse_spec(b) == Ok::<Seq<ChunkDesc>, PngError>(cs),
            cs == descs(chunks@),
            prefix@ == raw_profile_type_exif(),
            i <= cs.len(),
            forall|j: int|
                0 <= j < cs.len() ==> chunk_at(b, #[trigger] chunk_offset(cs, 8, j)) == Ok::<ChunkDesc, PngError>(cs[j])
                    && chunk_offset(cs, 8, j) >= 8 && chunk_offset(cs, 8, j) + 12 + cs[j].length <= b.len(),
            pos == chunk_offset(cs, 8, i as int),
            first_exif(b, cs, 0) == first_exif(b, cs, i as int),
        decreases cs.len() - i,
    {
        assert(cs[i as int] == chunks@[i as int]@);
        assert(chunk_offset(cs, 8, i + 1) == pos + cs[i as int].length + 12);
        let len = chunks[i].length() as usize;
        let blen = file_buffer.len();
        assert(pos + 12 + len <= blen);
        if is_exif_at(file_buffer, pos, &chunks[i], &prefix) {
            let payload = slice_subrange(file_buffer.as_slice(), pos + 8 + prefix.len(), pos + 8 + len);
            return match zlib_inflate(payload) {
                Ok(d) => Ok(d),
                Err(_) => Err(PngError::InflateFailed),
            };
        }
        pos = pos + len + 12;
        i = i + 1;
    }
    Err(PngError::NoMetadata)
}

/// Appends the four big-endian bytes of `x`.
fn push_be32(v: &mut Vec<u8>, x: u32)
    ensures
        final(v)@ == old(v)@ + be32_bytes(x as nat),
{
    v.push((x / 16777216 % 256) as u8);
    v.push((x / 65536 % 256) as u8);
    v.push((x / 256 % 256) as u8);
    v.push((x % 256) as u8);
    assert(final(v)@ =~= old(v)@ + be32_bytes(x as nat));
}

/// Length field and body (type, keyword, compressed data, CRC) of the
/// metadata chunk that carries `compressed`.
fn build_exif_chunk(compressed: &Vec<u8>, prefix: &Vec<u8>) -> (r: (Vec<u8>, Vec<u8>))
    requires
        prefix@ == raw_profile_type_exif(),
        compressed@.len() + 23 <= u32::MAX,
    ensures
        r.0@.len() == 4,
        r.0@ + r.1@ == exif_chunk(compressed@),
        exif_chunk(compressed@).len() == 35 + compressed@.len(),
{
    let mut body: Vec<u8> = Vec::new();
    body.push(0x7a);
    body.push(0x54);
    body.push(0x58);
    body.push(0x74);
    let mut k: usize = 0;
    while k < prefix.len()
        invariant
            k <= prefix@.len(),
            body@ == ztxt_name() + prefix@.subrange(0, k as int),
        decreases prefix@.len() - k,
    {
        body.push(prefix[k]);
        assert(body@ =~= ztxt_name() + prefix@.subrange(0, k + 1));
        k = k + 1;
    }
    let mut k: usize = 0;
    while k < compressed.len()
        invariant
            k <= compressed@.len(),
            body@ == ztxt_name() + prefix@ + compressed@.subrange(0, k as int),
        decreases compressed@.len() - k,
    {
        body.push(compressed[k]);
        assert(body@ =~= ztxt_name() + prefix@ + compressed@.subrange(0, k + 1));
        k = k + 1;
    }
    assert(prefix@.subrange(0, prefix@.len() as int) =~= prefix@);
    assert(compressed@.subrange(0, compressed@.len() as int) =~= compressed@);
    let checksum = crc32(body.as_slice());
    push_be32(&mut body, checksum);
    let mut length_field: Vec<u8> = Vec::new();
    push_be32(&mut length_field, (prefix.len() + compressed.len()) as u32);
    reveal(exif_chunk);
    assert(length_field@ + body@ =~= exif_chunk(compressed@));
    (length_field, body)
}

/// Places the metadata chunk carrying `compressed` right after the first
/// chunk of a buffer that holds no metadata chunk.
fn insert_exif_chunk(file_buffer: &mut Vec<u8>, compressed: &Vec<u8>, prefix: &Vec<u8>) -> (r: Result<(), PngError>)
    requires
        prefix@ == raw_profile_type_exif(),
        exif_chunk_fits(old(file_buffer)@.len(), compressed@),
    ensures
        match parse_spec(old(file_buffer)@) {
            Err(e) => r == Err::<(), PngError>(e) && final(file_buffer)@ == old(file_buffer)@,
            Ok(cs2) => {
                let at = (8 + cs2[0].length + 12) as int;
                &&& r == Ok::<(), PngError>(())
                &&& final(file_buffer)@ == old(file_buffer)@.subrange(0, at) + exif_chunk(compressed@)
                    + old(file_buffer)@.subrange(at, old(file_buffer)@.len() as int)
            },
        },
{
    let chunks = match parse_png(file_buffer) {
        Ok(c) => c,
        Err(e) => return Err(e),
    };
    let ghost cs2 = descs(chunks@);
    proof {
        lemma_parse_layout(file_buffer@, 8, cs2);
        assert(cs2[0] == chunks@[0]@);
        assert(chunk_offset(cs2, 8, 0) == 8);
    }
    let first_len = chunks[0].length() as usize;
    let blen = file_buffer.len();
    assert(8 + 12 + first_len <= blen);
    let at = 8 + first_len + 12;
    let (length_field, body) = build_exif_chunk(&compressed, &prefix);
    let ghost c = file_buffer@;
    insert_multiple_at(file_buffer, at, &length_field);
    insert_multiple_at(file_buffer, at + 4, &body);
    assert(file_buffer@ =~= c.subrange(0, at as int) + (length_field@ + body@) + c.subrange(at as int, c.len() as int));
    Ok(())
}

/// Once its metadata chunks are removed, the buffer parses and its first
/// chunk is not IEND, so a metadata chunk placed after it is inside the
/// stream.
pub open spec fn has_room_for_metadata(b: Seq<u8>) -> bool {
    parse_spec(b) is Ok && kept_chunks(b, parse_spec(b)->Ok_0, 0)[0].name != iend_name()
}

/// The buffer parses, and its one metadata chunk is the second chunk.
pub open spec fn single_metadata_chunk(d: Seq<u8>) -> bool {
    &&& parse_spec(d) is Ok
    &&& forall|j: int|
        0 <= j < parse_spec(d)->Ok_0.len() ==> (is_exif_chunk(
            d,
            #[trigger] chunk_offset(parse_spec(d)->Ok_0, 8, j),
            parse_spec(d)->Ok_0[j],
        ) <==> j == 1)
}

/// The compressed payload of the first metadata chunk of `d`, if `d`
/// parses and has one.
pub open spec fn stored_payload(d: Seq<u8>) -> Option<Seq<u8>> {
    match parse_spec(d) {
        Err(_) => None,
        Ok(cs) => match first_exif(d, cs, 0) {
            None => None,
            Some(i) => {
                let s = chunk_offset(cs, 8, i);
                Some(d.subrange(s + 8 + raw_profile_type_exif().len(), s + 8 + cs[i].length))
            },
        },
    }
}

/// What a successful write leaves, whatever the compressor produced.
#[verifier::rlimit(40)]
proof fn lemma_write_shape(b: Seq<u8>, e: Seq<u8>)
    requires
        has_room_for_metadata(b),
        exif_chunk_fits(b.len(), zlib_deflated(e)),
    ensures
        write_spec(b, e).1 == Ok::<(), PngError>(()),
        stored_payload(write_spec(b, e).0) == Some(zlib_deflated(e)),
        single_metadata_chunk(write_spec(b, e).0),
        has_room_for_metadata(write_spec(b, e).0),
{
    let z = zlib_deflated(e);
    let cs = parse_spec(b)->Ok_0;
    lemma_clear_idempotent(b);
    let c = cleared(b, cs);
    let kc = kept_chunks(b, cs, 0);
    lemma_parse_layout(c, 8, kc);
    lemma_insert_parse(c, kc, z);
    let at = (8 + kc[0].length + 12) as int;
    let d = spliced(c, at, exif_chunk(z));
    lemma_new_chunk_at(c, at, z);
    assert(write_spec(b, e).0 == d);
    let kd = seq![kc[0], exif_desc(z)] + kc.drop_first();
    assert(kd[1] == exif_desc(z));
    assert(kd[0] == kc[0]);
    assert(chunk_offset(kd, 8, 0) == 8);
    assert(!is_exif_chunk(d, chunk_offset(kd, 8, 0), kd[0]));
    assert(kept_chunks(d, kd, 0)[0] == kd[0]);
}

proof fn lemma_write_outcome(b: Seq<u8>, e: Seq<u8>)
    requires
        has_room_for_metadata(b),
        zlib_inflated(zlib_deflated(e)) == Some(e),
        exif_chunk_fits(b.len(), zlib_deflated(e)),
    ensures
        write_spec(b, e).1 == Ok::<(), PngError>(()),
        read_spec(write_spec(b, e).0) == Ok::<Seq<u8>, PngError>(e),
        single_metadata_chunk(write_spec(b, e).0),
        has_room_for_metadata(write_spec(b, e).0),
{
    lemma_write_shape(b, e);
}

/// Writing twice leaves a single metadata chunk, and it holds the second
/// data: the first chunk is removed, not kept beside the new one.
pub proof fn lemma_second_write_replaces_first(b: Seq<u8>, e1: Seq<u8>, e2: Seq<u8>)
    requires
        has_room_for_metadata(b),
        exif_chunk_fits(b.len(), zlib_deflated(e1)),
        exif_chunk_fits(write_spec(b, e1).0.len(), zlib_deflated(e2)),
    ensures
        write_spec(write_spec(b, e1).0, e2).1 == Ok::<(), PngError>(()),
        single_metadata_chunk(write_spec(write_spec(b, e1).0, e2).0),
        stored_payload(write_spec(write_spec(b, e1).0, e2).0) == Some(zlib_deflated(e2)),
{
    lemma_write_shape(b, e1);
    lemma_write_shape(write_spec(b, e1).0, e2);
}

/// Replaces the metadata of the buffer: every metadata chunk is removed and
/// one carrying `encoded_metadata`, deflated, is placed right after the
/// first chunk. Nothing changes where the buffer does not parse or the new
/// chunk would not fit.
pub fn write_metadata(file_buffer: &mut Vec<u8>, encoded_metadata: &Vec<u8>) -> (r: Result<(), PngError>)
    ensures
        (final(file_buffer)@, r) == write_spec(old(file_buffer)@, encoded_metadata@),
        has_room_for_metadata(old(file_buffer)@) && r is Ok ==> read_spec(final(file_buffer)@) == Ok::<
            Seq<u8>,
            PngError,
        >(encoded_metadata@) && single_metadata_chunk(final(file_buffer)@) && has_room_for_metadata(
            final(file_buffer)@,
        ),
{
    match parse_png(file_buffer) {
        Ok(_) => {},
        Err(e) => return Err(e),
    }
    let ghost b = file_buffer@;
    let compressed = zlib_deflate(encoded_metadata.as_slice());
    let prefix = raw_profile_prefix();
    if compressed.len() > 4294967295 - 23 || compressed.len() > usize::MAX - 35 || file_buffer.len()
        > usize::MAX - 35 - compressed.len() {
        return Err(PngError::ChunkTooLarge);
    }
    assert(prefix@.len() == 23);
    assert(exif_chunk_fits(b.len(), compressed@));
    match clear_metadata(file_buffer) {
        Ok(_) => {},
        Err(e) => return Err(e),
    }
    let ghost c = file_buffer@;
    proof {
        if has_room_for_metadata(b) {
            lemma_write_outcome(b, encoded_metadata@);
        }
    }
    let r = insert_exif_chunk(file_buffer, &compressed, &prefix);
    assert(c == cleared(b, parse_spec(b)->Ok_0));
    r
}

/// Corrupting any one of the first eight bytes of a buffer that parses makes
/// parsing fail on the signature, whatever the rest of the buffer holds.
pub proof fn lemma_corrupt_signature_rejected(b: Seq<u8>, i: int, x: u8)
    requires
        parse_spec(b) is Ok,
        0 <= i < 8,
        x != b[i],
    ensures
        parse_spec(b.update(i, x)) == Err::<Seq<ChunkDesc>, PngError>(PngError::InvalidSignature),
{
    let b2 = b.update(i, x);
    assert(b.subrange(0, 8)[i] == b[i]);
    assert(b2.subrange(0, 8)[i] == x);
}

proof fn lemma_no_exif_from(b: Seq<u8>, cs: Seq<ChunkDesc>, i: int)
    requires
        0 <= i <= cs.len(),
        forall|j: int| 0 <= j < cs.len() ==> !is_exif_chunk(b, #[trigger] chunk_offset(cs, 8, j), cs[j]),
    ensures
        first_exif(b, cs, i) is None,
    decreases cs.len() - i,
{
    if i < cs.len() {
        lemma_no_exif_from(b, cs, i + 1);
    }
}

/// A buffer that parses and holds no metadata chunk reads as "no metadata",
/// not as a parse failure.
pub proof fn lemma_absent_metadata_is_no_metadata(b: Seq<u8>)
    requires
        parse_spec(b) is Ok,
        forall|j: int|
            0 <= j < parse_spec(b)->Ok_0.len() ==> !is_exif_chunk(
                b,
                #[trigger] chunk_offset(parse_spec(b)->Ok_0, 8, j),
                parse_spec(b)->Ok_0[j],
            ),
    ensures
        read_spec(b) == Err::<Seq<u8>, PngError>(PngError::NoMetadata),
{
    lemma_no_exif_from(b, parse_spec(b)->Ok_0, 0);
}

proof fn lemma_parse_prefix_only(b: Seq<u8>, b2: Seq<u8>, pos: int, cs: Seq<ChunkDesc>)
    requires
        parse_from(b, pos) == Ok::<Seq<ChunkDesc>, PngError>(cs),
        chunk_offset(cs, pos, cs.len() as int) <= b2.len(),
        chunk_offset(cs, pos, cs.len() as int) <= b.len(),
        b2.subrange(0, chunk_offset(cs, pos, cs.len() as int)) == b.subrange(
            0,
            chunk_offset(cs, pos, cs.len() as int),
        ),
    ensures
        parse_from(b2, pos) == Ok::<Seq<ChunkDesc>, PngError>(cs),
    decreases b.len() - pos,
{
    lemma_parse_layout(b, pos, cs);
    let e = chunk_offset(cs, pos, cs.len() as int);
    let c = cs[0];
    let n = c.length + 12;
    lemma_offset_shift(cs, pos, 0);
    assert(chunk_offset(cs, pos, 0) == pos);
    assert(chunk_offset(cs, pos, 1) == pos + n);
    lemma_offset_le(cs, pos, 1, cs.len() as int);
    assert forall|k: int| 0 <= k < e implies b2[k] == b[k] by {
        assert(b2.subrange(0, e)[k] == b.subrange(0, e)[k]);
    }
    assert(b2.subrange(pos + 4, pos + 8 + c.length) =~= b.subrange(pos + 4, pos + 8 + c.length));
    assert(b2.subrange(pos + 4, pos + 8) =~= b.subrange(pos + 4, pos + 8));
    assert(chunk_at(b2, pos) == chunk_at(b, pos));
    if c.name != iend_name() {
        let rest = cs.drop_first();
        assert(parse_from(b, pos + n) == Ok::<Seq<ChunkDesc>, PngError>(rest)) by {
            let r = parse_from(b, pos + n)->Ok_0;
            assert(cs == seq![c] + r);
            assert(rest =~= r);
        }
        lemma_offset_shift(cs, pos, cs.len() - 1);
        lemma_parse_prefix_only(b, b2, pos + n, rest);
        assert(cs =~= seq![c] + rest);
    }
}

proof fn lemma_offset_le(cs: Seq<ChunkDesc>, base: int, i: int, j: int)
    requires
        0 <= i <= j,
    ensures
        chunk_offset(cs, base, i) <= chunk_offset(cs, base, j),
    decreases j - i,
{
    if i < j {
        lemma_offset_le(cs, base, i, j - 1);
    }
}

/// A successful parse ends with an IEND chunk, and nothing after that chunk
/// is read: replacing what follows it leaves the result unchanged.
pub proof fn lemma_parse_stops_at_iend(b: Seq<u8>, tail: Seq<u8>)
    requires
        parse_spec(b) is Ok,
    ensures
        parse_spec(b)->Ok_0.len() > 0,
        parse_spec(b)->Ok_0.last().name == iend_name(),
        chunk_offset(parse_spec(b)->Ok_0, 8, parse_spec(b)->Ok_0.len() as int) <= b.len(),
        parse_spec(b.subrange(0, chunk_offset(parse_spec(b)->Ok_0, 8, parse_spec(b)->Ok_0.len() as int)) + tail)
            == parse_spec(b),
{
    let cs = parse_spec(b)->Ok_0;
    lemma_parse_layout(b, 8, cs);
    let e = chunk_offset(cs, 8, cs.len() as int);
    let b2 = b.subrange(0, e) + tail;
    lemma_offset_le(cs, 8, 0, cs.len() as int);
    assert(chunk_offset(cs, 8, 0) == 8);
    assert(b2.subrange(0, e) =~= b.subrange(0, e));
    assert(b2.subrange(0, 8) =~= b.subrange(0, 8));
    lemma_parse_prefix_only(b, b2, 8, cs);
}

/// The chunks of `cs` from `i` on that do not carry metadata.
pub open spec fn kept_chunks(b: Seq<u8>, cs: Seq<ChunkDesc>, i: int) -> Seq<ChunkDesc>
    decreases cs.len() - i,
{
    if i < 0 || i >= cs.len() {
        Seq::empty()
    } else if is_exif_chunk(b, chunk_offset(cs, 8, i), cs[i]) {
        kept_chunks(b, cs, i + 1)
    } else {
        seq![cs[i]] + kept_chunks(b, cs, i + 1)
    }
}

/// No chunk of `cs`, laid out from `base`, carries metadata.
pub open spec fn no_exif_chunk(b: Seq<u8>, cs: Seq<ChunkDesc>, base: int) -> bool {
    forall|j: int| 0 <= j < cs.len() ==> !is_exif_chunk(b, #[trigger] chunk_offset(cs, base, j), cs[j])
}

/// A chunk reads the same from two buffers that agree on its bytes.
proof fn lemma_chunk_at_window(b: Seq<u8>, p: int, c: Seq<u8>, q: int, d: ChunkDesc)
    requires
        chunk_at(b, p) == Ok::<ChunkDesc, PngError>(d),
        0 <= q && q + 12 + d.length <= c.len(),
        p + 12 + d.length <= b.len(),
        b.subrange(p, p + 12 + d.length) == c.subrange(q, q + 12 + d.length),
    ensures
        chunk_at(c, q) == Ok::<ChunkDesc, PngError>(d),
        is_exif_chunk(c, q, d) == is_exif_chunk(b, p, d),
{
    let n = 12 + d.length as int;
    let len = d.length as int;
    let bw = b.subrange(p, p + n);
    let cw = c.subrange(q, q + n);
    assert(bw[0] == cw[0] && bw[1] == cw[1] && bw[2] == cw[2] && bw[3] == cw[3]);
    assert(be32(c, q) == be32(b, p));
    assert(bw[8 + len] == cw[8 + len] && bw[9 + len] == cw[9 + len]);
    assert(bw[10 + len] == cw[10 + len] && bw[11 + len] == cw[11 + len]);
    assert(be32(c, q + 8 + len) == be32(b, p + 8 + len));
    lemma_window(b, p, c, q, n, 4, 8 + len);
    lemma_window(b, p, c, q, n, 4, 8);
    if d.length >= raw_profile_type_exif().len() {
        lemma_window(b, p, c, q, n, 8, 8 + raw_profile_type_exif().len() as int);
    }
}

proof fn lemma_kept_prefix(b: Seq<u8>, cs: Seq<ChunkDesc>, i: int, m: int)
    requires
        0 <= i <= m,
    ensures
        kept(b, cs, i).len() <= kept(b, cs, m).len(),
        kept(b, cs, m).subrange(0, kept(b, cs, i).len() as int) == kept(b, cs, i),
    decreases m - i,
{
    if i < m {
        lemma_kept_prefix(b, cs, i, m - 1);
        assert(kept(b, cs, m).subrange(0, kept(b, cs, i).len() as int) =~= kept(b, cs, m - 1).subrange(
            0,
            kept(b, cs, i).len() as int,
        ));
    } else {
        assert(kept(b, cs, m).subrange(0, kept(b, cs, i).len() as int) =~= kept(b, cs, i));
    }
}

proof fn lemma_offset_step(cs: Seq<ChunkDesc>, base: int, j: int)
    requires
        cs.len() > 0,
        0 <= j < cs.len(),
    ensures
        chunk_offset(cs, base, j + 1) == chunk_offset(cs.drop_first(), base + cs[0].length + 12, j),
{
    lemma_offset_shift(cs, base, j);
}

/// A chunk that clearing keeps stands unchanged in the cleared buffer, at
/// the offset given by the kept bytes before it.
proof fn lemma_cleared_window(b: Seq<u8>, cs: Seq<ChunkDesc>, i: int)
    requires
        parse_spec(b) == Ok::<Seq<ChunkDesc>, PngError>(cs),
        0 <= i < cs.len(),
        !is_exif_chunk(b, chunk_offset(cs, 8, i), cs[i]),
    ensures
        chunk_at(cleared(b, cs), 8 + kept(b, cs, i).len() as int) == Ok::<ChunkDesc, PngError>(cs[i]),
        !is_exif_chunk(cleared(b, cs), 8 + kept(b, cs, i).len() as int, cs[i]),
        kept(b, cs, i + 1).len() == kept(b, cs, i).len() + cs[i].length + 12,
{
    lemma_parse_layout(b, 8, cs);
    let c = cleared(b, cs);
    let w = 8 + kept(b, cs, i).len() as int;
    let off = chunk_offset(cs, 8, i);
    let d = cs[i];
    let n = d.length + 12 as int;
    assert(chunk_at(b, off) == Ok::<ChunkDesc, PngError>(d));
    lemma_kept_prefix(b, cs, i + 1, cs.len() as int);
    assert(kept(b, cs, i + 1) == kept(b, cs, i) + b.subrange(off, off + n));
    let kl = kept(b, cs, cs.len() as int);
    assert(c.subrange(w, w + n) =~= b.subrange(off, off + n)) by {
        assert forall|k: int| 0 <= k < n implies #[trigger] c.subrange(w, w + n)[k] == b.subrange(off, off + n)[k] by {
            assert(c[w + k] == kl[w - 8 + k]);
            assert(kl[w - 8 + k] == kl.subrange(0, kept(b, cs, i + 1).len() as int)[w - 8 + k]);
            assert(kept(b, cs, i + 1)[w - 8 + k] == b.subrange(off, off + n)[k]);
        }
    }
    lemma_chunk_at_window(b, off, c, w, d);
}

/// From chunk `i` on, the cleared buffer holds exactly the kept chunks, and
/// none of them carries metadata.
#[verifier::rlimit(40)]
proof fn lemma_cleared_parse_from(b: Seq<u8>, cs: Seq<ChunkDesc>, i: int)
    requires
        parse_spec(b) == Ok::<Seq<ChunkDesc>, PngError>(cs),
        0 <= i < cs.len(),
    ensures
        parse_from(cleared(b, cs), 8 + kept(b, cs, i).len() as int) == Ok::<Seq<ChunkDesc>, PngError>(
            kept_chunks(b, cs, i),
        ),
        no_exif_chunk(cleared(b, cs), kept_chunks(b, cs, i), 8 + kept(b, cs, i).len() as int),
    decreases cs.len() - i,
{
    lemma_parse_layout(b, 8, cs);
    let c = cleared(b, cs);
    let w = 8 + kept(b, cs, i).len() as int;
    let off = chunk_offset(cs, 8, i);
    let d = cs[i];
    let n = d.length + 12 as int;
    assert(chunk_offset(cs, 8, i + 1) == off + n);
    assert(chunk_at(b, off) == Ok::<ChunkDesc, PngError>(d));
    let ex = is_exif_chunk(b, off, d);
    lemma_kept_prefix(b, cs, i, i + 1);
    if !ex {
        lemma_cleared_window(b, cs, i);
    }
    if i == cs.len() - 1 {
        assert(d.name == iend_name());
        assert(!ex) by {
            assert(ztxt_name()[0] != iend_name()[0]);
        }
        assert(kept_chunks(b, cs, i + 1) =~= Seq::<ChunkDesc>::empty());
        assert(kept_chunks(b, cs, i) =~= seq![d]);
        assert(chunk_offset(seq![d], w, 0) == w);
    } else {
        assert(d.name != iend_name());
        lemma_cleared_parse_from(b, cs, i + 1);
        let rest = kept_chunks(b, cs, i + 1);
        if ex {
            assert(kept(b, cs, i + 1) == kept(b, cs, i) + Seq::<u8>::empty());
            assert(kept(b, cs, i + 1) =~= kept(b, cs, i));
        } else {
            let kc = kept_chunks(b, cs, i);
            assert(kc == seq![d] + rest);
            assert(kc.drop_first() =~= rest);
            assert(parse_from(c, w) == Ok::<Seq<ChunkDesc>, PngError>(seq![d] + rest));
            assert forall|j: int| 0 <= j < kc.len() implies !is_exif_chunk(
                c,
                #[trigger] chunk_offset(kc, w, j),
                kc[j],
            ) by {
                if j == 0 {
                    assert(chunk_offset(kc, w, 0) == w);
                } else {
                    lemma_offset_step(kc, w, j - 1);
                    assert(kc[j] == rest[j - 1]);
                }
            }
        }
    }
}

/// Kept bytes of a buffer whose chunks carry no metadata are all its chunks.
proof fn lemma_kept_all(c: Seq<u8>, ks: Seq<ChunkDesc>, j: int)
    requires
        parse_spec(c) == Ok::<Seq<ChunkDesc>, PngError>(ks),
        no_exif_chunk(c, ks, 8),
        0 <= j <= ks.len(),
    ensures
        kept(c, ks, j) == c.subrange(8, chunk_offset(ks, 8, j)),
    decreases j,
{
    lemma_parse_layout(c, 8, ks);
    if j == 0 {
        assert(kept(c, ks, 0) =~= c.subrange(8, 8));
    } else {
        lemma_kept_all(c, ks, j - 1);
        let s = chunk_offset(ks, 8, j - 1);
        assert(!is_exif_chunk(c, s, ks[j - 1]));
        assert(kept(c, ks, j) =~= c.subrange(8, chunk_offset(ks, 8, j)));
    }
}

/// Clearing a buffer leaves one that parses to its chunks without metadata
/// chunks, and clearing that again changes nothing.
pub proof fn lemma_clear_idempotent(b: Seq<u8>)
    requires
        parse_spec(b) is Ok,
    ensures
        parse_spec(cleared(b, parse_spec(b)->Ok_0)) == Ok::<Seq<ChunkDesc>, PngError>(
            kept_chunks(b, parse_spec(b)->Ok_0, 0),
        ),
        no_exif_chunk(cleared(b, parse_spec(b)->Ok_0), kept_chunks(b, parse_spec(b)->Ok_0, 0), 8),
        cleared(cleared(b, parse_spec(b)->Ok_0), kept_chunks(b, parse_spec(b)->Ok_0, 0)) == cleared(
            b,
            parse_spec(b)->Ok_0,
        ),
{
    let cs = parse_spec(b)->Ok_0;
    lemma_parse_layout(b, 8, cs);
    lemma_cleared_parse_from(b, cs, 0);
    let c = cleared(b, cs);
    let ks = kept_chunks(b, cs, 0);
    assert(kept(b, cs, 0).len() == 0);
    assert(c.subrange(0, 8) =~= b.subrange(0, 8));
    assert(parse_spec(c) == Ok::<Seq<ChunkDesc>, PngError>(ks));
    lemma_parse_layout(c, 8, ks);
    lemma_kept_all(c, ks, ks.len() as int);
    let e = chunk_offset(ks, 8, ks.len() as int);
    lemma_offset_le(ks, 8, 0, ks.len() as int);
    assert(chunk_offset(ks, 8, 0) == 8);
    assert(cleared(c, ks) =~= c);
}

proof fn lemma_be32_bytes(x: nat)
    requires
        x <= u32::MAX,
    ensures
        be32_bytes(x).len() == 4,
        be32(be32_bytes(x), 0) == x,
{
    let s = be32_bytes(x);
    let q1 = x / 256;
    let q2 = q1 / 256;
    let q3 = q2 / 256;
    assert(x == q1 * 256 + x % 256);
    assert(q1 == q2 * 256 + q1 % 256);
    assert(q2 == q3 * 256 + q2 % 256);
    assert(x / 65536 == q2) by {
        vstd::arithmetic::div_mod::lemma_div_denominator(x as int, 256, 256);
    }
    assert(x / 16777216 == q3) by {
        vstd::arithmetic::div_mod::lemma_div_denominator(x as int, 65536, 256);
    }
    assert(q3 < 256);
    assert(s[0] as int == q3 % 256);
    assert(s[1] as int == q2 % 256);
    assert(s[2] as int == q1 % 256);
    assert(s[3] as int == x % 256);
}

/// Parsing from a position depends on the bytes from there on only.
proof fn lemma_parse_suffix(b: Seq<u8>, p: int, c: Seq<u8>, q: int)
    requires
        0 <= p <= b.len(),
        0 <= q <= c.len(),
        b.subrange(p, b.len() as int) == c.subrange(q, c.len() as int),
    ensures
        parse_from(b, p) == parse_from(c, q),
    decreases b.len() - p,
{
    let bs = b.subrange(p, b.len() as int);
    let cs = c.subrange(q, c.len() as int);
    assert(bs.len() == cs.len());
    if p + 8 <= b.len() {
        assert(bs[0] == cs[0] && bs[1] == cs[1] && bs[2] == cs[2] && bs[3] == cs[3]);
        assert(be32(b, p) == be32(c, q));
        let len = be32(b, p) as int;
        let n = len + 12;
        if p + n <= b.len() {
            assert(bs[8 + len] == cs[8 + len] && bs[9 + len] == cs[9 + len]);
            assert(bs[10 + len] == cs[10 + len] && bs[11 + len] == cs[11 + len]);
            assert(be32(b, p + 8 + len) == be32(c, q + 8 + len));
            assert(b.subrange(p, p + n) =~= bs.subrange(0, n));
            assert(c.subrange(q, q + n) =~= cs.subrange(0, n));
            lemma_window(b, p, c, q, n, 4, 8 + len);
            lemma_window(b, p, c, q, n, 4, 8);
            assert(chunk_at(b, p) == chunk_at(c, q));
            assert(b.subrange(p + n, b.len() as int) =~= bs.subrange(n, bs.len() as int));
            assert(c.subrange(q + n, c.len() as int) =~= cs.subrange(n, cs.len() as int));
            lemma_parse_suffix(b, p + n, c, q + n);
        }
    }
}

/// `c` with `x` placed at `at`.
pub open spec fn spliced(c: Seq<u8>, at: int, x: Seq<u8>) -> Seq<u8> {
    c.subrange(0, at) + x + c.subrange(at, c.len() as int)
}

/// Descriptor of the metadata chunk that carries `compressed`.
pub open spec fn exif_desc(compressed: Seq<u8>) -> ChunkDesc {
    ChunkDesc { name: ztxt_name(), length: raw_profile_type_exif().len() + compressed.len() }
}

/// The metadata chunk, placed at `at`, reads as a valid chunk that carries
/// metadata, with `z` as its compressed payload.
#[verifier::rlimit(40)]
proof fn lemma_new_chunk_at(c: Seq<u8>, at: int, z: Seq<u8>)
    requires
        0 <= at <= c.len(),
        raw_profile_type_exif().len() + z.len() <= u32::MAX,
    ensures
        chunk_at(spliced(c, at, exif_chunk(z)), at) == Ok::<ChunkDesc, PngError>(exif_desc(z)),
        is_exif_chunk(spliced(c, at, exif_chunk(z)), at, exif_desc(z)),
        spliced(c, at, exif_chunk(z)).subrange(
            at + 8 + raw_profile_type_exif().len(),
            at + 8 + exif_desc(z).length,
        ) == z,
        spliced(c, at, exif_chunk(z)).subrange(
            at + 12 + exif_desc(z).length,
            spliced(c, at, exif_chunk(z)).len() as int,
        ) == c.subrange(at, c.len() as int),
        spliced(c, at, exif_chunk(z)).subrange(0, at) == c.subrange(0, at),
        exif_chunk(z).len() == exif_desc(z).length + 12,
{
    reveal(exif_chunk);
    let x = exif_chunk(z);
    let d = spliced(c, at, x);
    let len = raw_profile_type_exif().len() + z.len();
    let body = exif_chunk_body(z);
    let crc = crc32_of(body) as nat;
    lemma_be32_bytes(len);
    lemma_be32_bytes(crc);
    assert(x.len() == len + 12);
    assert(d.subrange(at, at + len + 12) =~= x);
    let dw = d.subrange(at, at + len + 12);
    assert(dw[0] == x[0] && dw[1] == x[1] && dw[2] == x[2] && dw[3] == x[3]);
    assert(be32(d, at) == be32(x, 0));
    assert(x[0] == be32_bytes(len)[0] && x[1] == be32_bytes(len)[1]);
    assert(x[2] == be32_bytes(len)[2] && x[3] == be32_bytes(len)[3]);
    assert(be32(d, at) == len);
    let t = 8 + len as int;
    assert(x[t] == be32_bytes(crc)[0] && x[t + 1] == be32_bytes(crc)[1]);
    assert(x[t + 2] == be32_bytes(crc)[2] && x[t + 3] == be32_bytes(crc)[3]);
    assert(dw[t] == x[t] && dw[t + 1] == x[t + 1] && dw[t + 2] == x[t + 2] && dw[t + 3] == x[t + 3]);
    assert(be32(d, at + t) == crc);
    assert(d.subrange(at + 4, at + 8 + len) =~= body);
    assert(d.subrange(at + 4, at + 8) =~= ztxt_name());
    assert(valid_chunk_name(ztxt_name()));
    assert(d.subrange(at + 8, at + 8 + raw_profile_type_exif().len()) =~= raw_profile_type_exif());
    assert(d.subrange(at + 8 + raw_profile_type_exif().len(), at + 8 + len) =~= z);
    assert(d.subrange(at + 12 + len, d.len() as int) =~= c.subrange(at, c.len() as int));
    assert(d.subrange(0, at) =~= c.subrange(0, at));
}

proof fn lemma_offsets_after_insert(kc: Seq<ChunkDesc>, xd: ChunkDesc, j: int)
    requires
        kc.len() > 0,
        1 <= j < kc.len(),
    ensures
        chunk_offset(seq![kc[0], xd] + kc.drop_first(), 8, j + 1) == chunk_offset(kc, 8, j) + xd.length + 12,
    decreases j,
{
    let kd = seq![kc[0], xd] + kc.drop_first();
    assert(kd[0] == kc[0] && kd[1] == xd);
    if j == 1 {
        assert(chunk_offset(kd, 8, 0) == 8 && chunk_offset(kc, 8, 0) == 8);
        assert(chunk_offset(kd, 8, 2) == chunk_offset(kd, 8, 1) + xd.length + 12);
    } else {
        lemma_offsets_after_insert(kc, xd, j - 1);
        assert(kd[j] == kc[j - 1]);
    }
}

/// The chunks after the spliced metadata chunk keep their kind.
#[verifier::rlimit(60)]
proof fn lemma_insert_tail_no_exif(c: Seq<u8>, kc: Seq<ChunkDesc>, z: Seq<u8>, j: int)
    requires
        parse_spec(c) == Ok::<Seq<ChunkDesc>, PngError>(kc),
        no_exif_chunk(c, kc, 8),
        raw_profile_type_exif().len() + z.len() <= u32::MAX,
        2 <= j < kc.len() + 1,
    ensures
        !is_exif_chunk(
            spliced(c, (8 + kc[0].length + 12) as int, exif_chunk(z)),
            chunk_offset(seq![kc[0], exif_desc(z)] + kc.drop_first(), 8, j),
            (seq![kc[0], exif_desc(z)] + kc.drop_first())[j],
        ),
{
    let at = (8 + kc[0].length + 12) as int;
    let x = exif_chunk(z);
    let d = spliced(c, at, x);
    let xd = exif_desc(z);
    let kd = seq![kc[0], xd] + kc.drop_first();
    let delta = xd.length + 12;
    lemma_parse_layout(c, 8, kc);
    let o = chunk_offset(kc, 8, j - 1);
    assert(chunk_at(c, o) == Ok::<ChunkDesc, PngError>(kc[j - 1]));
    assert(!is_exif_chunk(c, o, kc[j - 1]));
    assert(chunk_offset(kc, 8, 0) == 8);
    assert(chunk_offset(kc, 8, 1) == at);
    lemma_offset_le(kc, 8, 1, j - 1);
    lemma_offsets_after_insert(kc, xd, j - 1);
    assert(kd[j] == kc[j - 1]);
    lemma_new_chunk_at(c, at, z);
    assert(d.subrange(at + delta, d.len() as int) =~= c.subrange(at, c.len() as int));
    if kc[j - 1].length >= raw_profile_type_exif().len() {
        let n = c.len() - at;
        lemma_window(d, at + delta, c, at, n, o - at + 8, o - at + 8 + raw_profile_type_exif().len());
    }
}

proof fn lemma_splice_keeps_first(c: Seq<u8>, c0: ChunkDesc, at: int, x: Seq<u8>)
    requires
        chunk_at(c, 8) == Ok::<ChunkDesc, PngError>(c0),
        at == 8 + c0.length + 12,
        at <= c.len(),
    ensures
        spliced(c, at, x).subrange(0, 8) == c.subrange(0, 8),
        chunk_at(spliced(c, at, x), 8) == Ok::<ChunkDesc, PngError>(c0),
        is_exif_chunk(spliced(c, at, x), 8, c0) == is_exif_chunk(c, 8, c0),
{
    let d = spliced(c, at, x);
    assert(d.subrange(0, 8) =~= c.subrange(0, 8));
    assert(d.subrange(8, at) =~= c.subrange(8, at));
    lemma_chunk_at_window(c, 8, d, 8, c0);
}

proof fn lemma_parse_step(d: Seq<u8>, at: int, xd: ChunkDesc, rest: Seq<ChunkDesc>)
    requires
        chunk_at(d, at) == Ok::<ChunkDesc, PngError>(xd),
        xd.name != iend_name(),
        parse_from(d, at + 12 + xd.length) == Ok::<Seq<ChunkDesc>, PngError>(rest),
    ensures
        parse_from(d, at) == Ok::<Seq<ChunkDesc>, PngError>(seq![xd] + rest),
{
}

proof fn lemma_splice_parse_new(c: Seq<u8>, at: int, z: Seq<u8>, rest: Seq<ChunkDesc>, d: Seq<u8>)
    requires
        0 <= at <= c.len(),
        parse_from(c, at) == Ok::<Seq<ChunkDesc>, PngError>(rest),
        chunk_at(d, at) == Ok::<ChunkDesc, PngError>(exif_desc(z)),
        at + 12 + exif_desc(z).length <= d.len(),
        d.subrange(at + 12 + exif_desc(z).length, d.len() as int) == c.subrange(at, c.len() as int),
    ensures
        parse_from(d, at) == Ok::<Seq<ChunkDesc>, PngError>(seq![exif_desc(z)] + rest),
{
    let xd = exif_desc(z);
    lemma_parse_suffix(d, at + xd.length + 12, c, at);
    assert(xd.name != iend_name()) by {
        assert(ztxt_name()[0] != iend_name()[0]);
    }
    lemma_parse_step(d, at, xd, rest);
}

/// Splicing the metadata chunk right after the first chunk of a buffer
/// that parses gives one that parses with that chunk second.
proof fn lemma_insert_parse_ok(c: Seq<u8>, kc: Seq<ChunkDesc>, z: Seq<u8>)
    requires
        parse_spec(c) == Ok::<Seq<ChunkDesc>, PngError>(kc),
        !is_exif_chunk(c, 8, kc[0]),
        kc[0].name != iend_name(),
        raw_profile_type_exif().len() + z.len() <= u32::MAX,
    ensures
        ({
            let at = (8 + kc[0].length + 12) as int;
            let d = spliced(c, at, exif_chunk(z));
            let kd = seq![kc[0], exif_desc(z)] + kc.drop_first();
            &&& parse_spec(d) == Ok::<Seq<ChunkDesc>, PngError>(kd)
            &&& chunk_offset(kd, 8, 0) == 8
            &&& chunk_offset(kd, 8, 1) == at
            &&& !is_exif_chunk(d, 8, kc[0])
            &&& is_exif_chunk(d, at, exif_desc(z))
        }),
{
    let at = (8 + kc[0].length + 12) as int;
    let d = spliced(c, at, exif_chunk(z));
    let xd = exif_desc(z);
    let kd = seq![kc[0], xd] + kc.drop_first();
    let c0 = kc[0];
    assert(chunk_at(c, 8) == Ok::<ChunkDesc, PngError>(c0));
    assert(at <= c.len());
    let rest = parse_from(c, at)->Ok_0;
    assert(parse_from(c, at) == Ok::<Seq<ChunkDesc>, PngError>(rest));
    assert(kc == seq![c0] + rest);
    assert(kc.drop_first() =~= rest);
    lemma_splice_keeps_first(c, c0, at, exif_chunk(z));
    lemma_new_chunk_at(c, at, z);
    assert(exif_chunk(z).len() == xd.length + 12);
    lemma_splice_parse_new(c, at, z, rest, d);
    assert(parse_from(d, 8) == Ok::<Seq<ChunkDesc>, PngError>(seq![c0] + (seq![xd] + rest)));
    assert(seq![c0] + (seq![xd] + rest) =~= kd);
    assert(chunk_offset(kd, 8, 0) == 8);
}

/// Splicing the metadata chunk right after the first chunk of a buffer
/// without metadata chunks gives one that parses with that chunk second,
/// and as its only metadata chunk.
proof fn lemma_insert_parse(c: Seq<u8>, kc: Seq<ChunkDesc>, z: Seq<u8>)
    requires
        parse_spec(c) == Ok::<Seq<ChunkDesc>, PngError>(kc),
        no_exif_chunk(c, kc, 8),
        kc[0].name != iend_name(),
        raw_profile_type_exif().len() + z.len() <= u32::MAX,
    ensures
        ({
            let at = (8 + kc[0].length + 12) as int;
            let d = spliced(c, at, exif_chunk(z));
            let kd = seq![kc[0], exif_desc(z)] + kc.drop_first();
            &&& parse_spec(d) == Ok::<Seq<ChunkDesc>, PngError>(kd)
            &&& chunk_offset(kd, 8, 1) == at
            &&& first_exif(d, kd, 0) == Some(1int)
            &&& forall|j: int|
                0 <= j < kd.len() ==> (is_exif_chunk(d, #[trigger] chunk_offset(kd, 8, j), kd[j]) <==> j == 1)
        }),
{
    let at = (8 + kc[0].length + 12) as int;
    let d = spliced(c, at, exif_chunk(z));
    let xd = exif_desc(z);
    let kd = seq![kc[0], xd] + kc.drop_first();
    lemma_parse_layout(c, 8, kc);
    assert(chunk_offset(kc, 8, 0) == 8);
    assert(!is_exif_chunk(c, chunk_offset(kc, 8, 0), kc[0]));
    lemma_insert_parse_ok(c, kc, z);
    assert(kd[0] == kc[0] && kd[1] == xd);
    assert(first_exif(d, kd, 1) == Some(1int));
    assert forall|j: int| 0 <= j < kd.len() implies (is_exif_chunk(d, #[trigger] chunk_offset(kd, 8, j), kd[j])
        <==> j == 1) by {
        if j >= 2 {
            lemma_insert_tail_no_exif(c, kc, z, j);
            assert(kd.len() == kc.len() + 1);
        }
    }
}
} // verus!
