//! The BSP (version 30) file layout: a header of lump offsets and lengths
//! followed by the lump data.

use vstd::prelude::*;
use vstd::bytes::*;
use vstd::slice::*;
use core::ops::Range;
use crate::error::RipError;

verus! {

broadcast use vstd::slice::group_slice_axioms;

/// Number of lumps a BSP file holds.
pub const LUMP_COUNT: usize = 15;

/// The only BSP version this library reads.
pub const BSP_VERSION: i32 = 30;

/// Bytes of one lump entry in the header: offset then length.
pub const LUMP_ENTRY_SIZE: usize = 8;

/// Bytes of the header: the version, then one entry per lump.
pub const HEADER_SIZE: usize = LUMP_ENTRY_SIZE * LUMP_COUNT + 4;

/// Bytes of one brush model in the models lump.
pub const MODEL_SIZE: usize = 64;

/// The lumps of a BSP file, in the order of the header.
#[derive(Debug, Clone, Copy, PartialEq, Eq, Structural)]
pub enum LumpIdx {
    Entities,
    Planes,
    Textures,
    Vertices,
    Visibility,
    Nodes,
    TexInfo,
    Faces,
    Lighting,
    ClipNodes,
    Leaves,
    MarkSurfaces,
    Edges,
    SurfEdges,
    Models,
}

impl LumpIdx {
    /// Position of the lump in the header.
    pub open spec fn pos(self) -> int {
        match self {
            LumpIdx::Entities => 0,
            LumpIdx::Planes => 1,
            LumpIdx::Textures => 2,
            LumpIdx::Vertices => 3,
            LumpIdx::Visibility => 4,
            LumpIdx::Nodes => 5,
            LumpIdx::TexInfo => 6,
            LumpIdx::Faces => 7,
            LumpIdx::Lighting => 8,
            LumpIdx::ClipNodes => 9,
            LumpIdx::Leaves => 10,
            LumpIdx::MarkSurfaces => 11,
            LumpIdx::Edges => 12,
            LumpIdx::SurfEdges => 13,
            LumpIdx::Models => 14,
        }
    }
}

impl From<LumpIdx> for usize {
    fn from(l: LumpIdx) -> (r: usize) {
        match l {
            LumpIdx::Entities => 0,
            LumpIdx::Planes => 1,
            LumpIdx::Textures => 2,
            LumpIdx::Vertices => 3,
            LumpIdx::Visibility => 4,
            LumpIdx::Nodes => 5,
            LumpIdx::TexInfo => 6,
            LumpIdx::Faces => 7,
            LumpIdx::Lighting => 8,
            LumpIdx::ClipNodes => 9,
            LumpIdx::Leaves => 10,
            LumpIdx::MarkSurfaces => 11,
            LumpIdx::Edges => 12,
            LumpIdx::SurfEdges => 13,
            LumpIdx::Models => 14,
        }
    }
}

impl vstd::std_specs::convert::FromSpecImpl<LumpIdx> for usize {
    open spec fn obeys_from_spec() -> bool {
        true
    }

    open spec fn from_spec(l: LumpIdx) -> usize {
        l.pos() as usize
    }
}

/// One lump: its start offset and its length, in bytes.
#[derive(Debug, Clone, Copy, PartialEq, Eq, Structural)]
pub struct Lump(pub i32, pub i32);

impl Lump {
    /// The lump lies inside data of `len` bytes.
    pub open spec fn fits(self, len: int) -> bool {
        0 <= self.0 && 0 <= self.1 && self.0 + self.1 <= len
    }

    /// The length of the lump.
    pub fn length(&self) -> (r: i32)
        ensures
            r == self.1,
    {
        self.1
    }

    /// The byte range the lump covers.
    pub fn range(&self) -> (r: Range<usize>)
        requires
            (self.0 as usize) + (self.1 as usize) <= usize::MAX,
        ensures
            r.start == self.0 as usize,
            r.end == (self.0 as usize) + (self.1 as usize),
    {
        let start = self.0 as usize;
        let end = start + self.1 as usize;
        start..end
    }
}

// ---------------------------------------------------------------------------
// Little-endian fields
// ---------------------------------------------------------------------------

/// The four little-endian bytes of an `i32`.
pub open spec fn i32_le(x: i32) -> Seq<u8> {
    spec_u32_to_le_bytes(x as u32)
}

/// The `i32` whose little-endian bytes are `b`.
pub open spec fn le_i32(b: Seq<u8>) -> i32 {
    spec_u32_from_le_bytes(b) as i32
}

/// The `i32` stored at byte `pos` of `data`.
pub open spec fn field_at(data: Seq<u8>, pos: int) -> i32 {
    le_i32(data.subrange(pos, pos + 4))
}

proof fn lemma_i32_le(x: i32)
    ensures
        i32_le(x).len() == 4,
        le_i32(i32_le(x)) == x,
{
    lemma_auto_spec_u32_to_from_le_bytes();
    let u = x as u32;
    assert(spec_u32_to_le_bytes(u).len() == 4);
    assert((u as i32) == x) by (bit_vector)
        requires
            u == x as u32,
    ;
}

proof fn lemma_le_i32(b: Seq<u8>)
    requires
        b.len() == 4,
    ensures
        i32_le(le_i32(b)) == b,
{
    lemma_auto_spec_u32_to_from_le_bytes();
    let u = spec_u32_from_le_bytes(b);
    assert(((u as i32) as u32) == u) by (bit_vector);
}

fn read_i32(data: &[u8], pos: usize) -> (r: i32)
    requires
        pos + 4 <= data.len(),
    ensures
        r == field_at(data@, pos as int),
{
    let s = slice_subrange(data, pos, pos + 4);
    u32_from_le_bytes(s) as i32
}

/// Appends `s` to `v`.
pub fn extend_bytes(v: &mut Vec<u8>, s: &[u8])
    ensures
        final(v)@ == old(v)@ + s@,
{
    let mut i: usize = 0;
    while i < s.len()
        invariant
            0 <= i <= s@.len(),
            v@ == old(v)@ + s@.take(i as int),
        decreases s@.len() - i,
    {
        v.push(s[i]);
        i = i + 1;
        assert(s@.take(i as int) =~= s@.take(i - 1).push(s@[i - 1]));
    }
    assert(s@.take(s@.len() as int) =~= s@);
}

// ---------------------------------------------------------------------------
// The header
// ---------------------------------------------------------------------------

/// The BSP header: the version and the place of every lump.
#[derive(Debug, Clone, Copy)]
pub struct BspHeader {
    pub version: i32,
    pub lumps: [Lump; LUMP_COUNT],
}

/// Byte `k` of the encoded header of `h`.
pub open spec fn header_byte(h: BspHeader, k: int) -> u8 {
    if k < 4 {
        i32_le(h.version)[k]
    } else {
        let e = (k - 4) / 8;
        let o = (k - 4) % 8;
        if o < 4 {
            i32_le(h.lumps@[e].0)[o]
        } else {
            i32_le(h.lumps@[e].1)[o - 4]
        }
    }
}

/// The bytes of the header of `h`: its version, then each lump's offset and
/// length, all little-endian.
pub open spec fn header_bytes(h: BspHeader) -> Seq<u8> {
    Seq::new(HEADER_SIZE as nat, |k: int| header_byte(h, k))
}

/// The lump that the header in `data` gives at position `i`.
pub open spec fn lump_at(data: Seq<u8>, i: int) -> Lump {
    Lump(field_at(data, 4 + 8 * i), field_at(data, 8 + 8 * i))
}

/// `h` is what the header at the start of `data` says.
pub open spec fn header_parses_as(data: Seq<u8>, h: BspHeader) -> bool {
    &&& h.version == field_at(data, 0)
    &&& forall|i: int| 0 <= i < LUMP_COUNT ==> #[trigger] h.lumps@[i] == lump_at(data, i)
}

impl BspHeader {
    /// The lump at the given position.
    pub fn lump(&self, idx: LumpIdx) -> (r: Lump)
        ensures
            r == self.lumps@[idx.pos()],
    {
        self.lumps[usize::from(idx)]
    }

    /// The encoded header.
    pub fn to_bytes(&self) -> (r: Vec<u8>)
        ensures
            r@ == header_bytes(*self),
    {
        proof {
            lemma_auto_spec_u32_to_from_le_bytes();
        }
        let mut v: Vec<u8> = Vec::new();
        let ver = u32_to_le_bytes(self.version as u32);
        extend_bytes(&mut v, ver.as_slice());
        let mut i: usize = 0;
        while i < LUMP_COUNT
            invariant
                0 <= i <= LUMP_COUNT,
                v@.len() == 4 + 8 * i,
                forall|k: int| 0 <= k < v@.len() ==> v@[k] == header_byte(*self, k),
            decreases LUMP_COUNT - i,
        {
            let ghost before = v@;
            let l = self.lumps[i];
            let a = u32_to_le_bytes(l.0 as u32);
            let b = u32_to_le_bytes(l.1 as u32);
            extend_bytes(&mut v, a.as_slice());
            extend_bytes(&mut v, b.as_slice());
            assert forall|k: int| 0 <= k < v@.len() implies v@[k] == header_byte(*self, k) by {
                if k >= before.len() {
                    assert((k - 4) / 8 == i as int);
                    assert((k - 4) % 8 == k - before.len());
                }
            }
            i = i + 1;
        }
        assert(v@ =~= header_bytes(*self));
        v
    }

    /// Writes the encoded header to the start of `buf`: as much of it as
    /// fits, failing when it does not all fit.
    pub fn write_to(&self, buf: &mut [u8]) -> (r: Result<(), RipError>)
        ensures
            final(buf)@.len() == old(buf)@.len(),
            forall|k: int|
                0 <= k < old(buf)@.len() ==> #[trigger] final(buf)@[k] == if k < HEADER_SIZE {
                    header_bytes(*self)[k]
                } else {
                    old(buf)@[k]
                },
            r is Ok <==> old(buf)@.len() >= HEADER_SIZE,
            r is Err ==> r == Err::<(), RipError>(RipError::BufferTooSmall),
    {
        let bytes = self.to_bytes();
        let mut i: usize = 0;
        while i < bytes.len() && i < buf.len()
            invariant
                0 <= i <= HEADER_SIZE,
                bytes@ == header_bytes(*self),
                buf@.len() == old(buf)@.len(),
                i <= buf@.len(),
                forall|k: int|
                    0 <= k < buf@.len() ==> #[trigger] buf@[k] == if k < i {
                        header_bytes(*self)[k]
                    } else {
                        old(buf)@[k]
                    },
            decreases HEADER_SIZE - i,
        {
            buf[i] = bytes[i];
            i = i + 1;
        }
        if buf.len() < HEADER_SIZE {
            Err(RipError::BufferTooSmall)
        } else {
            Ok(())
        }
    }

    /// Reads the header at the start of `data`.
    pub fn from_bytes(data: &[u8]) -> (r: Result<Self, RipError>)
        ensures
            data@.len() < HEADER_SIZE ==> r == Err::<Self, RipError>(RipError::FileSizeMismatch),
            data@.len() >= HEADER_SIZE && field_at(data@, 0) != BSP_VERSION ==> r == Err::<
                Self,
                RipError,
            >(RipError::UnsupportedVersion(field_at(data@, 0))),
            data@.len() >= HEADER_SIZE && field_at(data@, 0) == BSP_VERSION ==> r is Ok,
            r matches Ok(h) ==> data@.len() >= HEADER_SIZE && header_parses_as(data@, h) && h.version
                == BSP_VERSION,
    {
        if data.len() < HEADER_SIZE {
            return Err(RipError::FileSizeMismatch);
        }
        let version = read_i32(data, 0);
        if version != BSP_VERSION {
            return Err(RipError::UnsupportedVersion(version));
        }
        let mut lumps = [Lump(0, 0);LUMP_COUNT];
        let mut cursor: usize = LUMP_ENTRY_SIZE / 2;
        let mut i: usize = 0;
        while i < LUMP_COUNT
            invariant
                0 <= i <= LUMP_COUNT,
                cursor == 4 + 8 * i,
                data@.len() >= HEADER_SIZE,
                forall|j: int| 0 <= j < i ==> #[trigger] lumps@[j] == lump_at(data@, j),
            decreases LUMP_COUNT - i,
        {
            let offset = read_i32(data, cursor);
            let length = read_i32(data, cursor + 4);
            lumps[i] = Lump(offset, length);
            cursor = cursor + LUMP_ENTRY_SIZE;
            i = i + 1;
        }
        Ok(BspHeader { version, lumps })
    }
}

/// The encoded header of `h` reads back as `h`.
pub proof fn law_header_roundtrip(h: BspHeader)
    ensures
        header_bytes(h).len() == HEADER_SIZE,
        header_parses_as(header_bytes(h), h),
{
    let b = header_bytes(h);
    lemma_i32_le(h.version);
    assert(b.subrange(0, 4) =~= i32_le(h.version));
    assert forall|i: int| 0 <= i < LUMP_COUNT implies #[trigger] h.lumps@[i] == lump_at(b, i) by {
        lemma_i32_le(h.lumps@[i].0);
        lemma_i32_le(h.lumps@[i].1);
        assert forall|o: int| 0 <= o < 4 implies b.subrange(4 + 8 * i, 8 + 8 * i)[o]
            == i32_le(h.lumps@[i].0)[o] by {
            assert((4 + 8 * i + o - 4) / 8 == i);
            assert((4 + 8 * i + o - 4) % 8 == o);
        }
        assert forall|o: int| 0 <= o < 4 implies b.subrange(8 + 8 * i, 12 + 8 * i)[o]
            == i32_le(h.lumps@[i].1)[o] by {
            assert((8 + 8 * i + o - 4) / 8 == i);
            assert((8 + 8 * i + o - 4) % 8 == o + 4);
        }
        assert(b.subrange(4 + 8 * i, 8 + 8 * i) =~= i32_le(h.lumps@[i].0));
        assert(b.subrange(8 + 8 * i, 12 + 8 * i) =~= i32_le(h.lumps@[i].1));
    }
}

/// A header read from data encodes back to the data's first bytes.
pub proof fn lemma_header_bytes_of_parsed(data: Seq<u8>, h: BspHeader)
    requires
        data.len() >= HEADER_SIZE,
        header_parses_as(data, h),
    ensures
        header_bytes(h) == data.take(HEADER_SIZE as int),
{
    lemma_le_i32(data.subrange(0, 4));
    assert forall|k: int| 0 <= k < HEADER_SIZE implies #[trigger] header_bytes(h)[k] == data[k] by {
        if k < 4 {
            assert(data.subrange(0, 4)[k] == data[k]);
        } else {
            let e = (k - 4) / 8;
            let o = (k - 4) % 8;
            assert(0 <= e < LUMP_COUNT);
            assert(h.lumps@[e] == lump_at(data, e));
            lemma_le_i32(data.subrange(4 + 8 * e, 8 + 8 * e));
            lemma_le_i32(data.subrange(8 + 8 * e, 12 + 8 * e));
            if o < 4 {
                assert(data.subrange(4 + 8 * e, 8 + 8 * e)[o] == data[k]);
            } else {
                assert(data.subrange(8 + 8 * e, 12 + 8 * e)[o - 4] == data[k]);
            }
        }
    }
    assert(header_bytes(h) =~= data.take(HEADER_SIZE as int));
}

// ---------------------------------------------------------------------------
// The whole file
// ---------------------------------------------------------------------------

/// A BSP file held in memory: its header and all of its bytes.
pub struct BspFile {
    pub header: BspHeader,
    pub content: Vec<u8>,
}

/// Length of lump `j` once lump `idx` holds `n` bytes.
pub open spec fn new_len(h: BspHeader, idx: int, n: int, j: int) -> int {
    if j == idx {
        n
    } else {
        h.lumps@[j].1 as int
    }
}

/// Where lump `j` starts once the lumps are laid out one after the other,
/// right after the header, with lump `idx` holding `n` bytes.
pub open spec fn new_offset(h: BspHeader, idx: int, n: int, j: int) -> int
    decreases j,
{
    if j <= 0 {
        HEADER_SIZE as int
    } else {
        new_offset(h, idx, n, j - 1) + new_len(h, idx, n, j - 1)
    }
}

/// The bytes lump `m` should hold once lump `p` of `b` holds `d`.
pub open spec fn replaced_data(b: BspFile, p: int, d: Seq<u8>, m: int) -> Seq<u8> {
    if m == p {
        d
    } else {
        b.lump_data(m)
    }
}

impl BspFile {
    /// The header matches the first bytes and every lump lies inside the
    /// file.
    pub open spec fn wf(&self) -> bool {
        &&& self.content@.len() >= HEADER_SIZE
        &&& self.content@.take(HEADER_SIZE as int) == header_bytes(self.header)
        &&& forall|i: int|
            0 <= i < LUMP_COUNT ==> #[trigger] self.header.lumps@[i].fits(self.content@.len() as int)
    }

    /// The bytes of lump `i`.
    pub open spec fn lump_data(&self, i: int) -> Seq<u8> {
        let l = self.header.lumps@[i];
        self.content@.subrange(l.0 as int, l.0 + l.1)
    }

    /// Reads a whole BSP file: its header, then checks that every lump lies
    /// inside the file.
    pub fn from_content(content: Vec<u8>) -> (r: Result<Self, RipError>)
        ensures
            content@.len() < HEADER_SIZE ==> r == Err::<Self, RipError>(RipError::FileSizeMismatch),
            content@.len() >= HEADER_SIZE && field_at(content@, 0) != BSP_VERSION ==> r == Err::<
                Self,
                RipError,
            >(RipError::UnsupportedVersion(field_at(content@, 0))),
            content@.len() >= HEADER_SIZE && field_at(content@, 0) == BSP_VERSION ==> (
            match r {
                Ok(b) => (forall|i: int|
                    0 <= i < LUMP_COUNT ==> #[trigger] lump_at(content@, i).fits(
                        content@.len() as int,
                    )),
                Err(e) => exists|i: int|
                    0 <= i < LUMP_COUNT && e == RipError::LumpOutOfBounds(i as usize) && !lump_at(
                        content@,
                        i,
                    ).fits(content@.len() as int) && forall|j: int|
                        0 <= j < i ==> #[trigger] lump_at(content@, j).fits(content@.len() as int),
            }),
            r matches Ok(b) ==> b.content@ == content@ && header_parses_as(content@, b.header)
                && b.header.version == BSP_VERSION && b.wf(),
    {
        let header = match BspHeader::from_bytes(content.as_slice()) {
            Ok(h) => h,
            Err(e) => return Err(e),
        };
        let len = content.len();
        let mut i: usize = 0;
        while i < LUMP_COUNT
            invariant
                0 <= i <= LUMP_COUNT,
                len == content@.len(),
                len >= HEADER_SIZE,
                header.version == BSP_VERSION,
                header_parses_as(content@, header),
                forall|j: int| 0 <= j < i ==> #[trigger] lump_at(content@, j).fits(len as int),
            decreases LUMP_COUNT - i,
        {
            let l = header.lumps[i];
            assert(l == lump_at(content@, i as int));
            if l.0 < 0 || l.1 < 0 || (l.0 as usize) > len || (l.1 as usize) > len - (l.0 as usize) {
                return Err(RipError::LumpOutOfBounds(i));
            }
            i = i + 1;
        }
        proof {
            lemma_header_bytes_of_parsed(content@, header);
            assert forall|k: int| 0 <= k < LUMP_COUNT implies #[trigger] header.lumps@[k].fits(
                len as int,
            ) by {
                assert(header.lumps@[k] == lump_at(content@, k));
            }
        }
        Ok(BspFile { header, content })
    }

    /// The bytes of one lump.
    pub fn slice_lump(&self, idx: LumpIdx) -> (r: &[u8])
        requires
            self.wf(),
        ensures
            r@ == self.lump_data(idx.pos()),
    {
        let l = self.header.lump(idx);
        assert(l.fits(self.content@.len() as int));
        let range = l.range();
        slice_subrange(self.content.as_slice(), range.start, range.end)
    }

    /// Puts `new_data` in place of lump `idx` and lays all lumps out again
    /// one after the other, right after the header, which is rewritten.
    /// Fails, leaving the file as it was, when an offset or length would
    /// not fit in an `i32`.
    pub fn replace_lump(&mut self, idx: LumpIdx, new_data: &[u8]) -> (r: Result<(), RipError>)
        requires
            old(self).wf(),
        ensures
            r is Ok <==> new_offset(old(self).header, idx.pos(), new_data@.len() as int, LUMP_COUNT as int)
                <= i32::MAX,
            r is Err ==> r == Err::<(), RipError>(RipError::LumpTooLarge) && *final(self) == *old(self),
            r is Ok ==> {
                &&& final(self).wf()
                &&& final(self).header.version == old(self).header.version
                &&& final(self).content@.len() == new_offset(
                    old(self).header,
                    idx.pos(),
                    new_data@.len() as int,
                    LUMP_COUNT as int,
                )
                &&& forall|j: int|
                    0 <= j < LUMP_COUNT ==> (#[trigger] final(self).header.lumps@[j]).0 == new_offset(
                        old(self).header,
                        idx.pos(),
                        new_data@.len() as int,
                        j,
                    ) && final(self).header.lumps@[j].1 == new_len(
                        old(self).header,
                        idx.pos(),
                        new_data@.len() as int,
                        j,
                    )
                &&& final(self).lump_data(idx.pos()) == new_data@
                &&& forall|j: int|
                    0 <= j < LUMP_COUNT && j != idx.pos() ==> #[trigger] final(self).lump_data(j)
                        == old(self).lump_data(j)
            },
    {
        let ghost h0 = self.header;
        let ghost n = new_data@.len() as int;
        let ghost p = idx.pos();
        let k = usize::from(idx);
        assert forall|j: int| 0 <= j < LUMP_COUNT implies #[trigger] h0.lumps@[j].1 >= 0 by {
            assert(h0.lumps@[j].fits(old(self).content@.len() as int));
        }
        if new_data.len() > i32::MAX as usize {
            proof {
                lemma_new_offset_grows(h0, p, n, LUMP_COUNT as int);
            }
            return Err(RipError::LumpTooLarge);
        }
        let n_exec = new_data.len() as i32;
        // Size of the rebuilt file, checked before anything changes.
        let mut total: u64 = HEADER_SIZE as u64;
        let mut j: usize = 0;
        while j < LUMP_COUNT
            invariant
                0 <= j <= LUMP_COUNT,
                k == p,
                0 <= p < LUMP_COUNT,
                n == n_exec,
                0 <= n <= i32::MAX,
                self.header == h0,
                h0 == old(self).header,
                old(self).wf(),
                forall|q: int| 0 <= q < LUMP_COUNT ==> #[trigger] h0.lumps@[q].1 >= 0,
                total == new_offset(h0, p, n, j as int),
                total <= HEADER_SIZE + j * (i32::MAX as int),
            decreases LUMP_COUNT - j,
        {
            assert(h0.lumps@[j as int].fits(old(self).content@.len() as int));
            if j == k {
                total = total + n_exec as u64;
            } else {
                total = total + self.header.lumps[j].1 as u64;
            }
            j = j + 1;
        }
        if total > i32::MAX as u64 {
            return Err(RipError::LumpTooLarge);
        }
        proof {
            lemma_new_offset_mono(h0, p, n, LUMP_COUNT as int);
        }
        let old_content = &self.content;
        let old_header = self.header;
        let mut new_header = self.header;
        new_header.lumps[k].1 = n_exec;
        let mut new_bsp: Vec<u8> = Vec::new();
        let mut z: usize = 0;
        while z < HEADER_SIZE
            invariant
                z <= HEADER_SIZE,
                new_bsp@.len() == z,
            decreases HEADER_SIZE - z,
        {
            new_bsp.push(0);
            z = z + 1;
        }
        let mut cursor: i32 = HEADER_SIZE as i32;
        let mut i: usize = 0;
        while i < LUMP_COUNT
            invariant
                0 <= i <= LUMP_COUNT,
                k == p,
                0 <= p < LUMP_COUNT,
                n == n_exec,
                n == new_data@.len(),
                old_header == h0,
                old_content@ == old(self).content@,
                old(self).header == h0,
                old(self).wf(),
                forall|q: int| 0 <= q < LUMP_COUNT ==> #[trigger] h0.lumps@[q].1 >= 0,
                new_offset(h0, p, n, LUMP_COUNT as int) <= i32::MAX,
                forall|m: int| 0 <= m <= LUMP_COUNT ==> #[trigger] new_offset(h0, p, n, m) <= new_offset(h0, p, n, LUMP_COUNT as int),
                cursor == new_offset(h0, p, n, i as int),
                new_bsp@.len() == cursor,
                new_header.version == h0.version,
                forall|m: int|
                    0 <= m < i ==> (#[trigger] new_header.lumps@[m]).0 == new_offset(h0, p, n, m)
                        && new_header.lumps@[m].1 == new_len(h0, p, n, m),
                forall|m: int|
                    i <= m < LUMP_COUNT ==> #[trigger] new_header.lumps@[m] == (if m == p {
                        Lump(h0.lumps@[m].0, n as i32)
                    } else {
                        h0.lumps@[m]
                    }),
                forall|m: int|
                    0 <= m < i ==> new_bsp@.subrange(
                        new_offset(h0, p, n, m),
                        new_offset(h0, p, n, m) + new_len(h0, p, n, m),
                    ) == #[trigger] replaced_data(*old(self), p, new_data@, m),
            decreases LUMP_COUNT - i,
        {
            let lump = old_header.lumps[i];
            assert(lump.fits(old_content@.len() as int));
            new_header.lumps[i].0 = cursor;
            let ghost before = new_bsp@;
            assert(new_offset(h0, p, n, i + 1) <= new_offset(h0, p, n, LUMP_COUNT as int));
            if i == k {
                extend_bytes(&mut new_bsp, new_data);
                assert(new_bsp@ == before + new_data@);
                cursor = cursor + n_exec;
            } else {
                let range = lump.range();
                let piece = slice_subrange(old_content.as_slice(), range.start, range.end);
                extend_bytes(&mut new_bsp, piece);
                assert(new_bsp@ == before + piece@);
                cursor = cursor + lump.length();
            }
            assert(new_bsp@.len() >= before.len());
            assert(forall|k: int| 0 <= k < before.len() ==> new_bsp@[k] == before[k]);
            assert forall|m: int| 0 <= m < i implies new_bsp@.subrange(
                new_offset(h0, p, n, m),
                new_offset(h0, p, n, m) + new_len(h0, p, n, m),
            ) == #[trigger] replaced_data(*old(self), p, new_data@, m) by {
                assert(new_offset(h0, p, n, m + 1) <= new_offset(h0, p, n, i as int)) by {
                    lemma_new_offset_le(h0, p, n, m + 1, i as int);
                }
                lemma_new_offset_ge(h0, p, n, m);
                assert(new_offset(h0, p, n, m + 1) == new_offset(h0, p, n, m) + new_len(h0, p, n, m));
                assert(new_len(h0, p, n, m) >= 0);
                assert(before.len() == new_offset(h0, p, n, i as int));
                assert(new_bsp@.subrange(
                    new_offset(h0, p, n, m),
                    new_offset(h0, p, n, m) + new_len(h0, p, n, m),
                ) =~= before.subrange(
                    new_offset(h0, p, n, m),
                    new_offset(h0, p, n, m) + new_len(h0, p, n, m),
                ));
            }
            assert(new_bsp@.subrange(
                new_offset(h0, p, n, i as int),
                new_offset(h0, p, n, i as int) + new_len(h0, p, n, i as int),
            ) =~= replaced_data(*old(self), p, new_data@, i as int));
            i = i + 1;
        }
        proof {
            lemma_new_offset_ge(h0, p, n, LUMP_COUNT as int);
        }
        let res = new_header.write_to(new_bsp.as_mut_slice());
        assert(res is Ok);
        self.header = new_header;
        self.content = new_bsp;
        proof {
            assert(self.content@.take(HEADER_SIZE as int) =~= header_bytes(self.header));
            assert forall|m: int| 0 <= m < LUMP_COUNT implies #[trigger] self.header.lumps@[m].fits(
                self.content@.len() as int,
            ) by {
                lemma_new_offset_le(h0, p, n, m + 1, LUMP_COUNT as int);
                lemma_new_offset_ge(h0, p, n, m);
                assert(new_offset(h0, p, n, m + 1) == new_offset(h0, p, n, m) + new_len(h0, p, n, m));
                assert(new_len(h0, p, n, m) >= 0);
                assert(self.header.lumps@[m].0 == new_offset(h0, p, n, m));
                assert(self.header.lumps@[m].1 == new_len(h0, p, n, m));
            }
            assert forall|m: int| 0 <= m < LUMP_COUNT implies #[trigger] self.lump_data(m) == replaced_data(*old(self), p, new_data@, m) by {
                lemma_new_offset_ge(h0, p, n, m);
                lemma_new_offset_le(h0, p, n, m + 1, LUMP_COUNT as int);
                assert(new_offset(h0, p, n, m + 1) == new_offset(h0, p, n, m) + new_len(h0, p, n, m));
                assert(new_len(h0, p, n, m) >= 0);
                assert(self.lump_data(m) =~= self.content@.subrange(
                    new_offset(h0, p, n, m),
                    new_offset(h0, p, n, m) + new_len(h0, p, n, m),
                ));
            }
        }
        Ok(())
    }
}

proof fn lemma_new_offset_le(h: BspHeader, idx: int, n: int, a: int, b: int)
    requires
        0 <= a <= b <= LUMP_COUNT,
        n >= 0,
        forall|j: int| 0 <= j < LUMP_COUNT ==> #[trigger] h.lumps@[j].1 >= 0,
    ensures
        new_offset(h, idx, n, a) <= new_offset(h, idx, n, b),
        new_offset(h, idx, n, a) >= HEADER_SIZE,
    decreases b - a,
{
    if a < b {
        lemma_new_offset_le(h, idx, n, a, b - 1);
    } else {
        lemma_new_offset_ge(h, idx, n, a);
    }
}

proof fn lemma_new_offset_ge(h: BspHeader, idx: int, n: int, a: int)
    requires
        0 <= a <= LUMP_COUNT,
        n >= 0,
        forall|j: int| 0 <= j < LUMP_COUNT ==> #[trigger] h.lumps@[j].1 >= 0,
    ensures
        new_offset(h, idx, n, a) >= HEADER_SIZE,
    decreases a,
{
    if a > 0 {
        lemma_new_offset_ge(h, idx, n, a - 1);
    }
}

proof fn lemma_new_offset_mono(h: BspHeader, idx: int, n: int, b: int)
    requires
        0 <= b <= LUMP_COUNT,
        n >= 0,
        forall|j: int| 0 <= j < LUMP_COUNT ==> #[trigger] h.lumps@[j].1 >= 0,
    ensures
        forall|m: int| 0 <= m <= b ==> #[trigger] new_offset(h, idx, n, m) <= new_offset(h, idx, n, b),
{
    assert forall|m: int| 0 <= m <= b implies #[trigger] new_offset(h, idx, n, m) <= new_offset(h, idx, n, b) by {
        lemma_new_offset_le(h, idx, n, m, b);
    }
}

proof fn lemma_new_offset_grows(h: BspHeader, idx: int, n: int, b: int)
    requires
        0 <= idx < b <= LUMP_COUNT,
        n >= 0,
        forall|j: int| 0 <= j < LUMP_COUNT ==> #[trigger] h.lumps@[j].1 >= 0,
    ensures
        new_offset(h, idx, n, b) >= HEADER_SIZE + n,
    decreases b,
{
    if b == idx + 1 {
        lemma_new_offset_ge(h, idx, n, idx);
    } else {
        lemma_new_offset_grows(h, idx, n, b - 1);
        assert(new_len(h, idx, n, b - 1) >= 0);
    }
}

} // verus!
