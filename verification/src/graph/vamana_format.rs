//! The index file: the header, then the node count, the dimension and the entry point, then, each
//! where its flag is set, the metadata and the layers with their lengths and padding to a multiple
//! of four bytes, then the graph.
//!
//! The metadata stands in the file as text. How a record is written as text and read again is for
//! the caller to say.
use vstd::prelude::*;
use vstd::slice::slice_subrange;
use vstd::slice::slice_to_vec;
use crate::build::BuildMetadata;
use crate::distance::DistanceKernel;
use crate::distance::single::F32;
use crate::graph::construction;
use crate::graph::layered::{LayeredNavigation, LayeredView};
use crate::graph::layered_format;
use crate::graph::points::Points;
use crate::graph::search::NodeScore;
use crate::graph::searcher;
use crate::graph::searcher::SearcherView;
use crate::graph::vamana;
use crate::graph::vamana::{VamanaGraph, VamanaView};
use crate::memory::HybridBlockedCsr;
use crate::memory::codec;
use crate::memory::codec::{put_bytes, put_u32, put_u64, read_u32, read_u64};
use crate::memory::csr_format;
use crate::memory::csr_format::{csr_loadable, CsrParts};
use crate::memory::graph;
use crate::memory::serialize;
use crate::memory::serialize::{
    crc32, IndexHeader, IoFailure, Serializable, SerializeError, HEADER_SIZE, INDEX_MAGIC,
    INDEX_VERSION,
};

verus! {

/// The bytes from the body's start to the first trailer.
pub const FIXED_SIZE: usize = 20;

/// How many bytes follow `len` bytes up to a multiple of four.
pub open spec fn padding(len: int) -> int {
    (4 - len % 4) % 4
}

/// A list of bytes with its length and padding; nothing for the empty list.
pub open spec fn trailer(b: Seq<u8>) -> Seq<u8> {
    if b.len() == 0 {
        Seq::empty()
    } else {
        codec::le32(b.len() as u32) + b + Seq::new(padding(b.len() as int) as nat, |i: int| 0u8)
    }
}

/// The bytes of the layers; none where there are no layers.
pub open spec fn layers_part(layers: Option<LayeredView>) -> Seq<u8> {
    match layers {
        Some(v) => layered_format::layers_bytes(v),
        None => Seq::empty(),
    }
}

/// The part of the body before the trailers.
pub open spec fn fixed_part(v: VamanaView) -> Seq<u8> {
    codec::le64(v.n as u64) + codec::le64(v.dim as u64) + codec::le32(v.entry_point)
}

/// The bytes of the graph.
pub open spec fn graph_part(v: VamanaView) -> Seq<u8> {
    csr_format::csr_bytes(v.graph.lists.len(), v.graph.r_max, v.slots, v.graph.overflow)
}

/// The body of the index file.
pub open spec fn index_body(v: VamanaView) -> Seq<u8> {
    fixed_part(v) + trailer(v.metadata_text) + trailer(layers_part(v.layers)) + graph_part(v)
}

/// The flags of the index file: one for metadata, two for layers.
pub open spec fn index_flags(v: VamanaView) -> u32 {
    ((if v.metadata_text.len() > 0 {
        1int
    } else {
        0
    }) + (if layers_part(v.layers).len() > 0 {
        2int
    } else {
        0
    })) as u32
}

/// The header of the index file.
pub open spec fn index_header(v: VamanaView) -> IndexHeader {
    IndexHeader {
        magic: INDEX_MAGIC,
        version: INDEX_VERSION,
        flags: index_flags(v),
        crc32: serialize::crc32_of(index_body(v)),
    }
}

/// The bytes of the index file.
pub open spec fn index_bytes(v: VamanaView) -> Seq<u8> {
    index_header(v).bytes() + index_body(v)
}

/// A trailer that starts at `off`, where the body has it, and where it ends.
pub open spec fn trailer_at(
    body: Seq<u8>,
    off: int,
    present: bool,
    no_header: IoFailure,
    no_data: IoFailure,
) -> Result<(Seq<u8>, int), IoFailure> {
    if !present {
        Ok((Seq::empty(), off))
    } else if body.len() < off + 4 {
        Err(no_header)
    } else {
        let len = codec::get32(body, off);
        if body.len() < off + 4 + len {
            Err(no_data)
        } else {
            Ok((body.subrange(off + 4, off + 4 + len), off + 4 + len + padding(len)))
        }
    }
}

/// What a file holds before its graph.
pub struct Frame {
    /// The node count.
    pub n: int,
    /// The dimension.
    pub dim: int,
    /// Where a search starts.
    pub entry_point: u32,
    /// The text of the metadata.
    pub text: Seq<u8>,
    /// The layers, where they can be read.
    pub layers: Option<LayeredView>,
    /// Where the graph starts in the body.
    pub rest: int,
}

/// The frame of a body under the given flags.
pub open spec fn body_frame(body: Seq<u8>, flags: u32) -> Result<Frame, IoFailure> {
    match trailer_at(
        body,
        FIXED_SIZE as int,
        flags % 2 == 1,
        IoFailure::MetadataHeaderTruncated,
        IoFailure::MetadataTruncated,
    ) {
        Err(e) => Err(e),
        Ok(meta) => match trailer_at(
            body,
            meta.1,
            (flags / 2) % 2 == 1,
            IoFailure::LayeredNavHeaderTruncated,
            IoFailure::LayeredNavTruncated,
        ) {
            Err(e) => Err(e),
            Ok(nav) => Ok(
                Frame {
                    n: codec::get64(body, 0),
                    dim: codec::get64(body, 8),
                    entry_point: codec::get32(body, 16) as u32,
                    text: meta.0,
                    layers: if (flags / 2) % 2 == 1 {
                        layered_format::layers_parse(nav.0)
                    } else {
                        None
                    },
                    rest: nav.1,
                },
            ),
        },
    }
}

/// The frame of a file: refused are short files, then those with another magic number or version,
/// then those whose checksum is wrong, then those whose trailers end early.
pub open spec fn file_frame(bytes: Seq<u8>) -> Result<Frame, SerializeError> {
    let header = IndexHeader::parsed(bytes);
    let body = bytes.skip(HEADER_SIZE as int);
    if bytes.len() < HEADER_SIZE + FIXED_SIZE {
        Err(SerializeError::Io(IoFailure::FileTooShort))
    } else {
        match header.verdict() {
            Err(e) => Err(e),
            Ok(_) => if serialize::crc32_of(body) != header.crc32 {
                Err(
                    SerializeError::CrcMismatch {
                        expected: header.crc32,
                        actual: serialize::crc32_of(body),
                    },
                )
            } else {
                match body_frame(body, header.flags) {
                    Err(e) => Err(SerializeError::Io(e)),
                    Ok(frame) => Ok(frame),
                }
            },
        }
    }
}

/// What the bytes of an index file spell.
pub open spec fn index_parse(bytes: Seq<u8>) -> Result<(Frame, CsrParts), SerializeError> {
    match file_frame(bytes) {
        Err(e) => Err(e),
        Ok(frame) => match csr_format::csr_parse(
            bytes.skip(HEADER_SIZE as int).skip(frame.rest),
        ) {
            Err(e) => Err(SerializeError::Io(e)),
            Ok(parts) => if parts.n != frame.n {
                Err(
                    SerializeError::Io(
                        IoFailure::NodeCountMismatch {
                            header: frame.n as usize,
                            storage: parts.n as usize,
                        },
                    ),
                )
            } else {
                Ok((frame, parts))
            },
        },
    }
}

/// The bytes, where they can be read at all, describe an index: the padding does not run past the
/// end, the numbers are sizes, and the rest describes a graph.
pub open spec fn describes_index(bytes: Seq<u8>) -> bool {
    file_frame(bytes) matches Ok(frame) ==> {
        &&& frame.rest <= bytes.len() - HEADER_SIZE
        &&& frame.n <= usize::MAX
        &&& frame.dim <= usize::MAX
        &&& HybridBlockedCsr::loadable(bytes.skip(HEADER_SIZE as int).skip(frame.rest))
    }
}

/// The lengths fit their fields.
pub open spec fn lengths_fit(v: VamanaView) -> bool {
    &&& v.metadata_text.len() <= u32::MAX
    &&& layers_part(v.layers).len() <= u32::MAX
    &&& v.layers matches Some(l) ==> layered_format::layers_fit(l)
}

/// The index with another text of its record.
pub open spec fn with_text(v: VamanaView, text: Seq<u8>) -> VamanaView {
    VamanaView { metadata_text: text, ..v }
}

/// The record is what `parse` makes of the text; there is none where there is no text.
pub open spec fn record_by<P: Fn(&[u8]) -> Option<BuildMetadata>>(
    parse: P,
    text: Seq<u8>,
    record: Option<BuildMetadata>,
) -> bool {
    if text.len() == 0 {
        record is None
    } else {
        exists|s: &[u8]| #[trigger] call_ensures(parse, (s,), record) && s@ == text
    }
}

/// The index is what a file holds, but for the record of the build.
pub open spec fn holds(g: VamanaGraph, frame: Frame, parts: CsrParts) -> bool {
    &&& g.wf()
    &&& g@.graph == parts.graph()
    &&& g@.slots == parts.slots
    &&& g@.entry_point == frame.entry_point
    &&& g@.dim == frame.dim
    &&& g@.n == frame.n
    &&& g@.layers == frame.layers
}

/// The index was loaded from the bytes.
pub open spec fn loaded_from(bytes: Seq<u8>, g: VamanaGraph) -> bool {
    index_parse(bytes) matches Ok(read) && holds(g, read.0, read.1)
}

/// What loading the bytes comes to, with the record read by `parse`. A text that `parse` makes
/// nothing of is dropped.
pub open spec fn loaded_by<P: Fn(&[u8]) -> Option<BuildMetadata>>(
    bytes: Seq<u8>,
    parse: P,
    result: Result<VamanaGraph, SerializeError>,
) -> bool {
    match index_parse(bytes) {
        Err(e) => result == Err::<VamanaGraph, SerializeError>(e),
        Ok((frame, parts)) => {
            &&& result matches Ok(g)
            &&& holds(g, frame, parts)
            &&& record_by(parse, frame.text, g@.metadata)
            &&& g@.metadata_text == (if g@.metadata is Some {
                frame.text
            } else {
                Seq::empty()
            })
        },
    }
}

/// The record that `parse` makes of a text, and the text, which is empty where there is no record.
fn read_record<P: Fn(&[u8]) -> Option<BuildMetadata>>(text: Vec<u8>, parse: P) -> (r: (
    Option<BuildMetadata>,
    Vec<u8>,
))
    requires
        forall|s: &[u8]| #[trigger] call_requires(parse, (s,)),
    ensures
        record_by(parse, text@, r.0),
        r.1@ == (if r.0 is Some {
            text@
        } else {
            Seq::empty()
        }),
{
    if text.len() == 0 {
        return (None, Vec::new());
    }
    match parse(text.as_slice()) {
        Some(record) => (Some(record), text),
        None => (None, Vec::new()),
    }
}

impl VamanaGraph {
    /// The index that the bytes spell, with the record of the build read by `parse`.
    pub fn deserialize_with<P: Fn(&[u8]) -> Option<BuildMetadata>>(
        bytes: &[u8],
        parse: P,
    ) -> (result: Result<Self, SerializeError>)
        requires
            Self::loadable(bytes@),
            forall|s: &[u8]| #[trigger] call_requires(parse, (s,)),
        ensures
            loaded_by(bytes@, parse, result),
    {
        match VamanaGraph::deserialize(bytes) {
            Err(e) => Err(e),
            Ok(g) => {
                let ghost read = index_parse(bytes@)->Ok_0;
                assert(holds(g, read.0, read.1));
                let mut g = g;
                let (record, text) = read_record(slice_to_vec(g.metadata_text()), parse);
                g.set_metadata(record, text);
                assert(holds(g, read.0, read.1));
                Ok(g)
            },
        }
    }
}

/// An index is saved with the text of its record, and loaded with the text, of which the record is
/// still to be made.
impl Serializable for VamanaGraph {
    open spec fn valid(&self) -> bool {
        self.wf() && lengths_fit(self@)
    }

    open spec fn encoding(&self) -> Seq<u8> {
        index_bytes(self@)
    }

    open spec fn loadable(bytes: Seq<u8>) -> bool {
        describes_index(bytes)
    }

    open spec fn decodes(bytes: Seq<u8>, result: Result<Self, SerializeError>) -> bool {
        match index_parse(bytes) {
            Err(e) => result == Err::<Self, SerializeError>(e),
            Ok((frame, parts)) => result matches Ok(g) && holds(g, frame, parts) && g@.metadata
                is None && g@.metadata_text == frame.text,
        }
    }

    fn serialize(&self) -> (bytes: Vec<u8>) {
        proof {
            self.lemma_parts();
        }
        let nav_bytes: Vec<u8> = match self.layered_nav() {
            Some(nav) => nav.serialize_binary(),
            None => Vec::new(),
        };
        assert(nav_bytes@ =~= layers_part(self@.layers));
        let mut body: Vec<u8> = Vec::new();
        put_u64(&mut body, self.len() as u64);
        put_u64(&mut body, self.dim() as u64);
        put_u32(&mut body, self.entry_point());
        assert(body@ =~= fixed_part(self@));
        put_trailer(&mut body, self.metadata_text());
        put_trailer(&mut body, nav_bytes.as_slice());
        let graph_bytes = self.storage().serialize();
        put_bytes(&mut body, graph_bytes.as_slice());
        let crc: u32 = crc32(body.as_slice());
        let mut flags: u32 = 0;
        if self.metadata_text().len() > 0 {
            flags += 1;
        }
        if nav_bytes.len() > 0 {
            flags += 2;
        }
        let header = IndexHeader {
            magic: INDEX_MAGIC,
            version: INDEX_VERSION,
            flags,
            crc32: crc,
        };
        let header_bytes = header.to_bytes();
        let mut bytes: Vec<u8> = Vec::new();
        put_bytes(&mut bytes, header_bytes.as_slice());
        put_bytes(&mut bytes, body.as_slice());
        assert(body@ == index_body(self@));
        assert(bytes@ =~= index_bytes(self@));
        bytes
    }

    fn deserialize(bytes: &[u8]) -> (result: Result<Self, SerializeError>) {
        assert(bytes@.len() == bytes.len());
        let (frame, layers) = match read_frame(bytes) {
            Err(e) => {
                return Err(e);
            },
            Ok(r) => r,
        };
        let start: usize = HEADER_SIZE + frame.rest as usize;
        let rest = slice_subrange(bytes, start, bytes.len());
        assert(rest@ =~= bytes@.skip(HEADER_SIZE as int).skip(frame.rest as int));
        let storage = match HybridBlockedCsr::deserialize(rest) {
            Err(e) => {
                return Err(e);
            },
            Ok(s) => s,
        };
        let n: usize = frame.n as usize;
        let count: usize = storage.len();
        if count != n {
            return Err(
                SerializeError::Io(IoFailure::NodeCountMismatch { header: n, storage: count }),
            );
        }
        Ok(
            VamanaGraph::assemble(
                storage,
                frame.entry_point,
                frame.dim as usize,
                frame.text,
                layers,
            ),
        )
    }
}

/// Appends a list of bytes with its length and padding.
fn put_trailer(buf: &mut Vec<u8>, b: &[u8])
    requires
        b@.len() <= u32::MAX,
    ensures
        final(buf)@ == old(buf)@ + trailer(b@),
{
    assert(b@.len() == b.len());
    if b.len() == 0 {
        assert(buf@ =~= old(buf)@ + trailer(b@));
        return;
    }
    put_u32(buf, b.len() as u32);
    put_bytes(buf, b);
    let pad: usize = (4 - b.len() % 4) % 4;
    let ghost before = buf@;
    let mut i: usize = 0;
    while i < pad
        invariant
            i <= pad,
            buf@ == before + Seq::new(i as nat, |k: int| 0u8),
        decreases pad - i,
    {
        buf.push(0);
        i += 1;
        assert(buf@ =~= before + Seq::new(i as nat, |k: int| 0u8));
    }
    assert(buf@ =~= old(buf)@ + trailer(b@));
}

/// A trailer that was read, and where it ends.
struct RawTrailer {
    data: Vec<u8>,
    end: u128,
}

fn read_trailer(
    body: &[u8],
    off: u128,
    present: bool,
    no_header: IoFailure,
    no_data: IoFailure,
) -> (r: Result<RawTrailer, IoFailure>)
    requires
        off <= body@.len() + 3,
    ensures
        match trailer_at(body@, off as int, present, no_header, no_data) {
            Err(e) => r == Err::<RawTrailer, IoFailure>(e),
            Ok(t) => r matches Ok(raw) && raw.data@ == t.0 && raw.end == t.1 && raw.end
                <= body@.len() + 3,
        },
{
    assert(body@.len() == body.len());
    if !present {
        return Ok(RawTrailer { data: Vec::new(), end: off });
    }
    if (body.len() as u128) < off + 4 {
        return Err(no_header);
    }
    let len: u32 = read_u32(body, off as usize);
    if (body.len() as u128) < off + 4 + len as u128 {
        return Err(no_data);
    }
    let start: usize = off as usize + 4;
    let data = slice_to_vec(slice_subrange(body, start, start + len as usize));
    let pad: u32 = (4 - len % 4) % 4;
    assert(start + len + pad <= body@.len() + 3);
    Ok(RawTrailer { data, end: start as u128 + len as u128 + pad as u128 })
}

/// The frame of a file that was read.
pub struct RawFrame {
    /// The node count.
    pub n: u64,
    /// The dimension.
    pub dim: u64,
    /// Where a search starts.
    pub entry_point: u32,
    /// The text of the metadata.
    pub text: Vec<u8>,
    /// Where the graph starts in the body.
    pub rest: u128,
}

/// Reads what a file holds before its graph, and the layers where they can be read.
fn read_frame(bytes: &[u8]) -> (r: Result<(RawFrame, Option<LayeredNavigation>), SerializeError>)
    ensures
        match file_frame(bytes@) {
            Err(e) => r == Err::<(RawFrame, Option<LayeredNavigation>), SerializeError>(e),
            Ok(f) => r matches Ok(raw) && raw.0.n == f.n && raw.0.dim == f.dim
                && raw.0.entry_point == f.entry_point && raw.0.text@ == f.text && raw.0.rest
                == f.rest && f.layers == (match raw.1 {
                Some(nav) => Some(nav@),
                None => None,
            }),
        },
{
    assert(bytes@.len() == bytes.len());
    if bytes.len() < HEADER_SIZE + FIXED_SIZE {
        return Err(SerializeError::Io(IoFailure::FileTooShort));
    }
    let header = match IndexHeader::from_bytes(bytes) {
        Err(e) => {
            return Err(e);
        },
        Ok(h) => h,
    };
    match header.validate() {
        Err(e) => {
            return Err(e);
        },
        Ok(_) => {},
    }
    let body = slice_subrange(bytes, HEADER_SIZE, bytes.len());
    assert(body@ =~= bytes@.skip(HEADER_SIZE as int));
    let actual: u32 = crc32(body);
    if actual != header.crc32 {
        return Err(SerializeError::CrcMismatch { expected: header.crc32, actual });
    }
    let meta = match read_trailer(
        body,
        FIXED_SIZE as u128,
        header.flags % 2 == 1,
        IoFailure::MetadataHeaderTruncated,
        IoFailure::MetadataTruncated,
    ) {
        Err(e) => {
            return Err(SerializeError::Io(e));
        },
        Ok(t) => t,
    };
    let has_nav: bool = (header.flags / 2) % 2 == 1;
    let nav = match read_trailer(
        body,
        meta.end,
        has_nav,
        IoFailure::LayeredNavHeaderTruncated,
        IoFailure::LayeredNavTruncated,
    ) {
        Err(e) => {
            return Err(SerializeError::Io(e));
        },
        Ok(t) => t,
    };
    let layers = if has_nav {
        LayeredNavigation::deserialize_binary(nav.data.as_slice())
    } else {
        None
    };
    let n: u64 = read_u64(body, 0);
    let dim: u64 = read_u64(body, 8);
    let entry_point: u32 = read_u32(body, 16);
    Ok((RawFrame { n, dim, entry_point, text: meta.data, rest: nav.end }, layers))
}

/// Whether the bytes, where they can be read at all, describe an index.
pub fn index_loadable(bytes: &[u8]) -> (b: bool)
    ensures
        b == VamanaGraph::loadable(bytes@),
{
    assert(bytes@.len() == bytes.len());
    match read_frame(bytes) {
        Err(_) => true,
        Ok((frame, _)) => {
            if frame.rest > (bytes.len() - HEADER_SIZE) as u128 || frame.n > usize::MAX as u64
                || frame.dim > usize::MAX as u64 {
                return false;
            }
            let start: usize = HEADER_SIZE + frame.rest as usize;
            let rest = slice_subrange(bytes, start, bytes.len());
            assert(rest@ =~= bytes@.skip(HEADER_SIZE as int).skip(frame.rest as int));
            csr_loadable(rest)
        },
    }
}

/// A trailer is read as it was written, whatever stands before and after it.
proof fn lemma_trailer_at(
    pre: Seq<u8>,
    b: Seq<u8>,
    post: Seq<u8>,
    body: Seq<u8>,
    no_header: IoFailure,
    no_data: IoFailure,
)
    requires
        b.len() <= u32::MAX,
        body == pre + trailer(b) + post,
    ensures
        trailer_at(body, pre.len() as int, b.len() > 0, no_header, no_data) == Ok::<
            (Seq<u8>, int),
            IoFailure,
        >((b, (pre + trailer(b)).len() as int)),
{
    if b.len() > 0 {
        let off = pre.len() as int;
        let len = b.len() as int;
        codec::lemma_le32(b.len() as u32);
        assert(body.subrange(off, off + 4) =~= codec::le32(b.len() as u32));
        codec::lemma_get32_at(body, off, b.len() as u32);
        assert(body.subrange(off + 4, off + 4 + len) =~= b);
    } else {
        assert(b =~= Seq::<u8>::empty());
        assert(pre + trailer(b) =~= pre);
    }
}

/// The numbers before the trailers are read as they were written.
proof fn lemma_fixed_part(v: VamanaView, rest: Seq<u8>, body: Seq<u8>)
    requires
        body == fixed_part(v) + rest,
    ensures
        fixed_part(v).len() == FIXED_SIZE,
        codec::get64(body, 0) == v.n,
        codec::get64(body, 8) == v.dim,
        codec::get32(body, 16) == v.entry_point,
{
    let a = codec::le64(v.n as u64);
    let b = codec::le64(v.dim as u64);
    let c = codec::le32(v.entry_point);
    codec::lemma_le64(v.n as u64);
    codec::lemma_le64(v.dim as u64);
    codec::lemma_le32(v.entry_point);
    assert(fixed_part(v) == a + b + c);
    lemma_three(a, b, c, rest, body);
    codec::lemma_get64_at(body, 0, v.n as u64);
    codec::lemma_get64_at(body, 8, v.dim as u64);
    codec::lemma_get32_at(body, 16, v.entry_point);
}

proof fn lemma_three(a: Seq<u8>, b: Seq<u8>, c: Seq<u8>, rest: Seq<u8>, body: Seq<u8>)
    requires
        a.len() == 8,
        b.len() == 8,
        c.len() == 4,
        body == a + b + c + rest,
    ensures
        (a + b + c).len() == 20,
        body.len() >= 20,
        body.subrange(0, 8) == a,
        body.subrange(8, 16) == b,
        body.subrange(16, 20) == c,
{
    assert(body.subrange(0, 8) =~= a);
    assert(body.subrange(8, 16) =~= b);
    assert(body.subrange(16, 20) =~= c);
}

proof fn lemma_regroup(a: Seq<u8>, b: Seq<u8>, c: Seq<u8>, d: Seq<u8>)
    ensures
        a + b + c + d == a + (b + c + d),
        a + b + c + d == a + b + (c + d),
        (a + b + c + d).skip((a + b + c).len() as int) == d,
        (a + b + c).len() <= (a + b + c + d).len(),
{
    assert(a + b + c + d =~= a + (b + c + d));
    assert(a + b + c + d =~= a + b + (c + d));
    assert((a + b + c + d).skip((a + b + c).len() as int) =~= d);
}

/// The flags say which trailers there are.
proof fn lemma_flags(v: VamanaView)
    ensures
        index_flags(v) % 2 == 1 <==> v.metadata_text.len() > 0,
        (index_flags(v) / 2) % 2 == 1 <==> layers_part(v.layers).len() > 0,
{
}

/// The layers are read as they were written.
proof fn lemma_layers_part(v: VamanaView)
    requires
        lengths_fit(v),
        v.layers matches Some(l) ==> l.lists.len() == l.levels.len(),
    ensures
        v.layers is Some <==> layers_part(v.layers).len() > 0,
        v.layers is Some ==> layered_format::layers_parse(layers_part(v.layers)) == v.layers,
{
    if let Some(l) = v.layers {
        layered_format::law_layers_round_trip(l);
        if layers_part(v.layers).len() == 0 {
            assert(layered_format::layers_parse(layers_part(v.layers)) is None);
        }
    }
}

/// The frame of a body from its parts.
proof fn lemma_frame_parts(
    body: Seq<u8>,
    flags: u32,
    text: Seq<u8>,
    off: int,
    nav: Seq<u8>,
    end: int,
)
    requires
        trailer_at(
            body,
            FIXED_SIZE as int,
            flags % 2 == 1,
            IoFailure::MetadataHeaderTruncated,
            IoFailure::MetadataTruncated,
        ) == Ok::<(Seq<u8>, int), IoFailure>((text, off)),
        trailer_at(
            body,
            off,
            (flags / 2) % 2 == 1,
            IoFailure::LayeredNavHeaderTruncated,
            IoFailure::LayeredNavTruncated,
        ) == Ok::<(Seq<u8>, int), IoFailure>((nav, end)),
    ensures
        body_frame(body, flags) == Ok::<Frame, IoFailure>(
            Frame {
                n: codec::get64(body, 0),
                dim: codec::get64(body, 8),
                entry_point: codec::get32(body, 16) as u32,
                text,
                layers: if (flags / 2) % 2 == 1 {
                    layered_format::layers_parse(nav)
                } else {
                    None
                },
                rest: end,
            },
        ),
{
}

/// The frame of a body is read as it was written.
proof fn lemma_body_frame(v: VamanaView, graph: Seq<u8>, body: Seq<u8>)
    requires
        lengths_fit(v),
        v.layers matches Some(l) ==> l.lists.len() == l.levels.len(),
        body == fixed_part(v) + trailer(v.metadata_text) + trailer(layers_part(v.layers)) + graph,
    ensures
        body_frame(body, index_flags(v)) matches Ok(frame) && frame.n == v.n && frame.dim == v.dim
            && frame.entry_point == v.entry_point && frame.text == v.metadata_text && frame.layers
            == v.layers && body.skip(frame.rest) == graph && 0 <= frame.rest <= body.len(),
        body.len() >= FIXED_SIZE,
{
    let text = v.metadata_text;
    let nav = layers_part(v.layers);
    let fixed = fixed_part(v);
    let t1 = trailer(text);
    let t2 = trailer(nav);
    lemma_regroup(fixed, t1, t2, graph);
    lemma_fixed_part(v, t1 + t2 + graph, body);
    lemma_trailer_at(
        fixed,
        text,
        t2 + graph,
        body,
        IoFailure::MetadataHeaderTruncated,
        IoFailure::MetadataTruncated,
    );
    lemma_trailer_at(
        fixed + t1,
        nav,
        graph,
        body,
        IoFailure::LayeredNavHeaderTruncated,
        IoFailure::LayeredNavTruncated,
    );
    lemma_flags(v);
    lemma_layers_part(v);
    lemma_frame_parts(
        body,
        index_flags(v),
        text,
        (fixed + t1).len() as int,
        nav,
        (fixed + t1 + t2).len() as int,
    );
}

/// A file is read as it was written up to its graph.
proof fn lemma_file_frame(v: VamanaView)
    requires
        lengths_fit(v),
        v.layers matches Some(l) ==> l.lists.len() == l.levels.len(),
    ensures
        file_frame(index_bytes(v)) matches Ok(frame) && frame.n == v.n && frame.dim == v.dim
            && frame.entry_point == v.entry_point && frame.text == v.metadata_text && frame.layers
            == v.layers && index_bytes(v).skip(HEADER_SIZE as int).skip(frame.rest) == graph_part(v)
            && 0 <= frame.rest <= index_bytes(v).len() - HEADER_SIZE,
{
    let header = index_header(v);
    let body = index_body(v);
    serialize::law_header_round_trip(header, body);
    lemma_skip_header(header.bytes(), body);
    lemma_body_frame(v, graph_part(v), body);
}

proof fn lemma_skip_header(h: Seq<u8>, body: Seq<u8>)
    ensures
        (h + body).skip(h.len() as int) == body,
{
    assert((h + body).skip(h.len() as int) =~= body);
}

/// What is saved with any text is loaded again, whatever is made of the text.
proof fn lemma_round_trip(g: VamanaGraph, text: Seq<u8>)
    requires
        g.wf(),
        lengths_fit(with_text(g@, text)),
        graph::read_off_slots(g@.graph, g@.slots),
        g@.layers matches Some(l) ==> l.lists.len() == l.levels.len(),
    ensures
        ({
            let bytes = index_bytes(with_text(g@, text));
            &&& VamanaGraph::loadable(bytes)
            &&& index_parse(bytes) matches Ok(read) && read.0.text == text
            &&& forall|back: VamanaGraph| #[trigger]
                loaded_from(bytes, back) ==> back.wf() && back@.graph == g@.graph && back@.slots
                    == g@.slots && back@.entry_point == g@.entry_point && back@.dim == g@.dim
                    && back@.n == g@.n && back@.layers == g@.layers
        }),
{
    let v = with_text(g@, text);
    g.lemma_parts();
    lemma_file_frame(v);
    csr_format::law_csr_round_trip(g.held());
    assert(graph_part(v) == g.held().encoding());
}

/// Saving an index and loading it again gives the same index: the same edges, entry point,
/// dimension, node count, metadata text and layers. The index is any whose neighbours can be read
/// off its slots, as those of every built index and of every loaded one can be.
pub proof fn law_index_round_trip(g: VamanaGraph)
    requires
        g.valid(),
        graph::read_off_slots(g@.graph, g@.slots),
        g@.layers matches Some(l) ==> l.lists.len() == l.levels.len(),
    ensures
        VamanaGraph::loadable(g.encoding()),
        forall|result: Result<VamanaGraph, SerializeError>| #[trigger]
            VamanaGraph::decodes(g.encoding(), result) ==> (result matches Ok(back) && back.wf()
                && back@.graph == g@.graph && back@.slots == g@.slots && back@.entry_point
                == g@.entry_point && back@.dim == g@.dim && back@.n == g@.n
                && back@.metadata_text == g@.metadata_text && back@.layers == g@.layers),
{
    assert(with_text(g@, g@.metadata_text) == g@);
    lemma_round_trip(g, g@.metadata_text);
    assert forall|result: Result<VamanaGraph, SerializeError>| #[trigger]
        VamanaGraph::decodes(g.encoding(), result) implies (result matches Ok(back) && back.wf()
        && back@.graph == g@.graph && back@.slots == g@.slots && back@.entry_point
        == g@.entry_point && back@.dim == g@.dim && back@.n == g@.n && back@.metadata_text
        == g@.metadata_text && back@.layers == g@.layers) by {
        assert(loaded_from(g.encoding(), result->Ok_0));
    }
}

/// `parse` reads every record that `to_text` writes.
pub open spec fn reads_back<
    F: Fn(&BuildMetadata) -> Vec<u8>,
    P: Fn(&[u8]) -> Option<BuildMetadata>,
>(to_text: F, parse: P) -> bool {
    forall|m: BuildMetadata, t: Vec<u8>, s: &[u8], r: Option<BuildMetadata>|
        #![trigger call_ensures(to_text, (&m,), t), call_ensures(parse, (s,), r)]
        call_ensures(to_text, (&m,), t) && call_ensures(parse, (s,), r) && s@ == t@ ==> (r matches
            Some(back) && back.same_as(m))
}

/// Saving an index with the record of its build and loading it again gives the same index with the
/// same record.
pub proof fn law_record_round_trip<
    F: Fn(&BuildMetadata) -> Vec<u8>,
    P: Fn(&[u8]) -> Option<BuildMetadata>,
>(g: VamanaGraph, to_text: F, parse: P, result: Result<VamanaGraph, SerializeError>)
    requires
        g.valid(),
        g@.metadata matches Some(m) && vamana::text_of_record(to_text, m, g@.metadata_text),
        g@.metadata_text.len() > 0,
        reads_back(to_text, parse),
        graph::read_off_slots(g@.graph, g@.slots),
        g@.layers matches Some(l) ==> l.lists.len() == l.levels.len(),
        loaded_by(g.encoding(), parse, result),
    ensures
        VamanaGraph::loadable(g.encoding()),
        result matches Ok(back) && back.wf() && back@.graph == g@.graph && back@.slots == g@.slots
            && back@.entry_point == g@.entry_point && back@.dim == g@.dim && back@.n == g@.n
            && back@.layers == g@.layers && back@.metadata_text == g@.metadata_text && (
        back@.metadata matches Some(record) && record.same_as(g@.metadata->0)),
{
    let text = g@.metadata_text;
    assert(with_text(g@, text) == g@);
    lemma_round_trip(g, text);
    let m = g@.metadata->0;
    let t = choose|t: Vec<u8>| #[trigger] call_ensures(to_text, (&m,), t) && t@ == text;
    let back = result->Ok_0;
    assert(loaded_from(g.encoding(), back));
    let s = choose|s: &[u8]| #[trigger]
        call_ensures(parse, (s,), back@.metadata) && s@ == text;
    assert(call_ensures(to_text, (&m,), t) && call_ensures(parse, (s,), back@.metadata));
}

/// The neighbours in an index whose free slots hold the sentinel and whose neighbours are nodes, as
/// in every built one, can be read off its slots.
pub proof fn law_built_neighbours_are_read_off(g: VamanaGraph)
    requires
        g.wf(),
        g.free_slots_marked(),
        construction::proper(g@.graph, g@.n as nat),
    ensures
        graph::read_off_slots(g@.graph, g@.slots),
{
    g.lemma_parts();
    g.held().lemma_shape();
    assert forall|i: int, k: int|
        0 <= i < g@.graph.lists.len() && 0 <= k < g@.graph.lists[i].len()
            implies #[trigger] g@.graph.lists[i][k] != crate::SENTINEL by {
        assert(construction::proper_list(g@.graph, i, g@.n as nat));
        assert(g@.graph.all(i)[k] == g@.graph.lists[i][k]);
        assert(g@.graph.all(i)[k] < g@.n);
    }
    csr_format::lemma_marked_slots_are_read_off(g.held());
}

/// An index that was saved, with whatever text for its record, and loaded again answers every query
/// as before, by distances and by any other score, and with the same vectors it can be asked
/// whenever it could be before.
pub proof fn law_loaded_index_answers_alike<K: DistanceKernel, S: NodeScore>(
    g: VamanaGraph,
    text: Seq<u8>,
    back: VamanaGraph,
    data: Points<K>,
    state: SearcherView,
    score: &S,
    query: Seq<F32>,
    k: usize,
)
    requires
        g.wf(),
        lengths_fit(with_text(g@, text)),
        graph::read_off_slots(g@.graph, g@.slots),
        g@.layers matches Some(l) ==> l.lists.len() == l.levels.len(),
        loaded_from(index_bytes(with_text(g@, text)), back),
        state.graph == g@,
    ensures
        searcher::answer(data, (SearcherView { graph: back@, ..state }), query, k)
            == searcher::answer(data, state, query, k),
        searcher::answer_by(data, (SearcherView { graph: back@, ..state }), score, query, k)
            == searcher::answer_by(data, state, score, query, k),
        searcher::answerable(back, state.anchors, data.vectors@, data.dim)
            == searcher::answerable(g, state.anchors, data.vectors@, data.dim),
{
    lemma_round_trip(g, text);
}

/// A file with another magic number, of another version or with another body than the one that was
/// written is refused, and the error names what was found.
pub proof fn law_bad_files_are_refused(bytes: Seq<u8>)
    requires
        bytes.len() >= HEADER_SIZE + FIXED_SIZE,
    ensures
        ({
            let header = IndexHeader::parsed(bytes);
            let actual = serialize::crc32_of(bytes.skip(HEADER_SIZE as int));
            &&& header.magic != INDEX_MAGIC ==> VamanaGraph::decodes(
                bytes,
                Err(
                    SerializeError::MagicMismatch { expected: INDEX_MAGIC, actual: header.magic },
                ),
            )
            &&& header.magic == INDEX_MAGIC && header.version != INDEX_VERSION
                ==> VamanaGraph::decodes(
                bytes,
                Err(
                    SerializeError::VersionMismatch {
                        file_version: header.version,
                        supported_version: INDEX_VERSION,
                    },
                ),
            )
            &&& header.magic == INDEX_MAGIC && header.version == INDEX_VERSION && actual
                != header.crc32 ==> VamanaGraph::decodes(
                bytes,
                Err(SerializeError::CrcMismatch { expected: header.crc32, actual }),
            )
            &&& (header.magic != INDEX_MAGIC || header.version != INDEX_VERSION || actual
                != header.crc32) ==> forall|g: VamanaGraph| !VamanaGraph::decodes(bytes, Ok(g))
        }),
{
}

/// A file that can be read is refused once any byte of its body is changed, because its checksum is
/// no longer the one in the header.
pub proof fn law_changed_bodies_are_refused(bytes: Seq<u8>, i: int, b: u8)
    requires
        file_frame(bytes) is Ok,
        HEADER_SIZE <= i < bytes.len(),
        b != bytes[i],
    ensures
        VamanaGraph::loadable(bytes.update(i, b)),
        forall|result: Result<VamanaGraph, SerializeError>| #[trigger]
            VamanaGraph::decodes(bytes.update(i, b), result) ==> (result matches Err(e) && e
                is CrcMismatch),
{
    let other = bytes.update(i, b);
    let body = bytes.skip(HEADER_SIZE as int);
    assert(other.skip(HEADER_SIZE as int) =~= body.update(i - HEADER_SIZE, b));
    assert(forall|k: int| 0 <= k < HEADER_SIZE ==> other[k] == bytes[k]);
    assert(IndexHeader::parsed(other) == IndexHeader::parsed(bytes));
    serialize::law_changed_byte_changes_checksum(body, i - HEADER_SIZE, b);
    law_bad_files_are_refused(other);
}

} // verus!
