//! Where the parts stand in the file of an index.
use vstd::prelude::*;
use crate::build::BuildMetadata;
use crate::build::rng::RngView;
use crate::config::local_bench;
use crate::distance::DistanceKernel;
use crate::distance::single::F32;
use crate::graph::centroid;
use crate::graph::construction::VamanaBuildConfig;
use crate::graph::layered;
use crate::graph::layered::LayeredView;
use crate::graph::layered_format;
use crate::graph::vamana;
use crate::graph::vamana::{VamanaGraph, VamanaView};
use crate::graph::vamana_format;
use crate::memory::codec;
use crate::memory::csr_format;
use crate::memory::layout_laws;
use crate::memory::serialize;

verus! {

/// The file of an index starts with `0x414E4E58`, the version 1, the flags and the checksum of all that
/// follows, four bytes each. The number of nodes and the dimension come next, eight bytes each, and the
/// entry point, four bytes. A record comes with its length before it, where there is one, and the graph
/// stands last.
pub proof fn law_index_layout(v: VamanaView)
    requires
        v.n <= u64::MAX,
        v.dim <= u64::MAX,
        v.metadata_text.len() <= u32::MAX,
    ensures
        ({
            let file = vamana_format::index_bytes(v);
            let text = v.metadata_text;
            let graph = vamana_format::graph_part(v);
            &&& file.len() >= 36 + graph.len()
            &&& layout_laws::number_at(file, 0, 4) == 0x414E_4E58
            &&& layout_laws::number_at(file, 4, 4) == 1
            &&& layout_laws::number_at(file, 8, 4) % 2 == 1 <==> text.len() > 0
            &&& (layout_laws::number_at(file, 8, 4) / 2) % 2 == 1 <==> vamana_format::layers_part(
                v.layers,
            ).len() > 0
            &&& layout_laws::number_at(file, 12, 4) == serialize::crc32_of(
                file.subrange(16, file.len() as int),
            )
            &&& layout_laws::number_at(file, 16, 8) == v.n
            &&& layout_laws::number_at(file, 24, 8) == v.dim
            &&& layout_laws::number_at(file, 32, 4) == v.entry_point
            &&& text.len() > 0 ==> {
                &&& file.len() >= 40 + text.len()
                &&& layout_laws::number_at(file, 36, 4) == text.len()
                &&& file.subrange(40, 40 + text.len() as int) == text
            }
            &&& file.subrange(file.len() - graph.len(), file.len() as int) == graph
        }),
{
    lemma_header_part(v);
    lemma_fixed_part(v);
    lemma_record_part(v);
    lemma_graph_part(v);
}

proof fn lemma_header_part(v: VamanaView)
    ensures
        ({
            let file = vamana_format::index_bytes(v);
            &&& file.len() == 16 + vamana_format::index_body(v).len()
            &&& file.subrange(16, file.len() as int) == vamana_format::index_body(v)
            &&& layout_laws::number_at(file, 0, 4) == 0x414E_4E58
            &&& layout_laws::number_at(file, 4, 4) == 1
            &&& layout_laws::number_at(file, 8, 4) == vamana_format::index_flags(v)
            &&& layout_laws::number_at(file, 12, 4) == serialize::crc32_of(
                vamana_format::index_body(v),
            )
        }),
{
    let h = vamana_format::index_header(v);
    let file = vamana_format::index_bytes(v);
    let body = vamana_format::index_body(v);
    layout_laws::law_header_layout(h);
    lemma_front(h.bytes(), body, 0);
    lemma_front(h.bytes(), body, 4);
    lemma_front(h.bytes(), body, 8);
    lemma_front(h.bytes(), body, 12);
    assert(file.subrange(16, file.len() as int) =~= body);
}

proof fn lemma_fixed_part(v: VamanaView)
    requires
        v.n <= u64::MAX,
        v.dim <= u64::MAX,
    ensures
        ({
            let file = vamana_format::index_bytes(v);
            &&& layout_laws::number_at(file, 16, 8) == v.n
            &&& layout_laws::number_at(file, 24, 8) == v.dim
            &&& layout_laws::number_at(file, 32, 4) == v.entry_point
        }),
{
    let file = vamana_format::index_bytes(v);
    let fixed = vamana_format::fixed_part(v);
    lemma_header_part(v);
    codec::lemma_le64(v.n as u64);
    codec::lemma_le64(v.dim as u64);
    codec::lemma_le32(v.entry_point);
    let body = vamana_format::index_body(v);
    assert(fixed.len() == 20);
    assert(body.subrange(0, 20) =~= fixed);
    assert(file.subrange(16, 36) =~= fixed) by {
        assert forall|i: int| 0 <= i < 20 implies file[16 + i] == fixed[i] by {
            assert(file.subrange(16, file.len() as int)[i] == body[i]);
            assert(body.subrange(0, 20)[i] == fixed[i]);
        }
    }
    assert(fixed.subrange(0, 8) =~= codec::le64(v.n as u64));
    assert(fixed.subrange(8, 16) =~= codec::le64(v.dim as u64));
    assert(fixed.subrange(16, 20) =~= codec::le32(v.entry_point));
    assert(file.subrange(16, 24) =~= file.subrange(16, 36).subrange(0, 8));
    assert(file.subrange(24, 32) =~= file.subrange(16, 36).subrange(8, 16));
    assert(file.subrange(32, 36) =~= file.subrange(16, 36).subrange(16, 20));
    layout_laws::lemma_long_at(file, 16, v.n as u64);
    layout_laws::lemma_long_at(file, 24, v.dim as u64);
    layout_laws::lemma_word_at(file, 32, v.entry_point);
}

proof fn lemma_record_part(v: VamanaView)
    requires
        v.metadata_text.len() <= u32::MAX,
    ensures
        v.metadata_text.len() > 0 ==> {
            let file = vamana_format::index_bytes(v);
            let text = v.metadata_text;
            &&& file.len() >= 40 + text.len()
            &&& layout_laws::number_at(file, 36, 4) == text.len()
            &&& file.subrange(40, 40 + text.len() as int) == text
        },
{
    let text = v.metadata_text;
    if text.len() > 0 {
        let file = vamana_format::index_bytes(v);
        let body = vamana_format::index_body(v);
        let fixed = vamana_format::fixed_part(v);
        let record = vamana_format::trailer(text);
        lemma_header_part(v);
        codec::lemma_le64(v.n as u64);
        codec::lemma_le64(v.dim as u64);
        codec::lemma_le32(v.entry_point);
        codec::lemma_le32(text.len() as u32);
        assert(fixed.len() == 20);
        let front = fixed + record;
        let back = vamana_format::trailer(vamana_format::layers_part(v.layers))
            + vamana_format::graph_part(v);
        assert(body =~= front + back);
        assert(record.len() >= 4 + text.len());
        assert(record.subrange(0, 4) =~= codec::le32(text.len() as u32));
        assert(record.subrange(4, 4 + text.len() as int) =~= text);
        assert forall|i: int| 0 <= i < record.len() implies file[36 + i] == record[i] by {
            assert(file.subrange(16, file.len() as int)[20 + i] == body[20 + i]);
            assert((front + back)[20 + i] == record[i]);
        }
        assert(file.subrange(36, 40) =~= record.subrange(0, 4));
        assert(file.subrange(40, 40 + text.len() as int) =~= record.subrange(
            4,
            4 + text.len() as int,
        ));
        layout_laws::lemma_word_at(file, 36, text.len() as u32);
    }
}

proof fn lemma_graph_part(v: VamanaView)
    ensures
        ({
            let file = vamana_format::index_bytes(v);
            let graph = vamana_format::graph_part(v);
            &&& file.len() >= 36 + graph.len()
            &&& file.subrange(file.len() - graph.len(), file.len() as int) == graph
        }),
{
    let file = vamana_format::index_bytes(v);
    let body = vamana_format::index_body(v);
    let graph = vamana_format::graph_part(v);
    let front = vamana_format::fixed_part(v) + vamana_format::trailer(v.metadata_text)
        + vamana_format::trailer(vamana_format::layers_part(v.layers));
    lemma_header_part(v);
    codec::lemma_le64(v.n as u64);
    codec::lemma_le64(v.dim as u64);
    codec::lemma_le32(v.entry_point);
    assert(vamana_format::fixed_part(v).len() == 20);
    assert(body == front + graph);
    let at = file.len() - graph.len();
    assert forall|i: int| 0 <= i < graph.len() implies file[at + i] == graph[i] by {
        assert(file.subrange(16, file.len() as int)[front.len() + i] == body[front.len() + i]);
        assert((front + graph)[front.len() + i] == graph[i]);
    }
    assert(file.subrange(at, file.len() as int) =~= graph);
}

proof fn lemma_front(head: Seq<u8>, rest: Seq<u8>, off: int)
    requires
        0 <= off,
        off + 4 <= head.len(),
    ensures
        layout_laws::number_at(head + rest, off, 4) == layout_laws::number_at(head, off, 4),
{
    reveal_with_fuel(layout_laws::number_at, 5);
}

/// The bytes of the layers start with the entry point, four bytes, and the top level, one byte in four.
/// The number of edges of a layer and the number of nodes follow, four bytes each, then the level of each
/// node, one byte. The places to start from stand at the end, four bytes each, with their number before
/// them.
pub proof fn law_layers_layout(v: LayeredView, i: int)
    requires
        v.k <= u32::MAX,
        v.levels.len() <= u32::MAX,
        v.candidates.len() <= u32::MAX,
        0 <= i < v.candidates.len(),
    ensures
        ({
            let bytes = layered_format::layers_bytes(v);
            let end = bytes.len() - 4 * v.candidates.len();
            &&& bytes.len() >= 24 + v.levels.len() + 4 * v.candidates.len()
            &&& layout_laws::number_at(bytes, 0, 4) == v.entry_point
            &&& bytes[4] == v.max_level
            &&& layout_laws::number_at(bytes, 8, 4) == v.k
            &&& layout_laws::number_at(bytes, 12, 4) == v.levels.len()
            &&& bytes.subrange(16, 16 + v.levels.len() as int) == v.levels
            &&& layout_laws::number_at(bytes, end - 4, 4) == v.candidates.len()
            &&& layout_laws::number_at(bytes, end + 4 * i, 4) == v.candidates[i]
        }),
{
    let bytes = layered_format::layers_bytes(v);
    let head = layered_format::layers_head(v);
    let count = codec::le32(v.candidates.len() as u32);
    let words = codec::le_words(v.candidates);
    lemma_layers_head(v);
    codec::lemma_le32(v.candidates.len() as u32);
    layout_laws::lemma_words_len(v.candidates);
    assert(bytes == head + count + words);
    lemma_front(head, count + words, 0);
    lemma_front(head, count + words, 8);
    lemma_front(head, count + words, 12);
    assert(bytes =~= head + (count + words));
    assert(bytes.subrange(16, 16 + v.levels.len() as int) =~= head.subrange(
        16,
        16 + v.levels.len() as int,
    ));
    let end = bytes.len() - words.len();
    assert(end == head.len() + 4);
    assert(bytes.subrange(end - 4, end) =~= count);
    layout_laws::lemma_word_at(bytes, end - 4, v.candidates.len() as u32);
    layout_laws::lemma_slot(head + count, v.candidates, Seq::empty(), i);
    assert(bytes =~= (head + count) + words + Seq::<u8>::empty());
}

proof fn lemma_layers_head(v: LayeredView)
    requires
        v.k <= u32::MAX,
        v.levels.len() <= u32::MAX,
    ensures
        ({
            let head = layered_format::layers_head(v);
            &&& head.len() >= 20 + v.levels.len()
            &&& layout_laws::number_at(head, 0, 4) == v.entry_point
            &&& head[4] == v.max_level
            &&& layout_laws::number_at(head, 8, 4) == v.k
            &&& layout_laws::number_at(head, 12, 4) == v.levels.len()
            &&& head.subrange(16, 16 + v.levels.len() as int) == v.levels
        }),
{
    let head = layered_format::layers_head(v);
    let entry = codec::le32(v.entry_point);
    let level = seq![v.max_level, 0u8, 0u8, 0u8];
    let k = codec::le32(v.k as u32);
    let n = codec::le32(v.levels.len() as u32);
    let lists = csr_format::nonempty(v.lists);
    let rest = codec::le32(lists.len() as u32) + layered_format::lists_bytes(lists);
    codec::lemma_le32(v.entry_point);
    codec::lemma_le32(v.k as u32);
    codec::lemma_le32(v.levels.len() as u32);
    codec::lemma_le32(lists.len() as u32);
    assert(level.len() == 4);
    assert(head =~= entry + level + k + n + v.levels + rest);
    assert(head.subrange(0, 4) =~= entry);
    layout_laws::lemma_word_at(head, 0, v.entry_point);
    assert(head[4] == level[0]);
    assert(head.subrange(8, 12) =~= k);
    layout_laws::lemma_word_at(head, 8, v.k as u32);
    assert(head.subrange(12, 16) =~= n);
    layout_laws::lemma_word_at(head, 12, v.levels.len() as u32);
    assert(head.subrange(16, 16 + v.levels.len() as int) =~= v.levels);
}

/// What a build makes: the entry point is the medoid, there are layers where they are wanted and there is
/// a node, each layer of a node has half as many edges as the limit, and the entry point is the same.
pub proof fn law_built_indexes<K: DistanceKernel, F: Fn(&BuildMetadata) -> Vec<u8>>(
    g: VamanaGraph,
    after: RngView,
    kernel: &K,
    vectors: &[F32],
    dim: usize,
    config: &VamanaBuildConfig,
    before: RngView,
    levels: Seq<u8>,
    timestamp: u64,
    to_text: F,
)
    requires
        vamana::is_built(
            g,
            after,
            kernel,
            vectors,
            dim,
            config,
            before,
            levels,
            timestamp,
            to_text,
        ),
    ensures
        g@.entry_point == centroid::medoid(
            kernel,
            vectors@,
            dim as nat,
            vectors@.len() / dim as nat,
        ),
        g@.layers is Some <==> config.enable_layered_nav && vectors@.len() / dim as nat > 0,
        g@.layers matches Some(l) ==> l.k == config.r_max as int / 2,
        g@.layers matches Some(l) ==> levels.len() > 0 && config.r_max >= 2 ==> l.entry_point
            == g@.entry_point && l.max_level == layered::top_level(levels),
        forall|i: int| 0 <= i < g@.n ==> (#[trigger] g@.graph.all(i)).len() <= config.r_max,
{
}

/// A trailer is filled up with zeros to a multiple of four bytes, and with no more than that.
pub proof fn law_trailers_are_padded(b: Seq<u8>)
    requires
        0 < b.len() <= u32::MAX,
    ensures
        ({
            let t = vamana_format::trailer(b);
            &&& t.len() % 4 == 0
            &&& 4 + b.len() <= t.len() < 8 + b.len()
            &&& layout_laws::number_at(t, 0, 4) == b.len()
            &&& t.subrange(4, 4 + b.len() as int) == b
            &&& forall|i: int| 4 + b.len() <= i < t.len() ==> #[trigger] t[i] == 0
        }),
{
    let t = vamana_format::trailer(b);
    codec::lemma_le32(b.len() as u32);
    assert(t.subrange(0, 4) =~= codec::le32(b.len() as u32));
    layout_laws::lemma_word_at(t, 0, b.len() as u32);
    assert(t.subrange(4, 4 + b.len() as int) =~= b);
}

/// The bytes of a node's edges in the layers are the node, how many edges there are and the edges, four
/// bytes each.
pub proof fn law_layer_edges_layout(entry: (u32, Seq<u32>), i: int)
    requires
        entry.1.len() <= u32::MAX,
        0 <= i < entry.1.len(),
    ensures
        ({
            let bytes = layered_format::list_bytes(entry);
            &&& bytes.len() == 8 + 4 * entry.1.len()
            &&& layout_laws::number_at(bytes, 0, 4) == entry.0
            &&& layout_laws::number_at(bytes, 4, 4) == entry.1.len()
            &&& layout_laws::number_at(bytes, 8 + 4 * i, 4) == entry.1[i]
        }),
{
    let bytes = layered_format::list_bytes(entry);
    let head = codec::le32(entry.0) + codec::le32(entry.1.len() as u32);
    let words = codec::le_words(entry.1);
    codec::lemma_le32(entry.0);
    codec::lemma_le32(entry.1.len() as u32);
    layout_laws::lemma_words_len(entry.1);
    assert(bytes.subrange(0, 4) =~= codec::le32(entry.0));
    layout_laws::lemma_word_at(bytes, 0, entry.0);
    assert(bytes.subrange(4, 8) =~= codec::le32(entry.1.len() as u32));
    layout_laws::lemma_word_at(bytes, 4, entry.1.len() as u32);
    layout_laws::lemma_slot(head, entry.1, Seq::empty(), i);
    assert(bytes =~= head + words + Seq::<u8>::empty());
}

/// A benchmark measures the index that a build from the seed 42 makes.
pub proof fn law_benchmarks_build_from_their_seed<
    K: DistanceKernel,
    F: Fn(&BuildMetadata) -> Vec<u8>,
>(
    g: VamanaGraph,
    after: RngView,
    kernel: &K,
    vectors: &[F32],
    dim: usize,
    config: &VamanaBuildConfig,
    levels: Seq<u8>,
    timestamp: u64,
    to_text: F,
)
    requires
        vamana::is_built(
            g,
            after,
            kernel,
            vectors,
            dim,
            config,
            RngView::fresh(42),
            levels,
            timestamp,
            to_text,
        ),
    ensures
        local_bench::is_benchmark_index(g@, kernel, vectors, dim, *config, levels),
{
}

} // verus!
