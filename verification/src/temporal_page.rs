//! Pages of the temporal index.
//!
//! A page is a sequence of entries without a gap. An entry begins with the key of an octree node
//! and a sample count, 20 bytes. Where the count is not zero, the entry is that node's: as many
//! GPS times follow. Where it is zero, the entry points to another page, which holds the entries
//! of the subtree below the node: that page's offset and size follow, and the earliest and latest
//! time in the subtree.

use crate::binary64::Binary64;
use crate::bytes::{
    i32_at, i32_bytes, law_i32_reads_back, law_u32_reads_back, law_u64_reads_back,
    lemma_number_sizes, lemma_stands_split, stands_at, u32_at, u32_bytes, u64_at, u64_bytes,
    ByteCursor,
};
use crate::gps_time::GpsTime;
use crate::temporal_node::NodeTemporalEntry;
use crate::types::VoxelKey;
use vstd::prelude::*;

verus! {

/// A page of the temporal index that an entry points to.
#[derive(Debug, Clone, Copy)]
pub struct PendingPage {
    /// Absolute file offset of the page.
    pub offset: u64,
    /// Size of the page in bytes.
    pub size: u32,
    /// Minimum GPS time across all nodes in the subtree.
    pub subtree_time_min: Binary64,
    /// Maximum GPS time across all nodes in the subtree.
    pub subtree_time_max: Binary64,
}

impl PendingPage {
    /// Whether the subtree's times overlap the window `[start, end]`.
    pub open spec fn reaches(self, start: GpsTime, end: GpsTime) -> bool {
        start.0.at_most(self.subtree_time_max) && self.subtree_time_min.at_most(end.0)
    }

    /// Whether the subtree's times overlap the window `[start, end]`.
    pub fn overlaps(&self, start: GpsTime, end: GpsTime) -> (r: bool)
        ensures
            r == self.reaches(start, end),
    {
        start.0.le(&self.subtree_time_max) && self.subtree_time_min.le(&end.0)
    }
}

/// What an entry of a page says.
pub enum Record {
    /// The sampled times of a node.
    Node {
        /// The node.
        key: VoxelKey,
        /// Its samples.
        samples: Seq<GpsTime>,
    },
    /// Where the entries of a subtree are.
    Pointer {
        /// The root of the subtree.
        key: VoxelKey,
        /// The page.
        page: PendingPage,
    },
}

/// The node key at offset `at` of a page.
pub open spec fn key_at(data: Seq<u8>, at: int) -> VoxelKey {
    VoxelKey {
        level: i32_at(data, at),
        x: i32_at(data, at + 4),
        y: i32_at(data, at + 8),
        z: i32_at(data, at + 12),
    }
}

/// The number at offset `at` of a page.
pub open spec fn number_at(data: Seq<u8>, at: int) -> Binary64 {
    Binary64 { bits: u64_at(data, at) }
}

/// The size of the entry at offset `at`, which its sample count tells.
pub open spec fn record_size(data: Seq<u8>, at: int) -> int {
    if u32_at(data, at + 16) == 0 {
        48
    } else {
        20 + 8 * u32_at(data, at + 16)
    }
}

/// The entry at offset `at`, where all of it is there.
pub open spec fn record_at(data: Seq<u8>, at: int) -> Option<Record> {
    if at < 0 || at + 20 > data.len() || at + record_size(data, at) > data.len() {
        None
    } else if u32_at(data, at + 16) == 0 {
        Some(
            Record::Pointer {
                key: key_at(data, at),
                page: PendingPage {
                    offset: u64_at(data, at + 20),
                    size: u32_at(data, at + 28),
                    subtree_time_min: number_at(data, at + 32),
                    subtree_time_max: number_at(data, at + 40),
                },
            },
        )
    } else {
        Some(
            Record::Node {
                key: key_at(data, at),
                samples: Seq::new(
                    u32_at(data, at + 16) as nat,
                    |i: int| GpsTime(number_at(data, at + 20 + 8 * i)),
                ),
            },
        )
    }
}

/// The entries from offset `at` on, up to the first of which a part is missing.
pub open spec fn records_from(data: Seq<u8>, at: int) -> Seq<Record>
    decreases data.len() - at,
{
    match record_at(data, at) {
        Some(record) => seq![record] + records_from(data, at + record_size(data, at)),
        None => Seq::empty(),
    }
}

/// Whether no entry from offset `at` on is cut off. Fewer bytes than an entry begins with, after
/// the last entry, are padding.
pub open spec fn complete_from(data: Seq<u8>, at: int) -> bool
    decreases data.len() - at,
{
    if at < 0 || at + 20 > data.len() {
        true
    } else if at + record_size(data, at) > data.len() {
        false
    } else {
        complete_from(data, at + record_size(data, at))
    }
}

/// The samples of each node after these entries, where `nodes` were known before them: later
/// entries of a node replace earlier ones.
pub open spec fn entered(
    nodes: Map<VoxelKey, Seq<GpsTime>>,
    records: Seq<Record>,
) -> Map<VoxelKey, Seq<GpsTime>>
    decreases records.len(),
{
    if records.len() == 0 {
        nodes
    } else {
        let before = entered(nodes, records.drop_last());
        match records.last() {
            Record::Node { key, samples } => before.insert(key, samples),
            Record::Pointer { key, page } => before,
        }
    }
}

/// The pages that these entries point to, in order.
pub open spec fn pointed_to(records: Seq<Record>) -> Seq<PendingPage>
    decreases records.len(),
{
    if records.len() == 0 {
        Seq::empty()
    } else {
        let before = pointed_to(records.drop_last());
        match records.last() {
            Record::Node { key, samples } => before,
            Record::Pointer { key, page } => before.push(page),
        }
    }
}

/// An entry of a page, as it was read.
pub enum PageEntry {
    /// A node's entry.
    Node(NodeTemporalEntry),
    /// An entry that points to the page of a subtree.
    Pointer(VoxelKey, PendingPage),
}

impl PageEntry {
    /// What the entry says.
    pub open spec fn record(self) -> Record {
        match self {
            PageEntry::Node(entry) => Record::Node { key: entry.node(), samples: entry.times() },
            PageEntry::Pointer(key, page) => Record::Pointer { key, page },
        }
    }

    /// Read the next entry; an error where not all of it is there.
    pub fn read(cursor: &mut ByteCursor) -> (r: Result<PageEntry, std::io::Error>)
        requires
            old(cursor).wf(),
        ensures
            final(cursor).wf(),
            final(cursor).data() == old(cursor).data(),
            r is Ok <==> record_at(old(cursor).data(), old(cursor).pos()) is Some,
            r matches Ok(entry) ==> record_at(old(cursor).data(), old(cursor).pos()) == Some(
                entry.record(),
            ) && final(cursor).pos() == old(cursor).pos() + record_size(
                old(cursor).data(),
                old(cursor).pos(),
            ),
    {
        let ghost data = cursor.data();
        let ghost at = cursor.pos();
        let level: i32 = cursor.read_i32()?;
        let x: i32 = cursor.read_i32()?;
        let y: i32 = cursor.read_i32()?;
        let z: i32 = cursor.read_i32()?;
        let sample_count: u32 = cursor.read_u32()?;
        let key = VoxelKey { level, x, y, z };
        if sample_count == 0 {
            let offset: u64 = cursor.read_u64()?;
            let size: u32 = cursor.read_u32()?;
            let subtree_time_min = Binary64::from_bits(cursor.read_u64()?);
            let subtree_time_max = Binary64::from_bits(cursor.read_u64()?);
            let page = PendingPage { offset, size, subtree_time_min, subtree_time_max };
            return Ok(PageEntry::Pointer(key, page));
        }
        let mut samples: Vec<GpsTime> = Vec::new();
        let mut n: u32 = 0;
        while n < sample_count
            invariant
                n <= sample_count,
                data == old(cursor).data(),
                at == old(cursor).pos(),
                sample_count == u32_at(data, at + 16),
                sample_count > 0,
                0 <= at,
                at + 20 <= data.len(),
                cursor.wf(),
                cursor.data() == data,
                cursor.pos() == at + 20 + 8 * n,
                samples@.len() == n,
                forall|i: int|
                    0 <= i < n ==> #[trigger] samples@[i] == GpsTime(
                        number_at(data, at + 20 + 8 * i),
                    ),
            decreases sample_count - n,
        {
            let bits: u64 = cursor.read_u64()?;
            samples.push(GpsTime::from_bits(bits));
            n = n + 1;
        }
        proof {
            assert(samples@ =~= Seq::new(
                sample_count as nat,
                |i: int| GpsTime(number_at(data, at + 20 + 8 * i)),
            ));
        }
        Ok(PageEntry::Node(NodeTemporalEntry::new(key, samples)))
    }
}

/// Entering one run of entries after another is entering both as one run.
pub proof fn lemma_entered_concat(
    nodes: Map<VoxelKey, Seq<GpsTime>>,
    a: Seq<Record>,
    b: Seq<Record>,
)
    ensures
        entered(nodes, a + b) == entered(entered(nodes, a), b),
    decreases b.len(),
{
    if b.len() == 0 {
        assert(a + b =~= a);
    } else {
        assert((a + b).drop_last() =~= a + b.drop_last());
        lemma_entered_concat(nodes, a, b.drop_last());
    }
}

/// What two runs of entries point to, they point to as one run.
pub proof fn lemma_pointed_to_concat(a: Seq<Record>, b: Seq<Record>)
    ensures
        pointed_to(a + b) == pointed_to(a) + pointed_to(b),
    decreases b.len(),
{
    if b.len() == 0 {
        assert(a + b =~= a);
    } else {
        assert((a + b).drop_last() =~= a + b.drop_last());
        lemma_pointed_to_concat(a, b.drop_last());
        assert(pointed_to(a + b) =~= pointed_to(a) + pointed_to(b));
    }
}

/// The bytes of a key.
pub open spec fn key_bytes(key: VoxelKey) -> Seq<u8> {
    i32_bytes(key.level) + i32_bytes(key.x) + i32_bytes(key.y) + i32_bytes(key.z)
}

/// The bytes of samples, one after the other.
pub open spec fn sample_bytes(samples: Seq<GpsTime>) -> Seq<u8> {
    Seq::new(8 * samples.len(), |j: int| u64_bytes(samples[j / 8].0.bits)[j % 8])
}

/// The bytes of an entry.
pub open spec fn record_bytes(record: Record) -> Seq<u8> {
    match record {
        Record::Node { key, samples } => key_bytes(key) + u32_bytes(samples.len() as u32)
            + sample_bytes(samples),
        Record::Pointer { key, page } => key_bytes(key) + u32_bytes(0) + u64_bytes(page.offset)
            + u32_bytes(page.size) + u64_bytes(page.subtree_time_min.bits) + u64_bytes(
            page.subtree_time_max.bits,
        ),
    }
}

/// Whether the entry can be written down: a node has at least one sample, and its samples can be
/// counted.
pub open spec fn storable(record: Record) -> bool {
    record matches Record::Node { samples, .. } ==> 1 <= samples.len() <= u32::MAX
}

/// The bytes of entries, one after the other.
pub open spec fn page_bytes(records: Seq<Record>) -> Seq<u8>
    decreases records.len(),
{
    if records.len() == 0 {
        Seq::empty()
    } else {
        record_bytes(records[0]) + page_bytes(records.drop_first())
    }
}

/// A key is read back from where its bytes stand.
pub proof fn law_key_reads_back(data: Seq<u8>, at: int, key: VoxelKey)
    requires
        stands_at(data, at, key_bytes(key)),
    ensures
        key_at(data, at) == key,
        key_bytes(key).len() == 16,
{
    lemma_number_sizes();
    let (l, x, y, z) = (
        i32_bytes(key.level),
        i32_bytes(key.x),
        i32_bytes(key.y),
        i32_bytes(key.z),
    );
    lemma_stands_split(data, at, l + x + y, z);
    lemma_stands_split(data, at, l + x, y);
    lemma_stands_split(data, at, l, x);
    law_i32_reads_back(data, at, key.level);
    law_i32_reads_back(data, at + 4, key.x);
    law_i32_reads_back(data, at + 8, key.y);
    law_i32_reads_back(data, at + 12, key.z);
}

/// A sample is read back from where its bytes stand among those of the others.
proof fn lemma_sample_reads_back(data: Seq<u8>, at: int, samples: Seq<GpsTime>, i: int)
    requires
        stands_at(data, at, sample_bytes(samples)),
        0 <= i < samples.len(),
    ensures
        samples[i] == GpsTime(number_at(data, at + 8 * i)),
{
    let one = u64_bytes(samples[i].0.bits);
    lemma_number_sizes();
    assert(data.subrange(at + 8 * i, at + 8 * i + 8) =~= one) by {
        assert forall|k: int| 0 <= k < 8 implies data[at + 8 * i + k] == #[trigger] one[k] by {
            let j = 8 * i + k;
            assert(j / 8 == i && j % 8 == k);
            assert(data.subrange(at, at + sample_bytes(samples).len())[j] == data[at + j]);
            assert(sample_bytes(samples)[j] == one[k]);
        }
    }
    law_u64_reads_back(data, at + 8 * i, samples[i].0.bits);
}

/// An entry is read back from where its bytes stand.
pub proof fn law_record_reads_back(data: Seq<u8>, at: int, record: Record)
    requires
        storable(record),
        stands_at(data, at, record_bytes(record)),
    ensures
        record_at(data, at) == Some(record),
        record_size(data, at) == record_bytes(record).len(),
{
    lemma_number_sizes();
    match record {
        Record::Node { key, samples } => {
            let count = u32_bytes(samples.len() as u32);
            lemma_stands_split(data, at, key_bytes(key) + count, sample_bytes(samples));
            lemma_stands_split(data, at, key_bytes(key), count);
            law_key_reads_back(data, at, key);
            law_u32_reads_back(data, at + 16, samples.len() as u32);
            assert forall|i: int| 0 <= i < samples.len() implies #[trigger] samples[i] == GpsTime(
                number_at(data, at + 20 + 8 * i),
            ) by {
                lemma_sample_reads_back(data, at + 20, samples, i);
            }
            assert(samples =~= Seq::new(
                samples.len(),
                |i: int| GpsTime(number_at(data, at + 20 + 8 * i)),
            ));
        },
        Record::Pointer { key, page } => {
            let head = key_bytes(key) + u32_bytes(0);
            let (offset, size) = (u64_bytes(page.offset), u32_bytes(page.size));
            let (min, max) = (
                u64_bytes(page.subtree_time_min.bits),
                u64_bytes(page.subtree_time_max.bits),
            );
            lemma_stands_split(data, at, head + offset + size + min, max);
            lemma_stands_split(data, at, head + offset + size, min);
            lemma_stands_split(data, at, head + offset, size);
            lemma_stands_split(data, at, head, offset);
            lemma_stands_split(data, at, key_bytes(key), u32_bytes(0));
            law_key_reads_back(data, at, key);
            law_u32_reads_back(data, at + 16, 0);
            law_u64_reads_back(data, at + 20, page.offset);
            law_u32_reads_back(data, at + 28, page.size);
            law_u64_reads_back(data, at + 32, page.subtree_time_min.bits);
            law_u64_reads_back(data, at + 40, page.subtree_time_max.bits);
        },
    }
}

/// Entries are read back from where their bytes stand, whatever follows them.
pub proof fn law_page_reads_back(data: Seq<u8>, at: int, records: Seq<Record>)
    requires
        forall|i: int| 0 <= i < records.len() ==> storable(#[trigger] records[i]),
        stands_at(data, at, page_bytes(records)),
    ensures
        records_from(data, at) == records + records_from(data, at + page_bytes(records).len()),
        complete_from(data, at) == complete_from(data, at + page_bytes(records).len()),
    decreases records.len(),
{
    let end = at + page_bytes(records).len();
    if records.len() == 0 {
        assert(records + records_from(data, end) =~= records_from(data, at));
    } else {
        let (first, rest) = (record_bytes(records[0]), page_bytes(records.drop_first()));
        assert(page_bytes(records) == first + rest);
        lemma_stands_split(data, at, first, rest);
        law_record_reads_back(data, at, records[0]);
        law_page_reads_back(data, at + first.len(), records.drop_first());
        assert(records + records_from(data, end) =~= seq![records[0]] + (records.drop_first()
            + records_from(data, end)));
    }
}

} // verus!
