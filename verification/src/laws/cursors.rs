//! Reading numbers and entries one after the other.

use crate::bytes::{
    i32_bytes, law_i32_reads_back, law_u16_reads_back, law_u32_reads_back, law_u64_reads_back,
    lemma_number_sizes, stands_at, u16_bytes, u32_bytes, u64_bytes, ByteCursor,
};
use crate::laws::temporal_pages::{entry_size, entry_stands, is_cut_off, lemma_entry};
use crate::temporal_page::{PageEntry, Record};
use vstd::prelude::*;

verus! {

/// A 16-bit number is read from where its bytes stand, and the cursor goes behind it; where there
/// are fewer than two bytes, it is an error, and the cursor stays.
pub proof fn law_cursor_reads_u16(v: u16)
    ensures
        forall|c: &mut ByteCursor, r: Result<u16, std::io::Error>| #[trigger]
            call_ensures(ByteCursor::read_u16, (c,), r) ==> {
                &&& stands_at((*c).data(), (*c).pos(), u16_bytes(v)) ==> (r matches Ok(x) && x == v)
                    && (*final(c)).pos() == (*c).pos() + 2 && (*final(c)).data() == (*c).data()
                &&& (*c).data().len() < (*c).pos() + 2 <==> r is Err
                &&& r is Err ==> (*final(c)).pos() == (*c).pos() && (*final(c)).data() == (
                *c).data()
            },
{
    assert forall|data: Seq<u8>, at: int| #[trigger] stands_at(
        data,
        at,
        u16_bytes(v),
    ) implies crate::bytes::u16_at(data, at) == v by {
        law_u16_reads_back(data, at, v);
    }
}

/// A 32-bit number is read from where its bytes stand, and the cursor goes behind it; where there
/// are fewer than four bytes, it is an error, and the cursor stays.
pub proof fn law_cursor_reads_u32(v: u32)
    ensures
        forall|c: &mut ByteCursor, r: Result<u32, std::io::Error>| #[trigger]
            call_ensures(ByteCursor::read_u32, (c,), r) ==> {
                &&& stands_at((*c).data(), (*c).pos(), u32_bytes(v)) ==> (r matches Ok(x) && x == v)
                    && (*final(c)).pos() == (*c).pos() + 4 && (*final(c)).data() == (*c).data()
                &&& (*c).data().len() < (*c).pos() + 4 <==> r is Err
                &&& r is Err ==> (*final(c)).pos() == (*c).pos() && (*final(c)).data() == (
                *c).data()
            },
{
    lemma_number_sizes();
    assert forall|data: Seq<u8>, at: int| #[trigger] stands_at(
        data,
        at,
        u32_bytes(v),
    ) implies crate::bytes::u32_at(data, at) == v by {
        law_u32_reads_back(data, at, v);
    }
}

/// A signed 32-bit number is read from where its bytes stand, and the cursor goes behind it; where
/// there are fewer than four bytes, it is an error, and the cursor stays.
pub proof fn law_cursor_reads_i32(v: i32)
    ensures
        forall|c: &mut ByteCursor, r: Result<i32, std::io::Error>| #[trigger]
            call_ensures(ByteCursor::read_i32, (c,), r) ==> {
                &&& stands_at((*c).data(), (*c).pos(), i32_bytes(v)) ==> (r matches Ok(x) && x == v)
                    && (*final(c)).pos() == (*c).pos() + 4 && (*final(c)).data() == (*c).data()
                &&& (*c).data().len() < (*c).pos() + 4 <==> r is Err
                &&& r is Err ==> (*final(c)).pos() == (*c).pos() && (*final(c)).data() == (
                *c).data()
            },
{
    lemma_number_sizes();
    assert forall|data: Seq<u8>, at: int| #[trigger] stands_at(
        data,
        at,
        i32_bytes(v),
    ) implies crate::bytes::i32_at(data, at) == v by {
        law_i32_reads_back(data, at, v);
    }
}

/// A 64-bit number is read from where its bytes stand, and the cursor goes behind it; where there
/// are fewer than eight bytes, it is an error, and the cursor stays.
pub proof fn law_cursor_reads_u64(v: u64)
    ensures
        forall|c: &mut ByteCursor, r: Result<u64, std::io::Error>| #[trigger]
            call_ensures(ByteCursor::read_u64, (c,), r) ==> {
                &&& stands_at((*c).data(), (*c).pos(), u64_bytes(v)) ==> (r matches Ok(x) && x == v)
                    && (*final(c)).pos() == (*c).pos() + 8 && (*final(c)).data() == (*c).data()
                &&& (*c).data().len() < (*c).pos() + 8 <==> r is Err
                &&& r is Err ==> (*final(c)).pos() == (*c).pos() && (*final(c)).data() == (
                *c).data()
            },
{
    lemma_number_sizes();
    assert forall|data: Seq<u8>, at: int| #[trigger] stands_at(
        data,
        at,
        u64_bytes(v),
    ) implies crate::bytes::u64_at(data, at) == v by {
        law_u64_reads_back(data, at, v);
    }
}

/// A cursor begins at the beginning of its buffer, tells how many bytes are left, and passes over as
/// many as it is told to.
pub proof fn law_cursor_moves_forward(data: &[u8], cursor: ByteCursor, left: usize)
    requires
        call_ensures(ByteCursor::new, (data,), cursor),
        call_ensures(ByteCursor::remaining, (&cursor,), left),
    ensures
        cursor.data() == data@,
        cursor.pos() == 0,
        left == data@.len(),
        forall|c: &mut ByteCursor, n: usize| #[trigger]
            call_ensures(ByteCursor::skip, (c, n), ()) ==> (*final(c)).pos() == (*c).pos() + n && (
            *final(c)).data() == (*c).data(),
{
}

/// An entry of a page of the temporal index is read from where it stands, and the cursor goes behind
/// it; one that is cut off is an error.
pub proof fn law_cursor_reads_entries(entry: Record, count: u32)
    ensures
        forall|c: &mut ByteCursor, r: Result<PageEntry, std::io::Error>| #[trigger]
            call_ensures(PageEntry::read, (c,), r) ==> {
                &&& entry_stands((*c).data(), (*c).pos(), entry) ==> (r matches Ok(read)
                    && read.record() == entry) && (*final(c)).pos() == (*c).pos() + entry_size(entry)
                &&& is_cut_off((*c).data(), (*c).pos(), count) ==> r is Err
                &&& (*final(c)).data() == (*c).data()
            },
{
    assert forall|c: &mut ByteCursor, r: Result<PageEntry, std::io::Error>| #[trigger]
        call_ensures(PageEntry::read, (c,), r) implies {
        &&& entry_stands((*c).data(), (*c).pos(), entry) ==> (r matches Ok(read) && read.record()
            == entry) && (*final(c)).pos() == (*c).pos() + entry_size(entry)
        &&& is_cut_off((*c).data(), (*c).pos(), count) ==> r is Err
        &&& (*final(c)).data() == (*c).data()
    } by {
        if entry_stands((*c).data(), (*c).pos(), entry) {
            lemma_entry((*c).data(), (*c).pos(), entry);
        }
        if is_cut_off((*c).data(), (*c).pos(), count) {
            lemma_number_sizes();
            law_u32_reads_back((*c).data(), (*c).pos() + 16, count);
        }
    }
}

/// What an entry that was read says: a node's key and samples, or a key and the page that it points
/// to.
pub proof fn law_entry_says_what_it_holds(entry: PageEntry)
    ensures
        match entry {
            PageEntry::Node(node) => entry.record() == (Record::Node {
                key: node.node(),
                samples: node.times(),
            }),
            PageEntry::Pointer(key, page) => entry.record() == (Record::Pointer { key, page }),
        },
{
}

} // verus!
