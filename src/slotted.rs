//! The slotted page layout shared by every page kind.
//!
//! Header, little-endian: item count at 0, data start at 2, heap top at 4 (first
//! free byte after the items), free pointer at 6 (start of the line-pointer array).
//! Items grow upward from the data start; line pointer `i`, the offset of item `i`,
//! sits at `len - 2 - 2 * i`, so the array grows downward from the page end.
use vstd::prelude::*;
use crate::codec::{le16, read_u16_le};

verus! {

/// Size in bytes of a page.
pub const PAGE_SIZE_IN_BYTES: usize = 8192;

/// Size in bytes of the page header.
pub const PAGE_HEADER_SIZE: usize = 8;

/// Size in bytes of one line pointer.
pub const LINE_POINTER_SIZE: usize = 2;

pub open spec fn u16_at(d: Seq<u8>, at: int) -> int {
    le16(d[at], d[at + 1])
}

pub open spec fn item_count(d: Seq<u8>) -> int {
    u16_at(d, 0)
}

pub open spec fn data_start(d: Seq<u8>) -> int {
    u16_at(d, 2)
}

pub open spec fn heap_top(d: Seq<u8>) -> int {
    u16_at(d, 4)
}

pub open spec fn free_pointer(d: Seq<u8>) -> int {
    u16_at(d, 6)
}

/// Where line pointer `i` is stored.
pub open spec fn line_pointer_pos(d: Seq<u8>, i: int) -> int {
    d.len() - 2 - 2 * i
}

/// Line pointer `i`: the offset at which item `i` starts.
pub open spec fn line_pointer(d: Seq<u8>, i: int) -> int {
    u16_at(d, line_pointer_pos(d, i))
}

/// Where item `i` ends: where the next item starts, or the heap top for the last.
pub open spec fn item_end(d: Seq<u8>, i: int) -> int {
    if i + 1 < item_count(d) {
        line_pointer(d, i + 1)
    } else {
        heap_top(d)
    }
}

/// The header and the line-pointer array lie inside the page.
pub open spec fn directory_fits(d: Seq<u8>) -> bool {
    d.len() >= PAGE_HEADER_SIZE && PAGE_HEADER_SIZE + 2 * item_count(d) <= d.len()
}

/// Line pointers increase with their index.
pub open spec fn directory_sorted(d: Seq<u8>) -> bool {
    forall|i: int, j: int|
        0 <= i < j < item_count(d) ==> #[trigger] line_pointer(d, i) < #[trigger] line_pointer(d, j)
}

/// A well-formed page: offsets fit in 16 bits, the header fields are ordered, the
/// line-pointer array fills the page from the free pointer to the end, and items
/// are non-empty and stored in increasing offsets between data start and heap top.
#[verifier::opaque]
pub open spec fn page_wf(d: Seq<u8>) -> bool {
    &&& PAGE_HEADER_SIZE <= d.len() <= 65536
    &&& PAGE_HEADER_SIZE <= data_start(d) <= heap_top(d) <= free_pointer(d) <= d.len()
    &&& free_pointer(d) == d.len() - 2 * item_count(d)
    &&& forall|i: int|
        0 <= i < item_count(d) ==> data_start(d) <= #[trigger] line_pointer(d, i) < item_end(d, i)
    &&& directory_sorted(d)
}

/// The items of a page, in the order of the line pointers.
pub open spec fn items(d: Seq<u8>) -> Seq<Seq<u8>> {
    Seq::new(item_count(d) as nat, |i: int| d.subrange(line_pointer(d, i), item_end(d, i)))
}

/// Whether some line pointer holds `offset`.
pub open spec fn has_line_pointer(d: Seq<u8>, offset: int) -> bool {
    exists|i: int| 0 <= i < item_count(d) && line_pointer(d, i) == offset
}

/// `t` is the item that starts at `offset`.
pub open spec fn item_at_offset(d: Seq<u8>, offset: int, t: Seq<u8>) -> bool {
    exists|i: int|
        0 <= i < item_count(d) && line_pointer(d, i) == offset && t == d.subrange(
            offset,
            item_end(d, i),
        )
}

/// Where an item of `bytes_required` bytes can go: the heap top, when the item
/// and one more line pointer fit between the heap top and the free pointer.
pub open spec fn insert_pos(d: Seq<u8>, bytes_required: int) -> Option<u16> {
    if bytes_required + LINE_POINTER_SIZE <= free_pointer(d) - heap_top(d) {
        Some(heap_top(d) as u16)
    } else {
        None
    }
}

/// `d` with the 16-bit value `x` stored little-endian at `at`.
pub open spec fn put_u16(d: Seq<u8>, at: int, x: int) -> Seq<u8> {
    d.update(at, (x % 256) as u8).update(at + 1, (x / 256) as u8)
}

/// `d` with `item` copied to `at`.
pub open spec fn put_bytes(d: Seq<u8>, at: int, item: Seq<u8>) -> Seq<u8> {
    d.subrange(0, at) + item + d.subrange(at + item.len(), d.len() as int)
}

/// The page after `item` is stored at `offset`: the bytes are copied, the item
/// count grows by one, the heap top moves to the item's end, and a line pointer
/// holding `offset` is added below the old free pointer, which moves down by one
/// line pointer.
pub open spec fn with_item(d: Seq<u8>, item: Seq<u8>, offset: int) -> Seq<u8> {
    let free = free_pointer(d);
    let d1 = put_bytes(d, offset, item);
    let d2 = put_u16(d1, 0, item_count(d) + 1);
    let d3 = put_u16(d2, 4, offset + item.len());
    let d4 = put_u16(d3, free - 2, offset);
    put_u16(d4, 6, free - 2)
}

proof fn lemma_put_u16(d: Seq<u8>, at: int, x: int)
    requires
        0 <= at,
        at + 2 <= d.len(),
        0 <= x < 65536,
    ensures
        put_u16(d, at, x).len() == d.len(),
        u16_at(put_u16(d, at, x), at) == x,
        forall|k: int| 0 <= k < d.len() && k != at && k != at + 1 ==> #[trigger] put_u16(d, at, x)[k] == d[k],
{
}

/// Storing a non-empty item at the heap top of a well-formed page, where it fits,
/// keeps the page well-formed and appends the item to the page's items; its line
/// pointer holds the old heap top.
pub proof fn lemma_insert_appends(d: Seq<u8>, item: Seq<u8>)
    requires
        page_wf(d),
        item.len() > 0,
        insert_pos(d, item.len() as int) is Some,
    ensures
        page_wf(with_item(d, item, heap_top(d))),
        items(with_item(d, item, heap_top(d))) == items(d).push(item),
        line_pointer(with_item(d, item, heap_top(d)), item_count(d)) == heap_top(d),
{
    reveal(page_wf);
    let n = item_count(d);
    let h = heap_top(d);
    let free = free_pointer(d);
    let end = h + item.len();
    let d1 = put_bytes(d, h, item);
    assert(d1.len() == d.len());
    assert forall|k: int| 0 <= k < d.len() && !(h <= k < end) implies #[trigger] d1[k] == d[k] by {
        if k < h {
        } else {
            assert(d1[k] == d.subrange(end, d.len() as int)[k - end]);
        }
    }
    assert forall|k: int| h <= k < end implies #[trigger] d1[k] == item[k - h] by {}
    let d2 = put_u16(d1, 0, n + 1);
    lemma_put_u16(d1, 0, n + 1);
    let d3 = put_u16(d2, 4, end);
    lemma_put_u16(d2, 4, end);
    let d4 = put_u16(d3, free - 2, h);
    lemma_put_u16(d3, free - 2, h);
    let d5 = put_u16(d4, 6, free - 2);
    lemma_put_u16(d4, 6, free - 2);
    assert(d5 == with_item(d, item, h));
    assert(item_count(d5) == n + 1);
    assert(heap_top(d5) == end);
    assert(free_pointer(d5) == free - 2);
    assert(data_start(d5) == data_start(d));
    assert forall|i: int| 0 <= i < n implies #[trigger] line_pointer(d5, i) == line_pointer(d, i) by {
        let p = line_pointer_pos(d, i);
        assert(p >= free);
        assert(d5[p] == d[p]);
        assert(d5[p + 1] == d[p + 1]);
    }
    assert(line_pointer(d5, n) == h);
    if n > 0 {
        assert(data_start(d) <= line_pointer(d, n - 1) < item_end(d, n - 1));
    }
    assert forall|i: int| 0 <= i < n implies #[trigger] line_pointer(d, i) < h by {
        assert(data_start(d) <= line_pointer(d, n - 1) < item_end(d, n - 1));
        if i < n - 1 {
            assert(line_pointer(d, i) < line_pointer(d, n - 1));
        }
    }
    assert forall|i: int| 0 <= i < n implies item_end(d5, i) == item_end(d, i) by {}
    assert forall|i: int|
        0 <= i < n + 1 implies data_start(d5) <= #[trigger] line_pointer(d5, i) < item_end(d5, i) by {
        if i < n {
            assert(data_start(d) <= line_pointer(d, i) < item_end(d, i));
        }
    }
    assert forall|i: int, j: int|
        0 <= i < j < n + 1 implies #[trigger] line_pointer(d5, i) < #[trigger] line_pointer(d5, j) by {
        if j < n {
            assert(line_pointer(d, i) < line_pointer(d, j));
        } else {
            assert(line_pointer(d, i) < h);
        }
    }
    assert forall|i: int| 0 <= i < n implies #[trigger] items(d5)[i] == items(d)[i] by {
        let a = line_pointer(d, i);
        let b = item_end(d, i);
        assert(data_start(d) <= a < b);
        assert(b <= h) by {
            if i + 1 < n {
                assert(line_pointer(d, i + 1) < h);
            }
        }
        assert forall|k: int| a <= k < b implies d5[k] == d[k] by {
            assert(d1[k] == d[k]);
        }
        assert(d5.subrange(a, b) =~= d.subrange(a, b));
    }
    assert(items(d5)[n as int] =~= item) by {
        assert forall|k: int| h <= k < end implies d5[k] == d1[k] by {}
    }
    assert(items(d5) =~= items(d).push(item));
}
pub fn item_count_of(d: &[u8]) -> (r: u16)
    requires
        d@.len() >= PAGE_HEADER_SIZE,
    ensures
        r == item_count(d@),
{
    read_u16_le(d, 0)
}

pub fn heap_top_of(d: &[u8]) -> (r: u16)
    requires
        d@.len() >= PAGE_HEADER_SIZE,
    ensures
        r == heap_top(d@),
{
    read_u16_le(d, 4)
}

pub fn free_pointer_of(d: &[u8]) -> (r: u16)
    requires
        d@.len() >= PAGE_HEADER_SIZE,
    ensures
        r == free_pointer(d@),
{
    read_u16_le(d, 6)
}

pub fn line_pointer_of(d: &[u8], index: u16) -> (r: u16)
    requires
        directory_fits(d@),
        index < item_count(d@),
    ensures
        r == line_pointer(d@, index as int),
{
    read_u16_le(d, d.len() - 2 - 2 * (index as usize))
}

/// See `insert_pos`.
pub fn new_insert_pos(d: &[u8], bytes_required: u16) -> (r: Option<u16>)
    requires
        d@.len() >= PAGE_HEADER_SIZE,
    ensures
        r == insert_pos(d@, bytes_required as int),
{
    let top = heap_top_of(d);
    let free = free_pointer_of(d);
    if free >= top && (bytes_required as u32) + (LINE_POINTER_SIZE as u32) <= (free - top) as u32 {
        Some(top)
    } else {
        None
    }
}

/// Finds, by binary search over the line pointers, the item that starts at
/// `start_offset`, and returns its bounds.
pub fn tuple_range(d: &[u8], start_offset: u16) -> (r: Result<(usize, usize), String>)
    ensures
        r matches Ok(p) ==> p.0 == start_offset && p.0 <= p.1 <= d@.len() && exists|i: int|
            0 <= i < item_count(d@) && line_pointer(d@, i) == start_offset && p.1 == item_end(
                d@,
                i,
            ),
        page_wf(d@) ==> (r is Ok <==> has_line_pointer(d@, start_offset as int)),
{
    proof {
        if page_wf(d@) {
            reveal(page_wf);
        }
    }
    if d.len() < PAGE_HEADER_SIZE {
        return Err("Page is shorter than its header".to_string());
    }
    let n = item_count_of(d);
    if (PAGE_HEADER_SIZE as u64) + 2 * (n as u64) > d.len() as u64 {
        return Err("Line pointer directory does not fit in the page".to_string());
    }
    let ghost sorted = directory_sorted(d@);
    proof {
        if page_wf(d@) {
            reveal(page_wf);
        }
    }
    let mut low: usize = 0;
    let mut high: usize = n as usize;
    while low < high
        invariant
            directory_fits(d@),
            n == item_count(d@),
            low <= high <= n,
            sorted == directory_sorted(d@),
            page_wf(d@) ==> sorted,
            sorted ==> forall|i: int|
                0 <= i < n && line_pointer(d@, i) == start_offset ==> low <= i < high,
        decreases high - low,
    {
        let mid = low + (high - low) / 2;
        let lp = line_pointer_of(d, mid as u16);
        if lp == start_offset {
            let end: u16 = if mid + 1 == n as usize {
                heap_top_of(d)
            } else {
                line_pointer_of(d, (mid + 1) as u16)
            };
            proof {
                reveal(page_wf);
                if page_wf(d@) {
                    let last = n - 1;
                    assert(data_start(d@) <= line_pointer(d@, last) < item_end(d@, last));
                    assert(data_start(d@) <= line_pointer(d@, mid as int) < item_end(d@, mid as int));
                    if mid + 1 < n {
                        assert(line_pointer(d@, mid + 1) < item_end(d@, mid + 1));
                        if mid + 1 < last {
                            assert(line_pointer(d@, mid + 1) < line_pointer(d@, last));
                        }
                    }
                }
            }
            if (end as usize) > d.len() || end < start_offset {
                return Err("Invalid offset range in page data".to_string());
            }
            return Ok((start_offset as usize, end as usize));
        } else if lp < start_offset {
            low = mid + 1;
        } else {
            high = mid;
        }
    }
    Err("Can't find start offset in line pointer directory".to_string())
}

/// Bounds of the first item.
pub fn first_item_range(d: &[u8]) -> (r: Result<(usize, usize), String>)
    ensures
        r matches Ok(p) ==> item_count(d@) >= 1 && p.0 == line_pointer(d@, 0) && p.1 == item_end(
            d@,
            0,
        ) && p.0 <= p.1 <= d@.len(),
        page_wf(d@) ==> (r is Ok <==> item_count(d@) >= 1),
{
    proof {
        reveal(page_wf);
    }
    if d.len() < PAGE_HEADER_SIZE {
        return Err("Page is shorter than its header".to_string());
    }
    let n = item_count_of(d);
    if n == 0 {
        return Err("Page holds no items".to_string());
    }
    if (PAGE_HEADER_SIZE as u64) + 2 * (n as u64) > d.len() as u64 {
        return Err("Line pointer directory does not fit in the page".to_string());
    }
    let start = line_pointer_of(d, 0);
    let end = if n == 1 {
        heap_top_of(d)
    } else {
        line_pointer_of(d, 1)
    };
    proof {
        if page_wf(d@) {
            let last = n - 1;
            assert(data_start(d@) <= line_pointer(d@, last) < item_end(d@, last));
            assert(data_start(d@) <= line_pointer(d@, 0) < item_end(d@, 0));
            if 1 < last {
                assert(line_pointer(d@, 1) < line_pointer(d@, last));
            }
        }
    }
    if (end as usize) > d.len() || end < start {
        return Err("Invalid offset range in page data".to_string());
    }
    Ok((start as usize, end as usize))
}

/// A copy of `d[a..b]`.
pub fn copy_range(d: &[u8], a: usize, b: usize) -> (r: Vec<u8>)
    requires
        a <= b <= d@.len(),
    ensures
        r@ == d@.subrange(a as int, b as int),
{
    let mut out: Vec<u8> = Vec::with_capacity(b - a);
    let mut i = a;
    while i < b
        invariant
            a <= i <= b <= d@.len(),
            out@ == d@.subrange(a as int, i as int),
        decreases b - i,
    {
        out.push(d[i]);
        i += 1;
        assert(out@ =~= d@.subrange(a as int, i as int));
    }
    out
}

/// Stores `x` little-endian at `at`.
pub fn write_u16_le(d: &mut Vec<u8>, at: usize, x: u16)
    requires
        at + 2 <= old(d)@.len(),
        at < 65536,
    ensures
        final(d)@ == put_u16(old(d)@, at as int, x as int),
{
    d[at] = (x % 256) as u8;
    d[at + 1] = (x / 256) as u8;
}

} // verus!
