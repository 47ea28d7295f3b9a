//! A page as a fixed-size block, the unit that the buffer pool caches.
use vstd::prelude::*;
use crate::slotted::{
    PAGE_HEADER_SIZE, LINE_POINTER_SIZE, PAGE_SIZE_IN_BYTES, item_count, free_pointer, with_item,
    insert_pos, heap_top, put_u16, item_at_offset, has_line_pointer, page_wf, directory_fits,
    line_pointer, item_end, first_item_range, copy_range, tuple_range, new_insert_pos, heap_top_of,
    free_pointer_of, item_count_of, line_pointer_of, write_u16_le,
};

verus! {

/// Type tag of an internal B+ tree node.
pub const INTERNAL_NODE_TAG: u8 = 0;

/// Type tag of a leaf B+ tree node.
pub const LEAF_NODE_TAG: u8 = 1;

pub struct NewPage {
    pub data: [u8; 8192],
}

impl NewPage {
    pub fn new(data: [u8; 8192]) -> (r: Self)
        ensures
            r.data == data,
    {
        NewPage { data }
    }

    /// Size of the type tag that leads a B+ tree page.
    pub fn get_header_size_in_bytes(&self) -> (r: u8)
        ensures
            r == 1,
    {
        1
    }

    /// The first item of the page.
    pub fn get_first_tuple(&self) -> (r: Result<&[u8], String>)
        ensures
            r matches Ok(t) ==> item_count(self.data@) >= 1 && t@ == self.data@.subrange(
                line_pointer(self.data@, 0),
                item_end(self.data@, 0),
            ),
            page_wf(self.data@) ==> (r is Ok <==> item_count(self.data@) >= 1),
    {
        let d = self.data.as_slice();
        let (a, b) = first_item_range(d)?;
        Ok(&d[a..b])
    }

    /// The item that starts at `start_offset`.
    pub fn get_tuple(&self, start_offset: u16) -> (r: Result<&[u8], String>)
        ensures
            r matches Ok(t) ==> item_at_offset(self.data@, start_offset as int, t@),
            page_wf(self.data@) ==> (r is Ok <==> has_line_pointer(
                self.data@,
                start_offset as int,
            )),
    {
        let d = self.data.as_slice();
        let (a, b) = tuple_range(d, start_offset)?;
        Ok(&d[a..b])
    }

    pub fn get_number_of_items(&self) -> (r: u16)
        ensures
            r == item_count(self.data@),
    {
        item_count_of(self.data.as_slice())
    }

    pub fn get_page_heap_top(&self) -> (r: u16)
        ensures
            r == heap_top(self.data@),
    {
        heap_top_of(self.data.as_slice())
    }

    pub fn get_line_pointer(&self, index: u16) -> (r: u16)
        requires
            index < item_count(self.data@),
            PAGE_HEADER_SIZE + 2 * item_count(self.data@) <= PAGE_SIZE_IN_BYTES,
        ensures
            r == line_pointer(self.data@, index as int),
    {
        line_pointer_of(self.data.as_slice(), index)
    }

    /// Where an item of `bytes_required` bytes would be stored, if it fits.
    pub fn get_new_insert_pos(&self, bytes_required: u16) -> (r: Option<u16>)
        ensures
            r == insert_pos(self.data@, bytes_required as int),
    {
        new_insert_pos(self.data.as_slice(), bytes_required)
    }

    /// Whether the page is tagged as a B+ tree leaf.
    pub fn is_page_leaf_type(&self) -> (r: bool)
        ensures
            r == (self.data@[0] == LEAF_NODE_TAG),
    {
        self.data[0] == LEAF_NODE_TAG
    }
}

} // verus!
