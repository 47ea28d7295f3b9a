//! A page read from a table or index file, held as a byte vector.
use vstd::prelude::*;
use crate::slotted::{
    PAGE_HEADER_SIZE, LINE_POINTER_SIZE, PAGE_SIZE_IN_BYTES, item_count, free_pointer, with_item,
    insert_pos, heap_top, put_u16, item_at_offset, has_line_pointer, page_wf, directory_fits,
    line_pointer, item_end, first_item_range, copy_range, tuple_range, new_insert_pos, heap_top_of,
    free_pointer_of, item_count_of, line_pointer_of, write_u16_le,
};

verus! {

pub struct Page {
    /// The file the page was read from.
    pub from: String,
    pub page_number: u32,
    pub data: Vec<u8>,
}

impl Page {
    /// The first item of the page.
    pub fn get_first_tuple_from_page(&self) -> (r: Result<Vec<u8>, String>)
        ensures
            r matches Ok(t) ==> item_count(self.data@) >= 1 && t@ == self.data@.subrange(
                line_pointer(self.data@, 0),
                item_end(self.data@, 0),
            ),
            page_wf(self.data@) ==> (r is Ok <==> item_count(self.data@) >= 1),
    {
        let d = self.data.as_slice();
        let (a, b) = first_item_range(d)?;
        Ok(copy_range(d, a, b))
    }

    /// Copies `serialized_data` to `offset` and records it as the page's next item.
    pub fn insert_tuple(&mut self, serialized_data: &Vec<u8>, offset: u16)
        requires
            PAGE_HEADER_SIZE <= offset,
            offset + serialized_data@.len() <= old(self).data@.len(),
            offset + serialized_data@.len() <= u16::MAX,
            item_count(old(self).data@) < u16::MAX,
            PAGE_HEADER_SIZE + LINE_POINTER_SIZE <= free_pointer(old(self).data@) <= old(
                self,
            ).data@.len(),
        ensures
            final(self).data@ == with_item(old(self).data@, serialized_data@, offset as int),
            final(self).from == old(self).from,
            final(self).page_number == old(self).page_number,
    {
        let ghost d0 = self.data@;
        let free = self.get_page_free();
        let end = offset as usize + serialized_data.len();
        let mut i: usize = 0;
        while i < serialized_data.len()
            invariant
                self.data@.len() == d0.len(),
                offset + serialized_data@.len() <= d0.len(),
                offset + serialized_data@.len() <= u16::MAX,
                PAGE_HEADER_SIZE <= offset,
                i <= serialized_data@.len(),
                self.data@ == d0.subrange(0, offset as int) + serialized_data@.subrange(0, i as int)
                    + d0.subrange(offset + i, d0.len() as int),
                self.from == old(self).from,
                self.page_number == old(self).page_number,
            decreases serialized_data@.len() - i,
        {
            self.data[offset as usize + i] = serialized_data[i];
            i += 1;
            assert(self.data@ =~= d0.subrange(0, offset as int) + serialized_data@.subrange(
                0,
                i as int,
            ) + d0.subrange(offset + i, d0.len() as int));
        }
        assert(serialized_data@.subrange(0, i as int) =~= serialized_data@);
        assert(self.data@ == crate::slotted::put_bytes(d0, offset as int, serialized_data@));
        assert(item_count(self.data@) == item_count(d0));
        let n = self.get_number_of_items();
        self.set_number_of_items(n + 1);
        self.set_page_heap_top(end as u16);
        self.insert_new_line_pointer(offset, free);
        self.set_page_free(free - 2);
    }

    /// Where an item of `bytes_required` bytes would be stored, if it fits.
    pub fn get_new_insert_pos(&self, bytes_required: u16) -> (r: Option<u16>)
        requires
            self.data@.len() >= PAGE_HEADER_SIZE,
        ensures
            r == insert_pos(self.data@, bytes_required as int),
    {
        new_insert_pos(self.data.as_slice(), bytes_required)
    }

    fn get_page_heap_top(&self) -> (r: u16)
        requires
            self.data@.len() >= PAGE_HEADER_SIZE,
        ensures
            r == heap_top(self.data@),
    {
        heap_top_of(self.data.as_slice())
    }

    fn set_page_heap_top(&mut self, new_heap_top: u16)
        requires
            old(self).data@.len() >= PAGE_HEADER_SIZE,
        ensures
            final(self).data@ == put_u16(old(self).data@, 4, new_heap_top as int),
            final(self).from == old(self).from,
            final(self).page_number == old(self).page_number,
    {
        write_u16_le(&mut self.data, 4, new_heap_top);
    }

    fn get_page_free(&self) -> (r: u16)
        requires
            self.data@.len() >= PAGE_HEADER_SIZE,
        ensures
            r == free_pointer(self.data@),
    {
        free_pointer_of(self.data.as_slice())
    }

    fn set_page_free(&mut self, new_page_free: u16)
        requires
            old(self).data@.len() >= PAGE_HEADER_SIZE,
        ensures
            final(self).data@ == put_u16(old(self).data@, 6, new_page_free as int),
            final(self).from == old(self).from,
            final(self).page_number == old(self).page_number,
    {
        write_u16_le(&mut self.data, 6, new_page_free);
    }

    /// Stores a line pointer holding `offset` just below the free pointer `free`.
    fn insert_new_line_pointer(&mut self, offset: u16, free: u16)
        requires
            LINE_POINTER_SIZE <= free <= old(self).data@.len(),
            PAGE_HEADER_SIZE <= old(self).data@.len(),
        ensures
            final(self).data@ == put_u16(old(self).data@, free - 2, offset as int),
            final(self).from == old(self).from,
            final(self).page_number == old(self).page_number,
    {
        write_u16_le(&mut self.data, (free - 2) as usize, offset);
    }

    fn get_number_of_items(&self) -> (r: u16)
        requires
            self.data@.len() >= PAGE_HEADER_SIZE,
        ensures
            r == item_count(self.data@),
    {
        item_count_of(self.data.as_slice())
    }

    fn set_number_of_items(&mut self, number_of_items: u16)
        requires
            old(self).data@.len() >= PAGE_HEADER_SIZE,
        ensures
            final(self).data@ == put_u16(old(self).data@, 0, number_of_items as int),
            final(self).from == old(self).from,
            final(self).page_number == old(self).page_number,
    {
        write_u16_le(&mut self.data, 0, number_of_items);
    }

    /// The item that starts at `start_offset`.
    pub fn get_tuple(&self, start_offset: u16) -> (r: Result<Vec<u8>, String>)
        ensures
            r matches Ok(t) ==> item_at_offset(self.data@, start_offset as int, t@),
            page_wf(self.data@) ==> (r is Ok <==> has_line_pointer(
                self.data@,
                start_offset as int,
            )),
    {
        let d = self.data.as_slice();
        let (a, b) = tuple_range(d, start_offset)?;
        Ok(copy_range(d, a, b))
    }

    pub fn get_line_pointer(&self, index: u16) -> (r: u16)
        requires
            directory_fits(self.data@),
            index < item_count(self.data@),
        ensures
            r == line_pointer(self.data@, index as int),
    {
        line_pointer_of(self.data.as_slice(), index)
    }
}

} // verus!
