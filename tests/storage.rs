use ssql::catalog::create_table;
use ssql::parser::ast::{ColumnDefinition, DataType};
use ssql::buffer::{BuffPool, BufferDesc, LockDecision, LockMode, PoolAction, Waiter};
use ssql::cli::extract_file_path_from_command;
use ssql::codec::{SData, SType, TuplePointer};
use ssql::new_page::NewPage;
use ssql::node::{NewInnerNode, NewLeafNode};
use ssql::page::Page;
use ssql::parser::tokenizer::Tokenizer;
use ssql::tree::{rebalance_action, BTree, BTreeNode, Rebalance};

/// An empty 8192-byte page: no items, data and heap top at 8, free pointer at the end.
fn fresh_page() -> Page {
    let mut data = vec![0u8; 8192];
    data[2..4].copy_from_slice(&8u16.to_le_bytes());
    data[4..6].copy_from_slice(&8u16.to_le_bytes());
    data[6..8].copy_from_slice(&8192u16.to_le_bytes());
    Page { from: "t.ss".to_string(), page_number: 0, data }
}

#[test]
fn int_value_encodes_little_endian_twos_complement() {
    let mut out = Vec::new();
    SData::INT(-2).serialize(&mut out);
    assert_eq!(out, vec![0xFE, 0xFF, 0xFF, 0xFF]);
    assert_eq!(SData::INT(-2).serialized_size(), 4);
}

#[test]
fn string_value_encodes_length_prefix_and_bytes() {
    let mut out = Vec::new();
    SData::STRING("ab".to_string()).serialize(&mut out);
    assert_eq!(out, vec![2, 0, 0, 0, 97, 98]);
    assert_eq!(SData::STRING("ab".to_string()).serialized_size(), 6);
}

#[test]
fn values_round_trip_through_the_codec() {
    for v in [SData::INT(0), SData::INT(i32::MIN), SData::INT(123631), SData::STRING("héllo".to_string())] {
        let mut out = Vec::new();
        v.serialize(&mut out);
        out.extend_from_slice(&[9, 9]);
        let ty = v.get_type();
        let (back, used) = SData::deserialize(&out, ty).unwrap();
        assert_eq!(back, v);
        assert_eq!(used, out.len() - 2);
    }
}

#[test]
fn short_buffers_and_unknown_tags_fail_to_decode() {
    assert!(SData::deserialize(&[1, 2, 3], SType::INT).is_err());
    assert!(SData::deserialize(&[5, 0, 0, 0, 97], SType::STRING).is_err());
    assert!(SType::from_tag(7).is_err());
    assert_eq!(SType::from_tag(1), Ok(SType::STRING));
}

#[test]
fn tuple_pointer_round_trip() {
    let p = TuplePointer { page: 0x01020304, offset: 0x0506 };
    let mut out = Vec::new();
    p.serialize(&mut out);
    assert_eq!(out, vec![4, 3, 2, 1, 6, 5]);
    assert_eq!(TuplePointer::deserialize(&out, 0), Ok(p));
    assert!(TuplePointer::deserialize(&out, 1).is_err());
}

#[test]
fn page_items_read_back_byte_identical() {
    let mut page = fresh_page();
    let items: Vec<Vec<u8>> = vec![vec![1, 2, 3], vec![4], vec![5, 6, 7, 8, 9]];
    let mut offsets = Vec::new();
    for item in &items {
        let pos = page.get_new_insert_pos(item.len() as u16).unwrap();
        page.insert_tuple(item, pos);
        offsets.push(pos);
    }
    assert_eq!(offsets, vec![8, 11, 12]);
    for (item, off) in items.iter().zip(offsets.iter()) {
        assert_eq!(&page.get_tuple(*off).unwrap(), item);
    }
    assert_eq!(page.get_first_tuple_from_page().unwrap(), vec![1, 2, 3]);
    assert!(page.get_tuple(9).is_err());
    assert_eq!(&page.data[0..2], &3u16.to_le_bytes());
    assert_eq!(&page.data[4..6], &17u16.to_le_bytes());
    assert_eq!(&page.data[6..8], &(8192u16 - 6).to_le_bytes());
}

#[test]
fn insert_position_requires_room_for_item_and_line_pointer() {
    let page = fresh_page();
    assert_eq!(page.get_new_insert_pos(8182), Some(8));
    assert_eq!(page.get_new_insert_pos(8183), None);
    let empty = fresh_page();
    assert!(empty.get_first_tuple_from_page().is_err());
}

#[test]
fn new_page_reads_items_from_its_block() {
    let mut page = fresh_page();
    page.insert_tuple(&vec![7, 7], 8);
    page.insert_tuple(&vec![8], 10);
    let mut block = [0u8; 8192];
    block.copy_from_slice(&page.data);
    let np = NewPage::new(block);
    assert_eq!(np.get_tuple(10).unwrap(), &[8u8][..]);
    assert_eq!(np.get_first_tuple().unwrap(), &[7u8, 7][..]);
    assert_eq!(np.get_number_of_items(), 2);
    assert_eq!(np.get_page_heap_top(), 11);
    assert_eq!(np.get_line_pointer(1), 10);
    assert_eq!(np.get_new_insert_pos(4), Some(11));
    assert_eq!(np.get_header_size_in_bytes(), 1);
}

fn leaf() -> NewLeafNode {
    NewLeafNode {
        keys: vec![SData::INT(5), SData::INT(9)],
        values: vec![TuplePointer { page: 1, offset: 2 }, TuplePointer { page: 3, offset: 4 }],
    }
}

#[test]
fn leaf_node_layout_and_round_trip() {
    let bytes = leaf().serialize().unwrap();
    assert_eq!(
        bytes,
        vec![1, 0, 2, 0, 0, 0, 5, 0, 0, 0, 9, 0, 0, 0, 1, 0, 0, 0, 2, 0, 3, 0, 0, 0, 4, 0]
    );
    let mut with_tail = bytes.clone();
    with_tail.push(42);
    let mut buf: &[u8] = &with_tail;
    assert!(NewLeafNode::buffer_fits_type(&mut buf));
    assert!(!NewInnerNode::buffer_fits_type(&mut buf));
    let back = NewLeafNode::deserialize(&mut buf).unwrap();
    assert_eq!(back.keys, leaf().keys);
    assert_eq!(back.values, leaf().values);
    assert_eq!(buf, &[42u8][..]);
}

#[test]
fn node_errors() {
    let empty = NewLeafNode { keys: vec![], values: vec![] };
    assert!(empty.serialize().is_err());
    let mixed = NewLeafNode {
        keys: vec![SData::INT(1), SData::STRING("a".to_string())],
        values: vec![TuplePointer { page: 0, offset: 0 }; 2],
    };
    assert!(mixed.serialize().is_err());
    let bytes = leaf().serialize().unwrap();
    let mut buf: &[u8] = &bytes;
    assert!(NewInnerNode::deserialize(&mut buf).is_err());
    assert_eq!(buf.len(), bytes.len());
    let mut short: &[u8] = &bytes[..10];
    assert!(NewLeafNode::deserialize(&mut short).is_err());
}

fn inner() -> NewInnerNode {
    NewInnerNode {
        keys: vec![SData::STRING("b".to_string()), SData::STRING("d".to_string())],
        pointers: vec![
            TuplePointer { page: 10, offset: 0 },
            TuplePointer { page: 11, offset: 0 },
            TuplePointer { page: 12, offset: 0 },
        ],
    }
}

#[test]
fn inner_node_routes_keys_to_children() {
    let n = inner();
    let page_of = |k: &str| n.get_node_pointer_for_key(&SData::STRING(k.to_string())).unwrap().page;
    assert_eq!(page_of("a"), 10);
    assert_eq!(page_of("b"), 11);
    assert_eq!(page_of("c"), 11);
    assert_eq!(page_of("d"), 12);
    assert_eq!(page_of("zz"), 12);
    assert!(n.get_node_pointer_for_key(&SData::INT(1)).is_err());
    let bytes = n.serialize().unwrap();
    let mut buf: &[u8] = &bytes;
    let back = NewInnerNode::deserialize(&mut buf).unwrap();
    assert_eq!(back.keys, n.keys);
    assert_eq!(back.pointers, n.pointers);
}

#[test]
fn leaf_written_to_page_and_found_again() {
    let page = fresh_page();
    let page = leaf().write_new_node_to_page(page).unwrap();
    assert_eq!(page.get_first_tuple_from_page().unwrap(), leaf().serialize().unwrap());
    let mut block = [0u8; 8192];
    let bytes = leaf().serialize().unwrap();
    block[..bytes.len()].copy_from_slice(&bytes);
    let np = NewPage::new(block);
    assert!(np.is_page_leaf_type());
    let p = NewPage::get_leaf_node_pointer(&np, &SData::INT(9), &SType::INT).unwrap();
    assert_eq!(p, TuplePointer { page: 3, offset: 4 });
    assert!(NewPage::get_leaf_node_pointer(&np, &SData::INT(6), &SType::INT).is_err());
    assert!(NewPage::get_leaf_node_pointer(&np, &SData::INT(9), &SType::STRING).is_err());
}

#[test]
fn full_root_leaf_splits_once_and_promotes_first_key_of_right_leaf() {
    let mut t: BTree<u32> = BTree::new(4);
    for k in [1i64, 2, 3] {
        t.insert(k, k as u32).unwrap();
    }
    assert!(matches!(t.root, BTreeNode::Leaf(_)));
    t.insert(4, 4).unwrap();
    match &t.root {
        BTreeNode::Internal(x) => {
            assert_eq!(x.keys.len(), 1);
            match &*x.children[1] {
                BTreeNode::Leaf(r) => assert_eq!(r.keys[0], x.keys[0]),
                _ => panic!("right child is not a leaf"),
            }
        },
        _ => panic!("root did not split"),
    }
}

#[test]
fn lookups_return_inserted_values() {
    let mut t: BTree<i64> = BTree::new(3);
    let keys = [50i64, -7, 13, 99, 0, 42, 8, 77, 21, -100, 64];
    for k in keys {
        t.insert(k, k * 10).unwrap();
    }
    for k in keys {
        assert_eq!(t.get(&k), Some(&(k * 10)));
    }
    assert_eq!(t.get(&1), None);
    assert!(t.insert(13, 0).is_err());
    assert_eq!(t.get(&13), Some(&130));
}

#[test]
fn deleting_an_unknown_key_fails() {
    let mut t: BTree<char> = BTree::new(3);
    t.insert(1, 'a').unwrap();
    assert!(t.delete(2).is_err());
    assert!(t.delete(1).is_ok());
    assert_eq!(t.get(&1), None);
}

#[test]
fn readers_share_and_writers_wait_in_order() {
    let mut d = BufferDesc::new("f", 0, [0u8; 8192]);
    assert_eq!(d.lock_shared(1), LockDecision::Granted);
    assert_eq!(d.lock_shared(2), LockDecision::Granted);
    assert_eq!(d.get_lock_type(), LockMode::SHARED(2));
    assert_eq!(d.lock_exclusive(3), LockDecision::Queued);
    assert_eq!(d.lock_exclusive(4), LockDecision::Queued);
    assert!(d.unlock_shared().is_empty());
    let woken = d.unlock_shared();
    assert_eq!(woken, vec![Waiter { exclusive: true, thread_id: 3 }]);
    assert_eq!(d.get_lock_type(), LockMode::UNLOCKED);
    assert!(d.resume(woken[0]).is_ok());
    assert_eq!(d.get_lock_type(), LockMode::EXCLUSIVE(3));
    assert_eq!(d.lock_exclusive(5), LockDecision::Queued);
    assert_eq!(d.lock_shared(6), LockDecision::Queued);
    assert!(d.write_buff(NewPage::new([1u8; 8192]), 4).is_err());
    assert!(d.write_buff(NewPage::new([1u8; 8192]), 3).is_ok());
    assert_eq!(d.get_buff().data[0], 1);
    assert!(d.unlock_exclusive(4).is_err());
    let woken = d.unlock_exclusive(3).unwrap();
    assert_eq!(woken, vec![Waiter { exclusive: true, thread_id: 4 }]);
    assert!(d.unlock_exclusive(3).is_err());
}

#[test]
fn unlock_wakes_the_run_of_readers_up_to_a_writer() {
    let mut d = BufferDesc::new("f", 0, [0u8; 8192]);
    assert_eq!(d.lock_exclusive(1), LockDecision::Granted);
    d.lock_shared(2);
    d.lock_shared(3);
    d.lock_exclusive(4);
    d.lock_shared(5);
    let woken = d.unlock_exclusive(1).unwrap();
    assert_eq!(woken.iter().map(|w| w.thread_id).collect::<Vec<_>>(), vec![2, 3]);
    assert_eq!(d.wait_q.len(), 2);
    assert!(d.resume(Waiter { exclusive: true, thread_id: 9 }).is_ok());
    assert!(d.resume(Waiter { exclusive: false, thread_id: 2 }).is_err());
}

#[test]
fn pool_hits_loads_evicts_or_waits() {
    let mut pool = BuffPool::create(Some(8192 * 2)).unwrap();
    assert_eq!(pool.max_frames, 2);
    assert_eq!(pool.get_descriptor_action("a", 0), PoolAction::Load);
    pool.install(PoolAction::Load, BufferDesc::new("a", 0, [0u8; 8192]));
    pool.install(PoolAction::Load, BufferDesc::new("a", 1, [0u8; 8192]));
    assert_eq!(pool.get_descriptor_action("a", 1), PoolAction::Hit(1));
    assert_eq!(pool.get_descriptor_action("b", 0), PoolAction::Wait);
    pool.descriptors[0].lock_shared(1);
    pool.descriptors[1].lock_shared(1);
    pool.descriptors[1].unlock_shared();
    assert_eq!(pool.get_descriptor_action("b", 0), PoolAction::Evict(1));
    assert_eq!(BuffPool::create(None).unwrap().max_frames, 20);
}

#[test]
fn source_command_yields_its_path() {
    assert_eq!(extract_file_path_from_command("source cmds.sql"), Some("cmds.sql".to_string()));
    assert_eq!(extract_file_path_from_command("sourcecmds.sql"), None);
    assert_eq!(extract_file_path_from_command("src"), None);
}

#[test]
fn tokenizer_reports_unterminated_strings_and_huge_numbers() {
    assert!(Tokenizer::new("\"abc".to_string()).next_token().is_err());
    assert!(Tokenizer::new("2147483648".to_string()).next_token().is_err());
    let mut t = Tokenizer::new("  2147483647".to_string());
    assert!(t.next_token().unwrap().is_some());
    assert_eq!(t.position, 12);
    assert_eq!(t.next_token(), Ok(None));
}

#[test]
fn underflow_policy_prefers_borrowing_left_then_right_then_merging() {
    assert_eq!(rebalance_action(2, Some(3), Some(3), 2), Rebalance::Keep);
    assert_eq!(rebalance_action(1, Some(3), Some(3), 2), Rebalance::BorrowLeft);
    assert_eq!(rebalance_action(1, Some(2), Some(3), 2), Rebalance::BorrowRight);
    assert_eq!(rebalance_action(1, Some(2), Some(2), 2), Rebalance::MergeLeft);
    assert_eq!(rebalance_action(1, None, Some(2), 2), Rebalance::MergeRight);
    assert_eq!(rebalance_action(1, None, None, 2), Rebalance::Keep);
}

#[test]
fn table_definitions_need_a_name_a_key_and_columns() {
    let cols = || vec![ColumnDefinition { name: "id".to_string(), data_type: DataType::Int32 }];
    assert!(create_table("t".to_string(), "id".to_string(), cols()).is_ok());
    assert!(create_table("".to_string(), "id".to_string(), cols()).is_err());
    assert!(create_table("t".to_string(), "".to_string(), cols()).is_err());
    assert!(create_table("t".to_string(), "id".to_string(), vec![]).is_err());
}

#[test]
fn column_types_are_named_as_in_commands() {
    assert_eq!(DataType::from_name("INT"), Ok(DataType::Int32));
    assert_eq!(DataType::from_name("VARCHAR"), Ok(DataType::VarChar256));
    assert!(DataType::from_name("int").is_err());
    assert_eq!(DataType::Int32.name(), "INT");
    assert_eq!(DataType::VarChar256.name(), "VARCHAR");
}
