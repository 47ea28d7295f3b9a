//! On-disk B+ tree nodes.
//!
//! Layout: node type tag (1 byte), key type tag (1 byte), key count (u32), the
//! keys, then the tuple pointers (6 bytes each). A leaf has one pointer per key;
//! an internal node has one more pointer than keys, and pointer `i` leads to the
//! keys `k` with `keys[i - 1] <= k < keys[i]`.
use vstd::prelude::*;
use crate::codec::{
    SData, SDataView, SType, TuplePointer, TUPLE_POINTER_SIZE, sdata_bytes, sdata_encodable,
    sdata_decodable, sdata_decode, sdata_width, sdata_view, stype_of, stype_tag, u32_bytes,
    tuple_pointer_bytes, tuple_pointer_decode, word_at, lemma_sdata_round_trip,
    lemma_tuple_pointer_round_trip, lemma_u32_round_trip,
};
use crate::new_page::{INTERNAL_NODE_TAG, LEAF_NODE_TAG, NewPage};
use crate::page::Page;
use crate::slotted::{
    PAGE_HEADER_SIZE, free_pointer_of, heap_top, insert_pos, item_count_of, page_wf, with_item,
};
use crate::order::{
    sdata_lt, keys_sorted, compare_sdata, lex_lt, lemma_lex_irreflexive, lemma_sdata_lt_transitive,
    lemma_sdata_trichotomy,
};

verus! {

pub struct NewLeafNode {
    pub keys: Vec<SData>,
    pub values: Vec<TuplePointer>,
}

pub struct NewInnerNode {
    pub keys: Vec<SData>,
    pub pointers: Vec<TuplePointer>,
}

pub open spec fn keys_bytes(ks: Seq<SData>) -> Seq<u8>
    decreases ks.len(),
{
    if ks.len() == 0 {
        Seq::empty()
    } else {
        keys_bytes(ks.drop_last()) + sdata_bytes(ks.last())
    }
}

pub open spec fn pointers_bytes(ps: Seq<TuplePointer>) -> Seq<u8>
    decreases ps.len(),
{
    if ps.len() == 0 {
        Seq::empty()
    } else {
        pointers_bytes(ps.drop_last()) + tuple_pointer_bytes(ps.last())
    }
}

/// A node can be written: at least one key, all of one encodable type, and
/// `extra` more pointers than keys.
pub open spec fn node_writable(ks: Seq<SData>, ps: Seq<TuplePointer>, extra: int) -> bool {
    &&& 0 < ks.len() <= u32::MAX
    &&& ps.len() == ks.len() + extra
    &&& forall|i: int|
        0 <= i < ks.len() ==> stype_of(#[trigger] ks[i]) == stype_of(ks[0]) && sdata_encodable(
            ks[i],
        )
}

pub open spec fn node_bytes(tag: u8, ks: Seq<SData>, ps: Seq<TuplePointer>) -> Seq<u8> {
    seq![tag, stype_tag(stype_of(ks[0]))] + u32_bytes(ks.len() as u32) + keys_bytes(ks)
        + pointers_bytes(ps)
}

/// The `count` values of type `ty` encoded from `pos` on, and where they end.
pub open spec fn decode_keys(b: Seq<u8>, pos: int, count: nat, ty: SType) -> Option<
    (Seq<SDataView>, int),
>
    decreases count,
{
    if count == 0 {
        Some((Seq::empty(), pos))
    } else {
        match decode_keys(b, pos, (count - 1) as nat, ty) {
            None => None,
            Some((vs, p)) => {
                let tail = b.subrange(p, b.len() as int);
                if sdata_decodable(tail, ty) {
                    Some((vs.push(sdata_decode(tail, ty)), p + sdata_width(tail, ty)))
                } else {
                    None
                }
            },
        }
    }
}

/// The `count` tuple pointers encoded from `pos` on, and where they end.
pub open spec fn decode_pointers(b: Seq<u8>, pos: int, count: nat) -> Option<
    (Seq<TuplePointer>, int),
> {
    if pos + TUPLE_POINTER_SIZE * count <= b.len() {
        Some(
            (
                Seq::new(count, |i: int| tuple_pointer_decode(b, pos + TUPLE_POINTER_SIZE * i)),
                pos + TUPLE_POINTER_SIZE * count,
            ),
        )
    } else {
        None
    }
}

/// The node with type tag `tag` encoded at the front of `b`: its keys, its
/// pointers (`extra` more than keys) and its length.
pub open spec fn decode_node(b: Seq<u8>, tag: u8, extra: nat) -> Option<
    (Seq<SDataView>, Seq<TuplePointer>, int),
> {
    if b.len() < 6 || b[0] != tag || b[1] > 1 {
        None
    } else {
        let ty = if b[1] == 0 {
            SType::INT
        } else {
            SType::STRING
        };
        let count = word_at(b, 2) as nat;
        match decode_keys(b, 6, count, ty) {
            None => None,
            Some((ks, p)) => match decode_pointers(b, p, count + extra) {
                None => None,
                Some((ps, e)) => Some((ks, ps, e)),
            },
        }
    }
}

pub open spec fn keys_view(ks: Seq<SData>) -> Seq<SDataView> {
    ks.map_values(|k: SData| sdata_view(k))
}

proof fn lemma_keys_bytes_prefix(ks: Seq<SData>, i: int)
    requires
        0 <= i < ks.len(),
    ensures
        keys_bytes(ks.subrange(0, i + 1)) == keys_bytes(ks.subrange(0, i)) + sdata_bytes(ks[i]),
{
    assert(ks.subrange(0, i + 1).drop_last() =~= ks.subrange(0, i));
}

proof fn lemma_pointers_bytes_prefix(ps: Seq<TuplePointer>, i: int)
    requires
        0 <= i < ps.len(),
    ensures
        pointers_bytes(ps.subrange(0, i + 1)) == pointers_bytes(ps.subrange(0, i))
            + tuple_pointer_bytes(ps[i]),
{
    assert(ps.subrange(0, i + 1).drop_last() =~= ps.subrange(0, i));
}

proof fn lemma_pointers_bytes_len(ps: Seq<TuplePointer>)
    ensures
        pointers_bytes(ps).len() == TUPLE_POINTER_SIZE * ps.len(),
    decreases ps.len(),
{
    if ps.len() > 0 {
        lemma_pointers_bytes_len(ps.drop_last());
    }
}

/// Keys encoded at `pos` decode back to their views.
proof fn lemma_decode_keys(b: Seq<u8>, pos: int, ks: Seq<SData>, ty: SType)
    requires
        0 <= pos,
        pos + keys_bytes(ks).len() <= b.len(),
        b.subrange(pos, pos + keys_bytes(ks).len()) == keys_bytes(ks),
        forall|i: int|
            0 <= i < ks.len() ==> stype_of(#[trigger] ks[i]) == ty && sdata_encodable(ks[i]),
    ensures
        decode_keys(b, pos, ks.len(), ty) == Some((keys_view(ks), pos + keys_bytes(ks).len())),
    decreases ks.len(),
{
    if ks.len() == 0 {
        assert(keys_view(ks) =~= Seq::<SDataView>::empty());
    } else {
        let dl = ks.drop_last();
        let last = ks.last();
        let kd = keys_bytes(dl);
        let p = pos + kd.len();
        assert(b.subrange(pos, pos + kd.len()) =~= kd) by {
            assert(b.subrange(pos, pos + kd.len()) =~= b.subrange(
                pos,
                pos + keys_bytes(ks).len(),
            ).subrange(0, kd.len() as int));
        }
        assert forall|i: int| 0 <= i < dl.len() implies stype_of(#[trigger] dl[i]) == ty
            && sdata_encodable(dl[i]) by {
            assert(dl[i] == ks[i]);
        }
        lemma_decode_keys(b, pos, dl, ty);
        let tail = b.subrange(p, b.len() as int);
        let w = sdata_bytes(last).len();
        let rest = b.subrange(p + w, b.len() as int);
        assert(tail =~= sdata_bytes(last) + rest) by {
            assert forall|k: int| 0 <= k < w implies tail[k] == sdata_bytes(last)[k] by {
                assert(b.subrange(pos, pos + keys_bytes(ks).len())[kd.len() + k] == b[p + k]);
            }
        }
        assert(stype_of(last) == ty && sdata_encodable(last)) by {
            assert(ks[ks.len() - 1] == last);
        }
        lemma_sdata_round_trip(last, rest);
        assert(keys_view(ks) =~= keys_view(dl).push(sdata_view(last)));
    }
}

/// Tuple pointers encoded at `p` decode back.
proof fn lemma_decode_pointers(b: Seq<u8>, p: int, ps: Seq<TuplePointer>)
    requires
        0 <= p,
        p + pointers_bytes(ps).len() <= b.len(),
        b.subrange(p, p + pointers_bytes(ps).len()) == pointers_bytes(ps),
    ensures
        decode_pointers(b, p, ps.len()) == Some((ps, p + TUPLE_POINTER_SIZE * ps.len())),
{
    lemma_pointers_bytes_len(ps);
    let pb = pointers_bytes(ps);
    assert forall|i: int| 0 <= i < ps.len() implies #[trigger] tuple_pointer_decode(
        b,
        p + TUPLE_POINTER_SIZE * i,
    ) == ps[i] by {
        lemma_pointer_at(ps, i);
        let q = p + TUPLE_POINTER_SIZE * i;
        let tb = tuple_pointer_bytes(ps[i]);
        assert forall|k: int| 0 <= k < 6 implies b[q + k] == tb[k] by {
            assert(b.subrange(p, p + pb.len())[TUPLE_POINTER_SIZE * i + k] == b[q + k]);
        }
        lemma_tuple_pointer_round_trip(ps[i], Seq::<u8>::empty());
        assert(tuple_pointer_decode(tb + Seq::<u8>::empty(), 0) == tuple_pointer_decode(b, q));
    }
    let d = decode_pointers(b, p, ps.len());
    assert(d.unwrap().0 =~= ps);
}

/// Writing a node and decoding the bytes, followed by anything, gives back the
/// node's keys and pointers and consumes exactly its encoding.
pub proof fn lemma_node_round_trip(
    tag: u8,
    ks: Seq<SData>,
    ps: Seq<TuplePointer>,
    extra: nat,
    rest: Seq<u8>,
)
    requires
        node_writable(ks, ps, extra as int),
    ensures
        decode_node(node_bytes(tag, ks, ps) + rest, tag, extra) == Some(
            (keys_view(ks), ps, node_bytes(tag, ks, ps).len() as int),
        ),
{
    let b = node_bytes(tag, ks, ps) + rest;
    let ty = stype_of(ks[0]);
    let n = ks.len();
    lemma_u32_round_trip(n as u32);
    assert(word_at(b, 2) == n);
    let kb = keys_bytes(ks);
    let pb = pointers_bytes(ps);
    assert(b.subrange(6, 6 + kb.len() as int) =~= kb);
    assert forall|i: int| 0 <= i < ks.len() implies stype_of(#[trigger] ks[i]) == ty
        && sdata_encodable(ks[i]) by {}
    lemma_decode_keys(b, 6, ks, ty);
    let p: int = 6 + kb.len() as int;
    assert(b.subrange(p, p + pb.len()) =~= pb);
    lemma_decode_pointers(b, p, ps);
    lemma_pointers_bytes_len(ps);
}

/// The bytes of pointer `i` sit at `6 * i` in the pointers' encoding.
proof fn lemma_pointer_at(ps: Seq<TuplePointer>, i: int)
    requires
        0 <= i < ps.len(),
    ensures
        forall|k: int|
            0 <= k < 6 ==> pointers_bytes(ps)[TUPLE_POINTER_SIZE * i + k] == #[trigger] tuple_pointer_bytes(
                ps[i],
            )[k],
    decreases ps.len(),
{
    let dl = ps.drop_last();
    lemma_pointers_bytes_len(dl);
    assert(pointers_bytes(ps) == pointers_bytes(dl) + tuple_pointer_bytes(ps.last()));
    if i < ps.len() - 1 {
        lemma_pointer_at(dl, i);
        assert(dl[i] == ps[i]);
    }
}

fn encodable(k: &SData) -> (r: bool)
    ensures
        r == sdata_encodable(*k),
{
    match k {
        SData::STRING(s) => s.as_str().as_bytes().len() <= (u32::MAX - 4) as usize,
        SData::INT(_) => true,
    }
}

/// Encodes a node with type tag `tag`; fails unless `node_writable`.
fn write_node(tag: u8, keys: &Vec<SData>, pointers: &Vec<TuplePointer>, extra: usize) -> (r: Result<
    Vec<u8>,
    String,
>)
    requires
        extra <= 1,
    ensures
        r is Ok <==> node_writable(keys@, pointers@, extra as int),
        r matches Ok(b) ==> b@ == node_bytes(tag, keys@, pointers@),
{
    if keys.len() == 0 {
        return Err("No keys in leaf".to_string());
    }
    if keys.len() > u32::MAX as usize {
        return Err("Too many keys in node".to_string());
    }
    if pointers.len() as u64 != keys.len() as u64 + extra as u64 {
        return Err("Number of pointers does not match number of keys".to_string());
    }
    let key_type = keys[0].get_type();
    let mut i: usize = 0;
    while i < keys.len()
        invariant
            0 < keys@.len(),
            key_type == stype_of(keys@[0]),
            i <= keys@.len(),
            forall|j: int|
                0 <= j < i ==> stype_of(#[trigger] keys@[j]) == stype_of(keys@[0]) && sdata_encodable(
                    keys@[j],
                ),
        decreases keys@.len() - i,
    {
        let k = &keys[i];
        if k.get_type() != key_type {
            return Err("Keys of different types in node".to_string());
        }
        if !encodable(k) {
            return Err("Key too long".to_string());
        }
        i += 1;
    }
    let mut out: Vec<u8> = Vec::new();
    out.push(tag);
    out.push(key_type.tag());
    crate::codec::push_u32_le(&mut out, keys.len() as u32);
    let ghost head = out@;
    assert(head =~= seq![tag, stype_tag(stype_of(keys@[0]))] + u32_bytes(keys@.len() as u32));
    let mut i: usize = 0;
    while i < keys.len()
        invariant
            i <= keys@.len(),
            forall|j: int|
                0 <= j < keys@.len() ==> stype_of(#[trigger] keys@[j]) == stype_of(keys@[0])
                    && sdata_encodable(keys@[j]),
            out@ == head + keys_bytes(keys@.subrange(0, i as int)),
        decreases keys@.len() - i,
    {
        proof {
            lemma_keys_bytes_prefix(keys@, i as int);
        }
        keys[i].serialize(&mut out);
        i += 1;
    }
    assert(keys@.subrange(0, i as int) =~= keys@);
    let ghost mid = out@;
    let mut j: usize = 0;
    while j < pointers.len()
        invariant
            j <= pointers@.len(),
            out@ == mid + pointers_bytes(pointers@.subrange(0, j as int)),
        decreases pointers@.len() - j,
    {
        proof {
            lemma_pointers_bytes_prefix(pointers@, j as int);
        }
        pointers[j].serialize(&mut out);
        j += 1;
        assert(out@ =~= mid + pointers_bytes(pointers@.subrange(0, j as int)));
    }
    assert(pointers@.subrange(0, j as int) =~= pointers@);
    assert(out@ =~= node_bytes(tag, keys@, pointers@));
    Ok(out)
}

/// Decodes the node with type tag `tag` at the front of `b`.
fn read_node(b: &[u8], tag: u8, extra: u32) -> (r: Result<
    (Vec<SData>, Vec<TuplePointer>, usize),
    String,
>)
    ensures
        r is Ok <==> decode_node(b@, tag, extra as nat) is Some,
        r matches Ok(t) ==> decode_node(b@, tag, extra as nat) == Some(
            (keys_view(t.0@), t.1@, t.2 as int),
        ),
{
    if b.len() < 6 {
        return Err("Buffer too short for a node header".to_string());
    }
    if b[0] != tag {
        return Err("Given buffer doesn't contain a node of that type".to_string());
    }
    let ty = SType::from_tag(b[1])?;
    assert(ty == if b@[1] == 0 {
        SType::INT
    } else {
        SType::STRING
    });
    let count = crate::codec::read_u32_le(b, 2);
    let mut keys: Vec<SData> = Vec::new();
    let mut pos: usize = 6;
    let mut i: u32 = 0;
    while i < count
        invariant
            6 <= pos <= b@.len(),
            i <= count,
            count == word_at(b@, 2),
            b@.len() >= 6,
            b@[0] == tag,
            b@[1] <= 1,
            ty == if b@[1] == 0 {
                SType::INT
            } else {
                SType::STRING
            },
            decode_keys(b@, 6, i as nat, ty) == Some((keys_view(keys@), pos as int)),
        decreases count - i,
    {
        let ghost prev = keys@;
        let (k, w) = match SData::deserialize(&b[pos..b.len()], ty) {
            Ok(p) => p,
            Err(e) => {
                proof {
                    assert(b@.subrange(pos as int, b@.len() as int) == b@.subrange(pos as int, b@.len() as int));
                    assert(decode_keys(b@, 6, (i + 1) as nat, ty) is None);
                    lemma_decode_keys_none(b@, 6, (i + 1) as nat, count as nat, ty);
                }
                return Err(e);
            },
        };
        keys.push(k);
        assert(keys@.drop_last() =~= prev);
        assert(keys_view(keys@) =~= keys_view(prev).push(sdata_view(k)));
        pos = pos + w;
        i += 1;
    }
    let total: u64 = count as u64 + extra as u64;
    if 6 * total > (b.len() - pos) as u64 {
        return Err("Buffer too short for the node's pointers".to_string());
    }
    let mut pointers: Vec<TuplePointer> = Vec::new();
    let mut j: u64 = 0;
    let mut at: usize = pos;
    let blen = b.len();
    while j < total
        invariant
            blen == b@.len(),
            pos + 6 * total <= b@.len(),
            j <= total,
            at == pos + 6 * j,
            pointers@ =~= Seq::new(
                j as nat,
                |m: int| tuple_pointer_decode(b@, pos + TUPLE_POINTER_SIZE * m),
            ),
        decreases total - j,
    {
        let page = crate::codec::read_u32_le(b, at);
        let offset = crate::codec::read_u16_le(b, at + 4);
        pointers.push(TuplePointer { page, offset });
        j += 1;
        at += 6;
    }
    let end = at;
    Ok((keys, pointers, end))
}

proof fn lemma_decode_keys_none(b: Seq<u8>, pos: int, m: nat, n: nat, ty: SType)
    requires
        m <= n,
        decode_keys(b, pos, m, ty) is None,
    ensures
        decode_keys(b, pos, n, ty) is None,
    decreases n,
{
    if n > m {
        lemma_decode_keys_none(b, pos, m, (n - 1) as nat, ty);
    }
}

/// Position of `key` among sorted keys: the number of keys at or below it.
pub open spec fn is_upper_bound(ks: Seq<SData>, key: SData, j: int) -> bool {
    &&& 0 <= j <= ks.len()
    &&& forall|i: int| 0 <= i < j ==> !sdata_lt(key, #[trigger] ks[i])
    &&& forall|i: int| j <= i < ks.len() ==> sdata_lt(key, #[trigger] ks[i])
}

/// Binary search over sorted keys: the number of keys at or below `key`, and
/// whether the last of them equals it. Fails on keys of another type than `key`.
pub fn search_keys(keys: &Vec<SData>, key: &SData) -> (r: Result<(usize, bool), String>)
    ensures
        keys@.len() > 0 && stype_of(keys@[0]) != stype_of(*key) ==> r is Err,
        keys_sorted(keys@) && (keys@.len() > 0 ==> stype_of(keys@[0]) == stype_of(*key)) ==> (
        r matches Ok(p) && is_upper_bound(keys@, *key, p.0 as int) && (p.1 <==> (p.0 > 0
            && !sdata_lt(keys@[p.0 - 1], *key)))),
        r matches Ok(p) ==> p.0 <= keys@.len() && (p.1 ==> p.0 > 0 && stype_of(keys@[p.0 - 1])
            == stype_of(*key) && !sdata_lt(keys@[p.0 - 1], *key) && !sdata_lt(
            *key,
            keys@[p.0 - 1],
        )),
{
    let ghost sorted = keys_sorted(keys@);
    let key_type = key.get_type();
    if keys.len() > 0 && keys[0].get_type() != key_type {
        return Err("Key type doesn't match the type of the node's keys".to_string());
    }
    let mut low: usize = 0;
    let mut high: usize = keys.len();
    while low < high
        invariant
            low <= high <= keys@.len(),
            key_type == stype_of(*key),
            sorted == keys_sorted(keys@),
            keys@.len() > 0 ==> stype_of(keys@[0]) == stype_of(*key),
            sorted ==> forall|i: int| 0 <= i < low ==> !sdata_lt(*key, #[trigger] keys@[i]),
            sorted ==> forall|i: int| high <= i < keys@.len() ==> sdata_lt(*key, #[trigger] keys@[i]),
        decreases high - low,
    {
        let mid = low + (high - low) / 2;
        if keys[mid].get_type() != key_type {
            return Err("Key type doesn't match the type of the node's keys".to_string());
        }
        let c = crate::order::compare_sdata(&keys[mid], key);
        if c > 0 {
            proof {
                if sorted {
                    assert forall|i: int| mid <= i < keys@.len() implies sdata_lt(
                        *key,
                        #[trigger] keys@[i],
                    ) by {
                        if i > mid {
                            lemma_sdata_lt_transitive(*key, keys@[mid as int], keys@[i]);
                        }
                    }
                }
            }
            high = mid;
        } else {
            proof {
                if sorted {
                    assert forall|i: int| 0 <= i <= mid implies !sdata_lt(
                        *key,
                        #[trigger] keys@[i],
                    ) by {
                        if i < mid && sdata_lt(*key, keys@[i]) {
                            lemma_sdata_lt_transitive(*key, keys@[i], keys@[mid as int]);
                        }
                    }
                }
            }
            low = mid + 1;
        }
    }
    if low == 0 {
        return Ok((0, false));
    }
    if keys[low - 1].get_type() != key_type {
        return Err("Key type doesn't match the type of the node's keys".to_string());
    }
    let c = crate::order::compare_sdata(&keys[low - 1], key);
    Ok((low, c == 0))
}

impl NewLeafNode {
    /// Whether `buffer` starts with a leaf node's type tag.
    pub fn buffer_fits_type(buffer: &mut &[u8]) -> (r: bool)
        ensures
            *final(buffer) == *old(buffer),
            r == (old(buffer)@.len() > 0 && old(buffer)@[0] == LEAF_NODE_TAG),
    {
        buffer.len() > 0 && buffer[0] == LEAF_NODE_TAG
    }

    /// Encodes the leaf; fails unless it has keys, all of one type, and one value per key.
    pub fn serialize(&self) -> (r: Result<Vec<u8>, String>)
        ensures
            r is Ok <==> node_writable(self.keys@, self.values@, 0),
            r matches Ok(b) ==> b@ == node_bytes(LEAF_NODE_TAG, self.keys@, self.values@),
    {
        write_node(LEAF_NODE_TAG, &self.keys, &self.values, 0)
    }

    /// Decodes a leaf at the front of `buffer` and moves `buffer` past it.
    pub fn deserialize(buffer: &mut &[u8]) -> (r: Result<NewLeafNode, String>)
        ensures
            r is Ok <==> decode_node(old(buffer)@, LEAF_NODE_TAG, 0) is Some,
            r is Err ==> *final(buffer) == *old(buffer),
            r matches Ok(n) ==> decode_node(old(buffer)@, LEAF_NODE_TAG, 0) matches Some(t) && t.0
                == keys_view(n.keys@) && t.1 == n.values@ && final(buffer)@ == old(
                buffer,
            )@.skip(t.2),
    {
        let b: &[u8] = *buffer;
        match read_node(b, LEAF_NODE_TAG, 0) {
            Ok((keys, values, end)) => {
                *buffer = &b[end..b.len()];
                Ok(NewLeafNode { keys, values })
            },
            Err(e) => Err(e),
        }
    }
}

impl NewLeafNode {
    /// Stores the encoded leaf as the next item of `page`, at its heap top.
    pub fn write_new_node_to_page(&self, page: Page) -> (r: Result<Page, String>)
        ensures
            r matches Ok(p) ==> node_writable(self.keys@, self.values@, 0) && p.data@ == with_item(
                page.data@,
                node_bytes(LEAF_NODE_TAG, self.keys@, self.values@),
                heap_top(page.data@),
            ) && p.from == page.from && p.page_number == page.page_number,
            page_wf(page.data@) && node_writable(self.keys@, self.values@, 0) && insert_pos(
                page.data@,
                node_bytes(LEAF_NODE_TAG, self.keys@, self.values@).len() as int,
            ) is Some ==> r is Ok,
    {
        if self.keys.len() == 0 {
            return Err("No keys in leaf".to_string());
        }
        if self.values.len() == 0 {
            return Err("No values in leaf".to_string());
        }
        let serialized = self.serialize()?;
        let mut page = page;
        proof {
            reveal(page_wf);
        }
        if page.data.len() < PAGE_HEADER_SIZE || serialized.len() > u16::MAX as usize {
            return Err("Node does not fit into the page".to_string());
        }
        let pos = match page.get_new_insert_pos(serialized.len() as u16) {
            Some(pos) => pos,
            None => return Err("Node does not fit into the page".to_string()),
        };
        let free = free_pointer_of(page.data.as_slice());
        let n = item_count_of(page.data.as_slice());
        if (pos as usize) < PAGE_HEADER_SIZE || (free as usize) > page.data.len() || n == u16::MAX {
            return Err("Page header is corrupt".to_string());
        }
        page.insert_tuple(&serialized, pos);
        Ok(page)
    }
}

impl NewInnerNode {
    /// Whether `buffer` starts with an internal node's type tag.
    pub fn buffer_fits_type(buffer: &mut &[u8]) -> (r: bool)
        ensures
            *final(buffer) == *old(buffer),
            r == (old(buffer)@.len() > 0 && old(buffer)@[0] == INTERNAL_NODE_TAG),
    {
        buffer.len() > 0 && buffer[0] == INTERNAL_NODE_TAG
    }

    /// Encodes the node; fails unless it has keys, all of one type, and one pointer
    /// more than keys.
    pub fn serialize(&self) -> (r: Result<Vec<u8>, String>)
        ensures
            r is Ok <==> node_writable(self.keys@, self.pointers@, 1),
            r matches Ok(b) ==> b@ == node_bytes(INTERNAL_NODE_TAG, self.keys@, self.pointers@),
    {
        write_node(INTERNAL_NODE_TAG, &self.keys, &self.pointers, 1)
    }

    /// Decodes an internal node at the front of `buffer` and moves `buffer` past it.
    pub fn deserialize(buffer: &mut &[u8]) -> (r: Result<NewInnerNode, String>)
        ensures
            r is Ok <==> decode_node(old(buffer)@, INTERNAL_NODE_TAG, 1) is Some,
            r is Err ==> *final(buffer) == *old(buffer),
            r matches Ok(n) ==> decode_node(old(buffer)@, INTERNAL_NODE_TAG, 1) matches Some(t)
                && t.0 == keys_view(n.keys@) && t.1 == n.pointers@ && final(buffer)@ == old(
                buffer,
            )@.skip(t.2),
    {
        let b: &[u8] = *buffer;
        match read_node(b, INTERNAL_NODE_TAG, 1) {
            Ok((keys, pointers, end)) => {
                *buffer = &b[end..b.len()];
                Ok(NewInnerNode { keys, pointers })
            },
            Err(e) => Err(e),
        }
    }

    /// The pointer to the child whose key range holds `key`: child `i` holds the
    /// keys from `keys[i - 1]` (included) up to `keys[i]` (excluded).
    pub fn get_node_pointer_for_key(&self, key: &SData) -> (r: Result<TuplePointer, String>)
        ensures
            self.keys@.len() > 0 && stype_of(self.keys@[0]) != stype_of(*key) ==> r is Err,
            keys_sorted(self.keys@) && (self.keys@.len() > 0 ==> stype_of(self.keys@[0])
                == stype_of(*key)) ==> (r is Ok <==> exists|j: int|
                is_upper_bound(self.keys@, *key, j) && j < self.pointers@.len()),
            keys_sorted(self.keys@) ==> (r matches Ok(p) ==> exists|j: int|
                is_upper_bound(self.keys@, *key, j) && j < self.pointers@.len() && p
                    == self.pointers@[j]),
    {
        let (index, _) = search_keys(&self.keys, key)?;
        proof {
            if keys_sorted(self.keys@) {
                assert forall|j: int| is_upper_bound(self.keys@, *key, j) implies j == index by {
                    if j < index {
                        assert(sdata_lt(*key, self.keys@[j]));
                    } else if j > index {
                        assert(sdata_lt(*key, self.keys@[index as int]));
                    }
                }
            }
        }
        if index < self.pointers.len() {
            Ok(self.pointers[index])
        } else {
            Err("Pointer not found".to_string())
        }
    }
}

/// Two values of one type, neither below the other, are the same value.
proof fn lemma_same_value(a: SData, b: SData)
    requires
        stype_of(a) == stype_of(b),
        !sdata_lt(a, b),
        !sdata_lt(b, a),
    ensures
        sdata_view(a) == sdata_view(b),
{
    lemma_sdata_trichotomy(a, b);
    match (a, b) {
        (SData::STRING(x), SData::STRING(y)) => {
            vstd::utf8::encode_utf8_decode_utf8(x@);
            vstd::utf8::encode_utf8_decode_utf8(y@);
        },
        _ => {},
    }
}

/// The order on value views: integers numerically, strings by their UTF-8 bytes.
pub open spec fn view_lt(a: SDataView, b: SDataView) -> bool {
    match (a, b) {
        (SDataView::Int(x), SDataView::Int(y)) => x < y,
        (SDataView::Str(x), SDataView::Str(y)) => lex_lt(
            vstd::utf8::encode_utf8(x),
            vstd::utf8::encode_utf8(y),
        ),
        _ => false,
    }
}

pub open spec fn same_kind(a: SDataView, b: SDataView) -> bool {
    (a is Int && b is Int) || (a is Str && b is Str)
}

/// Decoded keys, all of one type and strictly ascending.
pub open spec fn views_sorted(vs: Seq<SDataView>) -> bool {
    &&& forall|i: int| 0 <= i < vs.len() ==> same_kind(#[trigger] vs[i], vs[0])
    &&& forall|i: int, j: int| 0 <= i < j < vs.len() ==> view_lt(#[trigger] vs[i], #[trigger] vs[j])
}

proof fn lemma_decode_keys_len(b: Seq<u8>, pos: int, n: nat, ty: SType)
    ensures
        decode_keys(b, pos, n, ty) matches Some(r) ==> r.0.len() == n,
    decreases n,
{
    if n > 0 {
        lemma_decode_keys_len(b, pos, (n - 1) as nat, ty);
    }
}

proof fn lemma_view_order(a: SData, b: SData)
    ensures
        sdata_lt(a, b) == view_lt(sdata_view(a), sdata_view(b)),
        same_kind(sdata_view(a), sdata_view(b)) == (stype_of(a) == stype_of(b)),
{
}

proof fn lemma_view_irreflexive(a: SDataView)
    ensures
        !view_lt(a, a),
{
    if let SDataView::Str(x) = a {
        lemma_lex_irreflexive(vstd::utf8::encode_utf8(x));
    }
}

impl NewPage {
    /// Looks `key` up in the leaf node that the page holds from its first byte on.
    pub fn get_leaf_node_pointer(page: &NewPage, key: &SData, key_type: &SType) -> (r: Result<
        TuplePointer,
        String,
    >)
        ensures
            r is Ok ==> page.data@[0] == LEAF_NODE_TAG && stype_of(*key) == *key_type,
            r matches Ok(p) ==> decode_node(page.data@, LEAF_NODE_TAG, 0) matches Some(t) && exists|
                i: int,
            | 0 <= i < t.1.len() && i < t.0.len() && p == t.1[i] && t.0[i] == sdata_view(*key),
            (decode_node(page.data@, LEAF_NODE_TAG, 0) matches Some(t) && stype_of(*key) == *key_type
                && views_sorted(t.0) && exists|i: int|
                0 <= i < t.0.len() && t.0[i] == sdata_view(*key)) ==> r is Ok,
    {
        if !page.is_page_leaf_type() {
            return Err("Page is not leaf".to_string());
        }
        if key.get_type() != *key_type {
            return Err("Key type doesn't match with type of given key".to_string());
        }
        let mut buffer: &[u8] = page.data.as_slice();
        let leaf = NewLeafNode::deserialize(&mut buffer)?;
        let ghost ks = leaf.keys@;
        proof {
            let t = decode_node(page.data@, LEAF_NODE_TAG, 0).unwrap();
            if views_sorted(t.0) && exists|i: int| 0 <= i < t.0.len() && t.0[i] == sdata_view(*key) {
                assert(t.0 == keys_view(ks));
                assert forall|i: int| 0 <= i < ks.len() implies stype_of(#[trigger] ks[i]) == stype_of(ks[0]) by {
                    assert(t.0[i] == sdata_view(ks[i]));
                    assert(t.0[0] == sdata_view(ks[0]));
                    lemma_view_order(ks[i], ks[0]);
                }
                assert forall|i: int, j: int| 0 <= i < j < ks.len() implies sdata_lt(#[trigger] ks[i], #[trigger] ks[j]) by {
                    assert(t.0[i] == sdata_view(ks[i]));
                    assert(t.0[j] == sdata_view(ks[j]));
                    lemma_view_order(ks[i], ks[j]);
                }
                let i = choose|i: int| 0 <= i < t.0.len() && t.0[i] == sdata_view(*key);
                assert(t.0[i] == sdata_view(ks[i]));
                lemma_view_order(ks[i], *key);
                assert(t.0[0] == sdata_view(ks[0]));
                lemma_view_order(ks[0], ks[i]);
                assert(stype_of(ks[0]) == stype_of(*key));
            }
        }
        let (j, found) = search_keys(&leaf.keys, key)?;
        proof {
            let t = decode_node(page.data@, LEAF_NODE_TAG, 0).unwrap();
            if views_sorted(t.0) && exists|i: int| 0 <= i < t.0.len() && t.0[i] == sdata_view(*key) {
                let i = choose|i: int| 0 <= i < t.0.len() && t.0[i] == sdata_view(*key);
                assert(t.0[i] == sdata_view(ks[i]));
                lemma_view_order(ks[i], *key);
                lemma_view_order(*key, ks[i]);
                lemma_view_irreflexive(sdata_view(*key));
                assert(!sdata_lt(*key, ks[i]));
                assert(i < j);
                if sdata_lt(ks[j - 1], *key) {
                    if i < j - 1 {
                        lemma_sdata_lt_transitive(ks[i], ks[j - 1], *key);
                    }
                    assert(false);
                }
                assert(found);
                let b = page.data@;
                let ty = if b[1] == 0 { SType::INT } else { SType::STRING };
                lemma_decode_keys_len(b, 6, word_at(b, 2) as nat, ty);
                assert(t.1.len() == t.0.len());
            }
        }
        if found && j - 1 < leaf.values.len() {
            proof {
                lemma_same_value(leaf.keys@[j - 1], *key);
            }
            Ok(leaf.values[j - 1])
        } else {
            Err("Key not found".to_string())
        }
    }
}

} // verus!
