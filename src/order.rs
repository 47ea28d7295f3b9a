//! The order on typed values: integers numerically, strings by their UTF-8 bytes.
use vstd::prelude::*;
use vstd::utf8::*;
use crate::codec::{SData, stype_of};

verus! {

/// Lexicographic order on byte sequences.
pub open spec fn lex_lt(a: Seq<u8>, b: Seq<u8>) -> bool
    decreases a.len(),
{
    if a.len() == 0 {
        b.len() > 0
    } else if b.len() == 0 {
        false
    } else if a[0] != b[0] {
        a[0] < b[0]
    } else {
        lex_lt(a.drop_first(), b.drop_first())
    }
}

/// `a` orders before `b`; values of different types are unordered.
pub open spec fn sdata_lt(a: SData, b: SData) -> bool {
    match (a, b) {
        (SData::INT(x), SData::INT(y)) => x < y,
        (SData::STRING(x), SData::STRING(y)) => lex_lt(encode_utf8(x@), encode_utf8(y@)),
        _ => false,
    }
}

/// `ks` is strictly ascending, all of one type.
pub open spec fn keys_sorted(ks: Seq<SData>) -> bool {
    &&& forall|i: int| 0 <= i < ks.len() ==> stype_of(#[trigger] ks[i]) == stype_of(ks[0])
    &&& forall|i: int, j: int| 0 <= i < j < ks.len() ==> sdata_lt(#[trigger] ks[i], #[trigger] ks[j])
}

pub proof fn lemma_lex_irreflexive(a: Seq<u8>)
    ensures
        !lex_lt(a, a),
    decreases a.len(),
{
    if a.len() > 0 {
        lemma_lex_irreflexive(a.drop_first());
    }
}

pub proof fn lemma_lex_trichotomy(a: Seq<u8>, b: Seq<u8>)
    ensures
        lex_lt(a, b) || lex_lt(b, a) || a == b,
        !(lex_lt(a, b) && lex_lt(b, a)),
    decreases a.len(),
{
    if a.len() > 0 && b.len() > 0 && a[0] == b[0] {
        lemma_lex_trichotomy(a.drop_first(), b.drop_first());
        if a.drop_first() == b.drop_first() {
            assert(a =~= seq![a[0]] + a.drop_first());
            assert(b =~= seq![b[0]] + b.drop_first());
        }
    } else if a.len() == 0 && b.len() == 0 {
        assert(a =~= b);
    }
}

pub proof fn lemma_lex_transitive(a: Seq<u8>, b: Seq<u8>, c: Seq<u8>)
    requires
        lex_lt(a, b),
        lex_lt(b, c),
    ensures
        lex_lt(a, c),
    decreases a.len(),
{
    if a.len() > 0 && b.len() > 0 && c.len() > 0 && a[0] == b[0] && b[0] == c[0] {
        lemma_lex_transitive(a.drop_first(), b.drop_first(), c.drop_first());
    }
}

pub proof fn lemma_sdata_lt_transitive(a: SData, b: SData, c: SData)
    requires
        sdata_lt(a, b),
        sdata_lt(b, c),
    ensures
        sdata_lt(a, c),
{
    match (a, b, c) {
        (SData::STRING(x), SData::STRING(y), SData::STRING(z)) => {
            lemma_lex_transitive(encode_utf8(x@), encode_utf8(y@), encode_utf8(z@));
        },
        _ => {},
    }
}

/// Of two values of one type, exactly one of `<`, `>`, same holds.
pub proof fn lemma_sdata_trichotomy(a: SData, b: SData)
    requires
        stype_of(a) == stype_of(b),
    ensures
        !(sdata_lt(a, b) && sdata_lt(b, a)),
        !sdata_lt(a, b) && !sdata_lt(b, a) ==> match (a, b) {
            (SData::INT(x), SData::INT(y)) => x == y,
            (SData::STRING(x), SData::STRING(y)) => encode_utf8(x@) == encode_utf8(y@),
            _ => false,
        },
{
    match (a, b) {
        (SData::STRING(x), SData::STRING(y)) => {
            lemma_lex_trichotomy(encode_utf8(x@), encode_utf8(y@));
        },
        _ => {},
    }
}

/// Three-way comparison of byte strings: negative, zero or positive.
pub fn compare_bytes(a: &[u8], b: &[u8]) -> (r: i8)
    ensures
        r < 0 <==> lex_lt(a@, b@),
        r > 0 <==> lex_lt(b@, a@),
        r == 0 <==> a@ == b@,
{
    let mut i: usize = 0;
    assert(a@.skip(0) =~= a@);
    assert(b@.skip(0) =~= b@);
    while i < a.len() && i < b.len() && a[i] == b[i]
        invariant
            i <= a@.len(),
            i <= b@.len(),
            a@.subrange(0, i as int) == b@.subrange(0, i as int),
            lex_lt(a@, b@) == lex_lt(a@.skip(i as int), b@.skip(i as int)),
            lex_lt(b@, a@) == lex_lt(b@.skip(i as int), a@.skip(i as int)),
        decreases a@.len() - i,
    {
        assert(a@.skip(i as int).drop_first() =~= a@.skip(i + 1));
        assert(b@.skip(i as int).drop_first() =~= b@.skip(i + 1));
        assert(a@.subrange(0, i + 1) =~= a@.subrange(0, i as int).push(a@[i as int]));
        assert(b@.subrange(0, i + 1) =~= b@.subrange(0, i as int).push(b@[i as int]));
        i += 1;
    }
    if i < a.len() && i < b.len() {
        if a[i] < b[i] {
            -1
        } else {
            1
        }
    } else if i < b.len() {
        assert(a@ =~= a@.subrange(0, i as int));
        -1
    } else if i < a.len() {
        assert(b@ =~= b@.subrange(0, i as int));
        1
    } else {
        assert(a@ =~= a@.subrange(0, i as int));
        assert(b@ =~= b@.subrange(0, i as int));
        proof {
            lemma_lex_irreflexive(a@);
        }
        0
    }
}

/// Three-way comparison of two values of one type.
pub fn compare_sdata(a: &SData, b: &SData) -> (r: i8)
    requires
        stype_of(*a) == stype_of(*b),
    ensures
        r < 0 <==> sdata_lt(*a, *b),
        r > 0 <==> sdata_lt(*b, *a),
{
    match (a, b) {
        (SData::INT(x), SData::INT(y)) => if *x < *y {
            -1
        } else if *x > *y {
            1
        } else {
            0
        },
        (SData::STRING(x), SData::STRING(y)) => compare_bytes(x.as_str().as_bytes(), y.as_str().as_bytes()),
        _ => 0,
    }
}

} // verus!
