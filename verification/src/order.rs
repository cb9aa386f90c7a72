//! The order of texts by their bytes.
use vstd::prelude::*;
use vstd::utf8::{encode_utf8, encode_utf8_decode_utf8};

verus! {

/// Whether `x` comes before `y` in lexicographic order.
pub open spec fn bytes_before(x: Seq<u8>, y: Seq<u8>) -> bool
    decreases x.len(),
{
    if y.len() == 0 {
        false
    } else if x.len() == 0 {
        true
    } else if x[0] == y[0] {
        bytes_before(x.skip(1), y.skip(1))
    } else {
        x[0] < y[0]
    }
}

/// Whether the text `a` comes before `b`: byte by byte, as UTF-8.
pub open spec fn before(a: Seq<char>, b: Seq<char>) -> bool {
    bytes_before(encode_utf8(a), encode_utf8(b))
}

proof fn lemma_bytes_order(x: Seq<u8>, y: Seq<u8>, z: Seq<u8>)
    ensures
        !bytes_before(x, x),
        bytes_before(x, y) && bytes_before(y, z) ==> bytes_before(x, z),
        bytes_before(x, y) || bytes_before(y, x) || x == y,
    decreases x.len(),
{
    if x.len() > 0 {
        lemma_bytes_order(x.skip(1), y.skip(1), z.skip(1));
        if y.len() > 0 && x[0] == y[0] && x.skip(1) == y.skip(1) {
            assert(x =~= seq![x[0]] + x.skip(1));
            assert(y =~= seq![y[0]] + y.skip(1));
        }
    } else if y.len() == 0 {
        assert(x =~= y);
    }
}

/// The order of texts is strict and total.
pub proof fn law_order(a: Seq<char>, b: Seq<char>, c: Seq<char>)
    ensures
        !before(a, a),
        before(a, b) && before(b, c) ==> before(a, c),
        before(a, b) || before(b, a) || a == b,
{
    lemma_bytes_order(encode_utf8(a), encode_utf8(b), encode_utf8(c));
    encode_utf8_decode_utf8(a);
    encode_utf8_decode_utf8(b);
}

/// Tells whether `a` comes before `b`.
pub fn is_before(a: &str, b: &str) -> (r: bool)
    ensures
        r == before(a@, b@),
{
    let x = a.as_bytes();
    let y = b.as_bytes();
    let mut i: usize = 0;
    assert(x@.skip(0) =~= x@);
    assert(y@.skip(0) =~= y@);
    while i < x.len() && i < y.len()
        invariant
            i <= x@.len(),
            i <= y@.len(),
            x@ == encode_utf8(a@),
            y@ == encode_utf8(b@),
            before(a@, b@) == bytes_before(x@.skip(i as int), y@.skip(i as int)),
        decreases x@.len() - i,
    {
        if x[i] != y[i] {
            return x[i] < y[i];
        }
        assert(x@.skip(i as int).skip(1) =~= x@.skip(i + 1));
        assert(y@.skip(i as int).skip(1) =~= y@.skip(i + 1));
        i += 1;
    }
    i < y.len()
}

/// The first byte in which two texts differ decides which comes before the other; a text comes
/// before one that it is the start of.
pub proof fn law_first_difference(a: Seq<char>, b: Seq<char>, i: int)
    requires
        0 <= i <= encode_utf8(a).len(),
        i < encode_utf8(b).len(),
        encode_utf8(a).take(i) == encode_utf8(b).take(i),
        i < encode_utf8(a).len() ==> encode_utf8(a)[i] < encode_utf8(b)[i],
    ensures
        before(a, b),
        !before(b, a),
{
    lemma_first_byte_difference(encode_utf8(a), encode_utf8(b), i);
}

proof fn lemma_first_byte_difference(x: Seq<u8>, y: Seq<u8>, i: int)
    requires
        0 <= i <= x.len(),
        i < y.len(),
        x.take(i) == y.take(i),
        i < x.len() ==> x[i] < y[i],
    ensures
        bytes_before(x, y),
        !bytes_before(y, x),
    decreases i,
{
    if i > 0 {
        assert(x[0] == x.take(i)[0] && y[0] == y.take(i)[0]);
        assert(x.skip(1).take(i - 1) =~= x.take(i).skip(1));
        assert(y.skip(1).take(i - 1) =~= y.take(i).skip(1));
        lemma_first_byte_difference(x.skip(1), y.skip(1), i - 1);
    }
}

} // verus!
