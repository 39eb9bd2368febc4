//! The order in which the branches of a node are kept: by the UTF-8 bytes of
//! their components, compared lexicographically.
use vstd::prelude::*;
use vstd::utf8::{encode_utf8, encode_utf8_decode_utf8};

verus! {

/// `a` comes strictly before `b` in lexicographic byte order.
pub open spec fn bytes_lt(a: Seq<u8>, b: Seq<u8>) -> bool
    decreases a.len(),
{
    if a.len() == 0 {
        b.len() > 0
    } else if b.len() == 0 {
        false
    } else if a[0] < b[0] {
        true
    } else if a[0] == b[0] {
        bytes_lt(a.drop_first(), b.drop_first())
    } else {
        false
    }
}

/// Component `a` comes strictly before component `b`.
pub open spec fn seg_lt(a: Seq<char>, b: Seq<char>) -> bool {
    bytes_lt(encode_utf8(a), encode_utf8(b))
}

pub proof fn lemma_bytes_lt_irreflexive(a: Seq<u8>)
    ensures
        !bytes_lt(a, a),
    decreases a.len(),
{
    if a.len() > 0 {
        lemma_bytes_lt_irreflexive(a.drop_first());
    }
}

pub proof fn lemma_bytes_lt_transitive(a: Seq<u8>, b: Seq<u8>, c: Seq<u8>)
    requires
        bytes_lt(a, b),
        bytes_lt(b, c),
    ensures
        bytes_lt(a, c),
    decreases a.len(),
{
    if a.len() > 0 && b.len() > 0 && c.len() > 0 && a[0] == b[0] && b[0] == c[0] {
        lemma_bytes_lt_transitive(a.drop_first(), b.drop_first(), c.drop_first());
    }
}

pub proof fn lemma_bytes_lt_total(a: Seq<u8>, b: Seq<u8>)
    requires
        a != b,
    ensures
        bytes_lt(a, b) || bytes_lt(b, a),
    decreases a.len(),
{
    if a.len() > 0 && b.len() > 0 && a[0] == b[0] {
        if a.drop_first() == b.drop_first() {
            assert(a =~= seq![a[0]] + a.drop_first());
            assert(b =~= seq![b[0]] + b.drop_first());
        }
        lemma_bytes_lt_total(a.drop_first(), b.drop_first());
    } else if a.len() == 0 && b.len() == 0 {
        assert(a =~= b);
    }
}

/// Past a common prefix of length `i`, the order is decided by what follows.
pub proof fn lemma_bytes_lt_skip(a: Seq<u8>, b: Seq<u8>, i: int)
    requires
        0 <= i <= a.len(),
        i <= b.len(),
        a.subrange(0, i) == b.subrange(0, i),
    ensures
        bytes_lt(a, b) == bytes_lt(a.subrange(i, a.len() as int), b.subrange(i, b.len() as int)),
    decreases i,
{
    if i > 0 {
        assert(a[0] == a.subrange(0, i)[0]);
        assert(b[0] == b.subrange(0, i)[0]);
        assert(a.drop_first().subrange(0, i - 1) =~= a.subrange(0, i).drop_first());
        assert(b.drop_first().subrange(0, i - 1) =~= b.subrange(0, i).drop_first());
        lemma_bytes_lt_skip(a.drop_first(), b.drop_first(), i - 1);
        assert(a.drop_first().subrange(i - 1, a.len() - 1) =~= a.subrange(i, a.len() as int));
        assert(b.drop_first().subrange(i - 1, b.len() - 1) =~= b.subrange(i, b.len() as int));
    } else {
        assert(a.subrange(0, a.len() as int) =~= a);
        assert(b.subrange(0, b.len() as int) =~= b);
    }
}

/// The order on components is a strict total order.
pub proof fn lemma_seg_order(a: Seq<char>, b: Seq<char>, c: Seq<char>)
    ensures
        !seg_lt(a, a),
        seg_lt(a, b) && seg_lt(b, c) ==> seg_lt(a, c),
        a != b ==> seg_lt(a, b) || seg_lt(b, a),
        seg_lt(a, b) ==> a != b && !seg_lt(b, a),
{
    lemma_bytes_lt_irreflexive(encode_utf8(a));
    if seg_lt(a, b) && seg_lt(b, c) {
        lemma_bytes_lt_transitive(encode_utf8(a), encode_utf8(b), encode_utf8(c));
    }
    if a != b {
        encode_utf8_decode_utf8(a);
        encode_utf8_decode_utf8(b);
        lemma_bytes_lt_total(encode_utf8(a), encode_utf8(b));
    }
    if seg_lt(a, b) && seg_lt(b, a) {
        lemma_bytes_lt_transitive(encode_utf8(a), encode_utf8(b), encode_utf8(a));
    }
}

/// `xs` is in strictly increasing order of components.
pub open spec fn strictly_sorted(xs: Seq<Seq<char>>) -> bool {
    forall|i: int, j: int| 0 <= i < j < xs.len() ==> seg_lt(xs[i], xs[j])
}

/// Two strictly increasing sequences of components that hold the same
/// components are the same sequence.
pub proof fn lemma_sorted_unique(xs: Seq<Seq<char>>, ys: Seq<Seq<char>>)
    requires
        strictly_sorted(xs),
        strictly_sorted(ys),
        forall|c: Seq<char>| xs.contains(c) <==> ys.contains(c),
    ensures
        xs == ys,
    decreases xs.len(),
{
    if xs.len() == 0 {
        if ys.len() > 0 {
            assert(ys.contains(ys[0]));
        }
        assert(xs =~= ys);
    } else {
        assert(xs.contains(xs[0]));
        assert(ys.len() > 0);
        assert(ys.contains(ys[0]));
        let i = choose|i: int| 0 <= i < ys.len() && ys[i] == xs[0];
        let j = choose|j: int| 0 <= j < xs.len() && xs[j] == ys[0];
        if i > 0 && j > 0 {
            lemma_seg_order(ys[0], ys[i], xs[j]);
            lemma_seg_order(xs[0], xs[j], ys[i]);
        } else if i > 0 {
            lemma_seg_order(ys[0], ys[i], ys[i]);
        } else if j > 0 {
            lemma_seg_order(xs[0], xs[j], xs[j]);
        }
        assert(xs[0] == ys[0]);
        let xt = xs.drop_first();
        let yt = ys.drop_first();
        assert forall|c: Seq<char>| xt.contains(c) <==> yt.contains(c) by {
            if xt.contains(c) {
                let k = choose|k: int| 0 <= k < xt.len() && xt[k] == c;
                assert(xs[k + 1] == c);
                assert(xs.contains(c));
                let m = choose|m: int| 0 <= m < ys.len() && ys[m] == c;
                lemma_seg_order(xs[0], c, c);
                if m == 0 {
                    assert(false);
                }
                assert(yt[m - 1] == c);
            }
            if yt.contains(c) {
                let k = choose|k: int| 0 <= k < yt.len() && yt[k] == c;
                assert(ys[k + 1] == c);
                assert(ys.contains(c));
                let m = choose|m: int| 0 <= m < xs.len() && xs[m] == c;
                lemma_seg_order(ys[0], c, c);
                if m == 0 {
                    assert(false);
                }
                assert(xt[m - 1] == c);
            }
        }
        lemma_sorted_unique(xt, yt);
        assert(xs =~= seq![xs[0]] + xt);
        assert(ys =~= seq![ys[0]] + yt);
    }
}

/// Compares two byte strings: negative, zero or positive as `a` comes before,
/// equals or comes after `b`.
pub fn compare_bytes(a: &[u8], b: &[u8]) -> (r: i8)
    ensures
        r < 0 <==> bytes_lt(a@, b@),
        r > 0 <==> bytes_lt(b@, a@),
        r == 0 <==> a@ == b@,
{
    let mut i: usize = 0;
    while i < a.len() && i < b.len() && a[i] == b[i]
        invariant
            i <= a@.len(),
            i <= b@.len(),
            a@.subrange(0, i as int) == b@.subrange(0, i as int),
        decreases a@.len() - i,
    {
        proof {
            assert(a@.subrange(0, i + 1) =~= a@.subrange(0, i as int).push(a@[i as int]));
            assert(b@.subrange(0, i + 1) =~= b@.subrange(0, i as int).push(b@[i as int]));
        }
        i = i + 1;
    }
    proof {
        lemma_bytes_lt_skip(a@, b@, i as int);
        lemma_bytes_lt_skip(b@, a@, i as int);
        lemma_bytes_lt_irreflexive(a@);
    }
    let ghost ra = a@.subrange(i as int, a@.len() as int);
    let ghost rb = b@.subrange(i as int, b@.len() as int);
    if i == a.len() && i == b.len() {
        assert(a@ =~= a@.subrange(0, i as int));
        assert(b@ =~= b@.subrange(0, i as int));
        0
    } else if i == a.len() {
        assert(ra.len() == 0 && rb.len() > 0);
        assert(a@.len() != b@.len());
        -1
    } else if i == b.len() {
        assert(rb.len() == 0 && ra.len() > 0);
        assert(a@.len() != b@.len());
        1
    } else if a[i] < b[i] {
        assert(ra[0] == a@[i as int] && rb[0] == b@[i as int]);
        assert(a@[i as int] != b@[i as int]);
        -1
    } else {
        assert(ra[0] == a@[i as int] && rb[0] == b@[i as int]);
        assert(a@[i as int] != b@[i as int]);
        1
    }
}

/// Compares two components in the order of `seg_lt`.
pub fn compare_segments(a: &String, b: &String) -> (r: i8)
    ensures
        r < 0 <==> seg_lt(a@, b@),
        r > 0 <==> seg_lt(b@, a@),
        r == 0 <==> a@ == b@,
{
    let x = a.as_str().as_bytes();
    let y = b.as_str().as_bytes();
    proof {
        encode_utf8_decode_utf8(a@);
        encode_utf8_decode_utf8(b@);
    }
    compare_bytes(x, y)
}

} // verus!
