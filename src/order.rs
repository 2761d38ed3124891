//! The stable order in which a report is stored: snapshots by path, and
//! components by name, then version, comparing the texts' UTF-8 bytes.

use vstd::prelude::*;
use vstd::utf8::encode_utf8;
use vstd::string::StringSliceAdditionalSpecFns;
use crate::soup::{Soup, SoupContext};

verus! {

broadcast use vstd::seq_lib::group_to_multiset_ensures, vstd::multiset::group_multiset_axioms;

/// `a` comes before `b`, or equals it, in lexicographic byte order.
pub open spec fn bytes_le(a: Seq<u8>, b: Seq<u8>) -> bool
    decreases a.len(),
{
    if a.len() == 0 {
        true
    } else if b.len() == 0 {
        false
    } else if a[0] != b[0] {
        a[0] < b[0]
    } else {
        bytes_le(a.drop_first(), b.drop_first())
    }
}

/// Text `a` comes before `b`, or equals it, as `String`'s order has it.
pub open spec fn text_le(a: Seq<char>, b: Seq<char>) -> bool {
    bytes_le(encode_utf8(a), encode_utf8(b))
}

/// Component `x` may stand before `y`: by name, then by version.
pub open spec fn soup_le(x: Soup, y: Soup) -> bool {
    if encode_utf8(x.name@) == encode_utf8(y.name@) {
        text_le(x.version@, y.version@)
    } else {
        text_le(x.name@, y.name@)
    }
}

/// Snapshot `x` may stand before `y`: by path.
pub open spec fn context_le(x: SoupContext, y: SoupContext) -> bool {
    text_le(x.path@, y.path@)
}

pub proof fn lemma_bytes_le_total(a: Seq<u8>, b: Seq<u8>)
    ensures
        bytes_le(a, b) || bytes_le(b, a),
    decreases a.len(),
{
    if a.len() > 0 && b.len() > 0 && a[0] == b[0] {
        lemma_bytes_le_total(a.drop_first(), b.drop_first());
    }
}

pub proof fn lemma_bytes_le_trans(a: Seq<u8>, b: Seq<u8>, c: Seq<u8>)
    requires
        bytes_le(a, b),
        bytes_le(b, c),
    ensures
        bytes_le(a, c),
    decreases a.len(),
{
    if a.len() > 0 && b.len() > 0 && c.len() > 0 && a[0] == b[0] && b[0] == c[0] {
        lemma_bytes_le_trans(a.drop_first(), b.drop_first(), c.drop_first());
    }
}

pub proof fn lemma_bytes_le_antisym(a: Seq<u8>, b: Seq<u8>)
    requires
        bytes_le(a, b),
        bytes_le(b, a),
    ensures
        a == b,
    decreases a.len(),
{
    if a.len() > 0 && b.len() > 0 {
        lemma_bytes_le_antisym(a.drop_first(), b.drop_first());
        assert forall|i: int| 0 <= i < a.len() implies a[i] == b[i] by {
            if i > 0 {
                assert(a[i] == a.drop_first()[i - 1]);
                assert(b[i] == b.drop_first()[i - 1]);
            }
        }
        assert(a =~= b);
    } else {
        assert(a =~= b);
    }
}

proof fn lemma_soup_le_total(x: Soup, y: Soup)
    ensures
        soup_le(x, y) || soup_le(y, x),
{
    lemma_bytes_le_total(encode_utf8(x.name@), encode_utf8(y.name@));
    lemma_bytes_le_total(encode_utf8(x.version@), encode_utf8(y.version@));
}

proof fn lemma_soup_le_trans(x: Soup, y: Soup, z: Soup)
    requires
        soup_le(x, y),
        soup_le(y, z),
    ensures
        soup_le(x, z),
{
    let (a, b, c) = (encode_utf8(x.name@), encode_utf8(y.name@), encode_utf8(z.name@));
    if a == b && b == c {
        lemma_bytes_le_trans(encode_utf8(x.version@), encode_utf8(y.version@), encode_utf8(z.version@));
    } else if a == b || b == c {
    } else {
        lemma_bytes_le_trans(a, b, c);
        if a == c {
            lemma_bytes_le_antisym(a, b);
        }
    }
}

fn bytes_le_exec(a: &[u8], b: &[u8]) -> (r: bool)
    ensures
        r == bytes_le(a@, b@),
{
    let mut i: usize = 0;
    assert(a@.subrange(0, a@.len() as int) =~= a@);
    assert(b@.subrange(0, b@.len() as int) =~= b@);
    while i < a.len() && i < b.len()
        invariant
            i <= a@.len(),
            i <= b@.len(),
            bytes_le(a@, b@) == bytes_le(a@.subrange(i as int, a@.len() as int), b@.subrange(i as int, b@.len() as int)),
        decreases a@.len() - i,
    {
        let ghost (sa, sb) = (a@.subrange(i as int, a@.len() as int), b@.subrange(i as int, b@.len() as int));
        assert(sa[0] == a@[i as int] && sb[0] == b@[i as int]);
        if a[i] != b[i] {
            return a[i] < b[i];
        }
        assert(sa.drop_first() =~= a@.subrange(i + 1, a@.len() as int));
        assert(sb.drop_first() =~= b@.subrange(i + 1, b@.len() as int));
        i = i + 1;
    }
    i == a.len()
}

fn text_le_exec(a: &String, b: &String) -> (r: bool)
    ensures
        r == text_le(a@, b@),
{
    bytes_le_exec(a.as_str().as_bytes(), b.as_str().as_bytes())
}

fn text_eq_exec(a: &String, b: &String) -> (r: bool)
    ensures
        r == (encode_utf8(a@) == encode_utf8(b@)),
{
    let r = *a == *b;
    proof {
        if !r && encode_utf8(a@) == encode_utf8(b@) {
            vstd::utf8::encode_utf8_decode_utf8(a@);
            vstd::utf8::encode_utf8_decode_utf8(b@);
        }
    }
    r
}

fn soup_le_exec(x: &Soup, y: &Soup) -> (r: bool)
    ensures
        r == soup_le(*x, *y),
{
    if text_eq_exec(&x.name, &y.name) {
        text_le_exec(&x.version, &y.version)
    } else {
        text_le_exec(&x.name, &y.name)
    }
}

/// The components in stored order: by name, then by version; components
/// that compare equal keep their relative order.
pub fn sort_soups(v: Vec<Soup>) -> (r: Vec<Soup>)
    ensures
        r@.to_multiset() == v@.to_multiset(),
        forall|i: int, j: int| 0 <= i < j < r@.len() ==> soup_le(r@[i], r@[j]),
{
    let ghost v0 = v@;
    let mut v = v;
    let mut r: Vec<Soup> = Vec::new();
    while v.len() > 0
        invariant
            r@.to_multiset().add(v@.to_multiset()) == v0.to_multiset(),
            forall|i: int, j: int| 0 <= i < j < r@.len() ==> soup_le(r@[i], r@[j]),
        decreases v@.len(),
    {
        let ghost (r1, v1) = (r@, v@);
        let x = v.remove(0);
        let mut p: usize = 0;
        while p < r.len() && soup_le_exec(&r[p], &x)
            invariant
                p <= r@.len(),
                r@ == r1,
                forall|i: int| 0 <= i < p ==> soup_le(r@[i], x),
            decreases r@.len() - p,
        {
            p = p + 1;
        }
        proof {
            if p < r@.len() {
                lemma_soup_le_total(r@[p as int], x);
                assert forall|j: int| p <= j < r@.len() implies soup_le(x, r@[j]) by {
                    if j > p {
                        lemma_soup_le_trans(x, r@[p as int], r@[j]);
                    }
                }
            }
        }
        r.insert(p, x);
        proof {
            assert(r@ == r1.insert(p as int, x));
            assert forall|i: int, j: int| 0 <= i < j < r@.len() implies soup_le(r@[i], r@[j]) by {
                if i < p && j < p {
                    assert(r@[i] == r1[i] && r@[j] == r1[j]);
                } else if i < p && j == p {
                } else if i < p && j > p {
                    assert(r@[i] == r1[i] && r@[j] == r1[j - 1]);
                } else if i == p {
                    assert(r@[j] == r1[j - 1]);
                } else {
                    assert(r@[i] == r1[i - 1] && r@[j] == r1[j - 1]);
                }
            }
            assert(v1.remove(0) == v@);
            assert(r@.to_multiset().add(v@.to_multiset()) =~= v0.to_multiset());
        }
    }
    assert(v@.to_multiset() =~= vstd::multiset::Multiset::empty());
    assert(r@.to_multiset() =~= v0.to_multiset());
    r
}

/// The snapshots in stored order: by path; snapshots that compare equal
/// keep their relative order.
pub fn sort_contexts(v: Vec<SoupContext>) -> (r: Vec<SoupContext>)
    ensures
        r@.to_multiset() == v@.to_multiset(),
        forall|i: int, j: int| 0 <= i < j < r@.len() ==> context_le(r@[i], r@[j]),
{
    let ghost v0 = v@;
    let mut v = v;
    let mut r: Vec<SoupContext> = Vec::new();
    while v.len() > 0
        invariant
            r@.to_multiset().add(v@.to_multiset()) == v0.to_multiset(),
            forall|i: int, j: int| 0 <= i < j < r@.len() ==> context_le(r@[i], r@[j]),
        decreases v@.len(),
    {
        let ghost (r1, v1) = (r@, v@);
        let x = v.remove(0);
        let mut p: usize = 0;
        while p < r.len() && text_le_exec(&r[p].path, &x.path)
            invariant
                p <= r@.len(),
                r@ == r1,
                forall|i: int| 0 <= i < p ==> context_le(r@[i], x),
            decreases r@.len() - p,
        {
            p = p + 1;
        }
        proof {
            if p < r@.len() {
                lemma_bytes_le_total(encode_utf8(r@[p as int].path@), encode_utf8(x.path@));
                assert forall|j: int| p <= j < r@.len() implies context_le(x, r@[j]) by {
                    if j > p {
                        assert(context_le(r@[p as int], r@[j]));
                        lemma_bytes_le_trans(encode_utf8(x.path@), encode_utf8(r@[p as int].path@), encode_utf8(r@[j].path@));
                    }
                }
            }
        }
        r.insert(p, x);
        proof {
            assert(r@ == r1.insert(p as int, x));
            assert forall|i: int, j: int| 0 <= i < j < r@.len() implies context_le(r@[i], r@[j]) by {
                if i < p && j < p {
                    assert(r@[i] == r1[i] && r@[j] == r1[j]);
                } else if i < p && j == p {
                } else if i < p && j > p {
                    assert(r@[i] == r1[i] && r@[j] == r1[j - 1]);
                } else if i == p {
                    assert(r@[j] == r1[j - 1]);
                } else {
                    assert(r@[i] == r1[i - 1] && r@[j] == r1[j - 1]);
                }
            }
            assert(v1.remove(0) == v@);
            assert(r@.to_multiset().add(v@.to_multiset()) =~= v0.to_multiset());
        }
    }
    assert(v@.to_multiset() =~= vstd::multiset::Multiset::empty());
    assert(r@.to_multiset() =~= v0.to_multiset());
    r
}

} // verus!
