//! Orderings and sorting: a total preorder on values, a sort that respects
//! it, and the byte-wise order in which std compares strings.

use vstd::prelude::*;
use vstd::relations::*;
use vstd::string::StringSliceAdditionalSpecFns;
use vstd::utf8::*;

verus! {

broadcast use vstd::seq_lib::group_to_multiset_ensures;

/// A total preorder on a type: any two values compare, and comparison is
/// transitive.
pub trait KeyOrder: Sized {
    spec fn le(a: Self, b: Self) -> bool;

    proof fn lemma_preorder()
        ensures
            transitive(|a: Self, b: Self| Self::le(a, b)),
            strongly_connected(|a: Self, b: Self| Self::le(a, b)),
    ;

    fn le_exec(a: &Self, b: &Self) -> (r: bool)
        ensures
            r == Self::le(*a, *b),
    ;
}

/// Whether `s` is in ascending order.
pub open spec fn is_sorted<T: KeyOrder>(s: Seq<T>) -> bool {
    sorted_by(s, |a: T, b: T| T::le(a, b))
}

proof fn lemma_sorted_at<T: KeyOrder>(s: Seq<T>, i: int, j: int)
    requires
        is_sorted(s),
        0 <= i < j < s.len(),
    ensures
        T::le(s[i], s[j]),
{
    assert((|a: T, b: T| T::le(a, b))(s[i], s[j]));
}

proof fn lemma_le_trans<T: KeyOrder>(a: T, b: T, c: T)
    requires
        T::le(a, b),
        T::le(b, c),
    ensures
        T::le(a, c),
{
    T::lemma_preorder();
    let f = |a: T, b: T| T::le(a, b);
    assert(f(a, b) && f(b, c));
    assert(f(a, c));
}

proof fn lemma_le_total<T: KeyOrder>(a: T, b: T)
    ensures
        T::le(a, b) || T::le(b, a),
{
    T::lemma_preorder();
    let f = |a: T, b: T| T::le(a, b);
    assert(f(a, b) || f(b, a));
}

/// Position at which `x` goes into the sorted `v`: after every element not
/// above it.
fn insertion_point<T: KeyOrder>(v: &Vec<T>, x: &T) -> (p: usize)
    requires
        is_sorted(v@),
    ensures
        p <= v.len(),
        forall|k: int| 0 <= k < p ==> T::le(#[trigger] v@[k], *x),
        forall|k: int| p <= k < v.len() ==> !T::le(#[trigger] v@[k], *x),
{
    proof {
        T::lemma_preorder();
    }
    let mut lo: usize = 0;
    let mut hi: usize = v.len();
    while lo < hi
        invariant
            is_sorted(v@),
            transitive(|a: T, b: T| T::le(a, b)),
            lo <= hi <= v.len(),
            forall|k: int| 0 <= k < lo ==> T::le(#[trigger] v@[k], *x),
            forall|k: int| hi <= k < v.len() ==> !T::le(#[trigger] v@[k], *x),
        decreases hi - lo,
    {
        let mid = lo + (hi - lo) / 2;
        if T::le_exec(&v[mid], x) {
            proof {
                assert forall|k: int| 0 <= k < mid + 1 implies T::le(#[trigger] v@[k], *x) by {
                    if k < mid {
                        lemma_sorted_at(v@, k, mid as int);
                        lemma_le_trans(v@[k], v@[mid as int], *x);
                    }
                }
            }
            lo = mid + 1;
        } else {
            proof {
                assert forall|k: int| mid <= k < v.len() implies !T::le(#[trigger] v@[k], *x) by {
                    if k > mid && T::le(v@[k], *x) {
                        lemma_sorted_at(v@, mid as int, k);
                        lemma_le_trans(v@[mid as int], v@[k], *x);
                    }
                }
            }
            hi = mid;
        }
    }
    lo
}

/// `v` in ascending order.
pub fn sort<T: KeyOrder>(v: Vec<T>) -> (r: Vec<T>)
    ensures
        is_sorted(r@),
        r@.to_multiset() == v@.to_multiset(),
        r@.len() == v@.len(),
{
    proof {
        T::lemma_preorder();
    }
    let ghost orig = v@;
    let mut rest = v;
    let mut out: Vec<T> = Vec::new();
    while rest.len() > 0
        invariant
            is_sorted(out@),
            transitive(|a: T, b: T| T::le(a, b)),
            strongly_connected(|a: T, b: T| T::le(a, b)),
            out@.to_multiset().add(rest@.to_multiset()) == orig.to_multiset(),
        decreases rest.len(),
    {
        let ghost before = rest@;
        let x = rest.pop().unwrap();
        proof {
            assert(before == rest@.push(x));
        }
        let p = insertion_point(&out, &x);
        let ghost old_out = out@;
        out.insert(p, x);
        proof {
            assert(out@ == old_out.insert(p as int, x));
            old_out.insert_ensures(p as int, x);
            assert(out@.to_multiset() == old_out.to_multiset().insert(x)) by {
                assert(old_out.insert(p as int, x) =~= old_out.subrange(0, p as int).push(x)
                    + old_out.subrange(p as int, old_out.len() as int));
                vstd::seq_lib::lemma_multiset_commutative(
                    old_out.subrange(0, p as int).push(x),
                    old_out.subrange(p as int, old_out.len() as int),
                );
                vstd::seq_lib::lemma_multiset_commutative(
                    old_out.subrange(0, p as int),
                    old_out.subrange(p as int, old_out.len() as int),
                );
                assert(old_out =~= old_out.subrange(0, p as int) + old_out.subrange(
                    p as int,
                    old_out.len() as int,
                ));
            }
            assert forall|i: int, j: int| 0 <= i < j < out@.len() implies #[trigger] T::le(
                out@[i],
                out@[j],
            ) by {
                if j < p {
                    lemma_sorted_at(old_out, i, j);
                } else if j == p {
                    assert(out@[i] == old_out[i]);
                } else if i < p {
                    assert(T::le(out@[i], x));
                    assert(out@[j] == old_out[j - 1]);
                    assert(!T::le(old_out[j - 1], x));
                    lemma_le_total(old_out[j - 1], x);
                    lemma_le_trans(out@[i], x, old_out[j - 1]);
                } else if i == p {
                    assert(!T::le(old_out[j - 1], x));
                    lemma_le_total(old_out[j - 1], x);
                } else {
                    lemma_sorted_at(old_out, i - 1, j - 1);
                }
                assert((|a: T, b: T| T::le(a, b))(out@[i], out@[j]));
            }
        }
    }
    assert(rest@ =~= Seq::<T>::empty());
    assert(out@.to_multiset() == orig.to_multiset());
    assert(out@.to_multiset().len() == out@.len());
    out
}

/// The byte-wise (lexicographic) order in which std compares strings.
pub open spec fn bytes_le(a: Seq<u8>, b: Seq<u8>) -> bool
    decreases a.len(),
{
    if a.len() == 0 {
        true
    } else if b.len() == 0 {
        false
    } else if a[0] != b[0] {
        a[0] < b[0]
    } else {
        bytes_le(a.drop_first(), b.drop_first())
    }
}

/// The order of std's `str::cmp`: byte-wise on the UTF-8 encodings.
pub open spec fn text_le(a: Seq<char>, b: Seq<char>) -> bool {
    bytes_le(encode_utf8(a), encode_utf8(b))
}

/// Strict byte-wise order.
pub open spec fn text_lt(a: Seq<char>, b: Seq<char>) -> bool {
    text_le(a, b) && a != b
}

pub proof fn lemma_bytes_le_total(a: Seq<u8>, b: Seq<u8>)
    ensures
        bytes_le(a, b) || bytes_le(b, a),
    decreases a.len(),
{
    if a.len() > 0 && b.len() > 0 && a[0] == b[0] {
        lemma_bytes_le_total(a.drop_first(), b.drop_first());
    }
}

pub proof fn lemma_bytes_le_trans(a: Seq<u8>, b: Seq<u8>, c: Seq<u8>)
    requires
        bytes_le(a, b),
        bytes_le(b, c),
    ensures
        bytes_le(a, c),
    decreases a.len(),
{
    if a.len() > 0 && b.len() > 0 && c.len() > 0 && a[0] == b[0] && b[0] == c[0] {
        lemma_bytes_le_trans(a.drop_first(), b.drop_first(), c.drop_first());
    }
}

pub proof fn lemma_bytes_le_antisym(a: Seq<u8>, b: Seq<u8>)
    requires
        bytes_le(a, b),
        bytes_le(b, a),
    ensures
        a == b,
    decreases a.len(),
{
    if a.len() > 0 && b.len() > 0 {
        lemma_bytes_le_antisym(a.drop_first(), b.drop_first());
        assert(a =~= seq![a[0]] + a.drop_first());
        assert(b =~= seq![b[0]] + b.drop_first());
    }
}

pub proof fn lemma_text_le_antisym(a: Seq<char>, b: Seq<char>)
    requires
        text_le(a, b),
        text_le(b, a),
    ensures
        a == b,
{
    lemma_bytes_le_antisym(encode_utf8(a), encode_utf8(b));
    encode_utf8_decode_utf8(a);
    encode_utf8_decode_utf8(b);
}

pub proof fn lemma_text_le_total_trans()
    ensures
        forall|a: Seq<char>, b: Seq<char>| #[trigger] text_le(a, b) || text_le(b, a),
        forall|a: Seq<char>, b: Seq<char>, c: Seq<char>|
            #[trigger] text_le(a, b) && #[trigger] text_le(b, c) ==> text_le(a, c),
        forall|a: Seq<char>| #[trigger] text_le(a, a),
{
    assert forall|a: Seq<char>, b: Seq<char>| #[trigger] text_le(a, b) || text_le(b, a) by {
        lemma_bytes_le_total(encode_utf8(a), encode_utf8(b));
    }
    assert forall|a: Seq<char>, b: Seq<char>, c: Seq<char>|
        #[trigger] text_le(a, b) && #[trigger] text_le(b, c) implies text_le(a, c) by {
        lemma_bytes_le_trans(encode_utf8(a), encode_utf8(b), encode_utf8(c));
    }
    assert forall|a: Seq<char>| #[trigger] text_le(a, a) by {
        lemma_bytes_le_total(encode_utf8(a), encode_utf8(a));
    }
}

/// Whether `a` sorts before or with `b` under std's string order.
pub fn str_le(a: &str, b: &str) -> (r: bool)
    ensures
        r == text_le(a@, b@),
{
    let x = a.as_bytes();
    let y = b.as_bytes();
    let mut i: usize = 0;
    assert(x@.subrange(0, x.len() as int) =~= x@);
    assert(y@.subrange(0, y.len() as int) =~= y@);
    while i < x.len() && i < y.len() && x[i] == y[i]
        invariant
            x@ == a.spec_bytes(),
            y@ == b.spec_bytes(),
            i <= x.len(),
            i <= y.len(),
            bytes_le(x@, y@) == bytes_le(x@.subrange(i as int, x.len() as int), y@.subrange(i as int, y.len() as int)),
        decreases x.len() - i,
    {
        proof {
            let xs = x@.subrange(i as int, x.len() as int);
            let ys = y@.subrange(i as int, y.len() as int);
            assert(xs.drop_first() =~= x@.subrange(i + 1, x.len() as int));
            assert(ys.drop_first() =~= y@.subrange(i + 1, y.len() as int));
        }
        i = i + 1;
    }
    if i == x.len() {
        true
    } else if i == y.len() {
        false
    } else {
        x[i] < y[i]
    }
}

impl KeyOrder for String {
    open spec fn le(a: String, b: String) -> bool {
        text_le(a@, b@)
    }

    proof fn lemma_preorder() {
        lemma_text_le_total_trans();
    }

    fn le_exec(a: &String, b: &String) -> (r: bool) {
        str_le(a.as_str(), b.as_str())
    }
}

/// `v` without consecutive repeats (std's `Vec::dedup`).
pub open spec fn dedup<T>(v: Seq<T>) -> Seq<T>
    decreases v.len(),
{
    if v.len() <= 1 {
        v
    } else {
        let d = dedup(v.drop_last());
        if v.last() == v[v.len() - 2] {
            d
        } else {
            d.push(v.last())
        }
    }
}

proof fn lemma_dedup_last<T>(v: Seq<T>)
    requires
        v.len() > 0,
    ensures
        dedup(v).len() > 0,
        dedup(v).last() == v.last(),
    decreases v.len(),
{
    if v.len() > 1 {
        lemma_dedup_last(v.drop_last());
    }
}

/// `v` without consecutive repeats.
pub fn dedup_strings(v: Vec<String>) -> (r: Vec<String>)
    ensures
        r@.map_values(|s: String| s@) == dedup(v@.map_values(|s: String| s@)),
{
    let ghost vs = v@.map_values(|s: String| s@);
    let mut out: Vec<String> = Vec::new();
    let mut i: usize = 0;
    while i < v.len()
        invariant
            i <= v.len(),
            vs == v@.map_values(|s: String| s@),
            out@.map_values(|s: String| s@) == dedup(vs.take(i as int)),
            i > 0 ==> out.len() > 0 && out@.last()@ == vs[i - 1],
        decreases v.len() - i,
    {
        let ghost before = out@;
        proof {
            assert(vs.take(i + 1).drop_last() =~= vs.take(i as int));
        }
        if i == 0 || !str_eq_strings(&out[out.len() - 1], &v[i]) {
            out.push(v[i].clone());
            proof {
                assert(out@.map_values(|s: String| s@) =~= before.map_values(|s: String| s@).push(vs[i as int]));
            }
        }
        proof {
            lemma_dedup_last(vs.take(i + 1));
        }
        i = i + 1;
    }
    assert(vs.take(v.len() as int) =~= vs);
    out
}

fn str_eq_strings(a: &String, b: &String) -> (r: bool)
    ensures
        r == (a@ == b@),
{
    crate::text::str_eq(a.as_str(), b.as_str())
}

/// Whether `v` is in ascending string order.
pub open spec fn texts_sorted(v: Seq<Seq<char>>) -> bool {
    forall|i: int, j: int| 0 <= i < j < v.len() ==> text_le(#[trigger] v[i], #[trigger] v[j])
}

/// Whether `v` is in strictly ascending string order.
pub open spec fn texts_strictly_sorted(v: Seq<Seq<char>>) -> bool {
    forall|i: int, j: int| 0 <= i < j < v.len() ==> text_lt(#[trigger] v[i], #[trigger] v[j])
}

pub proof fn lemma_sorted_texts(s: Seq<String>)
    requires
        is_sorted(s),
    ensures
        texts_sorted(s.map_values(|x: String| x@)),
{
    let m = s.map_values(|x: String| x@);
    assert forall|i: int, j: int| 0 <= i < j < m.len() implies text_le(
        #[trigger] m[i],
        #[trigger] m[j],
    ) by {
        assert((|a: String, b: String| <String as KeyOrder>::le(a, b))(s[i], s[j]));
    }
}

/// Equal multisets of strings have equal multisets of texts.
pub proof fn lemma_map_multiset(a: Seq<String>, b: Seq<String>)
    requires
        a.to_multiset() == b.to_multiset(),
    ensures
        a.map_values(|x: String| x@).to_multiset() == b.map_values(|x: String| x@).to_multiset(),
{
    lemma_map_multiset_by(a, b, |x: String| x@);
}

/// Mapping two sequences with the same elements gives sequences with the
/// same elements.
pub proof fn lemma_map_multiset_by<A, B>(a: Seq<A>, b: Seq<A>, f: spec_fn(A) -> B)
    requires
        a.to_multiset() == b.to_multiset(),
    ensures
        a.map_values(f).to_multiset() == b.map_values(f).to_multiset(),
    decreases a.len(),
{
    broadcast use vstd::seq_lib::group_to_multiset_ensures;
    if a.len() == 0 {
        assert(b.to_multiset().len() == 0);
        assert(b.len() == 0);
        assert(a.map_values(f) =~= b.map_values(f));
    } else {
        let x = a.last();
        assert(a.to_multiset().count(x) > 0) by {
            assert(a[a.len() - 1] == x);
            assert(a.contains(x));
        }
        assert(b.contains(x));
        let j = b.index_of(x);
        let a2 = a.drop_last();
        let b2 = b.remove(j);
        assert(a =~= a2.push(x));
        assert(a2.to_multiset() == b2.to_multiset()) by {
            assert(a.to_multiset() == a2.to_multiset().insert(x));
            assert(b2.to_multiset() == b.to_multiset().remove(b[j]));
            assert(a2.to_multiset() =~= a.to_multiset().remove(x));
        }
        lemma_map_multiset_by(a2, b2, f);
        assert(a.map_values(f) =~= a2.map_values(f).push(f(x)));
        assert(b.map_values(f).remove(j) =~= b2.map_values(f));
        assert(b.map_values(f)[j] == f(x));
        assert(b.map_values(f).to_multiset() =~= b2.map_values(f).to_multiset().insert(f(x))) by {
            assert(b2.map_values(f).to_multiset() =~= b.map_values(f).to_multiset().remove(f(x)));
            assert(b.map_values(f).to_multiset().count(f(x)) > 0) by {
                assert(b.map_values(f).contains(f(x)));
            }
        }
    }
}


/// Removing consecutive repeats from a sorted sequence leaves it strictly
/// sorted with the same elements.
pub proof fn lemma_dedup_sorted(v: Seq<Seq<char>>)
    requires
        texts_sorted(v),
    ensures
        texts_strictly_sorted(dedup(v)),
        forall|x: Seq<char>| #[trigger] dedup(v).contains(x) <==> v.contains(x),
        dedup(v).len() > 0 ==> dedup(v).last() == v.last(),
    decreases v.len(),
{
    lemma_text_le_total_trans();
    if v.len() <= 1 {
    } else {
        let w = v.drop_last();
        assert(texts_sorted(w)) by {
            assert forall|i: int, j: int| 0 <= i < j < w.len() implies text_le(#[trigger] w[i], #[trigger] w[j]) by {
                assert(w[i] == v[i] && w[j] == v[j]);
            }
        }
        lemma_dedup_sorted(w);
        let d = dedup(w);
        lemma_dedup_last(w);
        assert forall|x: Seq<char>| #[trigger] dedup(v).contains(x) <==> v.contains(x) by {
            let e = dedup(v);
            if v.contains(x) {
                let k = choose|k: int| 0 <= k < v.len() && v[k] == x;
                if k < v.len() - 1 || v.last() == v[v.len() - 2] {
                    let kk = if k < v.len() - 1 { k } else { v.len() - 2 };
                    assert(w[kk] == x);
                    assert(w.contains(x));
                    assert(d.contains(x));
                    let m = choose|m: int| 0 <= m < d.len() && d[m] == x;
                    assert(e[m] == x);
                } else {
                    assert(e[e.len() - 1] == x);
                }
                assert(e.contains(x));
            }
            if e.contains(x) {
                let m = choose|m: int| 0 <= m < e.len() && e[m] == x;
                if m < d.len() {
                    assert(d[m] == x);
                    assert(d.contains(x));
                    assert(w.contains(x));
                    let k = choose|k: int| 0 <= k < w.len() && w[k] == x;
                    assert(v[k] == x);
                } else {
                    assert(v[v.len() - 1] == x);
                }
                assert(v.contains(x));
            }
        }
        if v.last() != v[v.len() - 2] {
            let e = dedup(v);
            assert forall|i: int, j: int| 0 <= i < j < e.len() implies text_lt(#[trigger] e[i], #[trigger] e[j]) by {
                if j == e.len() - 1 {
                    assert(e[j] == v.last());
                    assert(d.contains(e[i]));
                    assert(w.contains(e[i]));
                    let k = choose|k: int| 0 <= k < w.len() && w[k] == e[i];
                    assert(text_le(v[k], v[v.len() - 2]) || k == v.len() - 2);
                    assert(text_le(v[v.len() - 2], v.last()));
                    assert(text_le(e[i], e[j]));
                    assert(d.last() == w.last());
                    if e[i] == e[j] {
                        if i < d.len() - 1 {
                            assert(text_lt(d[i], d[d.len() - 1]));
                            assert(text_le(d[d.len() - 1], e[j]));
                            lemma_text_le_antisym(d[i], d[d.len() - 1]);
                        }
                    }
                } else {
                    assert(e[i] == d[i] && e[j] == d[j]);
                }
            }
        }
    }
}

/// Two strictly sorted sequences with the same elements are equal.
pub proof fn lemma_sorted_unique(a: Seq<Seq<char>>, b: Seq<Seq<char>>)
    requires
        texts_strictly_sorted(a),
        texts_strictly_sorted(b),
        a.to_set() == b.to_set(),
    ensures
        a == b,
    decreases a.len(),
{
    lemma_text_le_total_trans();
    if a.len() == 0 {
        if b.len() > 0 {
            assert(b.to_set().contains(b[0]));
        }
    } else if b.len() == 0 {
        assert(a.to_set().contains(a[0]));
    } else {
        let x = a.last();
        let y = b.last();
        assert(a.to_set().contains(x));
        assert(b.contains(x));
        assert(b.to_set().contains(y));
        assert(a.contains(y));
        let j = choose|j: int| 0 <= j < b.len() && b[j] == x;
        let i = choose|i: int| 0 <= i < a.len() && a[i] == y;
        if j < b.len() - 1 {
            assert(text_lt(b[j], b[b.len() - 1]));
        }
        if i < a.len() - 1 {
            assert(text_lt(a[i], a[a.len() - 1]));
        }
        assert(text_le(x, y));
        assert(text_le(y, x));
        lemma_text_le_antisym(x, y);
        let a2 = a.drop_last();
        let b2 = b.drop_last();
        assert(texts_strictly_sorted(a2)) by {
            assert forall|p: int, q: int| 0 <= p < q < a2.len() implies text_lt(#[trigger] a2[p], #[trigger] a2[q]) by {
                assert(a2[p] == a[p] && a2[q] == a[q]);
            }
        }
        assert(texts_strictly_sorted(b2)) by {
            assert forall|p: int, q: int| 0 <= p < q < b2.len() implies text_lt(#[trigger] b2[p], #[trigger] b2[q]) by {
                assert(b2[p] == b[p] && b2[q] == b[q]);
            }
        }
        assert(a2.to_set() =~= b2.to_set()) by {
            assert forall|z: Seq<char>| a2.to_set().contains(z) <==> b2.to_set().contains(z) by {
                if a2.contains(z) {
                    let p = choose|p: int| 0 <= p < a2.len() && a2[p] == z;
                    assert(text_lt(a[p], a[a.len() - 1]));
                    assert(a.contains(z));
                    assert(b.to_set().contains(z));
                    let q = choose|q: int| 0 <= q < b.len() && b[q] == z;
                    assert(q != b.len() - 1);
                    assert(b2[q] == z);
                }
                if b2.contains(z) {
                    let p = choose|p: int| 0 <= p < b2.len() && b2[p] == z;
                    assert(text_lt(b[p], b[b.len() - 1]));
                    assert(b.contains(z));
                    assert(a.to_set().contains(z));
                    let q = choose|q: int| 0 <= q < a.len() && a[q] == z;
                    assert(q != a.len() - 1);
                    assert(a2[q] == z);
                }
            }
        }
        lemma_sorted_unique(a2, b2);
        assert(a =~= a2.push(x));
        assert(b =~= b2.push(y));
    }
}


/// `v` sorted, each element kept once.
pub fn sort_dedup(v: Vec<String>) -> (r: Vec<String>)
    ensures
        texts_strictly_sorted(crate::text::texts(r@)),
        forall|x: Seq<char>| #[trigger] crate::text::texts(r@).contains(x) <==> crate::text::texts(v@).contains(x),
{
    let ghost raw = v@;
    let sorted = sort(v);
    proof {
        lemma_sorted_texts(sorted@);
        lemma_map_multiset(sorted@, raw);
        lemma_dedup_sorted(sorted@.map_values(|x: String| x@));
    }
    let r = dedup_strings(sorted);
    proof {
        assert forall|x: Seq<char>| #[trigger] crate::text::texts(r@).contains(x) <==> crate::text::texts(raw).contains(x) by {
            broadcast use vstd::seq_lib::group_to_multiset_ensures;
            let sv = sorted@.map_values(|y: String| y@);
            let rv = raw.map_values(|y: String| y@);
            assert(sv.to_multiset().count(x) == rv.to_multiset().count(x));
        }
    }
    r
}

/// `v` without the element `x`; order is kept.
pub fn without(v: &Vec<String>, x: &String) -> (r: Vec<String>)
    requires
        texts_strictly_sorted(crate::text::texts(v@)),
    ensures
        texts_strictly_sorted(crate::text::texts(r@)),
        forall|y: Seq<char>| #[trigger] crate::text::texts(r@).contains(y) <==> (crate::text::texts(v@).contains(y) && y != x@),
{
    let ghost vv = crate::text::texts(v@);
    let mut r: Vec<String> = Vec::new();
    let mut i: usize = 0;
    while i < v.len()
        invariant
            i <= v.len(),
            vv == crate::text::texts(v@),
            texts_strictly_sorted(vv),
            texts_strictly_sorted(crate::text::texts(r@)),
            forall|y: Seq<char>| #[trigger] crate::text::texts(r@).contains(y) <==> (
                (exists|p: int| 0 <= p < i && #[trigger] vv[p] == y) && y != x@),
            forall|k: int| #![trigger crate::text::texts(r@)[k]] 0 <= k < r@.len() ==> exists|p: int| 0 <= p < i && #[trigger] vv[p] == crate::text::texts(r@)[k],
        decreases v.len() - i,
    {
        let ghost before = crate::text::texts(r@);
        let ghost cur = vv[i as int];
        if !crate::text::str_eq(v[i].as_str(), x.as_str()) {
            r.push(v[i].clone());
            proof {
                let rv = crate::text::texts(r@);
                assert(rv =~= before.push(cur));
                assert forall|a: int, b: int| 0 <= a < b < rv.len() implies text_lt(#[trigger] rv[a], #[trigger] rv[b]) by {
                    if b == rv.len() - 1 {
                        assert(rv[a] == before[a]);
                        let p = choose|p: int| 0 <= p < i && #[trigger] vv[p] == before[a];
                        assert(text_lt(vv[p], vv[i as int]));
                    } else {
                        assert(rv[a] == before[a] && rv[b] == before[b]);
                    }
                }
                assert forall|k: int| #![trigger crate::text::texts(r@)[k]] 0 <= k < r@.len() implies exists|p: int| 0 <= p < i + 1 && #[trigger] vv[p] == crate::text::texts(r@)[k] by {
                    if k == r@.len() - 1 {
                        assert(vv[i as int] == rv[k]);
                    } else {
                        assert(rv[k] == before[k]);
                        let p = choose|p: int| 0 <= p < i && #[trigger] vv[p] == before[k];
                        assert(vv[p] == rv[k]);
                    }
                }
                assert forall|y: Seq<char>| #[trigger] crate::text::texts(r@).contains(y) <==> (
                    (exists|p: int| 0 <= p < i + 1 && #[trigger] vv[p] == y) && y != x@) by {
                    if rv.contains(y) {
                        let k = choose|k: int| 0 <= k < rv.len() && rv[k] == y;
                        if k < before.len() {
                            assert(before[k] == y);
                            assert(before.contains(y));
                        } else {
                            assert(vv[i as int] == y);
                        }
                    }
                    if (exists|p: int| 0 <= p < i + 1 && #[trigger] vv[p] == y) && y != x@ {
                        let p = choose|p: int| 0 <= p < i + 1 && #[trigger] vv[p] == y;
                        if p == i {
                            assert(rv[rv.len() - 1] == y);
                        } else {
                            assert(before.contains(y));
                            let k = choose|k: int| 0 <= k < before.len() && before[k] == y;
                            assert(rv[k] == y);
                        }
                    }
                }
            }
        } else {
            proof {
                assert forall|y: Seq<char>| #[trigger] crate::text::texts(r@).contains(y) <==> (
                    (exists|p: int| 0 <= p < i + 1 && #[trigger] vv[p] == y) && y != x@) by {
                    if (exists|p: int| 0 <= p < i + 1 && #[trigger] vv[p] == y) && y != x@ {
                        let p = choose|p: int| 0 <= p < i + 1 && #[trigger] vv[p] == y;
                        assert(p != i);
                    }
                }
            }
        }
        i = i + 1;
    }
    r
}


/// Two sequences in ascending order under `le` with the same elements are
/// equal, when `le` ties no two different elements of them.
pub proof fn lemma_sorted_same_elements<T>(a: Seq<T>, b: Seq<T>, le: spec_fn(T, T) -> bool)
    requires
        forall|i: int, j: int| 0 <= i < j < a.len() ==> le(#[trigger] a[i], #[trigger] a[j]),
        forall|i: int, j: int| 0 <= i < j < b.len() ==> le(#[trigger] b[i], #[trigger] b[j]),
        a.to_multiset() == b.to_multiset(),
        forall|x: T, y: T| a.contains(x) && a.contains(y) && le(x, y) && le(y, x) ==> x == y,
    ensures
        a == b,
    decreases a.len(),
{
    broadcast use vstd::seq_lib::group_to_multiset_ensures;
    if a.len() == 0 {
        assert(b.to_multiset().len() == 0);
        assert(b.len() == 0);
        assert(a =~= b);
    } else {
        assert(b.len() == a.len()) by {
            assert(a.to_multiset().len() == a.len());
            assert(b.to_multiset().len() == b.len());
        }
        let x = a[0];
        let y = b[0];
        assert(a.contains(x));
        assert(b.contains(x)) by {
            assert(a.to_multiset().count(x) > 0);
        }
        assert(b.contains(y));
        assert(a.contains(y)) by {
            assert(b.to_multiset().count(y) > 0);
        }
        let k = choose|k: int| 0 <= k < b.len() && b[k] == x;
        let m = choose|m: int| 0 <= m < a.len() && a[m] == y;
        if k > 0 {
            assert(le(b[0], b[k]));
        }
        if m > 0 {
            assert(le(a[0], a[m]));
        }
        assert(le(y, x) || k == 0);
        assert(le(x, y) || m == 0);
        assert(x == y);
        let a2 = a.drop_first();
        let b2 = b.drop_first();
        assert(a =~= seq![x] + a2);
        assert(b =~= seq![x] + b2);
        assert(a2.to_multiset() =~= a.to_multiset().remove(x)) by {
            vstd::seq_lib::to_multiset_remove(a, 0);
            assert(a.remove(0) =~= a2);
        }
        assert(b2.to_multiset() =~= b.to_multiset().remove(x)) by {
            vstd::seq_lib::to_multiset_remove(b, 0);
            assert(b.remove(0) =~= b2);
        }
        assert forall|i: int, j: int| 0 <= i < j < a2.len() implies le(#[trigger] a2[i], #[trigger] a2[j]) by {
            assert(a2[i] == a[i + 1] && a2[j] == a[j + 1]);
        }
        assert forall|i: int, j: int| 0 <= i < j < b2.len() implies le(#[trigger] b2[i], #[trigger] b2[j]) by {
            assert(b2[i] == b[i + 1] && b2[j] == b[j + 1]);
        }
        assert forall|u: T, v: T| a2.contains(u) && a2.contains(v) && le(u, v) && le(v, u) implies u == v by {
            let iu = choose|i: int| 0 <= i < a2.len() && a2[i] == u;
            let iv = choose|i: int| 0 <= i < a2.len() && a2[i] == v;
            assert(a[iu + 1] == u && a[iv + 1] == v);
            assert(a.contains(u) && a.contains(v));
        }
        lemma_sorted_same_elements(a2, b2, le);
    }
}


/// `v` with `a` put in its place in ascending string order.
spec fn insert_sorted(v: Seq<Seq<char>>, a: Seq<char>) -> Seq<Seq<char>>
    decreases v.len(),
{
    if v.len() == 0 {
        seq![a]
    } else if text_lt(v.last(), a) {
        v.push(a)
    } else {
        insert_sorted(v.drop_last(), a).push(v.last())
    }
}

proof fn lemma_insert_sorted(v: Seq<Seq<char>>, a: Seq<char>)
    requires
        texts_strictly_sorted(v),
        !v.contains(a),
    ensures
        texts_strictly_sorted(insert_sorted(v, a)),
        insert_sorted(v, a).to_set() == v.to_set().insert(a),
    decreases v.len(),
{
    lemma_text_le_total_trans();
    if v.len() == 0 {
        assert(seq![a].to_set() =~= Set::<Seq<char>>::empty().insert(a)) by {
            assert(seq![a][0] == a);
        }
        assert(v.to_set() =~= Set::<Seq<char>>::empty());
    } else if text_lt(v.last(), a) {
        let w = v.push(a);
        assert forall|i: int, j: int| 0 <= i < j < w.len() implies text_lt(#[trigger] w[i], #[trigger] w[j]) by {
            if j == v.len() {
                if i < v.len() - 1 {
                    assert(text_lt(v[i], v[v.len() - 1]));
                }
            } else {
                assert(text_lt(v[i], v[j]));
            }
        }
        assert(w.to_set() =~= v.to_set().insert(a)) by {
            assert forall|x: Seq<char>| w.to_set().contains(x) <==> v.to_set().insert(a).contains(x) by {
                if w.contains(x) {
                    let i = choose|i: int| 0 <= i < w.len() && w[i] == x;
                    if i < v.len() {
                        assert(v[i] == x);
                    }
                }
                if v.contains(x) {
                    let i = choose|i: int| 0 <= i < v.len() && v[i] == x;
                    assert(w[i] == x);
                }
                assert(w[v.len() as int] == a);
            }
        }
    } else {
        let l = v.last();
        let d = v.drop_last();
        assert(texts_strictly_sorted(d)) by {
            assert forall|i: int, j: int| 0 <= i < j < d.len() implies text_lt(#[trigger] d[i], #[trigger] d[j]) by {
                assert(text_lt(v[i], v[j]));
            }
        }
        assert(!d.contains(a)) by {
            if d.contains(a) {
                let i = choose|i: int| 0 <= i < d.len() && d[i] == a;
                assert(v[i] == a);
            }
        }
        lemma_insert_sorted(d, a);
        let w = insert_sorted(d, a);
        assert(v.contains(l)) by {
            assert(v[v.len() - 1] == l);
        }
        assert(a != l);
        assert(text_le(a, l));
        assert forall|i: int| 0 <= i < w.len() implies text_lt(#[trigger] w[i], l) by {
            assert(w.to_set().contains(w[i]));
            if w[i] != a {
                assert(d.to_set().contains(w[i]));
                let p = choose|p: int| 0 <= p < d.len() && d[p] == w[i];
                assert(text_lt(v[p], v[v.len() - 1]));
            }
        }
        let u = w.push(l);
        assert forall|i: int, j: int| 0 <= i < j < u.len() implies text_lt(#[trigger] u[i], #[trigger] u[j]) by {
            if j == w.len() {
                assert(text_lt(w[i], l));
            } else {
                assert(text_lt(w[i], w[j]));
            }
        }
        assert(u.to_set() =~= v.to_set().insert(a)) by {
            assert forall|x: Seq<char>| u.to_set().contains(x) <==> v.to_set().insert(a).contains(x) by {
                if u.contains(x) {
                    let i = choose|i: int| 0 <= i < u.len() && u[i] == x;
                    if i < w.len() {
                        assert(w[i] == x);
                        assert(w.to_set().contains(x));
                        if x != a {
                            assert(d.to_set().contains(x));
                            let p = choose|p: int| 0 <= p < d.len() && d[p] == x;
                            assert(v[p] == x);
                        }
                    } else {
                        assert(x == l);
                    }
                }
                if v.contains(x) {
                    let i = choose|i: int| 0 <= i < v.len() && v[i] == x;
                    if i == v.len() - 1 {
                        assert(u[w.len() as int] == x);
                    } else {
                        assert(d[i] == x);
                        assert(w.to_set().contains(x));
                        let q = choose|q: int| 0 <= q < w.len() && w[q] == x;
                        assert(u[q] == x);
                    }
                }
                if x == a {
                    assert(w.to_set().contains(a));
                    let q = choose|q: int| 0 <= q < w.len() && w[q] == a;
                    assert(u[q] == a);
                }
            }
        }
    }
}

/// Every finite set of texts can be listed in strictly ascending order.
pub proof fn lemma_sorted_listing_exists(s: Set<Seq<char>>)
    requires
        s.finite(),
    ensures
        exists|v: Seq<Seq<char>>| texts_strictly_sorted(v) && v.to_set() == s,
    decreases s.len(),
{
    if s.len() == 0 {
        let v = Seq::<Seq<char>>::empty();
        assert(v.to_set() =~= s);
        assert(texts_strictly_sorted(v));
    } else {
        let a = s.choose();
        lemma_sorted_listing_exists(s.remove(a));
        let v = choose|v: Seq<Seq<char>>| texts_strictly_sorted(v) && v.to_set() == s.remove(a);
        assert(!v.contains(a)) by {
            if v.contains(a) {
                assert(v.to_set().contains(a));
            }
        }
        lemma_insert_sorted(v, a);
        assert(s.remove(a).insert(a) =~= s);
        assert(texts_strictly_sorted(insert_sorted(v, a)) && insert_sorted(v, a).to_set() == s);
    }
}
} // verus!
