//! Keys with a strict total order, and the sorted, duplicate-free list of the
//! keys that occur in a sequence (what `sort` followed by `dedup` gives).
use vstd::prelude::*;

verus! {

/// A key type with a strict total order on its model.
pub trait OrderedKey: Sized {
    type Model;

    /// The mathematical value of the key.
    spec fn model(&self) -> Self::Model;

    /// `a` comes strictly before `b`.
    spec fn before(a: Self::Model, b: Self::Model) -> bool;

    proof fn lemma_irreflexive(a: Self::Model)
        ensures
            !Self::before(a, a),
    ;

    proof fn lemma_transitive(a: Self::Model, b: Self::Model, c: Self::Model)
        requires
            Self::before(a, b),
            Self::before(b, c),
        ensures
            Self::before(a, c),
    ;

    proof fn lemma_total(a: Self::Model, b: Self::Model)
        ensures
            Self::before(a, b) || Self::before(b, a) || a == b,
    ;

    fn is_before(&self, other: &Self) -> (r: bool)
        ensures
            r == Self::before(self.model(), other.model()),
    ;

    fn same_key(&self, other: &Self) -> (r: bool)
        ensures
            r == (self.model() == other.model()),
    ;

    fn duplicate(&self) -> (r: Self)
        ensures
            r.model() == self.model(),
    ;
}

/// The models of a sequence of keys.
pub open spec fn models<K: OrderedKey>(ks: Seq<K>) -> Seq<K::Model> {
    ks.map_values(|k: K| k.model())
}

/// Every key comes strictly before every later one.
pub open spec fn strictly_sorted<K: OrderedKey>(ms: Seq<K::Model>) -> bool {
    forall|i: int, j: int| 0 <= i < j < ms.len() ==> K::before(#[trigger] ms[i], #[trigger] ms[j])
}

/// `out` holds each key of `ks` once, in order: the result of sorting `ks` and
/// removing duplicates.
pub open spec fn sorted_distinct_of<K: OrderedKey>(out: Seq<K::Model>, ks: Seq<K::Model>) -> bool {
    &&& strictly_sorted::<K>(out)
    &&& forall|x: K::Model| out.contains(x) <==> ks.contains(x)
}

/// Two strictly sorted sequences with the same elements are the same.
pub proof fn lemma_sorted_distinct_unique<K: OrderedKey>(a: Seq<K::Model>, b: Seq<K::Model>)
    requires
        strictly_sorted::<K>(a),
        strictly_sorted::<K>(b),
        forall|x: K::Model| a.contains(x) <==> b.contains(x),
    ensures
        a == b,
    decreases a.len() + b.len(),
{
    if a.len() == 0 {
        if b.len() > 0 {
            assert(b.contains(b[0]));
        }
        assert(a =~= b);
    } else if b.len() == 0 {
        assert(a.contains(a[0]));
    } else {
        // the first elements are both the least element
        assert(a.contains(a[0]));
        assert(b.contains(b[0]));
        let ia = choose|i: int| 0 <= i < a.len() && a[i] == b[0];
        let ib = choose|i: int| 0 <= i < b.len() && b[i] == a[0];
        if ia > 0 {
            assert(K::before(a[0], a[ia]));
            if ib > 0 {
                assert(K::before(b[0], b[ib]));
                K::lemma_transitive(a[0], b[0], a[0]);
                K::lemma_irreflexive(a[0]);
            }
        }
        if ib > 0 && ia == 0 {
            assert(K::before(b[0], b[ib]));
            K::lemma_irreflexive(a[0]);
        }
        assert(a[0] == b[0]);
        let ar = a.drop_first();
        let br = b.drop_first();
        assert forall|x: K::Model| ar.contains(x) implies br.contains(x) by {
            let i = choose|i: int| 0 <= i < ar.len() && ar[i] == x;
            assert(a[i + 1] == x);
            assert(a.contains(x));
            let j = choose|j: int| 0 <= j < b.len() && b[j] == x;
            if j == 0 {
                assert(K::before(a[0], a[i + 1]));
                K::lemma_irreflexive(a[0]);
            }
            assert(br[j - 1] == x);
        }
        assert forall|x: K::Model| br.contains(x) implies ar.contains(x) by {
            let i = choose|i: int| 0 <= i < br.len() && br[i] == x;
            assert(b[i + 1] == x);
            assert(b.contains(x));
            let j = choose|j: int| 0 <= j < a.len() && a[j] == x;
            if j == 0 {
                assert(K::before(b[0], b[i + 1]));
                K::lemma_irreflexive(b[0]);
            }
            assert(ar[j - 1] == x);
        }
        assert forall|i: int, j: int| 0 <= i < j < ar.len() implies K::before(
            #[trigger] ar[i],
            #[trigger] ar[j],
        ) by {
            assert(ar[i] == a[i + 1] && ar[j] == a[j + 1]);
        }
        assert forall|i: int, j: int| 0 <= i < j < br.len() implies K::before(
            #[trigger] br[i],
            #[trigger] br[j],
        ) by {
            assert(br[i] == b[i + 1] && br[j] == b[j + 1]);
        }
        lemma_sorted_distinct_unique::<K>(ar, br);
        assert(a =~= seq![a[0]] + ar);
        assert(b =~= seq![b[0]] + br);
    }
}

/// `x` put in its place in the sorted `out`, unless it is there already.
pub open spec fn insert_key<K: OrderedKey>(out: Seq<K::Model>, x: K::Model) -> Seq<K::Model>
    decreases out.len(),
{
    if out.len() == 0 {
        seq![x]
    } else if out[0] == x {
        out
    } else if K::before(out[0], x) {
        seq![out[0]] + insert_key::<K>(out.drop_first(), x)
    } else {
        seq![x] + out
    }
}

/// Putting a key in its place keeps the sequence strictly sorted and adds
/// exactly that key.
proof fn lemma_insert_key<K: OrderedKey>(out: Seq<K::Model>, x: K::Model)
    requires
        strictly_sorted::<K>(out),
    ensures
        strictly_sorted::<K>(insert_key::<K>(out, x)),
        forall|y: K::Model| #[trigger]
            insert_key::<K>(out, x).contains(y) <==> (out.contains(y) || y == x),
    decreases out.len(),
{
    let r = insert_key::<K>(out, x);
    if out.len() == 0 {
        assert forall|y: K::Model| #[trigger] r.contains(y) <==> (out.contains(y) || y == x) by {
            if r.contains(y) {
                let i = choose|i: int| 0 <= i < r.len() && r[i] == y;
            }
            if y == x {
                assert(r[0] == x);
            }
        }
    } else if out[0] == x {
        assert(out.contains(out[0]));
    } else if K::before(out[0], x) {
        let tail = out.drop_first();
        assert forall|i: int, j: int| 0 <= i < j < tail.len() implies K::before(
            #[trigger] tail[i],
            #[trigger] tail[j],
        ) by {
            assert(tail[i] == out[i + 1] && tail[j] == out[j + 1]);
        }
        lemma_insert_key::<K>(tail, x);
        let rest = insert_key::<K>(tail, x);
        assert(r == seq![out[0]] + rest);
        assert forall|j: int| 0 <= j < rest.len() implies K::before(out[0], #[trigger] rest[j]) by {
            assert(rest.contains(rest[j]));
            if rest[j] != x {
                let q = choose|q: int| 0 <= q < tail.len() && tail[q] == rest[j];
                assert(out[q + 1] == rest[j]);
            }
        }
        assert forall|i: int, j: int| 0 <= i < j < r.len() implies K::before(
            #[trigger] r[i],
            #[trigger] r[j],
        ) by {
            assert(r[j] == rest[j - 1]);
            if i > 0 {
                assert(r[i] == rest[i - 1]);
            }
        }
        assert forall|y: K::Model| #[trigger] r.contains(y) <==> (out.contains(y) || y == x) by {
            if r.contains(y) {
                let i = choose|i: int| 0 <= i < r.len() && r[i] == y;
                if i == 0 {
                    assert(out[0] == y);
                } else {
                    assert(rest[i - 1] == y);
                    assert(rest.contains(y));
                    if tail.contains(y) {
                        let q = choose|q: int| 0 <= q < tail.len() && tail[q] == y;
                        assert(out[q + 1] == y);
                    }
                }
            }
            if out.contains(y) {
                let i = choose|i: int| 0 <= i < out.len() && out[i] == y;
                if i == 0 {
                    assert(r[0] == y);
                } else {
                    assert(tail[i - 1] == y);
                    assert(tail.contains(y));
                    assert(rest.contains(y));
                    let q = choose|q: int| 0 <= q < rest.len() && rest[q] == y;
                    assert(r[q + 1] == y);
                }
            }
            if y == x {
                assert(rest.contains(x));
                let q = choose|q: int| 0 <= q < rest.len() && rest[q] == x;
                assert(r[q + 1] == x);
            }
        }
    } else {
        K::lemma_total(out[0], x);
        assert(r == seq![x] + out);
        assert forall|i: int, j: int| 0 <= i < j < r.len() implies K::before(
            #[trigger] r[i],
            #[trigger] r[j],
        ) by {
            assert(r[j] == out[j - 1]);
            if i > 0 {
                assert(r[i] == out[i - 1]);
            } else if j > 1 {
                assert(K::before(out[0], out[j - 1]));
                K::lemma_transitive(x, out[0], out[j - 1]);
            }
        }
        assert forall|y: K::Model| #[trigger] r.contains(y) <==> (out.contains(y) || y == x) by {
            if r.contains(y) {
                let i = choose|i: int| 0 <= i < r.len() && r[i] == y;
                if i > 0 {
                    assert(out[i - 1] == y);
                }
            }
            if out.contains(y) {
                let i = choose|i: int| 0 <= i < out.len() && out[i] == y;
                assert(r[i + 1] == y);
            }
            if y == x {
                assert(r[0] == x);
            }
        }
    }
}

/// Every sequence of keys has a sorted, duplicate-free list of its keys.
pub proof fn lemma_sorted_distinct_exists<K: OrderedKey>(ks: Seq<K::Model>)
    ensures
        exists|out: Seq<K::Model>| sorted_distinct_of::<K>(out, ks),
    decreases ks.len(),
{
    if ks.len() == 0 {
        let out = Seq::<K::Model>::empty();
        assert(sorted_distinct_of::<K>(out, ks));
    } else {
        let init = ks.drop_last();
        lemma_sorted_distinct_exists::<K>(init);
        let prev = choose|out: Seq<K::Model>| sorted_distinct_of::<K>(out, init);
        let x = ks.last();
        lemma_insert_key::<K>(prev, x);
        let out = insert_key::<K>(prev, x);
        assert forall|y: K::Model| out.contains(y) <==> ks.contains(y) by {
            if ks.contains(y) {
                let i = choose|i: int| 0 <= i < ks.len() && ks[i] == y;
                if i < init.len() {
                    assert(init[i] == y);
                    assert(init.contains(y));
                }
            }
            if init.contains(y) {
                let i = choose|i: int| 0 <= i < init.len() && init[i] == y;
                assert(ks[i] == y);
            }
            if y == x {
                assert(ks[ks.len() - 1] == y);
            }
        }
        assert(sorted_distinct_of::<K>(out, ks));
    }
}

/// The keys of `ks`, sorted, each once.
pub open spec fn sorted_keys<K: OrderedKey>(ks: Seq<K::Model>) -> Seq<K::Model> {
    choose|out: Seq<K::Model>| sorted_distinct_of::<K>(out, ks)
}

/// `sorted_keys` lists each key once, in order, and is the only such list.
pub proof fn lemma_sorted_keys<K: OrderedKey>(ks: Seq<K::Model>)
    ensures
        sorted_distinct_of::<K>(sorted_keys::<K>(ks), ks),
        forall|out: Seq<K::Model>| #[trigger]
            sorted_distinct_of::<K>(out, ks) ==> out == sorted_keys::<K>(ks),
{
    lemma_sorted_distinct_exists::<K>(ks);
    let s = sorted_keys::<K>(ks);
    assert forall|out: Seq<K::Model>| #[trigger] sorted_distinct_of::<K>(out, ks) implies out == s by {
        lemma_sorted_distinct_unique::<K>(out, s);
    }
}

/// Inserts `k` into the strictly sorted `out`, unless a key equal to it is
/// already there.
pub fn insert_sorted<K: OrderedKey>(out: &mut Vec<K>, k: K)
    requires
        strictly_sorted::<K>(models(old(out)@)),
    ensures
        strictly_sorted::<K>(models(final(out)@)),
        forall|x: K::Model| #[trigger]
            models(final(out)@).contains(x) <==> (models(old(out)@).contains(x) || x == k.model()),
{
    let ghost old_ms = models(out@);
    let mut p: usize = 0;
    while p < out.len() && out[p].is_before(&k)
        invariant
            0 <= p <= out.len(),
            out@ == old(out)@,
            old_ms == models(out@),
            strictly_sorted::<K>(old_ms),
            forall|q: int| 0 <= q < p ==> K::before(#[trigger] old_ms[q], k.model()),
        decreases out.len() - p,
    {
        p = p + 1;
    }
    if p < out.len() && out[p].same_key(&k) {
        assert(old_ms[p as int] == k.model());
        assert(old_ms.contains(k.model()));
        return;
    }
    proof {
        if p < out.len() {
            K::lemma_total(old_ms[p as int], k.model());
        }
    }
    out.insert(p, k);
    proof {
        let ms = models(out@);
        assert(ms =~= old_ms.insert(p as int, k.model()));
        assert forall|i: int, j: int| 0 <= i < j < ms.len() implies K::before(
            #[trigger] ms[i],
            #[trigger] ms[j],
        ) by {
            if j < p {
                assert(ms[i] == old_ms[i] && ms[j] == old_ms[j]);
            } else if j == p {
                assert(ms[i] == old_ms[i]);
            } else if i == p {
                assert(ms[j] == old_ms[j - 1]);
                if j - 1 > p {
                    K::lemma_transitive(k.model(), old_ms[p as int], old_ms[j - 1]);
                }
            } else if i < p {
                assert(ms[i] == old_ms[i] && ms[j] == old_ms[j - 1]);
            } else {
                assert(ms[i] == old_ms[i - 1] && ms[j] == old_ms[j - 1]);
            }
        }
        assert forall|x: K::Model| #[trigger] ms.contains(x) <==> (old_ms.contains(x) || x
            == k.model()) by {
            if ms.contains(x) {
                let i = choose|i: int| 0 <= i < ms.len() && ms[i] == x;
                if i < p {
                    assert(old_ms[i] == x);
                } else if i > p {
                    assert(old_ms[i - 1] == x);
                }
            }
            if old_ms.contains(x) {
                let i = choose|i: int| 0 <= i < old_ms.len() && old_ms[i] == x;
                if i < p {
                    assert(ms[i] == x);
                } else {
                    assert(ms[i + 1] == x);
                }
            }
            if x == k.model() {
                assert(ms[p as int] == x);
            }
        }
    }
}

/// The keys of `ks`, sorted, each once (`sort` then `dedup`).
pub fn sorted_distinct<K: OrderedKey>(ks: &Vec<K>) -> (out: Vec<K>)
    ensures
        sorted_distinct_of::<K>(models(out@), models(ks@)),
{
    let mut out: Vec<K> = Vec::new();
    let mut i: usize = 0;
    while i < ks.len()
        invariant
            0 <= i <= ks.len(),
            strictly_sorted::<K>(models(out@)),
            forall|x: K::Model| #[trigger]
                models(out@).contains(x) <==> models(ks@.take(i as int)).contains(x),
        decreases ks.len() - i,
    {
        let k = ks[i].duplicate();
        let ghost before = models(out@);
        insert_sorted(&mut out, k);
        proof {
            let prefix = models(ks@.take(i + 1));
            assert(prefix =~= models(ks@.take(i as int)).push(ks@[i as int].model()));
            assert forall|x: K::Model| #[trigger] models(out@).contains(x) <==> prefix.contains(x) by {
                if prefix.contains(x) {
                    let j = choose|j: int| 0 <= j < prefix.len() && prefix[j] == x;
                    if j < i {
                        assert(models(ks@.take(i as int))[j] == x);
                    }
                }
                if models(ks@.take(i as int)).contains(x) {
                    let j = choose|j: int| 0 <= j < i && models(ks@.take(i as int))[j] == x;
                    assert(prefix[j] == x);
                }
                if x == k.model() {
                    assert(prefix[i as int] == x);
                }
            }
        }
        i = i + 1;
    }
    assert(ks@.take(ks.len() as int) =~= ks@);
    out
}

// ---------------------------------------------------------------------------
// Keys of std types
// ---------------------------------------------------------------------------

/// Lexicographic order on characters by code point; for strings this is the
/// order of std's `String` comparison, since UTF-8 keeps code point order.
pub open spec fn text_before(a: Seq<char>, b: Seq<char>) -> bool
    decreases a.len(),
{
    if a.len() == 0 {
        b.len() > 0
    } else if b.len() == 0 {
        false
    } else if a[0] != b[0] {
        a[0] < b[0]
    } else {
        text_before(a.drop_first(), b.drop_first())
    }
}

proof fn lemma_text_irreflexive(a: Seq<char>)
    ensures
        !text_before(a, a),
    decreases a.len(),
{
    if a.len() > 0 {
        lemma_text_irreflexive(a.drop_first());
    }
}

proof fn lemma_text_transitive(a: Seq<char>, b: Seq<char>, c: Seq<char>)
    requires
        text_before(a, b),
        text_before(b, c),
    ensures
        text_before(a, c),
    decreases a.len(),
{
    if a.len() > 0 && b.len() > 0 && c.len() > 0 {
        if a[0] == b[0] && b[0] == c[0] {
            lemma_text_transitive(a.drop_first(), b.drop_first(), c.drop_first());
        }
    }
}

/// `a` and `b` agree on their first `k` characters and differ at the next,
/// where `a`'s character is the smaller.
pub open spec fn first_difference_smaller(a: Seq<char>, b: Seq<char>, k: int) -> bool {
    0 <= k < a.len() && k < b.len() && a.take(k) == b.take(k) && a[k] < b[k]
}

/// The order of text is dictionary order by code point: `a` comes before `b`
/// exactly where `a` is a proper prefix of `b`, or at the first position where
/// they differ `a` has the smaller character.
pub proof fn law_text_order(a: Seq<char>, b: Seq<char>)
    ensures
        text_before(a, b) <==> ((a.len() < b.len() && b.take(a.len() as int) == a) || exists|k: int|
            first_difference_smaller(a, b, k)),
    decreases a.len(),
{
    if a.len() == 0 {
        assert(b.take(0) =~= a);
        if exists|k: int| first_difference_smaller(a, b, k) {
            let k = choose|k: int| first_difference_smaller(a, b, k);
        }
    } else if b.len() == 0 {
        if exists|k: int| first_difference_smaller(a, b, k) {
            let k = choose|k: int| first_difference_smaller(a, b, k);
        }
    } else if a[0] != b[0] {
        if a[0] < b[0] {
            assert(a.take(0) =~= b.take(0));
            assert(first_difference_smaller(a, b, 0));
        } else {
            if exists|k: int| first_difference_smaller(a, b, k) {
                let k = choose|k: int| first_difference_smaller(a, b, k);
                if k > 0 {
                    assert(a.take(k)[0] == b.take(k)[0]);
                }
            }
            if a.len() < b.len() && b.take(a.len() as int) == a {
                assert(b.take(a.len() as int)[0] == a[0]);
            }
        }
    } else {
        let a1 = a.drop_first();
        let b1 = b.drop_first();
        law_text_order(a1, b1);
        // prefixes
        if a.len() < b.len() && b.take(a.len() as int) == a {
            assert(b1.take(a1.len() as int) =~= a1) by {
                assert forall|i: int| 0 <= i < a1.len() implies #[trigger] b1.take(a1.len() as int)[i] == a1[i] by {
                    assert(b.take(a.len() as int)[i + 1] == a[i + 1]);
                }
            }
        }
        if a1.len() < b1.len() && b1.take(a1.len() as int) == a1 {
            assert(b.take(a.len() as int) =~= a) by {
                assert forall|i: int| 0 <= i < a.len() implies #[trigger] b.take(a.len() as int)[i] == a[i] by {
                    if i > 0 {
                        assert(b1.take(a1.len() as int)[i - 1] == a1[i - 1]);
                    }
                }
            }
        }
        // first differences
        if exists|k: int| first_difference_smaller(a, b, k) {
            let k = choose|k: int| first_difference_smaller(a, b, k);
            if k == 0 {
                assert(a[0] == b[0]);
            } else {
                assert(a1.take(k - 1) =~= b1.take(k - 1)) by {
                    assert forall|i: int| 0 <= i < k - 1 implies #[trigger] a1.take(k - 1)[i] == b1.take(k - 1)[i] by {
                        assert(a.take(k)[i + 1] == b.take(k)[i + 1]);
                    }
                }
                assert(first_difference_smaller(a1, b1, k - 1));
            }
        }
        if exists|k: int| first_difference_smaller(a1, b1, k) {
            let k = choose|k: int| first_difference_smaller(a1, b1, k);
            assert(a.take(k + 1) =~= b.take(k + 1)) by {
                assert forall|i: int| 0 <= i < k + 1 implies #[trigger] a.take(k + 1)[i] == b.take(k + 1)[i] by {
                    if i > 0 {
                        assert(a1.take(k)[i - 1] == b1.take(k)[i - 1]);
                    }
                }
            }
            assert(first_difference_smaller(a, b, k + 1));
        }
    }
}

proof fn lemma_text_total(a: Seq<char>, b: Seq<char>)
    ensures
        text_before(a, b) || text_before(b, a) || a == b,
    decreases a.len(),
{
    if a.len() == 0 {
        if b.len() == 0 {
            assert(a =~= b);
        }
    } else if b.len() > 0 {
        if a[0] == b[0] {
            lemma_text_total(a.drop_first(), b.drop_first());
            if a.drop_first() == b.drop_first() {
                assert(a =~= seq![a[0]] + a.drop_first());
                assert(b =~= seq![b[0]] + b.drop_first());
            }
        }
    }
}

/// Compares two strings by `text_before`.
pub fn text_is_before(a: &Vec<char>, b: &Vec<char>) -> (r: bool)
    ensures
        r == text_before(a@, b@),
{
    let mut i: usize = 0;
    assert(a@.skip(0) =~= a@ && b@.skip(0) =~= b@);
    while i < a.len() && i < b.len() && a[i] == b[i]
        invariant
            0 <= i <= a.len(),
            i <= b.len(),
            text_before(a@, b@) == text_before(a@.skip(i as int), b@.skip(i as int)),
        decreases a.len() - i,
    {
        assert(a@.skip(i as int).drop_first() =~= a@.skip(i + 1));
        assert(b@.skip(i as int).drop_first() =~= b@.skip(i + 1));
        i = i + 1;
    }
    if i == a.len() {
        i < b.len()
    } else if i == b.len() {
        false
    } else {
        a[i] < b[i]
    }
}

impl OrderedKey for String {
    type Model = Seq<char>;

    open spec fn model(&self) -> Seq<char> {
        self@
    }

    open spec fn before(a: Seq<char>, b: Seq<char>) -> bool {
        text_before(a, b)
    }

    proof fn lemma_irreflexive(a: Seq<char>) {
        lemma_text_irreflexive(a);
    }

    proof fn lemma_transitive(a: Seq<char>, b: Seq<char>, c: Seq<char>) {
        lemma_text_transitive(a, b, c);
    }

    proof fn lemma_total(a: Seq<char>, b: Seq<char>) {
        lemma_text_total(a, b);
    }

    fn is_before(&self, other: &Self) -> (r: bool) {
        let a = crate::text::chars_of(self.as_str());
        let b = crate::text::chars_of(other.as_str());
        text_is_before(&a, &b)
    }

    fn same_key(&self, other: &Self) -> (r: bool) {
        *self == *other
    }

    fn duplicate(&self) -> (r: Self) {
        self.clone()
    }
}

impl OrderedKey for u16 {
    type Model = u16;

    open spec fn model(&self) -> u16 {
        *self
    }

    open spec fn before(a: u16, b: u16) -> bool {
        a < b
    }

    proof fn lemma_irreflexive(a: u16) {
    }

    proof fn lemma_transitive(a: u16, b: u16, c: u16) {
    }

    proof fn lemma_total(a: u16, b: u16) {
    }

    fn is_before(&self, other: &Self) -> (r: bool) {
        *self < *other
    }

    fn same_key(&self, other: &Self) -> (r: bool) {
        *self == *other
    }

    fn duplicate(&self) -> (r: Self) {
        *self
    }
}

} // verus!
