//! A stable sort of keyed items, with the ordering of keys given by [`SortKey`].
use vstd::prelude::*;
use vstd::seq_lib::*;

verus! {

/// A key with a total preorder, comparable at run time.
pub trait SortKey: Sized {
    spec fn key_le(self, other: Self) -> bool;

    proof fn lemma_key_reflexive(a: Self)
        ensures
            a.key_le(a),
    ;

    proof fn lemma_key_transitive(a: Self, b: Self, c: Self)
        requires
            a.key_le(b),
            b.key_le(c),
        ensures
            a.key_le(c),
    ;

    proof fn lemma_key_total(a: Self, b: Self)
        ensures
            a.key_le(b) || b.key_le(a),
    ;

    fn le(&self, other: &Self) -> (r: bool)
        ensures
            r == self.key_le(*other),
    ;
}

/// Two keys are equivalent when each orders before the other.
pub open spec fn same_key<K: SortKey>(a: K, b: K) -> bool {
    a.key_le(b) && b.key_le(a)
}

/// An item sorted by a key: a sequence of numbers compared lexicographically.
pub trait Keyed: Sized {
    spec fn sort_key(&self) -> Seq<u64>;

    fn sort_key_exec(&self) -> (key: Vec<u64>)
        ensures
            key@ == self.sort_key(),
    ;
}

/// Lexicographic order of number sequences.
pub open spec fn key_le(a: Seq<u64>, b: Seq<u64>) -> bool {
    seq_key_le::<u64>(a, b)
}

/// Two number sequences are equivalent keys.
pub open spec fn key_eq(a: Seq<u64>, b: Seq<u64>) -> bool {
    key_le(a, b) && key_le(b, a)
}

/// The items of `s` whose key is equivalent to `k`, in their order in `s`.
pub open spec fn with_key<T: Keyed>(s: Seq<T>, k: Seq<u64>) -> Seq<T> {
    s.filter(|e: T| key_eq(e.sort_key(), k))
}

/// Items are in non-decreasing key order.
pub open spec fn sorted_by_key<T: Keyed>(s: Seq<T>) -> bool {
    forall|i: int, j: int|
        0 <= i < j < s.len() ==> key_le((#[trigger] s[i]).sort_key(), (#[trigger] s[j]).sort_key())
}

/// `output` is `input` stably sorted by key: it is in key order, and for every key the items
/// with that key appear in both in the same order. This determines `output` from `input`.
pub open spec fn stably_sorted<T: Keyed>(input: Seq<T>, output: Seq<T>) -> bool {
    &&& sorted_by_key(output)
    &&& forall|k: Seq<u64>| #[trigger] with_key(input, k) == with_key(output, k)
}

proof fn lemma_with_key_single<T: Keyed>(x: T, k: Seq<u64>)
    ensures
        with_key(seq![x], k) == (if key_eq(x.sort_key(), k) {
            seq![x]
        } else {
            Seq::<T>::empty()
        }),
{
    reveal(Seq::filter);
    assert(seq![x].drop_last() =~= Seq::<T>::empty());
    assert(Seq::<T>::empty().filter(|e: T| key_eq(e.sort_key(), k)) =~= Seq::<T>::empty());
}

proof fn lemma_with_key_none<T: Keyed>(s: Seq<T>, k: Seq<u64>)
    requires
        forall|i: int| 0 <= i < s.len() ==> !key_eq((#[trigger] s[i]).sort_key(), k),
    ensures
        with_key(s, k) == Seq::<T>::empty(),
{
    s.lemma_all_neg_filter_empty(|e: T| key_eq(e.sort_key(), k));
    assert(with_key(s, k) =~= Seq::<T>::empty());
}

proof fn lemma_with_key_add<T: Keyed>(s1: Seq<T>, s2: Seq<T>, k: Seq<u64>)
    ensures
        with_key(s1 + s2, k) == with_key(s1, k) + with_key(s2, k),
{
    Seq::filter_distributes_over_add(s1, s2, |e: T| key_eq(e.sort_key(), k));
}

/// Sorts `items` by key, keeping items with equivalent keys in their input order.
pub fn stable_sort<T: Keyed>(items: Vec<T>) -> (sorted: Vec<T>)
    ensures
        stably_sorted(items@, sorted@),
        sorted@.len() == items@.len(),
{
    broadcast use group_seq_lib_default;

    let ghost input = items@;
    let mut rest = items;
    let mut out: Vec<T> = Vec::new();
    let mut out_keys: Vec<Vec<u64>> = Vec::new();
    proof {
        assert forall|k: Seq<u64>| #[trigger]
            with_key(input.subrange(rest@.len() as int, input.len() as int), k) == with_key(
                out@,
                k,
            ) by {
            assert(input.subrange(rest@.len() as int, input.len() as int) =~= Seq::<T>::empty());
            assert(out@ =~= Seq::<T>::empty());
        }
    }
    while rest.len() > 0
        invariant
            rest@ == input.subrange(0, rest@.len() as int),
            rest@.len() <= input.len(),
            out@.len() == input.len() - rest@.len(),
            out_keys@.len() == out@.len(),
            forall|i: int| 0 <= i < out@.len() ==> (#[trigger] out_keys@[i])@ == out@[i].sort_key(),
            sorted_by_key(out@),
            forall|k: Seq<u64>| #[trigger]
                with_key(input.subrange(rest@.len() as int, input.len() as int), k) == with_key(
                    out@,
                    k,
                ),
        decreases rest.len(),
    {
        let ghost done = input.subrange(rest@.len() as int, input.len() as int);
        let x = rest.pop().unwrap();
        let xk = x.sort_key_exec();
        let mut p: usize = 0;
        while p < out.len() && !SortKey::le(&xk, &out_keys[p])
            invariant
                p <= out.len(),
                xk@ == x.sort_key(),
                out_keys@.len() == out@.len(),
                forall|i: int| 0 <= i < out@.len() ==> (#[trigger] out_keys@[i])@ == out@[i].sort_key(),
                forall|q: int| 0 <= q < p ==> !key_le(x.sort_key(), (#[trigger] out@[q]).sort_key()),
            decreases out.len() - p,
        {
            assert(out_keys@[p as int]@ == out@[p as int].sort_key());
            p += 1;
        }
        let ghost before = out@;
        let ghost before_keys = out_keys@;
        out.insert(p, x);
        out_keys.insert(p, xk);
        proof {
            assert forall|i: int| 0 <= i < out@.len() implies (#[trigger] out_keys@[i])@
                == out@[i].sort_key() by {
                if i < p {
                    assert(out_keys@[i] == before_keys[i]);
                } else if i > p {
                    assert(out_keys@[i] == before_keys[i - 1]);
                }
            }
            let a = before.subrange(0, p as int);
            let b = before.subrange(p as int, before.len() as int);
            assert(before == a + b);
            assert(out@ =~= a + seq![x] + b);
            let xs = x.sort_key();
            assert forall|q: int| 0 <= q < p implies key_le((#[trigger] before[q]).sort_key(), xs)
                && !key_le(xs, before[q].sort_key()) by {
                lemma_seq_key_total::<u64>(before[q].sort_key(), xs);
            }
            assert forall|q: int| p <= q < before.len() implies key_le(
                xs,
                (#[trigger] before[q]).sort_key(),
            ) by {
                if q > p {
                    lemma_seq_key_transitive::<u64>(
                        xs,
                        before[p as int].sort_key(),
                        before[q].sort_key(),
                    );
                }
            }
            assert forall|i: int, j: int| 0 <= i < j < out@.len() implies key_le(
                (#[trigger] out@[i]).sort_key(),
                (#[trigger] out@[j]).sort_key(),
            ) by {
                if j < p {
                } else if j == p {
                    assert(out@[j] == x);
                } else if i < p {
                    assert(out@[j] == before[j - 1]);
                    lemma_seq_key_transitive::<u64>(
                        before[i].sort_key(),
                        xs,
                        before[j - 1].sort_key(),
                    );
                } else if i == p {
                    assert(out@[j] == before[j - 1]);
                } else {
                    assert(out@[i] == before[i - 1]);
                    assert(out@[j] == before[j - 1]);
                }
            }
            let now = input.subrange(rest@.len() as int, input.len() as int);
            assert(now =~= seq![x] + done);
            assert forall|k: Seq<u64>| #[trigger] with_key(now, k) == with_key(out@, k) by {
                lemma_with_key_single(x, k);
                lemma_with_key_add(seq![x], done, k);
                lemma_with_key_add(a + seq![x], b, k);
                lemma_with_key_add(a, seq![x], k);
                lemma_with_key_add(a, b, k);
                assert(with_key(done, k) == with_key(before, k));
                if key_eq(xs, k) {
                    assert forall|q: int| 0 <= q < a.len() implies !key_eq(
                        (#[trigger] a[q]).sort_key(),
                        k,
                    ) by {
                        assert(a[q] == before[q]);
                        if key_eq(a[q].sort_key(), k) {
                            lemma_seq_key_transitive::<u64>(xs, k, a[q].sort_key());
                        }
                    }
                    lemma_with_key_none(a, k);
                    assert(with_key(out@, k) =~= with_key(now, k));
                } else {
                    assert(with_key(out@, k) =~= with_key(now, k));
                }
            }
        }
    }
    proof {
        assert(input.subrange(0, input.len() as int) =~= input);
    }
    out
}

impl SortKey for u64 {
    open spec fn key_le(self, other: Self) -> bool {
        self <= other
    }

    proof fn lemma_key_reflexive(a: Self) {
    }

    proof fn lemma_key_transitive(a: Self, b: Self, c: Self) {
    }

    proof fn lemma_key_total(a: Self, b: Self) {
    }

    fn le(&self, other: &Self) -> (r: bool) {
        *self <= *other
    }
}

impl SortKey for usize {
    open spec fn key_le(self, other: Self) -> bool {
        self <= other
    }

    proof fn lemma_key_reflexive(a: Self) {
    }

    proof fn lemma_key_transitive(a: Self, b: Self, c: Self) {
    }

    proof fn lemma_key_total(a: Self, b: Self) {
    }

    fn le(&self, other: &Self) -> (r: bool) {
        *self <= *other
    }
}


/// Lexicographic order of sequences of keys (for text: the order of `str`).
pub open spec fn seq_key_le<K: SortKey>(a: Seq<K>, b: Seq<K>) -> bool
    decreases a.len(),
{
    if a.len() == 0 {
        true
    } else if b.len() == 0 {
        false
    } else if same_key(a[0], b[0]) {
        seq_key_le(a.drop_first(), b.drop_first())
    } else {
        a[0].key_le(b[0])
    }
}

pub proof fn lemma_seq_key_reflexive<K: SortKey>(a: Seq<K>)
    ensures
        seq_key_le(a, a),
    decreases a.len(),
{
    if a.len() > 0 {
        K::lemma_key_reflexive(a[0]);
        lemma_seq_key_reflexive(a.drop_first());
    }
}

pub proof fn lemma_seq_key_total<K: SortKey>(a: Seq<K>, b: Seq<K>)
    ensures
        seq_key_le(a, b) || seq_key_le(b, a),
    decreases a.len(),
{
    if a.len() > 0 && b.len() > 0 {
        K::lemma_key_total(a[0], b[0]);
        if same_key(a[0], b[0]) {
            lemma_seq_key_total(a.drop_first(), b.drop_first());
        }
    }
}

pub proof fn lemma_seq_key_transitive<K: SortKey>(a: Seq<K>, b: Seq<K>, c: Seq<K>)
    requires
        seq_key_le(a, b),
        seq_key_le(b, c),
    ensures
        seq_key_le(a, c),
    decreases a.len(),
{
    if a.len() > 0 && b.len() > 0 && c.len() > 0 {
        let (x, y, z) = (a[0], b[0], c[0]);
        if same_key(x, y) && same_key(y, z) {
            K::lemma_key_transitive(x, y, z);
            K::lemma_key_transitive(z, y, x);
            lemma_seq_key_transitive(a.drop_first(), b.drop_first(), c.drop_first());
        } else if same_key(x, y) {
            K::lemma_key_transitive(x, y, z);
            if z.key_le(x) {
                K::lemma_key_transitive(z, x, y);
            }
        } else if same_key(y, z) {
            K::lemma_key_transitive(x, y, z);
            if z.key_le(x) {
                K::lemma_key_transitive(y, z, x);
            }
        } else {
            K::lemma_key_transitive(x, y, z);
            if z.key_le(x) {
                K::lemma_key_transitive(y, z, x);
            }
        }
    }
}

impl<K: SortKey> SortKey for Vec<K> {
    open spec fn key_le(self, other: Self) -> bool {
        seq_key_le(self@, other@)
    }

    proof fn lemma_key_reflexive(a: Self) {
        lemma_seq_key_reflexive(a@);
    }

    proof fn lemma_key_transitive(a: Self, b: Self, c: Self) {
        lemma_seq_key_transitive(a@, b@, c@);
    }

    proof fn lemma_key_total(a: Self, b: Self) {
        lemma_seq_key_total(a@, b@);
    }

    fn le(&self, other: &Self) -> (r: bool) {
        let mut i: usize = 0;
        assert(self@.skip(0) =~= self@);
        assert(other@.skip(0) =~= other@);
        while i < self.len() && i < other.len()
            invariant
                i <= self.len(),
                i <= other.len(),
                forall|j: int| 0 <= j < i ==> same_key(#[trigger] self@[j], other@[j]),
                seq_key_le(self@, other@) == seq_key_le(self@.skip(i as int), other@.skip(i as int)),
            decreases self.len() - i,
        {
            let forward = SortKey::le(&self[i], &other[i]);
            let backward = SortKey::le(&other[i], &self[i]);
            assert(self@.skip(i as int)[0] == self@[i as int]);
            assert(other@.skip(i as int)[0] == other@[i as int]);
            if !(forward && backward) {
                return forward;
            }
            assert(self@.skip(i as int).drop_first() =~= self@.skip(i + 1));
            assert(other@.skip(i as int).drop_first() =~= other@.skip(i + 1));
            i += 1;
        }
        i == self.len()
    }
}


/// An item of a filtered sequence is an item of the sequence.
pub proof fn lemma_filter_members<T>(s: Seq<T>, p: spec_fn(T) -> bool, x: T)
    requires
        s.filter(p).contains(x),
    ensures
        s.contains(x),
    decreases s.len(),
{
    reveal(Seq::filter);
    if s.len() > 0 {
        let f = s.drop_last().filter(p);
        if x != s.last() {
            let i = choose|i: int| 0 <= i < s.filter(p).len() && s.filter(p)[i] == x;
            if p(s.last()) {
                assert(s.filter(p) == f.push(s.last()));
                assert(i < f.len());
                assert(f[i] == x);
            } else {
                assert(f[i] == x);
            }
            lemma_filter_members(s.drop_last(), p, x);
            let j = choose|j: int| 0 <= j < s.drop_last().len() && s.drop_last()[j] == x;
            assert(s[j] == x);
        } else {
            assert(s[s.len() - 1] == x);
        }
    }
}

/// Every item of a stable sort's output is an item of its input.
pub proof fn lemma_sorted_members<T: Keyed>(input: Seq<T>, output: Seq<T>, i: int)
    requires
        stably_sorted(input, output),
        0 <= i < output.len(),
    ensures
        input.contains(output[i]),
{
    let k = output[i].sort_key();
    lemma_seq_key_reflexive(k);
    let p = |e: T| key_eq(e.sort_key(), k);
    output.lemma_filter_contains(p, i);
    assert(with_key(input, k) == with_key(output, k));
    lemma_filter_members(input, p, output[i]);
}


/// Every item of a stable sort's input is an item of its output.
pub proof fn lemma_sorted_keeps<T: Keyed>(input: Seq<T>, output: Seq<T>, i: int)
    requires
        stably_sorted(input, output),
        0 <= i < input.len(),
    ensures
        output.contains(input[i]),
{
    let k = input[i].sort_key();
    lemma_seq_key_reflexive(k);
    let p = |e: T| key_eq(e.sort_key(), k);
    input.lemma_filter_contains(p, i);
    assert(with_key(input, k) == with_key(output, k));
    lemma_filter_members(output, p, input[i]);
}


proof fn lemma_filter_two<T>(s: Seq<T>, p: spec_fn(T) -> bool, i: int, j: int)
    requires
        0 <= i < j < s.len(),
        p(s[i]),
        p(s[j]),
    ensures
        s.filter(p).len() >= 2,
    decreases s.len(),
{
    reveal(Seq::filter);
    if j < s.len() - 1 {
        lemma_filter_two(s.drop_last(), p, i, j);
    } else {
        s.drop_last().lemma_filter_contains(p, i);
        assert(s.drop_last()[i] == s[i]);
    }
}

proof fn lemma_filter_at_most_one<T>(s: Seq<T>, p: spec_fn(T) -> bool)
    requires
        forall|i: int, j: int| 0 <= i < j < s.len() && p(#[trigger] s[i]) ==> !p(#[trigger] s[j]),
    ensures
        s.filter(p).len() <= 1,
    decreases s.len(),
{
    reveal(Seq::filter);
    if s.len() > 0 {
        lemma_filter_at_most_one(s.drop_last(), p);
        if p(s.last()) {
            if s.drop_last().filter(p).len() > 0 {
                let x = s.drop_last().filter(p)[0];
                s.drop_last().lemma_filter_pred(p, 0);
                assert(s.drop_last().filter(p).contains(x));
                lemma_filter_members(s.drop_last(), p, x);
                let k = choose|k: int| 0 <= k < s.drop_last().len() && s.drop_last()[k] == x;
                assert(s[k] == x);
                assert(p(s[k]));
                assert(!p(s[s.len() - 1]));
            }
        }
    }
}

/// No two items of the sequence have equivalent keys.
pub open spec fn distinct_keys<T: Keyed>(s: Seq<T>) -> bool {
    forall|i: int, j: int| 0 <= i < j < s.len() ==> !key_eq((#[trigger] s[i]).sort_key(), (#[trigger] s[j]).sort_key())
}

proof fn lemma_key_eq_symmetric_transitive(a: Seq<u64>, b: Seq<u64>, c: Seq<u64>)
    ensures
        key_eq(a, b) ==> key_eq(b, a),
        key_eq(a, b) && key_eq(b, c) ==> key_eq(a, c),
{
    if key_eq(a, b) && key_eq(b, c) {
        lemma_seq_key_transitive(a, b, c);
        lemma_seq_key_transitive(c, b, a);
    }
}

/// In a stable sort of items with distinct keys, an item appears only once.
pub proof fn lemma_sorted_once<T: Keyed>(input: Seq<T>, output: Seq<T>, i: int, j: int)
    requires
        stably_sorted(input, output),
        distinct_keys(input),
        0 <= i < j < output.len(),
    ensures
        output[i] != output[j],
{
    if output[i] == output[j] {
        let k = output[i].sort_key();
        lemma_seq_key_reflexive(k);
        let p = |e: T| key_eq(e.sort_key(), k);
        lemma_filter_two(output, p, i, j);
        assert(with_key(input, k) == with_key(output, k));
        assert forall|a: int, b: int| 0 <= a < b < input.len() && p(#[trigger] input[a]) implies !p(#[trigger] input[b]) by {
            lemma_key_eq_symmetric_transitive(input[a].sort_key(), k, input[b].sort_key());
            lemma_key_eq_symmetric_transitive(input[b].sort_key(), k, input[a].sort_key());
            lemma_key_eq_symmetric_transitive(k, input[b].sort_key(), input[a].sort_key());
        }
        lemma_filter_at_most_one(input, p);
    }
}

/// Filtering by a predicate that implies `p` after filtering by `p` is filtering by it alone.
proof fn lemma_filter_within<T>(s: Seq<T>, p: spec_fn(T) -> bool, q: spec_fn(T) -> bool)
    requires
        forall|e: T| #[trigger] q(e) ==> p(e),
    ensures
        s.filter(p).filter(q) == s.filter(q),
    decreases s.len(),
{
    reveal(Seq::filter);
    if s.len() > 0 {
        lemma_filter_within(s.drop_last(), p, q);
        let f = s.drop_last().filter(p);
        if p(s.last()) {
            f.lemma_filter_push(s.last(), q);
            assert(s.filter(p) == f.push(s.last()));
        }
    }
}

/// Items singled out by a predicate that holds only of items of one key come out of a
/// stable sort in the order they went in.
pub proof fn lemma_sorted_filter<T: Keyed>(input: Seq<T>, output: Seq<T>, k: Seq<u64>, q: spec_fn(T) -> bool)
    requires
        stably_sorted(input, output),
        forall|e: T| #[trigger] q(e) ==> key_eq(e.sort_key(), k),
    ensures
        input.filter(q) == output.filter(q),
{
    let p = |e: T| key_eq(e.sort_key(), k);
    assert(with_key(input, k) == with_key(output, k));
    lemma_filter_within(input, p, q);
    lemma_filter_within(output, p, q);
}

/// An item that a stable sort meets once in its input, it puts out once.
pub proof fn lemma_sorted_no_repeat<T: Keyed>(input: Seq<T>, output: Seq<T>, q: spec_fn(T) -> bool, i: int, j: int)
    requires
        stably_sorted(input, output),
        forall|a: T, b: T| #[trigger] q(a) && #[trigger] q(b) ==> key_eq(a.sort_key(), b.sort_key()),
        forall|a: int, b: int| 0 <= a < b < input.len() && q(#[trigger] input[a]) ==> !q(#[trigger] input[b]),
        0 <= i < j < output.len(),
        q(output[i]),
    ensures
        !q(output[j]),
{
    if q(output[j]) {
        let k = output[i].sort_key();
        lemma_sorted_filter(input, output, k, q);
        lemma_filter_two(output, q, i, j);
        lemma_filter_at_most_one(input, q);
    }
}

/// When no two items have equivalent keys, the stable sort of a sequence is unique.
pub proof fn lemma_stable_sort_unique<T: Keyed>(input: Seq<T>, a: Seq<T>, b: Seq<T>)
    requires
        stably_sorted(input, a),
        stably_sorted(input, b),
        a.len() == input.len(),
        b.len() == input.len(),
        distinct_keys(input),
    ensures
        a == b,
{
    assert forall|n: int| 0 <= n < a.len() implies a[n] == b[n] by {
        lemma_sorted_prefix_equal(input, a, b, n);
    }
    assert(a =~= b);
}

proof fn lemma_sorted_prefix_equal<T: Keyed>(input: Seq<T>, a: Seq<T>, b: Seq<T>, n: int)
    requires
        stably_sorted(input, a),
        stably_sorted(input, b),
        a.len() == input.len(),
        b.len() == input.len(),
        distinct_keys(input),
        0 <= n < a.len(),
    ensures
        a[n] == b[n],
    decreases n,
{
    if n > 0 {
        lemma_sorted_prefix_equal(input, a, b, n - 1);
    }
    assert forall|m: int| 0 <= m < n implies a[m] == b[m] by {
        lemma_sorted_prefix_equal(input, a, b, m);
    }
    let x = a[n];
    let y = b[n];
    if x != y {
        lemma_sorted_members(input, a, n);
        let ix = choose|k: int| 0 <= k < input.len() && input[k] == x;
        lemma_sorted_keeps(input, b, ix);
        let q = choose|k: int| 0 <= k < b.len() && b[k] == x;
        lemma_sorted_members(input, b, n);
        let iy = choose|k: int| 0 <= k < input.len() && input[k] == y;
        lemma_sorted_keeps(input, a, iy);
        let qq = choose|k: int| 0 <= k < a.len() && a[k] == y;
        if q < n {
            assert(b[q] == a[q]);
            lemma_sorted_once(input, a, q, n);
        }
        if qq < n {
            assert(a[qq] == b[qq]);
            lemma_sorted_once(input, b, qq, n);
        }
        assert(q != n && qq != n);
        assert(key_le(x.sort_key(), y.sort_key()));
        assert(key_le(y.sort_key(), x.sort_key()));
        assert(ix != iy);
        if ix < iy {
            assert(!key_eq(input[ix].sort_key(), input[iy].sort_key()));
        } else {
            assert(!key_eq(input[iy].sort_key(), input[ix].sort_key()));
        }
    }
}


/// Equivalent number keys of the same length are equal.
pub proof fn lemma_key_eq_equal(a: Seq<u64>, b: Seq<u64>)
    requires
        key_eq(a, b),
        a.len() == b.len(),
    ensures
        a == b,
    decreases a.len(),
{
    if a.len() > 0 {
        assert(a[0] == b[0]);
        lemma_key_eq_equal(a.drop_first(), b.drop_first());
        assert(a =~= seq![a[0]] + a.drop_first());
        assert(b =~= seq![b[0]] + b.drop_first());
    } else {
        assert(a =~= b);
    }
}

/// The item at `j` comes before the item at `i` in the stable order by `keys`: its key is
/// smaller, or the two keys are equivalent and it comes first.
pub open spec fn ranks_before(keys: Seq<Seq<u64>>, j: int, i: int) -> bool {
    !key_le(keys[i], keys[j]) || (key_le(keys[j], keys[i]) && j < i)
}

/// How many of the first `n` items come before the item at `i` in the stable order by `keys`:
/// its position once the first `n` items are stably sorted.
pub open spec fn rank_in(keys: Seq<Seq<u64>>, i: int, n: int) -> nat
    decreases n,
{
    if n <= 0 {
        0
    } else {
        rank_in(keys, i, n - 1) + if ranks_before(keys, n - 1, i) {
            1nat
        } else {
            0nat
        }
    }
}

/// Of two different items, exactly one comes before the other.
pub proof fn lemma_ranks_before_total(keys: Seq<Seq<u64>>, i: int, j: int)
    requires
        i != j,
    ensures
        ranks_before(keys, j, i) || ranks_before(keys, i, j),
        !(ranks_before(keys, j, i) && ranks_before(keys, i, j)),
{
    lemma_seq_key_total(keys[i], keys[j]);
}

/// No item comes before itself.
pub proof fn lemma_ranks_before_irreflexive(keys: Seq<Seq<u64>>, i: int)
    ensures
        !ranks_before(keys, i, i),
{
    lemma_seq_key_reflexive(keys[i]);
}

/// Coming before is transitive.
pub proof fn lemma_ranks_before_transitive(keys: Seq<Seq<u64>>, a: int, b: int, c: int)
    requires
        ranks_before(keys, a, b),
        ranks_before(keys, b, c),
    ensures
        ranks_before(keys, a, c),
{
    let (ka, kb, kc) = (keys[a], keys[b], keys[c]);
    lemma_seq_key_total(ka, kb);
    lemma_seq_key_total(kb, kc);
    lemma_seq_key_total(ka, kc);
    if key_le(kc, ka) {
        if !key_le(kb, ka) {
            if !key_le(kc, kb) {
                lemma_seq_key_transitive(kc, ka, kb);
            } else {
                lemma_seq_key_transitive(kb, kc, ka);
            }
        } else if !key_le(kc, kb) {
            lemma_seq_key_transitive(kc, ka, kb);
        }
    }
    if key_le(ka, kb) && key_le(kb, kc) {
        lemma_seq_key_transitive(ka, kb, kc);
    }
}

proof fn lemma_rank_step(keys: Seq<Seq<u64>>, j: int, i: int, n: int)
    requires
        ranks_before(keys, j, i),
        0 <= j,
        0 <= n,
    ensures
        rank_in(keys, j, n) + (if j < n {
            1int
        } else {
            0int
        }) <= rank_in(keys, i, n),
    decreases n,
{
    if n > 0 {
        lemma_rank_step(keys, j, i, n - 1);
        let k = n - 1;
        if k == j {
            lemma_ranks_before_irreflexive(keys, j);
        } else if ranks_before(keys, k, j) {
            lemma_ranks_before_transitive(keys, k, j, i);
        }
    }
}

/// An item that comes before another has a smaller rank.
pub proof fn lemma_rank_before(keys: Seq<Seq<u64>>, j: int, i: int, n: int)
    requires
        ranks_before(keys, j, i),
        0 <= j < n,
    ensures
        rank_in(keys, j, n) < rank_in(keys, i, n),
{
    lemma_rank_step(keys, j, i, n);
}

/// The ranks of the first `n` items are below `n`.
pub proof fn lemma_rank_bound(keys: Seq<Seq<u64>>, i: int, n: int)
    requires
        0 <= i < n,
    ensures
        rank_in(keys, i, n) < n,
    decreases n,
{
    if n - 1 > i {
        lemma_rank_bound(keys, i, n - 1);
    } else {
        lemma_rank_le(keys, i, n - 1);
        lemma_ranks_before_irreflexive(keys, i);
    }
}

proof fn lemma_rank_le(keys: Seq<Seq<u64>>, i: int, n: int)
    requires
        0 <= n,
    ensures
        rank_in(keys, i, n) <= n,
    decreases n,
{
    if n > 0 {
        lemma_rank_le(keys, i, n - 1);
    }
}

/// Different items among the first `n` have different ranks.
pub proof fn lemma_rank_distinct(keys: Seq<Seq<u64>>, i: int, j: int, n: int)
    requires
        0 <= i < n,
        0 <= j < n,
        i != j,
    ensures
        rank_in(keys, i, n) != rank_in(keys, j, n),
{
    lemma_ranks_before_total(keys, i, j);
    if ranks_before(keys, j, i) {
        lemma_rank_before(keys, j, i, n);
    } else {
        lemma_rank_before(keys, i, j, n);
    }
}

} // verus!
