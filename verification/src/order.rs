//! The shared sorting primitive: lexicographic (byte-wise) order on names,
//! and a stable insertion sort by name used by both canonicalizers.

use vstd::prelude::*;
use vstd::seq_lib::group_to_multiset_ensures;

verus! {

/// Lexicographic order on byte sequences: ordinary codepoint ordering for
/// ASCII identifiers.
pub open spec fn key_le(a: Seq<u8>, b: Seq<u8>) -> bool
    decreases a.len(),
{
    if a.len() == 0 {
        true
    } else if b.len() == 0 {
        false
    } else if a[0] < b[0] {
        true
    } else if a[0] > b[0] {
        false
    } else {
        key_le(a.drop_first(), b.drop_first())
    }
}

pub proof fn lemma_key_le_refl(a: Seq<u8>)
    ensures
        key_le(a, a),
    decreases a.len(),
{
    if a.len() > 0 {
        lemma_key_le_refl(a.drop_first());
    }
}

pub proof fn lemma_key_le_total(a: Seq<u8>, b: Seq<u8>)
    ensures
        key_le(a, b) || key_le(b, a),
    decreases a.len(),
{
    if a.len() > 0 && b.len() > 0 && a[0] == b[0] {
        lemma_key_le_total(a.drop_first(), b.drop_first());
    }
}

pub proof fn lemma_key_le_antisym(a: Seq<u8>, b: Seq<u8>)
    requires
        key_le(a, b),
        key_le(b, a),
    ensures
        a == b,
    decreases a.len(),
{
    if a.len() > 0 && b.len() > 0 {
        lemma_key_le_antisym(a.drop_first(), b.drop_first());
        assert(a =~= seq![a[0]] + a.drop_first());
        assert(b =~= seq![b[0]] + b.drop_first());
    } else {
        assert(a =~= b);
    }
}

pub proof fn lemma_key_le_trans(a: Seq<u8>, b: Seq<u8>, c: Seq<u8>)
    requires
        key_le(a, b),
        key_le(b, c),
    ensures
        key_le(a, c),
    decreases a.len(),
{
    if a.len() > 0 && b.len() > 0 && c.len() > 0 && a[0] == b[0] && b[0] == c[0] {
        lemma_key_le_trans(a.drop_first(), b.drop_first(), c.drop_first());
    }
}

/// A sortable item: anything that carries a name to order by.
pub trait NameKey: Sized {
    spec fn key(&self) -> Seq<u8>;
}

/// A sortable item whose name can be read at run time.
pub trait Named: NameKey + Sized {
    fn name_bytes(&self) -> (k: &Vec<u8>)
        ensures
            k@ == self.key(),
    ;
}

/// The whole sequence is ordered ascending by name.
pub open spec fn sorted_by_name<T: NameKey>(s: Seq<T>) -> bool {
    forall|i: int, j: int| 0 <= i < j < s.len() ==> key_le(#[trigger] s[i].key(), #[trigger] s[j].key())
}

/// No two items of the sequence share a name.
pub open spec fn unique_names<T: NameKey>(s: Seq<T>) -> bool {
    forall|i: int, j: int| 0 <= i < j < s.len() ==> #[trigger] s[i].key() != #[trigger] s[j].key()
}

/// Insert one item into a sequence, after every item whose name is less than
/// or equal to its own: the insertion step of a stable insertion sort.
pub open spec fn spec_insert<T: NameKey>(s: Seq<T>, x: T) -> Seq<T>
    decreases s.len(),
{
    if s.len() == 0 {
        seq![x]
    } else if key_le(s.last().key(), x.key()) {
        s.push(x)
    } else {
        spec_insert(s.drop_last(), x).push(s.last())
    }
}

/// Stable insertion sort by name: the canonical order of a field or column
/// list. Items with equal names keep their original relative order.
pub open spec fn spec_sort<T: NameKey>(s: Seq<T>) -> Seq<T>
    decreases s.len(),
{
    if s.len() == 0 {
        s
    } else {
        spec_insert(spec_sort(s.drop_last()), s.last())
    }
}

pub proof fn lemma_spec_insert_ensures<T: NameKey>(s: Seq<T>, x: T)
    requires
        sorted_by_name(s),
    ensures
        sorted_by_name(spec_insert(s, x)),
        spec_insert(s, x).to_multiset() == s.to_multiset().insert(x),
        spec_insert(s, x).len() == s.len() + 1,
    decreases s.len(),
{
    broadcast use group_to_multiset_ensures;

    if s.len() == 0 {
        assert(spec_insert(s, x) =~= Seq::empty().push(x));
        assert(spec_insert(s, x).to_multiset() =~= s.to_multiset().insert(x));
    } else if key_le(s.last().key(), x.key()) {
        assert forall|i: int, j: int| 0 <= i < j < s.push(x).len() implies key_le(
            #[trigger] s.push(x)[i].key(),
            #[trigger] s.push(x)[j].key(),
        ) by {
            if j == s.len() {
                if i < s.len() - 1 {
                    lemma_key_le_trans(s[i].key(), s.last().key(), x.key());
                }
            }
        }
        assert(s.push(x).to_multiset() =~= s.to_multiset().insert(x));
    } else {
        lemma_key_le_total(s.last().key(), x.key());
        let front = s.drop_last();
        assert(sorted_by_name(front)) by {
            assert(forall|i: int, j: int| 0 <= i < j < front.len() ==> key_le(
                #[trigger] front[i].key(),
                #[trigger] front[j].key(),
            )) by {
                assert(forall|i: int| 0 <= i < front.len() ==> front[i] == s[i]);
            }
        }
        lemma_spec_insert_ensures(front, x);
        let t = spec_insert(front, x);
        assert forall|i: int, j: int| 0 <= i < j < t.push(s.last()).len() implies key_le(
            #[trigger] t.push(s.last())[i].key(),
            #[trigger] t.push(s.last())[j].key(),
        ) by {
            if j == t.len() {
                // every item of t is either x or an item of the front of s
                assert(t.to_multiset().contains(t[i]));
                assert(t.to_multiset() == front.to_multiset().insert(x));
                if t[i] == x {
                    assert(key_le(t[i].key(), s.last().key()));
                } else {
                    assert(front.to_multiset().contains(t[i]));
                    let k = choose|k: int| 0 <= k < front.len() && front[k] == t[i];
                    assert(s[k] == front[k]);
                    assert(key_le(s[k].key(), s.last().key()));
                }
            }
        }
        assert(t.push(s.last()).to_multiset() =~= t.to_multiset().insert(s.last()));
        assert(s =~= front.push(s.last()));
        assert(s.to_multiset() =~= front.to_multiset().insert(s.last()));
        assert(t.to_multiset().insert(s.last()) =~= s.to_multiset().insert(x));
    }
}

pub proof fn lemma_spec_sort_ensures<T: NameKey>(s: Seq<T>)
    ensures
        sorted_by_name(spec_sort(s)),
        spec_sort(s).to_multiset() == s.to_multiset(),
        spec_sort(s).len() == s.len(),
    decreases s.len(),
{
    broadcast use group_to_multiset_ensures;

    if s.len() > 0 {
        let front = s.drop_last();
        lemma_spec_sort_ensures(front);
        lemma_spec_insert_ensures(spec_sort(front), s.last());
        assert(s =~= front.push(s.last()));
        assert(s.to_multiset() =~= front.to_multiset().insert(s.last()));
    }
}

/// A sequence that is already in canonical order is the fixed point of the
/// sort: sorting it changes nothing.
pub proof fn lemma_sort_of_sorted<T: NameKey>(s: Seq<T>)
    requires
        sorted_by_name(s),
    ensures
        spec_sort(s) == s,
    decreases s.len(),
{
    if s.len() > 0 {
        let front = s.drop_last();
        assert(sorted_by_name(front)) by {
            assert(forall|i: int| 0 <= i < front.len() ==> front[i] == s[i]);
        }
        lemma_sort_of_sorted(front);
        if front.len() > 0 {
            assert(key_le(front.last().key(), s.last().key()));
        }
        assert(spec_insert(front, s.last()) =~= s);
    }
}

/// Two sequences sorted by name, with no repeated names, that hold the same
/// items are the same sequence.
pub proof fn lemma_sorted_unique_names<T: NameKey>(x: Seq<T>, y: Seq<T>)
    requires
        sorted_by_name(x),
        sorted_by_name(y),
        unique_names(x),
        x.to_multiset() == y.to_multiset(),
    ensures
        x == y,
    decreases x.len(),
{
    broadcast use group_to_multiset_ensures;

    if x.len() == 0 {
        assert(y.to_multiset().len() == 0);
        assert(x =~= y);
    } else {
        assert(x.to_multiset().contains(x[0]));
        assert(y.to_multiset().contains(y[0]));
        let i = choose|i: int| 0 <= i < x.len() && x[i] == y[0];
        let j = choose|j: int| 0 <= j < y.len() && y[j] == x[0];
        // names at the heads are mutually ordered, so the heads agree
        if i > 0 {
            assert(key_le(x[0].key(), x[i].key()));
        }
        if j > 0 {
            assert(key_le(y[0].key(), y[j].key()));
        }
        lemma_key_le_refl(x[0].key());
        assert(key_le(x[0].key(), y[0].key()) && key_le(y[0].key(), x[0].key())) by {
            if i > 0 && j > 0 {
                lemma_key_le_trans(x[0].key(), y[j].key(), y[0].key());
            }
        }
        lemma_key_le_antisym(x[0].key(), y[0].key());
        assert(x[0] == y[0]) by {
            if i > 0 {
                assert(x[i].key() == y[0].key());
                assert(x[0].key() != x[i].key());
            }
        }
        let xr = x.drop_first();
        let yr = y.drop_first();
        assert(xr =~= x.remove(0));
        assert(yr =~= y.remove(0));
        assert(xr.to_multiset() =~= x.to_multiset().remove(x[0]));
        assert(yr.to_multiset() =~= y.to_multiset().remove(y[0]));
        assert(sorted_by_name(xr) && unique_names(xr)) by {
            assert(forall|k: int| 0 <= k < xr.len() ==> xr[k] == x[k + 1]);
        }
        assert(sorted_by_name(yr)) by {
            assert(forall|k: int| 0 <= k < yr.len() ==> yr[k] == y[k + 1]);
        }
        lemma_sorted_unique_names(xr, yr);
        assert(x =~= seq![x[0]] + xr);
        assert(y =~= seq![y[0]] + yr);
    }
}

/// Order-independence of the canonical order: any two arrangements of the
/// same items, with no repeated names, sort to the same sequence.
pub proof fn lemma_sort_order_independent<T: NameKey>(a: Seq<T>, b: Seq<T>)
    requires
        unique_names(a),
        a.to_multiset() == b.to_multiset(),
    ensures
        spec_sort(a) == spec_sort(b),
{
    broadcast use group_to_multiset_ensures;

    lemma_spec_sort_ensures(a);
    lemma_spec_sort_ensures(b);
    assert(unique_names(spec_sort(a))) by {
        lemma_unique_of_multiset(spec_sort(a), a);
    }
    lemma_sorted_unique_names(spec_sort(a), spec_sort(b));
}

/// Name-uniqueness depends only on which items a sequence holds.
pub proof fn lemma_unique_of_multiset<T: NameKey>(a: Seq<T>, b: Seq<T>)
    requires
        unique_names(b),
        a.to_multiset() == b.to_multiset(),
    ensures
        unique_names(a),
{
    broadcast use group_to_multiset_ensures;

    assert forall|i: int, j: int| 0 <= i < j < a.len() implies #[trigger] a[i].key()
        != #[trigger] a[j].key() by {
        if a[i] == a[j] {
            // the same item twice: its count in the shared multiset is at least two,
            // so it sits at two positions of b as well
            lemma_dup_count(a, i, j);
            assert(b.to_multiset().count(a[i]) >= 2);
            lemma_two_positions(b, a[i]);
            let (k, m) = choose|k: int, m: int| 0 <= k < b.len() && 0 <= m < b.len() && k != m
                && b[k] == a[i] && b[m] == a[i];
            assert(b[k].key() == b[m].key());
        } else {
            assert(a.to_multiset().contains(a[i]));
            assert(a.to_multiset().contains(a[j]));
            let k = choose|k: int| 0 <= k < b.len() && b[k] == a[i];
            lemma_multiset_remove_contains(b, k, a[j]);
        }
    }
}

proof fn lemma_dup_count<T>(a: Seq<T>, i: int, j: int)
    requires
        0 <= i < j < a.len(),
        a[i] == a[j],
    ensures
        a.to_multiset().count(a[i]) >= 2,
{
    broadcast use group_to_multiset_ensures;

    let r = a.remove(j);
    assert(r.to_multiset() =~= a.to_multiset().remove(a[j]));
    assert(r[i] == a[i]);
    assert(r.to_multiset().contains(r[i]));
}

proof fn lemma_two_positions<T: NameKey>(b: Seq<T>, x: T)
    requires
        b.to_multiset().count(x) >= 2,
    ensures
        exists|k: int, m: int|
            0 <= k < b.len() && 0 <= m < b.len() && k != m && b[k] == x && b[m] == x,
{
    broadcast use group_to_multiset_ensures;

    assert(b.to_multiset().contains(x));
    let k = choose|k: int| 0 <= k < b.len() && b[k] == x;
    let r = b.remove(k);
    assert(r.to_multiset() =~= b.to_multiset().remove(x));
    assert(r.to_multiset().contains(x));
    let m = choose|m: int| 0 <= m < r.len() && r[m] == x;
    if m < k {
        assert(b[m] == r[m]);
        assert(b[m] == x && b[k] == x && m != k);
    } else {
        assert(b[m + 1] == r[m]);
        assert(b[m + 1] == x && b[k] == x && m + 1 != k);
    }
}

proof fn lemma_multiset_remove_contains<T: NameKey>(b: Seq<T>, k: int, y: T)
    requires
        0 <= k < b.len(),
        b.to_multiset().contains(y),
        y != b[k],
    ensures
        exists|m: int| 0 <= m < b.len() && m != k && b[m] == y,
{
    broadcast use group_to_multiset_ensures;

    let r = b.remove(k);
    assert(r.to_multiset() =~= b.to_multiset().remove(b[k]));
    assert(r.to_multiset().contains(y));
    let m = choose|m: int| 0 <= m < r.len() && r[m] == y;
    if m < k {
        assert(b[m] == r[m]);
    } else {
        assert(b[m + 1] == r[m]);
    }
}

/// Compare two names for `key_le`, byte by byte from position `i` on.
fn le_bytes_from(a: &Vec<u8>, b: &Vec<u8>, i: usize) -> (r: bool)
    requires
        i <= a@.len(),
        i <= b@.len(),
        a@.subrange(0, i as int) == b@.subrange(0, i as int),
    ensures
        r == key_le(a@.skip(i as int), b@.skip(i as int)),
    decreases a@.len() - i,
{
    if i == a.len() {
        true
    } else if i == b.len() {
        false
    } else if a[i] < b[i] {
        assert(a@.skip(i as int)[0] == a@[i as int]);
        assert(b@.skip(i as int)[0] == b@[i as int]);
        true
    } else if a[i] > b[i] {
        false
    } else {
        assert(a@.subrange(0, i + 1 as int) =~= b@.subrange(0, i + 1 as int));
        let r = le_bytes_from(a, b, i + 1);
        assert(a@.skip(i as int).drop_first() =~= a@.skip(i + 1 as int));
        assert(b@.skip(i as int).drop_first() =~= b@.skip(i + 1 as int));
        r
    }
}

/// True when `a` comes no later than `b` in the canonical (byte-wise) order.
pub fn le_bytes(a: &Vec<u8>, b: &Vec<u8>) -> (r: bool)
    ensures
        r == key_le(a@, b@),
{
    assert(a@.subrange(0, 0) =~= b@.subrange(0, 0));
    let r = le_bytes_from(a, b, 0);
    assert(a@.skip(0) =~= a@);
    assert(b@.skip(0) =~= b@);
    r
}

/// Place one item into an already-sorted vector at its canonical position.
fn insert_by_name<T: Named>(out: &mut Vec<T>, x: T)
    ensures
        final(out)@ == spec_insert(old(out)@, x),
{
    let ghost orig = out@;
    let mut j: usize = out.len();
    while j > 0 && !le_bytes(out[j - 1].name_bytes(), x.name_bytes())
        invariant
            j <= out@.len(),
            out@ == orig,
            forall|k: int| j <= k < out@.len() ==> !key_le(#[trigger] out@[k].key(), x.key()),
        decreases j,
    {
        j = j - 1;
    }
    out.insert(j, x);
    proof {
        lemma_insert_at(orig, x, j as int);
    }
}

proof fn lemma_insert_at<T: NameKey>(s: Seq<T>, x: T, j: int)
    requires
        0 <= j <= s.len(),
        forall|k: int| j <= k < s.len() ==> !key_le(#[trigger] s[k].key(), x.key()),
        j > 0 ==> key_le(s[j - 1].key(), x.key()),
    ensures
        spec_insert(s, x) == s.insert(j, x),
    decreases s.len(),
{
    if s.len() == 0 {
        assert(spec_insert(s, x) =~= s.insert(0, x));
    } else if j == s.len() {
        assert(spec_insert(s, x) =~= s.insert(j, x));
    } else {
        let front = s.drop_last();
        assert(forall|k: int| j <= k < front.len() ==> front[k] == s[k]);
        if j > 0 {
            assert(front[j - 1] == s[j - 1]);
        }
        lemma_insert_at(front, x, j);
        assert(spec_insert(s, x) == front.insert(j, x).push(s.last()));
        assert(front.insert(j, x).push(s.last()) =~= s.insert(j, x));
    }
}

/// The shared sort primitive: reorder the items ascending by name with a
/// stable insertion sort. Both canonicalizers order their lists with this
/// one function.
pub fn sort_by_name<T: Named>(items: Vec<T>) -> (r: Vec<T>)
    ensures
        r@ == spec_sort(items@),
{
    let ghost orig = items@;
    let mut rest = items;
    let mut out: Vec<T> = Vec::new();
    let ghost mut done: Seq<T> = Seq::empty();
    while rest.len() > 0
        invariant
            orig == done + rest@,
            out@ == spec_sort(done),
        decreases rest@.len(),
    {
        let ghost old_done = done;
        let ghost old_rest = rest@;
        let x = rest.remove(0);
        proof {
            done = done.push(x);
            assert(done.drop_last() =~= old_done);
            assert(old_rest.remove(0) =~= old_rest.drop_first());
            assert(orig =~= done + old_rest.drop_first());
        }
        insert_by_name(&mut out, x);
    }
    proof {
        assert(orig =~= done);
    }
    out
}

} // verus!
