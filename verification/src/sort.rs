//! Sorting lists of indices.

use vstd::prelude::*;

verus! {

/// A strict total order on the indices of some list.
pub trait Order {
    /// How many indices there are.
    spec fn count(&self) -> nat;

    /// `i` comes before `j`.
    spec fn before(&self, i: int, j: int) -> bool;

    /// The order is strict and total.
    proof fn total(&self, i: int, j: int)
        requires
            0 <= i < self.count(),
            0 <= j < self.count(),
        ensures
            !(self.before(i, j) && self.before(j, i)),
            i != j ==> self.before(i, j) || self.before(j, i),
    ;

    /// The order is transitive.
    proof fn transitive(&self, i: int, j: int, k: int)
        requires
            0 <= i < self.count(),
            0 <= j < self.count(),
            0 <= k < self.count(),
            self.before(i, j),
            self.before(j, k),
        ensures
            self.before(i, k),
    ;
}

/// An order that can be computed.
pub trait Ranking: Order {
    /// Whether `i` comes before `j`.
    fn is_before(&self, i: usize, j: usize) -> (r: bool)
        requires
            i < self.count(),
            j < self.count(),
        ensures
            r == self.before(i as int, j as int),
    ;
}

/// Every index of the list stands within the ranking.
pub open spec fn within<R: Order>(r: &R, s: Seq<usize>) -> bool {
    forall|k: int| 0 <= k < s.len() ==> #[trigger] s[k] < r.count()
}

/// Each index of the list comes before those that follow it.
pub open spec fn ordered<R: Order>(r: &R, s: Seq<usize>) -> bool {
    forall|k: int, l: int| 0 <= k < l < s.len() ==> r.before(#[trigger] s[k] as int, #[trigger] s[l] as int)
}

/// The two lists hold the same indices.
pub open spec fn same_members(a: Seq<usize>, b: Seq<usize>) -> bool {
    forall|x: usize| #[trigger] a.contains(x) <==> b.contains(x)
}

/// No index stands twice in the list.
pub open spec fn distinct(s: Seq<usize>) -> bool {
    forall|k: int, l: int| 0 <= k < l < s.len() ==> #[trigger] s[k] != #[trigger] s[l]
}

/// `b` is `a` brought into the order of the ranking.
pub open spec fn arranges<R: Order>(r: &R, a: Seq<usize>, b: Seq<usize>) -> bool {
    within(r, b) && ordered(r, b) && same_members(a, b) && a.len() == b.len()
}

/// A list can be brought into order in one way only.
pub proof fn lemma_arrangement_unique<R: Order>(r: &R, a: Seq<usize>, b: Seq<usize>)
    requires
        within(r, a),
        within(r, b),
        ordered(r, a),
        ordered(r, b),
        same_members(a, b),
    ensures
        a == b,
    decreases a.len(),
{
    if a.len() == 0 {
        if b.len() > 0 {
            assert(b.contains(b[0]));
            assert(a.contains(b[0]));
        }
        assert(a =~= b);
    } else {
        assert(a.contains(a[0]));
        assert(b.contains(a[0]));
        let k = choose|k: int| 0 <= k < b.len() && b[k] == a[0];
        assert(b.contains(b[0]));
        assert(a.contains(b[0]));
        let l = choose|l: int| 0 <= l < a.len() && a[l] == b[0];
        r.total(a[0] as int, b[0] as int);
        if k > 0 {
            assert(r.before(b[0] as int, b[k] as int));
            assert(l > 0);
            assert(r.before(a[0] as int, a[l] as int));
            assert(false);
        }
        let ta = a.drop_first();
        let tb = b.drop_first();
        assert forall|x: usize| #[trigger] ta.contains(x) <==> tb.contains(x) by {
            lemma_tail_members(r, a, x);
            lemma_tail_members(r, b, x);
        }
        lemma_arrangement_unique(r, ta, tb);
        assert(a =~= seq![a[0]] + ta);
        assert(b =~= seq![b[0]] + tb);
    }
}

proof fn lemma_tail_members<R: Order>(r: &R, a: Seq<usize>, x: usize)
    requires
        a.len() > 0,
        within(r, a),
        ordered(r, a),
    ensures
        a.drop_first().contains(x) <==> a.contains(x) && x != a[0],
{
    let t = a.drop_first();
    if t.contains(x) {
        let k = choose|k: int| 0 <= k < t.len() && t[k] == x;
        assert(a[k + 1] == x);
        assert(r.before(a[0] as int, a[k + 1] as int));
        r.total(a[0] as int, a[k + 1] as int);
    }
    if a.contains(x) && x != a[0] {
        let k = choose|k: int| 0 <= k < a.len() && a[k] == x;
        assert(t[k - 1] == x);
    }
}

/// An index can be put into its place in an ordered list.
proof fn lemma_insert<R: Order>(r: &R, a: Seq<usize>, x: usize) -> (b: Seq<usize>)
    requires
        within(r, a),
        ordered(r, a),
        x < r.count(),
        !a.contains(x),
    ensures
        within(r, b),
        ordered(r, b),
        b.len() == a.len() + 1,
        forall|y: usize| #[trigger] b.contains(y) <==> a.contains(y) || y == x,
    decreases a.len(),
{
    if a.len() == 0 {
        let b = seq![x];
        assert(b[0] == x);
        b
    } else if r.before(a.last() as int, x as int) {
        let b = a.push(x);
        assert forall|k: int, l: int| 0 <= k < l < b.len() implies r.before(
            #[trigger] b[k] as int,
            #[trigger] b[l] as int,
        ) by {
            if l == a.len() && k < a.len() - 1 {
                assert(r.before(a[k] as int, a[a.len() - 1] as int));
                r.transitive(a[k] as int, a.last() as int, x as int);
            }
        }
        lemma_push_members(a, x);
        b
    } else {
        let d = a.drop_last();
        let z = a.last();
        assert(a[a.len() - 1] == z);
        assert forall|k: int| 0 <= k < d.len() implies #[trigger] d[k] < r.count() && r.before(
            d[k] as int,
            z as int,
        ) by {
            assert(a[k] == d[k]);
            assert(r.before(a[k] as int, a[a.len() - 1] as int));
        }
        assert forall|k: int, l: int| 0 <= k < l < d.len() implies r.before(
            #[trigger] d[k] as int,
            #[trigger] d[l] as int,
        ) by {
            assert(r.before(a[k] as int, a[l] as int));
        }
        if d.contains(x) {
            let k = choose|k: int| 0 <= k < d.len() && d[k] == x;
            assert(a[k] == x);
        }
        assert(z != x) by {
            assert(a.contains(z));
        }
        r.total(z as int, x as int);
        let c = lemma_insert(r, d, x);
        let b = c.push(z);
        assert forall|k: int, l: int| 0 <= k < l < b.len() implies r.before(
            #[trigger] b[k] as int,
            #[trigger] b[l] as int,
        ) by {
            if l == c.len() {
                assert(c.contains(c[k]));
                if c[k] != x {
                    let i = choose|i: int| 0 <= i < d.len() && d[i] == c[k];
                    assert(r.before(d[i] as int, z as int));
                }
            }
        }
        lemma_push_members(c, z);
        lemma_push_members(d, z);
        assert(d.push(z) =~= a);
        b
    }
}

/// A list without repetitions can be brought into order.
pub proof fn lemma_arrangement_exists<R: Order>(r: &R, a: Seq<usize>) -> (b: Seq<usize>)
    requires
        within(r, a),
        distinct(a),
    ensures
        arranges(r, a, b),
    decreases a.len(),
{
    if a.len() == 0 {
        a
    } else {
        let d = a.drop_last();
        let x = a.last();
        assert(a[a.len() - 1] == x);
        assert forall|k: int| 0 <= k < d.len() implies #[trigger] d[k] < r.count() by {
            assert(a[k] == d[k]);
        }
        assert forall|k: int, l: int| 0 <= k < l < d.len() implies #[trigger] d[k]
            != #[trigger] d[l] by {
            assert(a[k] != a[l]);
        }
        let c = lemma_arrangement_exists(r, d);
        if c.contains(x) {
            assert(d.contains(x));
            let k = choose|k: int| 0 <= k < d.len() && d[k] == x;
            assert(a[k] != a[a.len() - 1]);
        }
        let b = lemma_insert(r, c, x);
        lemma_push_members(d, x);
        assert(d.push(x) =~= a);
        b
    }
}

/// As many different indices below `n` as there are leave none out.
pub proof fn lemma_distinct_covers(s: Seq<usize>, n: nat)
    requires
        distinct(s),
        s.len() == n,
        forall|k: int| 0 <= k < s.len() ==> #[trigger] s[k] < n,
    ensures
        forall|i: usize| i < n ==> #[trigger] s.contains(i),
    decreases n,
{
    if n > 0 {
        let m = (n - 1) as nat;
        if exists|k: int| 0 <= k < s.len() && s[k] == m {
            let k = choose|k: int| 0 <= k < s.len() && s[k] == m;
            let t = s.remove(k);
            assert forall|i: int| 0 <= i < t.len() implies #[trigger] t[i] == s[
            if i < k {
                i
            } else {
                i + 1
            }] by {}
            assert forall|i: int, j: int| 0 <= i < j < t.len() implies #[trigger] t[i]
                != #[trigger] t[j] by {
                let a = if i < k {
                    i
                } else {
                    i + 1
                };
                let b = if j < k {
                    j
                } else {
                    j + 1
                };
                assert(s[a] != s[b]);
            }
            assert forall|i: int| 0 <= i < t.len() implies #[trigger] t[i] < m by {
                let a = if i < k {
                    i
                } else {
                    i + 1
                };
                if a < k {
                    assert(s[a] != s[k]);
                } else {
                    assert(s[k] != s[a]);
                }
                assert(s[a] < n);
            }
            lemma_distinct_covers(t, m);
            assert forall|i: usize| i < n implies #[trigger] s.contains(i) by {
                if i < m {
                    assert(t.contains(i));
                    let j = choose|j: int| 0 <= j < t.len() && t[j] == i;
                    let a = if j < k {
                        j
                    } else {
                        j + 1
                    };
                    assert(s[a] == i);
                } else {
                    assert(s[k] == i);
                }
            }
        } else {
            assert forall|i: int| 0 <= i < s.len() implies #[trigger] s[i] < m by {
                assert(s[i] < n);
            }
            lemma_too_many(s, m);
        }
    }
}

/// There are no more different indices below `n` than `n`.
pub proof fn lemma_too_many(s: Seq<usize>, n: nat)
    requires
        distinct(s),
        forall|k: int| 0 <= k < s.len() ==> #[trigger] s[k] < n,
    ensures
        s.len() <= n,
    decreases n,
{
    if s.len() > 0 && n > 0 {
        let m = (n - 1) as nat;
        if exists|k: int| 0 <= k < s.len() && s[k] == m {
            let k = choose|k: int| 0 <= k < s.len() && s[k] == m;
            let t = s.remove(k);
            assert forall|i: int, j: int| 0 <= i < j < t.len() implies #[trigger] t[i]
                != #[trigger] t[j] by {
                let a = if i < k {
                    i
                } else {
                    i + 1
                };
                let b = if j < k {
                    j
                } else {
                    j + 1
                };
                assert(s[a] != s[b]);
            }
            assert forall|i: int| 0 <= i < t.len() implies #[trigger] t[i] < m by {
                let a = if i < k {
                    i
                } else {
                    i + 1
                };
                if a < k {
                    assert(s[a] != s[k]);
                } else {
                    assert(s[k] != s[a]);
                }
                assert(s[a] < n);
            }
            lemma_too_many(t, m);
        } else {
            assert forall|i: int| 0 <= i < s.len() implies #[trigger] s[i] < m by {
                assert(s[i] < n);
            }
            lemma_too_many(s, m);
        }
    } else if s.len() > 0 {
        assert(s[0] < n);
    }
}

/// An ordered list holds no index twice.
pub proof fn lemma_ordered_distinct<R: Order>(r: &R, a: Seq<usize>)
    requires
        within(r, a),
        ordered(r, a),
    ensures
        distinct(a),
{
    assert forall|k: int, l: int| 0 <= k < l < a.len() implies #[trigger] a[k] != #[trigger] a[l] by {
        r.total(a[k] as int, a[l] as int);
    }
}

fn merge<R: Ranking>(r: &R, a: &Vec<usize>, b: &Vec<usize>) -> (m: Vec<usize>)
    requires
        within(r, a@),
        within(r, b@),
        ordered(r, a@),
        ordered(r, b@),
        forall|x: usize| a@.contains(x) ==> !b@.contains(x),
        a@.len() + b@.len() <= usize::MAX,
    ensures
        within(r, m@),
        ordered(r, m@),
        m@.len() == a@.len() + b@.len(),
        forall|x: usize| #[trigger] m@.contains(x) <==> a@.contains(x) || b@.contains(x),
{
    let n: usize = a.len();
    let k: usize = b.len();
    let mut i: usize = 0;
    let mut j: usize = 0;
    let mut m: Vec<usize> = Vec::new();
    while i < n || j < k
        invariant
            i <= n,
            j <= k,
            n == a@.len(),
            k == b@.len(),
            n + k <= usize::MAX,
            m@.len() == i + j,
            within(r, a@),
            within(r, b@),
            within(r, m@),
            ordered(r, a@),
            ordered(r, b@),
            ordered(r, m@),
            forall|x: usize| a@.contains(x) ==> !b@.contains(x),
            forall|x: usize|
                #[trigger] m@.contains(x) <==> a@.take(i as int).contains(x) || b@.take(
                    j as int,
                ).contains(x),
            forall|u: int, v: int|
                0 <= u < m@.len() && i <= v < n ==> r.before(
                    #[trigger] m@[u] as int,
                    #[trigger] a@[v] as int,
                ),
            forall|u: int, v: int|
                0 <= u < m@.len() && j <= v < k ==> r.before(
                    #[trigger] m@[u] as int,
                    #[trigger] b@[v] as int,
                ),
        decreases n - i + k - j,
    {
        let ghost old_m = m@;
        let left = j >= k || (i < n && r.is_before(a[i], b[j]));
        if left {
            proof {
                if j < k {
                    assert forall|v: int| j <= v < k implies r.before(
                        a@[i as int] as int,
                        #[trigger] b@[v] as int,
                    ) by {
                        if v > j {
                            r.transitive(a@[i as int] as int, b@[j as int] as int, b@[v] as int);
                        }
                    }
                }
            }
            m.push(a[i]);
            proof {
                assert(a@.take(i + 1) =~= a@.take(i as int).push(a@[i as int]));
                lemma_push_members(old_m, a@[i as int]);
                lemma_push_members(a@.take(i as int), a@[i as int]);
            }
            i += 1;
        } else {
            proof {
                if i < n {
                    assert(a@.contains(a@[i as int]));
                    assert(b@.contains(b@[j as int]));
                    r.total(a@[i as int] as int, b@[j as int] as int);
                    assert forall|v: int| i <= v < n implies r.before(
                        b@[j as int] as int,
                        #[trigger] a@[v] as int,
                    ) by {
                        if v > i {
                            r.transitive(b@[j as int] as int, a@[i as int] as int, a@[v] as int);
                        }
                    }
                }
            }
            m.push(b[j]);
            proof {
                assert(b@.take(j + 1) =~= b@.take(j as int).push(b@[j as int]));
                lemma_push_members(old_m, b@[j as int]);
                lemma_push_members(b@.take(j as int), b@[j as int]);
            }
            j += 1;
        }
    }
    assert(a@.take(n as int) =~= a@);
    assert(b@.take(k as int) =~= b@);
    m
}

proof fn lemma_push_members(s: Seq<usize>, y: usize)
    ensures
        forall|x: usize| #[trigger] s.push(y).contains(x) <==> s.contains(x) || x == y,
{
    assert forall|x: usize| #[trigger] s.push(y).contains(x) <==> s.contains(x) || x == y by {
        if s.contains(x) {
            let k = choose|k: int| 0 <= k < s.len() && s[k] == x;
            assert(s.push(y)[k] == x);
        }
        if x == y {
            assert(s.push(y)[s.len() as int] == x);
        }
        if s.push(y).contains(x) {
            let k = choose|k: int| 0 <= k < s.push(y).len() && s.push(y)[k] == x;
            if k < s.len() {
                assert(s[k] == x);
            }
        }
    }
}

/// The indices of `v` from `from` up to `to` in order.
fn sort_range<R: Ranking>(r: &R, v: &Vec<usize>, from: usize, to: usize) -> (o: Vec<usize>)
    requires
        from <= to <= v@.len(),
        within(r, v@),
        distinct(v@),
    ensures
        arranges(r, v@.subrange(from as int, to as int), o@),
    decreases to - from,
{
    if to - from <= 1 {
        let mut o: Vec<usize> = Vec::new();
        if from < to {
            o.push(v[from]);
        }
        assert(o@ =~= v@.subrange(from as int, to as int));
        return o;
    }
    let mid: usize = from + (to - from) / 2;
    let a = sort_range(r, v, from, mid);
    let b = sort_range(r, v, mid, to);
    let ghost sa = v@.subrange(from as int, mid as int);
    let ghost sb = v@.subrange(mid as int, to as int);
    let ghost s = v@.subrange(from as int, to as int);
    proof {
        assert forall|x: usize| a@.contains(x) implies !b@.contains(x) by {
            assert(sa.contains(x));
            let k = choose|k: int| 0 <= k < sa.len() && sa[k] == x;
            if b@.contains(x) {
                assert(sb.contains(x));
                let l = choose|l: int| 0 <= l < sb.len() && sb[l] == x;
                assert(v@[from + k] != v@[mid + l]);
            }
        }
        assert forall|x: usize| #[trigger] s.contains(x) <==> sa.contains(x) || sb.contains(x) by {
            if s.contains(x) {
                let k = choose|k: int| 0 <= k < s.len() && s[k] == x;
                if k < mid - from {
                    assert(sa[k] == x);
                } else {
                    assert(sb[k - (mid - from)] == x);
                }
            }
            if sa.contains(x) {
                let k = choose|k: int| 0 <= k < sa.len() && sa[k] == x;
                assert(s[k] == x);
            }
            if sb.contains(x) {
                let k = choose|k: int| 0 <= k < sb.len() && sb[k] == x;
                assert(s[k + (mid - from)] == x);
            }
        }
    }
    let n = v.len();
    assert(a@.len() + b@.len() <= n);
    merge(r, &a, &b)
}

/// Brings a list of different indices into the order of the ranking.
pub fn sort_indices<R: Ranking>(r: &R, v: &Vec<usize>) -> (o: Vec<usize>)
    requires
        within(r, v@),
        distinct(v@),
    ensures
        arranges(r, v@, o@),
{
    let n = v.len();
    assert(v@.subrange(0, n as int) =~= v@);
    sort_range(r, v, 0, n)
}

} // verus!
