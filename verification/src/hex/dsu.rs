//! Disjoint-set forests stored as parent arrays, as used to track the
//! connectivity of Hex stones.
use vstd::prelude::*;

verus! {

/// From `i`, following parents at most `n` times reaches a root.
pub open spec fn reaches(s: Seq<u16>, i: int, n: nat) -> bool
    decreases n,
{
    if s[i] as int == i {
        true
    } else if n == 0 {
        false
    } else {
        reaches(s, s[i] as int, (n - 1) as nat)
    }
}

/// The node reached from `i` by following parents at most `n` times.
pub open spec fn find_root(s: Seq<u16>, i: int, n: nat) -> int
    decreases n,
{
    if s[i] as int == i {
        i
    } else if n == 0 {
        i
    } else {
        find_root(s, s[i] as int, (n - 1) as nat)
    }
}

/// Number of parent steps from `i` to its root (within `n` steps).
pub open spec fn depth(s: Seq<u16>, i: int, n: nat) -> nat
    decreases n,
{
    if s[i] as int == i {
        0
    } else if n == 0 {
        0
    } else {
        1 + depth(s, s[i] as int, (n - 1) as nat)
    }
}

/// Number of roots among the first `k` nodes.
pub open spec fn roots_below(s: Seq<u16>, k: int) -> nat
    decreases k,
{
    if k <= 0 {
        0
    } else {
        roots_below(s, k - 1) + if s[k - 1] as int == k - 1 {
            1nat
        } else {
            0nat
        }
    }
}

/// Number of trees in the forest.
pub open spec fn num_roots(s: Seq<u16>) -> nat {
    roots_below(s, s.len() as int)
}

/// All parents are in range.
pub open spec fn parents_in_range(s: Seq<u16>) -> bool {
    forall|i: int| 0 <= i < s.len() ==> (#[trigger] s[i]) < s.len()
}

/// A well-formed forest: parents are in range, and every node reaches its
/// root by a path that leaves room for the other trees (a path of `d` steps
/// holds `d + 1` nodes, and each other tree holds at least its root).
pub open spec fn forest(s: Seq<u16>) -> bool {
    &&& s.len() <= 65536
    &&& parents_in_range(s)
    &&& forall|i: int| 0 <= i < s.len() ==> #[trigger] reaches(s, i, s.len())
    &&& forall|i: int| 0 <= i < s.len() ==> #[trigger] depth(s, i, s.len()) + num_roots(s) <= s.len()
}

/// The root of the tree holding `i`.
pub open spec fn root_of(s: Seq<u16>, i: int) -> int {
    find_root(s, i, s.len())
}

/// `i` and `j` are in the same set.
pub open spec fn same_set(s: Seq<u16>, i: int, j: int) -> bool {
    root_of(s, i) == root_of(s, j)
}


/// The root of every node, as a sequence.
pub open spec fn rootmap(s: Seq<u16>) -> Seq<int> {
    Seq::new(s.len(), |i: int| root_of(s, i))
}

/// A root map after merging the set of `x` into the set of `y`.
pub open spec fn union_map(m: Seq<int>, x: int, y: int) -> Seq<int> {
    Seq::new(m.len(), |i: int| if m[i] == m[x] { m[y] } else { m[i] })
}

/// A root map after merging `x` with each of `ps` in turn.
pub open spec fn union_map_all(m: Seq<int>, x: int, ps: Seq<int>) -> Seq<int>
    decreases ps.len(),
{
    if ps.len() == 0 {
        m
    } else {
        union_map(union_map_all(m, x, ps.drop_last()), x, ps.last())
    }
}

/// The forest of `n` singleton sets.
pub open spec fn singletons(n: nat) -> Seq<u16> {
    Seq::new(n, |i: int| i as u16)
}

/// More fuel changes neither reachability nor the root found.
pub proof fn lemma_fuel_mono(s: Seq<u16>, i: int, n: nat, m: nat)
    requires
        reaches(s, i, n),
        n <= m,
        parents_in_range(s),
        0 <= i < s.len(),
    ensures
        reaches(s, i, m),
        find_root(s, i, n) == find_root(s, i, m),
        depth(s, i, n) == depth(s, i, m),
    decreases n,
{
    if s[i] as int != i {
        lemma_fuel_mono(s, s[i] as int, (n - 1) as nat, (m - 1) as nat);
    }
}

/// Fuel down to the depth is enough.
pub proof fn lemma_fuel_shrink(s: Seq<u16>, i: int, n: nat, m: nat)
    requires
        reaches(s, i, n),
        depth(s, i, n) <= m,
        parents_in_range(s),
        0 <= i < s.len(),
    ensures
        reaches(s, i, m),
        find_root(s, i, n) == find_root(s, i, m),
        depth(s, i, n) == depth(s, i, m),
    decreases n,
{
    if s[i] as int != i {
        lemma_fuel_shrink(s, s[i] as int, (n - 1) as nat, (m - 1) as nat);
    }
}

/// The root found is a root, in range.
pub proof fn lemma_root_is_root(s: Seq<u16>, i: int, n: nat)
    requires
        reaches(s, i, n),
        parents_in_range(s),
        0 <= i < s.len(),
    ensures
        0 <= find_root(s, i, n) < s.len(),
        s[find_root(s, i, n)] as int == find_root(s, i, n),
        depth(s, i, n) <= n,
    decreases n,
{
    if s[i] as int != i {
        lemma_root_is_root(s, s[i] as int, (n - 1) as nat);
    }
}

/// Facts about the root of a node of a forest.
pub proof fn lemma_root_of(s: Seq<u16>, i: int)
    requires
        forest(s),
        0 <= i < s.len(),
    ensures
        0 <= root_of(s, i) < s.len(),
        s[root_of(s, i)] as int == root_of(s, i),
        root_of(s, root_of(s, i)) == root_of(s, i),
        s[i] as int == i ==> root_of(s, i) == i,
{
    assert(reaches(s, i, s.len()));
    lemma_root_is_root(s, i, s.len());
}

/// One parent step keeps the root and lowers the depth by one.
pub proof fn lemma_step(s: Seq<u16>, i: int)
    requires
        forest(s),
        0 <= i < s.len(),
        s[i] as int != i,
    ensures
        root_of(s, s[i] as int) == root_of(s, i),
        depth(s, s[i] as int, s.len()) + 1 == depth(s, i, s.len()),
{
    assert(reaches(s, i, s.len()));
    let n = s.len();
    lemma_fuel_mono(s, s[i] as int, (n - 1) as nat, n);
}

/// Two arrays with the same roots below `k` count the same roots.
pub proof fn lemma_roots_same(s: Seq<u16>, t: Seq<u16>, k: int)
    requires
        0 <= k <= s.len(),
        s.len() == t.len(),
        forall|j: int| 0 <= j < k ==> ((#[trigger] s[j]) as int == j) == (t[j] as int == j),
    ensures
        roots_below(s, k) == roots_below(t, k),
    decreases k,
{
    if k > 0 {
        lemma_roots_same(s, t, k - 1);
        assert(s[k - 1] as int == k - 1 <==> t[k - 1] as int == k - 1);
    }
}

/// Turning root `x` into a child removes one root.
pub proof fn lemma_roots_link(s: Seq<u16>, x: int, y: u16, k: int)
    requires
        0 <= k <= s.len(),
        0 <= x < s.len(),
        s[x] as int == x,
        y as int != x,
    ensures
        roots_below(s.update(x, y), k) + (if x < k { 1int } else { 0int }) == roots_below(s, k),
    decreases k,
{
    if k > 0 {
        lemma_roots_link(s, x, y, k - 1);
    }
}

/// Two distinct roots make at least two roots.
pub proof fn lemma_roots_two(s: Seq<u16>, x: int, y: int, k: int)
    requires
        0 <= k <= s.len(),
        0 <= x < s.len(),
        0 <= y < s.len(),
        s[x] as int == x,
        s[y] as int == y,
        x != y,
    ensures
        roots_below(s, k) >= (if x < k { 1int } else { 0int }) + (if y < k { 1int } else { 0int }),
    decreases k,
{
    if k > 0 {
        lemma_roots_two(s, x, y, k - 1);
    }
}

/// The singleton forest is a forest in which every node is its own root.
pub proof fn lemma_singletons(n: nat)
    requires
        n <= 65536,
    ensures
        forest(singletons(n)),
        singletons(n).len() == n,
        forall|i: int| 0 <= i < n ==> #[trigger] root_of(singletons(n), i) == i,
{
    let s = singletons(n);
    assert forall|i: int| 0 <= i < n implies (#[trigger] s[i]) as int == i by {}
    assert forall|k: int| 0 <= k <= n implies #[trigger] roots_below(s, k) == k by {
        lemma_roots_count_all(s, k);
    }
    assert(num_roots(s) == n);
    assert forall|i: int| 0 <= i < n implies #[trigger] reaches(s, i, s.len()) && depth(s, i, s.len()) == 0
        && root_of(s, i) == i by {
        assert(s[i] as int == i);
    }
}

/// Where every node is a root, every node counts.
proof fn lemma_roots_count_all(s: Seq<u16>, k: int)
    requires
        0 <= k <= s.len(),
        forall|i: int| 0 <= i < s.len() ==> (#[trigger] s[i]) as int == i,
    ensures
        roots_below(s, k) == k,
    decreases k,
{
    if k > 0 {
        lemma_roots_count_all(s, k - 1);
        assert(s[k - 1] as int == k - 1);
    }
}

/// Pointing `a` straight at its root keeps every root and makes no path longer.
pub proof fn lemma_compress(s: Seq<u16>, a: int, i: int, n: nat)
    requires
        forest(s),
        0 <= a < s.len(),
        0 <= i < s.len(),
        reaches(s, i, n),
    ensures
        reaches(s.update(a, root_of(s, a) as u16), i, n),
        find_root(s.update(a, root_of(s, a) as u16), i, n) == find_root(s, i, n),
        depth(s.update(a, root_of(s, a) as u16), i, n) <= depth(s, i, n),
    decreases n,
{
    let r = root_of(s, a);
    lemma_root_of(s, a);
    assert(0 <= r <= 65535);
    let t = s.update(a, r as u16);
    assert(t[a] as int == r);
    if s[i] as int == i {
        if i == a {
            assert(t =~= s);
        } else {
            assert(t[i] == s[i]);
        }
    } else if i == a {
        assert(t[r] == s[r]);
        assert(reaches(t, r, (n - 1) as nat));
        assert(find_root(t, r, (n - 1) as nat) == r);
        assert(depth(t, r, (n - 1) as nat) == 0);
        if n <= s.len() {
            lemma_fuel_mono(s, a, n, s.len());
        } else {
            assert(reaches(s, a, s.len()));
            lemma_fuel_mono(s, a, s.len(), n);
        }
    } else {
        lemma_compress(s, a, s[i] as int, (n - 1) as nat);
        assert(t[i] == s[i]);
    }
}

/// Compressing `a` keeps the forest and every root, and makes no path longer.
pub proof fn lemma_compress_forest(s: Seq<u16>, a: int)
    requires
        forest(s),
        0 <= a < s.len(),
    ensures
        forest(s.update(a, root_of(s, a) as u16)),
        forall|i: int|
            0 <= i < s.len() ==> #[trigger] root_of(s.update(a, root_of(s, a) as u16), i) == root_of(s, i),
        forall|i: int|
            0 <= i < s.len() ==> #[trigger] depth(s.update(a, root_of(s, a) as u16), i, s.len())
                <= depth(s, i, s.len()),
{
    lemma_root_of(s, a);
    let r = root_of(s, a);
    let t = s.update(a, r as u16);
    assert forall|j: int| 0 <= j < s.len() implies ((#[trigger] s[j]) as int == j) == (t[j] as int == j) by {
        if j == a {
            if s[a] as int != a {
                assert(r != a);
            }
        }
    }
    lemma_roots_same(s, t, s.len() as int);
    assert(num_roots(t) == num_roots(s));
    assert forall|i: int| 0 <= i < s.len() implies #[trigger] reaches(t, i, t.len()) by {
        assert(reaches(s, i, s.len()));
        lemma_compress(s, a, i, s.len());
    }
    assert forall|i: int| 0 <= i < s.len() implies #[trigger] root_of(t, i) == root_of(s, i) by {
        assert(reaches(s, i, s.len()));
        lemma_compress(s, a, i, s.len());
    }
    assert forall|i: int| 0 <= i < s.len() implies #[trigger] depth(t, i, s.len()) <= depth(s, i, s.len()) by {
        assert(reaches(s, i, s.len()));
        lemma_compress(s, a, i, s.len());
    }
    assert forall|i: int| 0 <= i < t.len() implies #[trigger] depth(t, i, t.len()) + num_roots(t) <= t.len() by {
        assert(reaches(s, i, s.len()));
        lemma_compress(s, a, i, s.len());
        assert(depth(s, i, s.len()) + num_roots(s) <= s.len());
    }
    assert forall|i: int| 0 <= i < t.len() implies (#[trigger] t[i]) < t.len() by {}
}

/// Pointing root `x` at root `y` moves the nodes of `x`'s tree one step
/// further from their root, which becomes `y`, and changes nothing else.
pub proof fn lemma_link(s: Seq<u16>, x: int, y: int, i: int, n: nat)
    requires
        parents_in_range(s),
        s.len() <= 65536,
        0 <= x < s.len(),
        0 <= y < s.len(),
        s[x] as int == x,
        s[y] as int == y,
        x != y,
        0 <= i < s.len(),
        reaches(s, i, n),
    ensures
        reaches(s.update(x, y as u16), i, n + 1),
        find_root(s.update(x, y as u16), i, n + 1) == if find_root(s, i, n) == x {
            y
        } else {
            find_root(s, i, n)
        },
        depth(s.update(x, y as u16), i, n + 1) == depth(s, i, n) + if find_root(s, i, n) == x {
            1nat
        } else {
            0nat
        },
    decreases n,
{
    let t = s.update(x, y as u16);
    assert(t[x] as int == y);
    assert(t[y] as int == y);
    if s[i] as int == i {
        if i == x {
            assert(reaches(t, y, n));
            assert(find_root(t, y, n) == y);
            assert(depth(t, y, n) == 0);
        } else {
            assert(t[i] == s[i]);
        }
    } else {
        assert(t[i] == s[i]);
        lemma_link(s, x, y, s[i] as int, (n - 1) as nat);
        assert((n - 1) as nat + 1 == n);
    }
}

/// Linking root `x` under root `y` keeps a forest and merges the two trees.
pub proof fn lemma_link_forest(s: Seq<u16>, x: int, y: int)
    requires
        forest(s),
        0 <= x < s.len(),
        0 <= y < s.len(),
        s[x] as int == x,
        s[y] as int == y,
        x != y,
    ensures
        forest(s.update(x, y as u16)),
        forall|i: int|
            0 <= i < s.len() ==> #[trigger] root_of(s.update(x, y as u16), i) == if root_of(s, i) == x {
                y
            } else {
                root_of(s, i)
            },
{
    let t = s.update(x, y as u16);
    let len = s.len();
    lemma_roots_link(s, x, y as u16, len as int);
    lemma_roots_two(s, x, y, len as int);
    assert(num_roots(t) + 1 == num_roots(s));
    assert(num_roots(s) >= 2);
    assert forall|i: int| 0 <= i < len implies #[trigger] reaches(t, i, t.len()) by {
        lemma_link_node(s, x, y, i);
    }
    assert forall|i: int| 0 <= i < len implies #[trigger] root_of(t, i) == (if root_of(s, i) == x {
        y
    } else {
        root_of(s, i)
    }) by {
        lemma_link_node(s, x, y, i);
    }
    assert forall|i: int| 0 <= i < len implies #[trigger] depth(t, i, t.len()) + num_roots(t) <= t.len() by {
        lemma_link_node(s, x, y, i);
    }
    assert forall|i: int| 0 <= i < t.len() implies (#[trigger] t[i]) < t.len() by {}
}

/// One node of a forest after linking root `x` under root `y`.
proof fn lemma_link_node(s: Seq<u16>, x: int, y: int, i: int)
    requires
        forest(s),
        0 <= x < s.len(),
        0 <= y < s.len(),
        s[x] as int == x,
        s[y] as int == y,
        x != y,
        0 <= i < s.len(),
    ensures
        reaches(s.update(x, y as u16), i, s.len()),
        root_of(s.update(x, y as u16), i) == if root_of(s, i) == x {
            y
        } else {
            root_of(s, i)
        },
        depth(s.update(x, y as u16), i, s.len()) + num_roots(s.update(x, y as u16)) <= s.len(),
{
    let t = s.update(x, y as u16);
    let len = s.len();
    lemma_roots_link(s, x, y as u16, len as int);
    lemma_roots_two(s, x, y, len as int);
    assert(reaches(s, i, len));
    assert(depth(s, i, len) + num_roots(s) <= len);
    lemma_fuel_shrink(s, i, len, (len - 1) as nat);
    lemma_link(s, x, y, i, (len - 1) as nat);
    assert((len - 1) as nat + 1 == len);
}


/// Merging the sets of `x` and `y` (as `dsu_union` does, giving `t` from
/// `s`): two nodes are then in the same set exactly when they were, or when
/// one was with `x` and the other with `y`.
pub proof fn law_union_merges(s: Seq<u16>, t: Seq<u16>, x: int, y: int, i: int, j: int)
    requires
        forest(s),
        0 <= x < s.len(),
        0 <= y < s.len(),
        0 <= i < s.len(),
        0 <= j < s.len(),
        t.len() == s.len(),
        forall|k: int|
            0 <= k < s.len() ==> #[trigger] root_of(t, k) == if same_set(s, k, x) {
                root_of(s, y)
            } else {
                root_of(s, k)
            },
    ensures
        same_set(t, i, j) <==> (same_set(s, i, j) || (same_set(s, i, x) && same_set(s, j, y)) || (same_set(
            s,
            i,
            y,
        ) && same_set(s, j, x))),
{
    assert(root_of(t, i) == if same_set(s, i, x) { root_of(s, y) } else { root_of(s, i) });
    assert(root_of(t, j) == if same_set(s, j, x) { root_of(s, y) } else { root_of(s, j) });
}

} // verus!
