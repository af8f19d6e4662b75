use vstd::prelude::*;

verus! {

use crate::Time;
use vstd::slice::slice_to_vec;
use vstd::string::StringSliceAdditionalSpecFns;

/// One node of the path tree: the path segment that leads to it from its
/// parent, the arena indices of its children, and the event times
/// accumulated at exactly this path.
pub struct Node {
    pub segment: Vec<u8>,
    pub children: Vec<usize>,
    pub times: Vec<Time>,
}

/// A path tree over an arena of nodes addressed by index. Node `0` is the
/// root; every other reachable node is the child of exactly one node, and a
/// child's index is strictly larger than its parent's.
pub struct Tree {
    pub nodes: Vec<Node>,
}

/// The view of a split path: each segment as its byte sequence.
pub open spec fn segs_view(s: Seq<Vec<u8>>) -> Seq<Seq<u8>> {
    s.map_values(|v: Vec<u8>| v@)
}

/// The path separator, the byte `/`.
pub const SLASH: u8 = 47;

/// A pathline split at its separators into its non-empty segments: empty
/// segments from leading, trailing or doubled separators are skipped, so
/// `/a/b` splits into `a`, `b`.
pub open spec fn split_segments(s: Seq<u8>) -> Seq<Seq<u8>>
    decreases s.len(),
{
    if s.len() == 0 {
        Seq::empty()
    } else {
        let init = split_segments(s.drop_last());
        let b = s.last();
        if b == SLASH {
            init
        } else if s.len() >= 2 && s[s.len() - 2] != SLASH {
            init.update(init.len() - 1, init.last().push(b))
        } else {
            init.push(seq![b])
        }
    }
}

/// The first child in `ch` whose segment is `seg`, scanning front to back.
pub open spec fn find_child_in(t: Tree, ch: Seq<usize>, seg: Seq<u8>) -> Option<usize>
    decreases ch.len(),
{
    if ch.len() == 0 {
        None
    } else if t.nodes@[ch[0] as int].segment@ == seg {
        Some(ch[0])
    } else {
        find_child_in(t, ch.drop_first(), seg)
    }
}

/// The child of node `n` whose segment is `seg`.
pub open spec fn child_at(t: Tree, n: int, seg: Seq<u8>) -> Option<usize> {
    find_child_in(t, t.nodes@[n].children@, seg)
}

/// The node reached from node `n` by walking the path `p`.
pub open spec fn node_at(t: Tree, n: int, p: Seq<Seq<u8>>) -> Option<int>
    decreases p.len(),
{
    if p.len() == 0 {
        if 0 <= n < t.nodes@.len() {
            Some(n)
        } else {
            None
        }
    } else {
        match child_at(t, n, p[0]) {
            Some(c) => node_at(t, c as int, p.drop_first()),
            None => None,
        }
    }
}

/// The event times accumulated at path `p`, walking from the root; the
/// empty sequence where no node stands at `p`.
pub open spec fn times_at(t: Tree, p: Seq<Seq<u8>>) -> Seq<Time> {
    match node_at(t, 0, p) {
        Some(m) => t.nodes@[m].times@,
        None => Seq::empty(),
    }
}

impl Tree {
    /// Every child index points into the arena, past its parent.
    pub open spec fn children_bounded(self) -> bool {
        forall|i: int, c: usize|
            0 <= i < self.nodes@.len() && #[trigger] self.nodes@[i].children@.contains(c) ==> i < c
                < self.nodes@.len()
    }

    /// The children of one node carry pairwise distinct segments.
    pub open spec fn distinct_segments(self) -> bool {
        forall|i: int, c1: usize, c2: usize|
            0 <= i < self.nodes@.len() && #[trigger] self.nodes@[i].children@.contains(c1)
                && #[trigger] self.nodes@[i].children@.contains(c2) && c1 != c2
                ==> self.nodes@[c1 as int].segment@ != self.nodes@[c2 as int].segment@
    }

    /// No index stands in two children lists: every non-root node has at
    /// most one parent.
    pub open spec fn unique_parent(self) -> bool {
        forall|i1: int, i2: int, c: usize|
            0 <= i1 < self.nodes@.len() && 0 <= i2 < self.nodes@.len()
                && #[trigger] self.nodes@[i1].children@.contains(c)
                && #[trigger] self.nodes@[i2].children@.contains(c) ==> i1 == i2
    }

    /// The tree's well-formedness.
    pub open spec fn wf(self) -> bool {
        &&& self.nodes@.len() >= 1
        &&& self.children_bounded()
        &&& self.distinct_segments()
        &&& self.unique_parent()
    }

    /// The empty tree: a bare root, no accumulated times anywhere.
    pub fn new() -> (t: Tree)
        ensures
            t.wf(),
            forall|p: Seq<Seq<u8>>| times_at(t, p) == Seq::<Time>::empty(),
    {
        let mut nodes: Vec<Node> = Vec::new();
        nodes.push(Node { segment: Vec::new(), children: Vec::new(), times: Vec::new() });
        let t = Tree { nodes };
        proof {
            assert forall|p: Seq<Seq<u8>>| times_at(t, p) == Seq::<Time>::empty() by {
                if p.len() == 0 {
                    assert(node_at(t, 0, p) == Some(0int));
                } else {
                    assert(t.nodes@[0].children@.len() == 0);
                    assert(child_at(t, 0, p[0]) is None);
                }
            }
        }
        t
    }
}

/// What a find over a children list means: a hit names a listed child that
/// carries the segment; a miss says no listed child carries it.
pub proof fn lemma_find_child_in(t: Tree, ch: Seq<usize>, seg: Seq<u8>)
    ensures
        match find_child_in(t, ch, seg) {
            Some(c) => ch.contains(c) && t.nodes@[c as int].segment@ == seg,
            None => forall|c: usize| #[trigger]
                ch.contains(c) ==> t.nodes@[c as int].segment@ != seg,
        },
    decreases ch.len(),
{
    if ch.len() > 0 {
        if t.nodes@[ch[0] as int].segment@ == seg {
            assert(ch.contains(ch[0]));
        } else {
            lemma_find_child_in(t, ch.drop_first(), seg);
            match find_child_in(t, ch.drop_first(), seg) {
                Some(c) => {
                    let j = choose|j: int|
                        0 <= j < ch.drop_first().len() && ch.drop_first()[j] == c;
                    assert(ch[j + 1] == c);
                    assert(ch.contains(c));
                },
                None => {
                    assert forall|c: usize| #[trigger]
                        ch.contains(c) implies t.nodes@[c as int].segment@ != seg by {
                        let j = choose|j: int| 0 <= j < ch.len() && ch[j] == c;
                        if j > 0 {
                            assert(ch.drop_first()[j - 1] == c);
                            assert(ch.drop_first().contains(c));
                        }
                    }
                },
            }
        }
    }
}

/// A find scans front to back, so appending a child changes its result
/// only when the scan would otherwise miss.
#[verifier::rlimit(50)]
pub proof fn lemma_find_child_snoc(t: Tree, ch: Seq<usize>, c: usize, seg: Seq<u8>)
    ensures
        find_child_in(t, ch.push(c), seg) == (match find_child_in(t, ch, seg) {
            Some(r) => Some(r),
            None => if t.nodes@[c as int].segment@ == seg {
                Some(c)
            } else {
                None
            },
        }),
    decreases ch.len(),
{
    if ch.len() == 0 {
        assert(ch.push(c)[0] == c);
        assert(ch.push(c).drop_first() =~= Seq::<usize>::empty());
        assert(find_child_in(t, ch, seg) is None);
        if t.nodes@[c as int].segment@ == seg {
            assert(find_child_in(t, ch.push(c), seg) == Some(c));
        } else {
            assert(find_child_in(t, ch.push(c), seg) == find_child_in(
                t,
                ch.push(c).drop_first(),
                seg,
            ));
            assert(find_child_in(t, ch.push(c), seg) is None);
        }
    } else {
        assert(ch.push(c)[0] == ch[0]);
        assert(ch.push(c).drop_first() =~= ch.drop_first().push(c));
        lemma_find_child_snoc(t, ch.drop_first(), c, seg);
        if t.nodes@[ch[0] as int].segment@ == seg {
            assert(find_child_in(t, ch, seg) == Some(ch[0]));
            assert(find_child_in(t, ch.push(c), seg) == Some(ch[0]));
        } else {
            assert(find_child_in(t, ch, seg) == find_child_in(t, ch.drop_first(), seg));
            assert(find_child_in(t, ch.push(c), seg) == find_child_in(
                t,
                ch.drop_first().push(c),
                seg,
            ));
        }
    }
}

/// A find depends only on the segments of the listed children, so it is
/// unchanged in a tree that keeps those segments.
pub proof fn lemma_find_child_same(t1: Tree, t2: Tree, ch: Seq<usize>, seg: Seq<u8>)
    requires
        forall|c: usize| #[trigger]
            ch.contains(c) ==> t2.nodes@[c as int].segment@ == t1.nodes@[c as int].segment@,
    ensures
        find_child_in(t2, ch, seg) == find_child_in(t1, ch, seg),
    decreases ch.len(),
{
    if ch.len() > 0 {
        assert(ch.contains(ch[0]));
        assert forall|c: usize| #[trigger]
            ch.drop_first().contains(c) implies t2.nodes@[c as int].segment@ == t1.nodes@[c as int].segment@ by {
            let j = choose|j: int| 0 <= j < ch.drop_first().len() && ch.drop_first()[j] == c;
            assert(ch[j + 1] == c);
            assert(ch.contains(c));
        }
        lemma_find_child_same(t1, t2, ch.drop_first(), seg);
    }
}

/// A walk stays in the arena, and a non-empty walk strictly increases the
/// node index.
pub proof fn lemma_node_at_bounds(t: Tree, n: int, p: Seq<Seq<u8>>)
    requires
        t.children_bounded(),
        0 <= n < t.nodes@.len(),
    ensures
        node_at(t, n, p) matches Some(m) ==> n <= m < t.nodes@.len() && (p.len() > 0 ==> n < m),
    decreases p.len(),
{
    if p.len() > 0 {
        let ch = t.nodes@[n].children@;
        match child_at(t, n, p[0]) {
            Some(c) => {
                lemma_find_child_in(t, ch, p[0]);
                assert(t.nodes@[n].children@.contains(c));
                assert(n < c < t.nodes@.len());
                lemma_node_at_bounds(t, c as int, p.drop_first());
                assert(node_at(t, n, p) == node_at(t, c as int, p.drop_first()));
                assert(node_at(t, n, p) matches Some(m) ==> n <= m < t.nodes@.len() && n < m);
            },
            None => {
                assert(node_at(t, n, p) is None);
            },
        }
    } else {
        assert(node_at(t, n, p) == Some(n));
    }
}

/// A walk over a tree that keeps the children and segments of every node
/// of a prefix of the arena reaches the same node.
pub proof fn lemma_node_at_same(t1: Tree, t2: Tree, n: int, p: Seq<Seq<u8>>)
    requires
        t1.children_bounded(),
        t1.nodes@.len() <= t2.nodes@.len(),
        forall|i: int|
            0 <= i < t1.nodes@.len() ==> #[trigger] t2.nodes@[i].children@ == t1.nodes@[i].children@,
        forall|i: int|
            0 <= i < t1.nodes@.len() ==> #[trigger] t2.nodes@[i].segment@ == t1.nodes@[i].segment@,
    ensures
        0 <= n < t1.nodes@.len() ==> node_at(t2, n, p) == node_at(t1, n, p),
    decreases p.len(),
{
    if 0 <= n < t1.nodes@.len() {
        let ch = t1.nodes@[n].children@;
        assert forall|c: usize| #[trigger]
            ch.contains(c) implies t2.nodes@[c as int].segment@ == t1.nodes@[c as int].segment@ by {
            assert(t1.nodes@[n].children@.contains(c));
            assert(0 <= c < t1.nodes@.len());
            assert(t2.nodes@[c as int].children@ == t1.nodes@[c as int].children@);
        }
        assert(t2.nodes@[n].children@ == ch);
        lemma_find_child_same(t1, t2, ch, if p.len() > 0 {
            p[0]
        } else {
            Seq::empty()
        });
        if p.len() > 0 {
            match child_at(t1, n, p[0]) {
                Some(c) => {
                    lemma_find_child_in(t1, ch, p[0]);
                    assert(t1.nodes@[n].children@.contains(c));
                    lemma_node_at_same(t1, t2, c as int, p.drop_first());
                },
                None => {},
            }
        }
    }
}

/// Walking a path extended by one segment is walking the path and then
/// stepping to the child that carries the segment.
pub proof fn lemma_node_at_snoc(t: Tree, n: int, p: Seq<Seq<u8>>, x: Seq<u8>)
    requires
        t.children_bounded(),
        0 <= n < t.nodes@.len(),
    ensures
        node_at(t, n, p.push(x)) == (match node_at(t, n, p) {
            Some(m) => match child_at(t, m, x) {
                Some(c) => Some(c as int),
                None => None,
            },
            None => None,
        }),
    decreases p.len(),
{
    if p.len() == 0 {
        assert(p.push(x)[0] == x);
        assert(p.push(x).drop_first() =~= Seq::<Seq<u8>>::empty());
        match child_at(t, n, x) {
            Some(c) => {
                lemma_find_child_in(t, t.nodes@[n].children@, x);
                assert(t.nodes@[n].children@.contains(c));
                assert(node_at(t, n, p.push(x)) == node_at(t, c as int, p.push(x).drop_first()));
            },
            None => {},
        }
    } else {
        assert(p.push(x)[0] == p[0]);
        assert(p.push(x).drop_first() =~= p.drop_first().push(x));
        match child_at(t, n, p[0]) {
            Some(c) => {
                lemma_find_child_in(t, t.nodes@[n].children@, p[0]);
                assert(t.nodes@[n].children@.contains(c));
                lemma_node_at_snoc(t, c as int, p.drop_first(), x);
            },
            None => {},
        }
    }
}

/// Appending to a sequence adds exactly one membership.
pub proof fn lemma_contains_push(s: Seq<usize>, x: usize, y: usize)
    ensures
        s.push(x).contains(y) <==> s.contains(y) || y == x,
{
    if s.contains(y) {
        let j = choose|j: int| 0 <= j < s.len() && s[j] == y;
        assert(s.push(x)[j] == y);
    }
    if y == x {
        assert(s.push(x)[s.len() as int] == y);
    }
    if s.push(x).contains(y) {
        let j = choose|j: int| 0 <= j < s.push(x).len() && s.push(x)[j] == y;
        if j < s.len() {
            assert(s[j] == y);
        }
    }
}

/// Walking a concatenation is walking the first part and then the second.
pub proof fn lemma_node_at_concat(t: Tree, n: int, p: Seq<Seq<u8>>, q: Seq<Seq<u8>>)
    requires
        t.children_bounded(),
        0 <= n < t.nodes@.len(),
    ensures
        node_at(t, n, p + q) == (match node_at(t, n, p) {
            Some(m) => node_at(t, m, q),
            None => None,
        }),
    decreases p.len(),
{
    if p.len() == 0 {
        assert(p + q =~= q);
    } else {
        assert((p + q)[0] == p[0]);
        assert((p + q).drop_first() =~= p.drop_first() + q);
        match child_at(t, n, p[0]) {
            Some(c) => {
                lemma_find_child_in(t, t.nodes@[n].children@, p[0]);
                assert(t.nodes@[n].children@.contains(c));
                lemma_node_at_concat(t, c as int, p.drop_first(), q);
            },
            None => {},
        }
    }
}

/// In a well-formed tree each node stands at one path only: two walks from
/// the root that reach the same node walked the same path.
pub proof fn lemma_path_unique(t: Tree, p1: Seq<Seq<u8>>, p2: Seq<Seq<u8>>, m: int)
    requires
        t.wf(),
        node_at(t, 0, p1) == Some(m),
        node_at(t, 0, p2) == Some(m),
    ensures
        p1 == p2,
    decreases p1.len(),
{
    lemma_node_at_bounds(t, 0, p1);
    lemma_node_at_bounds(t, 0, p2);
    if p1.len() == 0 {
        assert(m == 0);
        if p2.len() > 0 {
            assert(m > 0);
        }
        assert(p1 =~= p2);
    } else if p2.len() == 0 {
        assert(m == 0 && m > 0);
    } else {
        assert(p1 =~= p1.drop_last().push(p1.last()));
        assert(p2 =~= p2.drop_last().push(p2.last()));
        lemma_node_at_snoc(t, 0, p1.drop_last(), p1.last());
        lemma_node_at_snoc(t, 0, p2.drop_last(), p2.last());
        let q1 = node_at(t, 0, p1.drop_last())->Some_0;
        let q2 = node_at(t, 0, p2.drop_last())->Some_0;
        let c1 = child_at(t, q1, p1.last())->Some_0;
        let c2 = child_at(t, q2, p2.last())->Some_0;
        assert(c1 as int == m && c2 as int == m);
        lemma_node_at_bounds(t, 0, p1.drop_last());
        lemma_node_at_bounds(t, 0, p2.drop_last());
        lemma_find_child_in(t, t.nodes@[q1].children@, p1.last());
        lemma_find_child_in(t, t.nodes@[q2].children@, p2.last());
        assert(t.nodes@[q1].children@.contains(c1));
        assert(t.nodes@[q2].children@.contains(c2));
        assert(q1 == q2);
        assert(t.nodes@[c1 as int].segment@ == p1.last());
        assert(t.nodes@[c2 as int].segment@ == p2.last());
        lemma_path_unique(t, p1.drop_last(), p2.drop_last(), q1);
        assert(p1 =~= p2);
    }
}

/// Linking one fresh, empty, unreachable node under `par` redirects no
/// existing walk: a walk that succeeded reaches the same node, and a walk
/// that failed now at most reaches the fresh node.
pub proof fn lemma_link_walk(t1: Tree, t2: Tree, par: int, newi: usize, n: int, q: Seq<Seq<u8>>)
    requires
        t1.children_bounded(),
        t2.nodes@.len() == t1.nodes@.len(),
        newi as int == t1.nodes@.len() - 1,
        0 <= par < newi as int,
        forall|i: int| 0 <= i < t1.nodes@.len() && i != par ==> t2.nodes@[i] == t1.nodes@[i],
        t2.nodes@[par].children@ == t1.nodes@[par].children@.push(newi),
        t2.nodes@[par].segment@ == t1.nodes@[par].segment@,
        t2.nodes@[par].times@ == t1.nodes@[par].times@,
        t1.nodes@[newi as int].children@.len() == 0,
        t1.nodes@[newi as int].times@.len() == 0,
        child_at(t1, par, t1.nodes@[newi as int].segment@) is None,
        forall|i: int, c: usize|
            0 <= i < t1.nodes@.len() && #[trigger] t1.nodes@[i].children@.contains(c) ==> (
            c as int) < t1.nodes@.len() - 1,
        0 <= n < t1.nodes@.len(),
        n != newi as int,
    ensures
        node_at(t1, n, q) matches Some(m) ==> node_at(t2, n, q) == Some(m),
        node_at(t1, n, q) is None ==> node_at(t2, n, q) is None || node_at(t2, n, q) == Some(
            newi as int,
        ),
    decreases q.len(),
{
    if q.len() > 0 {
        let ch1 = t1.nodes@[n].children@;
        assert forall|c: usize| #[trigger]
            ch1.contains(c) implies t2.nodes@[c as int].segment@ == t1.nodes@[c as int].segment@ by {
            assert(t1.nodes@[n].children@.contains(c));
            if c as int != par {
                assert(t2.nodes@[c as int] == t1.nodes@[c as int]);
            }
        }
        lemma_find_child_same(t1, t2, ch1, q[0]);
        if n == par {
            lemma_find_child_snoc(t2, ch1, newi, q[0]);
        } else {
            assert(t2.nodes@[n].children@ == ch1);
        }
        match child_at(t1, n, q[0]) {
            Some(c) => {
                lemma_find_child_in(t1, ch1, q[0]);
                assert(t1.nodes@[n].children@.contains(c));
                assert((c as int) < t1.nodes@.len() - 1);
                assert(child_at(t2, n, q[0]) == Some(c));
                lemma_link_walk(t1, t2, par, newi, c as int, q.drop_first());
            },
            None => {
                if n == par && t2.nodes@[newi as int].segment@ == q[0] {
                    assert(child_at(t2, n, q[0]) == Some(newi));
                    assert(t2.nodes@[newi as int] == t1.nodes@[newi as int]);
                    if q.drop_first().len() == 0 {
                        assert(node_at(t2, newi as int, q.drop_first()) == Some(newi as int));
                    } else {
                        assert(t2.nodes@[newi as int].children@.len() == 0);
                        assert(child_at(t2, newi as int, q.drop_first()[0]) is None);
                    }
                } else {
                    assert(child_at(t2, n, q[0]) is None);
                }
            },
        }
    }
}

/// Copies a byte string.
pub fn copy_bytes(v: &Vec<u8>) -> (r: Vec<u8>)
    ensures
        r@ == v@,
{
    let mut r: Vec<u8> = Vec::new();
    let mut i: usize = 0;
    while i < v.len()
        invariant
            0 <= i <= v@.len(),
            r@ == v@.take(i as int),
        decreases v@.len() - i,
    {
        r.push(v[i]);
        proof {
            assert(v@.take(i + 1) =~= v@.take(i as int).push(v@[i as int]));
        }
        i += 1;
    }
    proof {
        assert(v@.take(v@.len() as int) =~= v@);
    }
    r
}

/// Splits a pathline at its separators into its non-empty segments.
pub fn split_path(s: &str) -> (r: Vec<Vec<u8>>)
    ensures
        segs_view(r@) == split_segments(s.spec_bytes()),
{
    let bytes: Vec<u8> = slice_to_vec(s.as_bytes());
    let ghost bs = s.spec_bytes();
    let mut r: Vec<Vec<u8>> = Vec::new();
    let mut cur: Vec<u8> = Vec::new();
    let mut i: usize = 0;
    proof {
        assert(bs.take(0) =~= Seq::<u8>::empty());
    }
    while i < bytes.len()
        invariant
            bytes@ == bs,
            0 <= i <= bs.len(),
            i > 0 && bs[i - 1] != SLASH ==> cur@.len() > 0 && split_segments(bs.take(i as int))
                == segs_view(r@).push(cur@),
            !(i > 0 && bs[i - 1] != SLASH) ==> cur@.len() == 0 && split_segments(bs.take(i as int))
                == segs_view(r@),
        decreases bs.len() - i,
    {
        let b = bytes[i];
        proof {
            assert(bs.take(i + 1).drop_last() =~= bs.take(i as int));
            assert(bs.take(i + 1).last() == bs[i as int]);
            if i > 0 {
                assert(bs.take(i + 1)[i - 1] == bs[i - 1]);
            }
        }
        if b == SLASH {
            if cur.len() > 0 {
                let ghost old_r = r@;
                let ghost old_cur = cur@;
                let full = cur;
                cur = Vec::new();
                r.push(full);
                proof {
                    assert(segs_view(r@) =~= segs_view(old_r).push(old_cur));
                }
            }
        } else {
            let ghost old_r = r@;
            let ghost old_cur = cur@;
            cur.push(b);
            proof {
                if i > 0 && bs[i - 1] != SLASH {
                    let init = split_segments(bs.take(i as int));
                    assert(split_segments(bs.take(i + 1)) == init.update(
                        init.len() - 1,
                        init.last().push(b),
                    ));
                    assert(init == segs_view(old_r).push(old_cur));
                    assert(init.update(init.len() - 1, init.last().push(b)) =~= segs_view(
                        old_r,
                    ).push(old_cur.push(b)));
                } else {
                    assert(split_segments(bs.take(i + 1)) == split_segments(
                        bs.take(i as int),
                    ).push(seq![b]));
                    assert(cur@ =~= seq![b]);
                }
            }
        }
        i += 1;
    }
    proof {
        assert(bs.take(bs.len() as int) =~= bs);
    }
    if cur.len() > 0 {
        let ghost old_r = r@;
        let ghost old_cur = cur@;
        r.push(cur);
        proof {
            assert(segs_view(r@) =~= segs_view(old_r).push(old_cur));
        }
    }
    r
}

/// Decides equality of two byte strings.
pub fn bytes_eq(a: &Vec<u8>, b: &Vec<u8>) -> (r: bool)
    ensures
        r == (a@ == b@),
{
    if a.len() != b.len() {
        return false;
    }
    let mut i: usize = 0;
    while i < a.len()
        invariant
            a@.len() == b@.len(),
            0 <= i <= a@.len(),
            forall|j: int| 0 <= j < i ==> a@[j] == b@[j],
        decreases a@.len() - i,
    {
        if a[i] != b[i] {
            return false;
        }
        i += 1;
    }
    proof {
        assert(a@ =~= b@);
    }
    true
}

impl Tree {
    /// Finds among the children of node `n` the one that carries `seg`.
    fn find_child(&self, n: usize, seg: &Vec<u8>) -> (r: Option<usize>)
        requires
            self.children_bounded(),
            n < self.nodes@.len(),
        ensures
            r == child_at(*self, n as int, seg@),
            r matches Some(c) ==> n < c < self.nodes@.len(),
    {
        let ghost chs = self.nodes@[n as int].children@;
        proof {
            assert(chs.skip(0) =~= chs);
        }
        let mut j: usize = 0;
        let n_children = self.nodes[n].children.len();
        while j < n_children
            invariant
                self.children_bounded(),
                n < self.nodes@.len(),
                chs == self.nodes@[n as int].children@,
                n_children == chs.len(),
                0 <= j <= chs.len(),
                find_child_in(*self, chs, seg@) == find_child_in(
                    *self,
                    chs.skip(j as int),
                    seg@,
                ),
            decreases chs.len() - j,
        {
            let c = self.nodes[n].children[j];
            proof {
                assert(chs.skip(j as int)[0] == chs[j as int]);
                assert(chs.contains(c));
            }
            if bytes_eq(&self.nodes[c].segment, seg) {
                return Some(c);
            }
            proof {
                assert(chs.skip(j as int).drop_first() =~= chs.skip(j + 1));
            }
            j += 1;
        }
        proof {
            assert(chs.skip(chs.len() as int) =~= Seq::<usize>::empty());
        }
        None
    }

    /// Inserts one split path: walks from the root, creating missing
    /// intermediate nodes, and accumulates `time` at the terminal node.
    /// Exactly the inserted path's time list grows by `time`; every other
    /// path keeps its times, so repeated insertions along one path
    /// accumulate on one shared node.
    pub fn insert_segments(&mut self, segs: &Vec<Vec<u8>>, time: Time)
        requires
            old(self).wf(),
        ensures
            final(self).wf(),
            times_at(*final(self), segs_view(segs@)) == times_at(
                *old(self),
                segs_view(segs@),
            ).push(time),
            forall|q: Seq<Seq<u8>>|
                q != segs_view(segs@) ==> times_at(*final(self), q) == times_at(*old(self), q),
    {
        let ghost sv = segs_view(segs@);
        let mut cur: usize = 0;
        let mut i: usize = 0;
        proof {
            assert(sv.take(0) =~= Seq::<Seq<u8>>::empty());
        }
        while i < segs.len()
            invariant
                self.wf(),
                0 <= i <= segs@.len(),
                sv == segs_view(segs@),
                (cur as int) < self.nodes@.len(),
                node_at(*self, 0, sv.take(i as int)) == Some(cur as int),
                forall|q: Seq<Seq<u8>>| times_at(*self, q) == times_at(*old(self), q),
            decreases segs@.len() - i,
        {
            proof {
                assert(sv[i as int] == segs@[i as int]@);
                assert(sv.take(i + 1) =~= sv.take(i as int).push(sv[i as int]));
            }
            let found = self.find_child(cur, &segs[i]);
            match found {
                Some(c) => {
                    proof {
                        lemma_node_at_snoc(*self, 0, sv.take(i as int), sv[i as int]);
                        assert(node_at(*self, 0, sv.take(i + 1)) == Some(c as int));
                    }
                    cur = c;
                },
                None => {
                    let ghost t0 = *self;
                    let idx = self.nodes.len();
                    let seg_copy = copy_bytes(&segs[i]);
                    self.nodes.push(
                        Node { segment: seg_copy, children: Vec::new(), times: Vec::new() },
                    );
                    let ghost t1 = *self;
                    proof {
                        assert(t1.nodes@[idx as int].children@.len() == 0);
                        assert(t1.nodes@[idx as int].times@.len() == 0);
                        assert(t1.nodes@[idx as int].segment@ == sv[i as int]);
                        assert(forall|k: int|
                            0 <= k < t0.nodes@.len() ==> #[trigger] t1.nodes@[k] == t0.nodes@[k]);
                        assert forall|ii: int, c: usize|
                            0 <= ii < t1.nodes@.len()
                                && #[trigger] t1.nodes@[ii].children@.contains(c) implies ii < c
                            < t1.nodes@.len() && (c as int) < t1.nodes@.len() - 1 by {
                            if ii < t0.nodes@.len() {
                                assert(t0.nodes@[ii].children@.contains(c));
                            } else {
                                assert(t1.nodes@[ii].children@.len() == 0);
                            }
                        }
                        assert forall|ii: int, c1: usize, c2: usize|
                            0 <= ii < t1.nodes@.len()
                                && #[trigger] t1.nodes@[ii].children@.contains(c1)
                                && #[trigger] t1.nodes@[ii].children@.contains(c2) && c1
                                != c2 implies t1.nodes@[c1 as int].segment@
                            != t1.nodes@[c2 as int].segment@ by {
                            if ii < t0.nodes@.len() {
                                assert(t0.nodes@[ii].children@.contains(c1));
                                assert(t0.nodes@[ii].children@.contains(c2));
                                assert(t1.nodes@[c1 as int] == t0.nodes@[c1 as int]);
                                assert(t1.nodes@[c2 as int] == t0.nodes@[c2 as int]);
                            } else {
                                assert(t1.nodes@[ii].children@.len() == 0);
                            }
                        }
                        assert forall|i1: int, i2: int, c: usize|
                            0 <= i1 < t1.nodes@.len() && 0 <= i2 < t1.nodes@.len()
                                && #[trigger] t1.nodes@[i1].children@.contains(c)
                                && #[trigger] t1.nodes@[i2].children@.contains(c) implies i1
                            == i2 by {
                            if i1 < t0.nodes@.len() && i2 < t0.nodes@.len() {
                                assert(t0.nodes@[i1].children@.contains(c));
                                assert(t0.nodes@[i2].children@.contains(c));
                            } else {
                                if i1 >= t0.nodes@.len() {
                                    assert(t1.nodes@[i1].children@.len() == 0);
                                }
                                if i2 >= t0.nodes@.len() {
                                    assert(t1.nodes@[i2].children@.len() == 0);
                                }
                            }
                        }
                        assert(t1.wf());
                        assert forall|q: Seq<Seq<u8>>| times_at(t1, q) == times_at(t0, q) by {
                            lemma_node_at_same(t0, t1, 0, q);
                            if node_at(t0, 0, q) is Some {
                                lemma_node_at_bounds(t0, 0, q);
                                let m = node_at(t0, 0, q)->Some_0;
                                assert(t1.nodes@[m] == t0.nodes@[m]);
                            }
                        }
                        lemma_node_at_same(t0, t1, 0, sv.take(i as int));
                    }
                    self.nodes[cur].children.push(idx);
                    let ghost t2 = *self;
                    proof {
                        let ghost ch1 = t1.nodes@[cur as int].children@;
                        assert(t2.nodes@[cur as int].children@ == ch1.push(idx));
                        assert(t2.nodes@[cur as int].segment@ == t1.nodes@[cur as int].segment@);
                        assert(t2.nodes@[cur as int].times@ == t1.nodes@[cur as int].times@);
                        assert(forall|k: int|
                            0 <= k < t1.nodes@.len() && k != cur as int
                                ==> #[trigger] t2.nodes@[k] == t1.nodes@[k]);
                        assert forall|k: int|
                            0 <= k < t1.nodes@.len() implies #[trigger] t2.nodes@[k].segment@
                            == t1.nodes@[k].segment@ by {
                            if k != cur as int {
                                assert(t2.nodes@[k] == t1.nodes@[k]);
                            }
                        }
                        // the walk in t0 found no child of `cur` for this segment
                        assert(child_at(t0, cur as int, sv[i as int]) is None);
                        assert forall|c: usize| #[trigger]
                            ch1.contains(c) implies t1.nodes@[c as int].segment@ == t0.nodes@[c as int].segment@
                            && (c as int) < idx by {
                            assert(t0.nodes@[cur as int].children@.contains(c));
                            assert(t1.nodes@[c as int] == t0.nodes@[c as int]);
                        }
                        lemma_find_child_same(t0, t1, ch1, sv[i as int]);
                        assert(child_at(t1, cur as int, sv[i as int]) is None);
                        lemma_find_child_in(t1, ch1, sv[i as int]);
                        // well-formedness of the linked tree
                        assert forall|ii: int, c: usize|
                            0 <= ii < t2.nodes@.len()
                                && #[trigger] t2.nodes@[ii].children@.contains(c) implies ii < c
                            < t2.nodes@.len() by {
                            if ii == cur as int {
                                lemma_contains_push(ch1, idx, c);
                                if ch1.contains(c) {
                                    assert(t1.nodes@[ii].children@.contains(c));
                                }
                            } else {
                                assert(t2.nodes@[ii] == t1.nodes@[ii]);
                                assert(t1.nodes@[ii].children@.contains(c));
                            }
                        }
                        assert forall|ii: int, c1: usize, c2: usize|
                            0 <= ii < t2.nodes@.len()
                                && #[trigger] t2.nodes@[ii].children@.contains(c1)
                                && #[trigger] t2.nodes@[ii].children@.contains(c2) && c1
                                != c2 implies t2.nodes@[c1 as int].segment@
                            != t2.nodes@[c2 as int].segment@ by {
                            assert(t2.nodes@[c1 as int].segment@ == t1.nodes@[c1 as int].segment@);
                            assert(t2.nodes@[c2 as int].segment@ == t1.nodes@[c2 as int].segment@);
                            if ii == cur as int {
                                lemma_contains_push(ch1, idx, c1);
                                lemma_contains_push(ch1, idx, c2);
                                if ch1.contains(c1) && ch1.contains(c2) {
                                    assert(t1.nodes@[ii].children@.contains(c1));
                                    assert(t1.nodes@[ii].children@.contains(c2));
                                } else if ch1.contains(c1) && c2 == idx {
                                    assert(t1.nodes@[c1 as int].segment@ != sv[i as int]);
                                } else if ch1.contains(c2) && c1 == idx {
                                    assert(t1.nodes@[c2 as int].segment@ != sv[i as int]);
                                }
                            } else {
                                assert(t2.nodes@[ii] == t1.nodes@[ii]);
                                assert(t1.nodes@[ii].children@.contains(c1));
                                assert(t1.nodes@[ii].children@.contains(c2));
                            }
                        }
                        assert forall|i1: int, i2: int, c: usize|
                            0 <= i1 < t2.nodes@.len() && 0 <= i2 < t2.nodes@.len()
                                && #[trigger] t2.nodes@[i1].children@.contains(c)
                                && #[trigger] t2.nodes@[i2].children@.contains(c) implies i1
                            == i2 by {
                            if c == idx {
                                if i1 != cur as int {
                                    assert(t2.nodes@[i1] == t1.nodes@[i1]);
                                    assert(t1.nodes@[i1].children@.contains(c));
                                    assert((c as int) < t1.nodes@.len() - 1);
                                }
                                if i2 != cur as int {
                                    assert(t2.nodes@[i2] == t1.nodes@[i2]);
                                    assert(t1.nodes@[i2].children@.contains(c));
                                    assert((c as int) < t1.nodes@.len() - 1);
                                }
                            } else {
                                if i1 == cur as int {
                                    lemma_contains_push(ch1, idx, c);
                                    assert(t1.nodes@[i1].children@.contains(c));
                                } else {
                                    assert(t2.nodes@[i1] == t1.nodes@[i1]);
                                    assert(t1.nodes@[i1].children@.contains(c));
                                }
                                if i2 == cur as int {
                                    lemma_contains_push(ch1, idx, c);
                                    assert(t1.nodes@[i2].children@.contains(c));
                                } else {
                                    assert(t2.nodes@[i2] == t1.nodes@[i2]);
                                    assert(t1.nodes@[i2].children@.contains(c));
                                }
                            }
                        }
                        assert(t2.wf());
                        // existing paths keep their times
                        assert forall|q: Seq<Seq<u8>>| times_at(t2, q) == times_at(t1, q) by {
                            lemma_link_walk(t1, t2, cur as int, idx, 0, q);
                            if node_at(t1, 0, q) is Some {
                                lemma_node_at_bounds(t1, 0, q);
                                let m = node_at(t1, 0, q)->Some_0;
                                assert(t2.nodes@[m].times@ == t1.nodes@[m].times@);
                            } else {
                                assert(t2.nodes@[idx as int] == t1.nodes@[idx as int]);
                                assert(t2.nodes@[idx as int].times@ =~= Seq::<Time>::empty());
                            }
                        }
                        // the walk now continues into the fresh node
                        lemma_link_walk(t1, t2, cur as int, idx, 0, sv.take(i as int));
                        assert(node_at(t2, 0, sv.take(i as int)) == Some(cur as int));
                        lemma_find_child_same(t1, t2, ch1, sv[i as int]);
                        lemma_find_child_snoc(t2, ch1, idx, sv[i as int]);
                        assert(t2.nodes@[idx as int].segment@ == sv[i as int]);
                        assert(child_at(t2, cur as int, sv[i as int]) == Some(idx));
                        lemma_node_at_snoc(t2, 0, sv.take(i as int), sv[i as int]);
                        assert(node_at(t2, 0, sv.take(i + 1)) == Some(idx as int));
                    }
                    cur = idx;
                },
            }
            i += 1;
        }
        proof {
            assert(sv.take(segs@.len() as int) =~= sv);
        }
        let ghost t3 = *self;
        self.nodes[cur].times.push(time);
        proof {
            let t4 = *self;
            assert(node_at(t3, 0, sv) == Some(cur as int));
            assert(t4.nodes@[cur as int].times@ == t3.nodes@[cur as int].times@.push(time));
            assert(forall|k: int|
                0 <= k < t3.nodes@.len() && k != cur as int ==> #[trigger] t4.nodes@[k]
                    == t3.nodes@[k]);
            assert forall|k: int|
                0 <= k < t3.nodes@.len() implies #[trigger] t4.nodes@[k].children@
                == t3.nodes@[k].children@ by {
                if k != cur as int {
                    assert(t4.nodes@[k] == t3.nodes@[k]);
                }
            }
            assert forall|k: int|
                0 <= k < t3.nodes@.len() implies #[trigger] t4.nodes@[k].segment@
                == t3.nodes@[k].segment@ by {
                if k != cur as int {
                    assert(t4.nodes@[k] == t3.nodes@[k]);
                }
            }
            assert forall|ii: int, c: usize|
                0 <= ii < t4.nodes@.len() && #[trigger] t4.nodes@[ii].children@.contains(c) implies ii
                < c < t4.nodes@.len() by {
                assert(t4.nodes@[ii].children@ == t3.nodes@[ii].children@);
                assert(t3.nodes@[ii].children@.contains(c));
            }
            assert forall|ii: int, c1: usize, c2: usize|
                0 <= ii < t4.nodes@.len() && #[trigger] t4.nodes@[ii].children@.contains(c1)
                    && #[trigger] t4.nodes@[ii].children@.contains(c2) && c1 != c2 implies t4.nodes@[c1 as int].segment@
                != t4.nodes@[c2 as int].segment@ by {
                assert(t4.nodes@[ii].children@ == t3.nodes@[ii].children@);
                assert(t3.nodes@[ii].children@.contains(c1));
                assert(t3.nodes@[ii].children@.contains(c2));
                assert(t4.nodes@[c1 as int].segment@ == t3.nodes@[c1 as int].segment@);
                assert(t4.nodes@[c2 as int].segment@ == t3.nodes@[c2 as int].segment@);
            }
            assert forall|i1: int, i2: int, c: usize|
                0 <= i1 < t4.nodes@.len() && 0 <= i2 < t4.nodes@.len()
                    && #[trigger] t4.nodes@[i1].children@.contains(c)
                    && #[trigger] t4.nodes@[i2].children@.contains(c) implies i1 == i2 by {
                assert(t4.nodes@[i1].children@ == t3.nodes@[i1].children@);
                assert(t4.nodes@[i2].children@ == t3.nodes@[i2].children@);
                assert(t3.nodes@[i1].children@.contains(c));
                assert(t3.nodes@[i2].children@.contains(c));
            }
            assert(t4.wf());
            assert forall|q: Seq<Seq<u8>>| q != sv implies times_at(t4, q) == times_at(t3, q) by {
                lemma_node_at_same(t3, t4, 0, q);
                if node_at(t3, 0, q) is Some {
                    lemma_node_at_bounds(t3, 0, q);
                    let m = node_at(t3, 0, q)->Some_0;
                    if m == cur as int {
                        lemma_path_unique(t3, q, sv, cur as int);
                        assert(false);
                    }
                    assert(t4.nodes@[m] == t3.nodes@[m]);
                }
            }
            lemma_node_at_same(t3, t4, 0, sv);
            assert(times_at(t4, sv) == times_at(t3, sv).push(time));
        }
    }

    /// Inserts one pathline: splits it at its separators and accumulates
    /// `time` at the node for its segments. Exactly that path's time list
    /// grows; every other path keeps its times.
    pub fn insert(&mut self, pathline: &str, time: Time)
        requires
            old(self).wf(),
        ensures
            final(self).wf(),
            times_at(*final(self), split_segments(pathline.spec_bytes())) == times_at(
                *old(self),
                split_segments(pathline.spec_bytes()),
            ).push(time),
            forall|q: Seq<Seq<u8>>|
                q != split_segments(pathline.spec_bytes()) ==> times_at(*final(self), q)
                    == times_at(*old(self), q),
    {
        let segs = split_path(pathline);
        self.insert_segments(&segs, time);
    }

    /// Walks the given segments from the root to the node that stands at
    /// them, if one does.
    fn walk(&self, segs: &Vec<Vec<u8>>) -> (r: Option<usize>)
        requires
            self.wf(),
        ensures
            r matches Some(u) ==> node_at(*self, 0, segs_view(segs@)) == Some(u as int) && (
            u as int) < self.nodes@.len(),
            r is None ==> node_at(*self, 0, segs_view(segs@)) is None,
    {
        let ghost sv = segs_view(segs@);
        let mut cur: usize = 0;
        let mut i: usize = 0;
        proof {
            assert(sv.take(0) =~= Seq::<Seq<u8>>::empty());
        }
        while i < segs.len()
            invariant
                self.wf(),
                0 <= i <= segs@.len(),
                sv == segs_view(segs@),
                (cur as int) < self.nodes@.len(),
                node_at(*self, 0, sv.take(i as int)) == Some(cur as int),
            decreases segs@.len() - i,
        {
            proof {
                assert(sv[i as int] == segs@[i as int]@);
                assert(sv.take(i + 1) =~= sv.take(i as int).push(sv[i as int]));
            }
            match self.find_child(cur, &segs[i]) {
                Some(c) => {
                    proof {
                        lemma_node_at_snoc(*self, 0, sv.take(i as int), sv[i as int]);
                    }
                    cur = c;
                },
                None => {
                    proof {
                        assert(sv =~= sv.take(i as int) + sv.skip(i as int));
                        lemma_node_at_concat(*self, 0, sv.take(i as int), sv.skip(i as int));
                        assert(sv.skip(i as int)[0] == sv[i as int]);
                        assert(node_at(*self, cur as int, sv.skip(i as int)) is None);
                    }
                    return None;
                },
            }
            i += 1;
        }
        proof {
            assert(sv.take(segs@.len() as int) =~= sv);
        }
        Some(cur)
    }

    /// The event times accumulated at a pathline's node, in insertion
    /// order; empty where no node stands at it.
    pub fn times_of(&self, pathline: &str) -> (r: Vec<Time>)
        requires
            self.wf(),
        ensures
            r@ == times_at(*self, split_segments(pathline.spec_bytes())),
    {
        let segs = split_path(pathline);
        match self.walk(&segs) {
            Some(u) => {
                let times = &self.nodes[u].times;
                let mut r: Vec<Time> = Vec::new();
                let mut i: usize = 0;
                while i < times.len()
                    invariant
                        0 <= i <= times@.len(),
                        times@ == self.nodes@[u as int].times@,
                        u < self.nodes@.len(),
                        r@ == times@.take(i as int),
                    decreases times@.len() - i,
                {
                    r.push(times[i]);
                    proof {
                        assert(times@.take(i + 1) =~= times@.take(i as int).push(
                            times@[i as int],
                        ));
                    }
                    i += 1;
                }
                proof {
                    assert(times@.take(times@.len() as int) =~= times@);
                }
                r
            },
            None => Vec::new(),
        }
    }

    /// How many children the node at a pathline has: `None` where no node
    /// stands at it.
    pub fn child_count(&self, pathline: &str) -> (r: Option<usize>)
        requires
            self.wf(),
        ensures
            match node_at(*self, 0, split_segments(pathline.spec_bytes())) {
                Some(m) => r matches Some(k) && k == self.nodes@[m].children@.len(),
                None => r is None,
            },
    {
        let segs = split_path(pathline);
        match self.walk(&segs) {
            Some(u) => Some(self.nodes[u].children.len()),
            None => None,
        }
    }
}

} // verus!
