//! Radix prefix cache over token-id sequences. Nodes live in an arena; each
//! node owns an edge label (`key`), the KV slot indices for that label
//! (`value`), its children keyed by first edge token, a parent link, a pin
//! count and a last-touch timestamp. The arena index doubles as the node id:
//! nodes are never reallocated, so lower index means earlier creation.

use vstd::prelude::*;

use crate::cache::{CacheError, PrefixCacheManager, SizeInfo};

verus! {

/// One arena slot. A freed slot stays in the arena with `live == false`.
#[derive(Debug)]
struct RadixNode {
    live: bool,
    key: Vec<i32>,
    value: Vec<i32>,
    children: Vec<(i32, usize)>,
    parent: usize,
    ref_count: usize,
    timestamp: u128,
}

/// A pinning token returned by `match_prefix`: how much was matched and
/// which node owns the tail of the match. The node index is an arena slot
/// meaningful only to the cache that issued the handle.
#[derive(Debug, Clone, Copy)]
pub struct RadixCacheHandle {
    pub cached_len: usize,
    pub node: usize,
}

impl RadixCacheHandle {
    fn new(cached_len: usize, node: usize) -> (h: Self)
        ensures
            h.cached_len == cached_len,
            h.node == node,
    {
        RadixCacheHandle { cached_len, node }
    }

    /// The arena index this handle pins.
    pub open spec fn spec_node(self) -> int {
        self.node as int
    }

    /// How many leading input tokens this handle's match covered.
    pub open spec fn spec_cached_len(self) -> int {
        self.cached_len as int
    }
}

/// The radix cache: arena, running size counters, a logical clock for
/// timestamps, and ghost bookkeeping (depth of every node, outstanding lock
/// tokens per node, and how many locks were ever taken).
pub struct RadixCacheManager {
    nodes: Vec<RadixNode>,
    evictable_size: usize,
    protected_size: usize,
    tick: u128,
    depths: Ghost<Map<int, nat>>,
    own_locks: Ghost<Map<int, nat>>,
    lock_count: Ghost<nat>,
}

/// Arena slot `i` exists and holds a live node.
spec fn live(nodes: Seq<RadixNode>, i: int) -> bool {
    0 <= i < nodes.len() && nodes[i].live
}

/// Some child entry of `n` maps edge token `tok` to node `c`.
spec fn has_child(n: RadixNode, tok: i32, c: int) -> bool {
    exists|e: int|
        0 <= e < n.children@.len() && (#[trigger] n.children@[e]).0 == tok && n.children@[e].1
            == c
}

/// Some child entry of `n` carries edge token `tok`.
spec fn has_edge(n: RadixNode, tok: i32) -> bool {
    exists|e: int| 0 <= e < n.children@.len() && (#[trigger] n.children@[e]).0 == tok
}

/// All local structural conditions of slot `i`: child entries point to live
/// non-root nodes that point back and start with the edge token, edge tokens
/// are distinct, the root is empty and permanently pinned once, and every
/// non-root node has a matching parent entry and equal-length key and value.
spec fn node_wf(nodes: Seq<RadixNode>, i: int) -> bool {
    nodes[i].live ==> {
        let n = nodes[i];
        &&& (forall|e: int|
            0 <= e < n.children@.len() ==> {
                let c = (#[trigger] n.children@[e]).1 as int;
                &&& live(nodes, c)
                &&& c != 0
                &&& nodes[c].parent == i
                &&& nodes[c].key@.len() > 0
                &&& nodes[c].key@[0] == n.children@[e].0
            })
        &&& (forall|e1: int, e2: int|
            0 <= e1 < e2 < n.children@.len() ==> (#[trigger] n.children@[e1]).0 != (
            #[trigger] n.children@[e2]).0)
        &&& (i == 0 ==> n.key@.len() == 0 && n.value@.len() == 0 && n.ref_count == 1 && n.parent
            == 0)
        &&& (i != 0 ==> {
            &&& n.key@.len() == n.value@.len()
            &&& n.key@.len() >= 1
            &&& live(nodes, n.parent as int)
            &&& n.parent != i
            &&& has_child(nodes[n.parent as int], n.key@[0], i)
        })
    }
}

/// Structural well-formedness of the whole arena, with `depths` as the
/// acyclicity witness: the root is live at slot zero and every live node's
/// depth is one more than its parent's.
spec fn tree_wf(nodes: Seq<RadixNode>, depths: Map<int, nat>) -> bool {
    &&& 1 <= nodes.len()
    &&& nodes[0].live
    &&& (forall|i: int| 0 <= i < nodes.len() ==> node_wf(nodes, i))
    &&& (forall|i: int| #[trigger] live(nodes, i) ==> depths.dom().contains(i))
    &&& depths[0] == 0
    &&& (forall|i: int|
        #[trigger] live(nodes, i) && i != 0 ==> depths[i] == depths[nodes[i].parent as int]
            + 1)
    &&& (forall|i: int| #[trigger] live(nodes, i) ==> depths[i] < nodes.len())
}

/// Reference count behind one child entry (zero when out of bounds).
spec fn rc_at(nodes: Seq<RadixNode>, entry: (i32, usize)) -> int {
    if entry.1 < nodes.len() {
        nodes[entry.1 as int].ref_count as int
    } else {
        0
    }
}

/// Sum of the reference counts of the nodes a child list points to.
spec fn rc_sum(nodes: Seq<RadixNode>, ch: Seq<(i32, usize)>) -> int
    decreases ch.len(),
{
    if ch.len() == 0 {
        0
    } else {
        rc_sum(nodes, ch.drop_last()) + rc_at(nodes, ch.last())
    }
}

/// Lock bookkeeping: every live non-root node's reference count equals its
/// own outstanding locks plus the counts of its children (locks pin whole
/// root paths), and stays below the number of locks ever taken.
spec fn lock_wf(nodes: Seq<RadixNode>, own: Map<int, nat>, total: nat) -> bool {
    &&& (forall|i: int| #[trigger] live(nodes, i) && i != 0 ==> own.dom().contains(i))
    &&& (forall|i: int|
        #[trigger] live(nodes, i) && i != 0 ==> nodes[i].ref_count == own[i] + rc_sum(
            nodes,
            nodes[i].children@,
        ))
    &&& (forall|i: int| #[trigger] live(nodes, i) && i != 0 ==> nodes[i].ref_count <= total)
}

/// Evictable weight of one slot: its edge length if it is live and unpinned.
spec fn e_weight(n: RadixNode) -> int {
    if n.live && n.ref_count == 0 {
        n.key@.len() as int
    } else {
        0
    }
}

/// Protected weight of one slot: its edge length if it is live and pinned.
spec fn p_weight(n: RadixNode) -> int {
    if n.live && n.ref_count > 0 {
        n.key@.len() as int
    } else {
        0
    }
}

/// Total evictable size of the arena.
spec fn esum(nodes: Seq<RadixNode>) -> int
    decreases nodes.len(),
{
    if nodes.len() == 0 {
        0
    } else {
        esum(nodes.drop_last()) + e_weight(nodes.last())
    }
}

/// Total protected size of the arena.
spec fn psum(nodes: Seq<RadixNode>) -> int
    decreases nodes.len(),
{
    if nodes.len() == 0 {
        0
    } else {
        psum(nodes.drop_last()) + p_weight(nodes.last())
    }
}

/// Edge length of one slot if it is a live non-root node.
spec fn k_weight(n: RadixNode, is_root: bool) -> int {
    if n.live && !is_root {
        n.key@.len() as int
    } else {
        0
    }
}

/// Total number of cached tokens: the edge lengths of all live non-root
/// nodes.
spec fn ksum(nodes: Seq<RadixNode>) -> int
    decreases nodes.len(),
{
    if nodes.len() == 0 {
        0
    } else {
        ksum(nodes.drop_last()) + k_weight(nodes.last(), nodes.len() == 1)
    }
}

/// `d` lies in the subtree rooted at `a` (following parent links up from
/// `d`, `a` is reached before the root).
spec fn in_subtree(nodes: Seq<RadixNode>, depths: Map<int, nat>, a: int, d: int) -> bool
    decreases depths[d],
    when tree_wf(nodes, depths)
{
    if !live(nodes, d) {
        false
    } else if d == a {
        true
    } else if d == 0 {
        false
    } else {
        in_subtree(nodes, depths, a, nodes[d].parent as int)
    }
}

proof fn lemma_subtree_deeper(nodes: Seq<RadixNode>, depths: Map<int, nat>, a: int, d: int)
    requires
        tree_wf(nodes, depths),
        in_subtree(nodes, depths, a, d),
    ensures
        live(nodes, d),
        live(nodes, a),
        depths[d] >= depths[a],
    decreases depths[d],
{
    if d != a && d != 0 {
        lemma_subtree_deeper(nodes, depths, a, nodes[d].parent as int);
    }
}

/// Total number of tokens on the path from the root down to `i`.
spec fn path_len(nodes: Seq<RadixNode>, depths: Map<int, nat>, i: int) -> int
    decreases depths[i],
    when tree_wf(nodes, depths)
{
    if !live(nodes, i) || i == 0 {
        0
    } else {
        nodes[i].key@.len() + path_len(nodes, depths, nodes[i].parent as int)
    }
}

/// The token sequence spelled along the path from the root down to `i`.
spec fn path_tokens(nodes: Seq<RadixNode>, depths: Map<int, nat>, i: int) -> Seq<i32>
    decreases depths[i],
    when tree_wf(nodes, depths)
{
    if !live(nodes, i) || i == 0 {
        Seq::empty()
    } else {
        path_tokens(nodes, depths, nodes[i].parent as int) + nodes[i].key@
    }
}

/// The cached token sequence `t` stores exactly the slot indices `v`.
spec fn cached_values_at(
    nodes: Seq<RadixNode>,
    depths: Map<int, nat>,
    t: Seq<i32>,
    v: Seq<i32>,
) -> bool {
    exists|w: int|
        #![trigger path_tokens(nodes, depths, w)]
        live(nodes, w) && t.len() <= path_tokens(nodes, depths, w).len() && t == path_tokens(
            nodes,
            depths,
            w,
        ).take(t.len() as int) && v == path_values(nodes, depths, w).take(t.len() as int)
}

/// A token sequence is cached when it is a prefix of some node's path.
spec fn covers(nodes: Seq<RadixNode>, depths: Map<int, nat>, t: Seq<i32>) -> bool {
    exists|w: int|
        #![trigger path_tokens(nodes, depths, w)]
        live(nodes, w) && t.len() <= path_tokens(nodes, depths, w).len() && t == path_tokens(
            nodes,
            depths,
            w,
        ).take(t.len() as int)
}

/// `path_tokens` and `path_values` only read liveness, keys, values and
/// parent links: two arenas that agree on those for every node live in the
/// first agree on both.
proof fn lemma_path_tokens_congruence(
    base: Seq<RadixNode>,
    dep_b: Map<int, nat>,
    fin: Seq<RadixNode>,
    dep_f: Map<int, nat>,
    j: int,
)
    requires
        tree_wf(base, dep_b),
        tree_wf(fin, dep_f),
        live(base, j),
        forall|k: int|
            #[trigger] live(base, k) ==> live(fin, k) && fin[k].key@ == base[k].key@
                && fin[k].value@ == base[k].value@ && fin[k].parent == base[k].parent,
    ensures
        path_tokens(fin, dep_f, j) == path_tokens(base, dep_b, j),
        path_values(fin, dep_f, j) == path_values(base, dep_b, j),
    decreases dep_b[j],
{
    if j != 0 {
        assert(node_wf(base, j));
        lemma_path_tokens_congruence(base, dep_b, fin, dep_f, base[j].parent as int);
    }
}

/// After a split, every node that existed before keeps its exact path.
proof fn lemma_split_keeps_paths(
    base: Seq<RadixNode>,
    dep0: Map<int, nat>,
    fin: Seq<RadixNode>,
    d1: Map<int, nat>,
    ni: int,
    si: int,
    pos: int,
    d: int,
)
    requires
        tree_wf(base, dep0),
        tree_wf(fin, d1),
        fin.len() == base.len() + 1,
        si == base.len(),
        live(base, ni),
        ni != 0,
        0 < pos < base[ni].key@.len(),
        forall|k: int| #[trigger] live(base, k) ==> live(fin, k),
        forall|k: int|
            #[trigger] live(base, k) && k != ni ==> fin[k].parent == base[k].parent && fin[k].key@
                == base[k].key@,
        fin[ni].parent == si,
        live(fin, si),
        fin[si].parent == base[ni].parent,
        fin[si].key@ == base[ni].key@.take(pos),
        fin[ni].key@ == base[ni].key@.skip(pos),
        fin[si].value@ == base[ni].value@.take(pos),
        fin[ni].value@ == base[ni].value@.skip(pos),
        forall|k: int|
            #[trigger] live(base, k) && k != ni ==> fin[k].value@ == base[k].value@,
        live(base, d),
    ensures
        path_tokens(fin, d1, d) == path_tokens(base, dep0, d),
        path_values(fin, d1, d) == path_values(base, dep0, d),
    decreases dep0[d],
{
    if d == 0 {
    } else if d == ni {
        assert(node_wf(base, ni));
        let p = base[ni].parent as int;
        lemma_split_keeps_paths(base, dep0, fin, d1, ni, si, pos, p);
        assert(path_tokens(fin, d1, si) == path_tokens(fin, d1, p) + fin[si].key@);
        assert(path_tokens(fin, d1, ni) == path_tokens(fin, d1, si) + fin[ni].key@);
        assert(path_tokens(base, dep0, ni) == path_tokens(base, dep0, p) + base[ni].key@);
        assert((path_tokens(base, dep0, p) + base[ni].key@.take(pos)) + base[ni].key@.skip(pos)
            =~= path_tokens(base, dep0, p) + base[ni].key@);
        assert(path_values(fin, d1, si) == path_values(fin, d1, p) + fin[si].value@);
        assert(path_values(fin, d1, ni) == path_values(fin, d1, si) + fin[ni].value@);
        assert(path_values(base, dep0, ni) == path_values(base, dep0, p) + base[ni].value@);
        assert((path_values(base, dep0, p) + base[ni].value@.take(pos)) + base[
            ni].value@.skip(pos) =~= path_values(base, dep0, p) + base[ni].value@);
    } else {
        assert(node_wf(base, d));
        let p = base[d].parent as int;
        lemma_split_keeps_paths(base, dep0, fin, d1, ni, si, pos, p);
        assert(path_tokens(fin, d1, d) == path_tokens(fin, d1, p) + fin[d].key@);
        assert(path_tokens(base, dep0, d) == path_tokens(base, dep0, p) + base[d].key@);
        assert(path_values(fin, d1, d) == path_values(fin, d1, p) + fin[d].value@);
        assert(path_values(base, dep0, d) == path_values(base, dep0, p) + base[d].value@);
    }
}

/// The KV slot indices stored along the path from the root down to `i`.
spec fn path_values(nodes: Seq<RadixNode>, depths: Map<int, nat>, i: int) -> Seq<i32>
    decreases depths[i],
    when tree_wf(nodes, depths)
{
    if !live(nodes, i) || i == 0 {
        Seq::empty()
    } else {
        path_values(nodes, depths, nodes[i].parent as int) + nodes[i].value@
    }
}

/// Paths and their stored values have the same length.
proof fn lemma_path_values_len(nodes: Seq<RadixNode>, depths: Map<int, nat>, i: int)
    requires
        tree_wf(nodes, depths),
        live(nodes, i),
    ensures
        path_values(nodes, depths, i).len() == path_tokens(nodes, depths, i).len(),
    decreases depths[i],
{
    if i != 0 {
        assert(node_wf(nodes, i));
        lemma_path_values_len(nodes, depths, nodes[i].parent as int);
    }
}

/// An ancestor's stored values are a prefix of the descendant's.
proof fn lemma_anc_value_prefix(nodes: Seq<RadixNode>, dep: Map<int, nat>, a: int, d: int)
    requires
        tree_wf(nodes, dep),
        in_subtree(nodes, dep, a, d),
    ensures
        path_values(nodes, dep, a).len() <= path_values(nodes, dep, d).len(),
        path_values(nodes, dep, a) == path_values(nodes, dep, d).take(
            path_values(nodes, dep, a).len() as int,
        ),
    decreases dep[d],
{
    lemma_subtree_deeper(nodes, dep, a, d);
    let va = path_values(nodes, dep, a);
    let vd = path_values(nodes, dep, d);
    if d == a {
        assert(va =~= vd.take(va.len() as int));
    } else {
        assert(node_wf(nodes, d));
        let p = nodes[d].parent as int;
        lemma_anc_value_prefix(nodes, dep, a, p);
        let vp = path_values(nodes, dep, p);
        assert(vd == vp + nodes[d].value@);
        assert(va =~= vd.take(va.len() as int)) by {
            assert(va == vp.take(va.len() as int));
        }
    }
}

/// Any two nodes whose paths share a token prefix store the same values for
/// it: cached values are a function of the cached tokens.
proof fn lemma_value_agreement(
    nodes: Seq<RadixNode>,
    dep: Map<int, nat>,
    a: int,
    b: int,
    len: int,
)
    requires
        tree_wf(nodes, dep),
        live(nodes, a),
        live(nodes, b),
        0 <= len <= path_tokens(nodes, dep, a).len(),
        len <= path_tokens(nodes, dep, b).len(),
        path_tokens(nodes, dep, a).take(len) == path_tokens(nodes, dep, b).take(len),
    ensures
        path_values(nodes, dep, a).take(len) == path_values(nodes, dep, b).take(len),
    decreases dep[a],
{
    lemma_path_values_len(nodes, dep, a);
    lemma_path_values_len(nodes, dep, b);
    if len == 0 {
        assert(path_values(nodes, dep, a).take(0) =~= path_values(nodes, dep, b).take(0));
    } else if a == 0 {
        assert(false);
    } else {
        assert(node_wf(nodes, a));
        let pa = nodes[a].parent as int;
        let path_a = path_tokens(nodes, dep, a);
        let path_pa = path_tokens(nodes, dep, pa);
        let path_b = path_tokens(nodes, dep, b);
        assert(path_a == path_pa + nodes[a].key@);
        lemma_path_values_len(nodes, dep, pa);
        if path_pa.len() >= len {
            assert(path_pa.take(len) =~= path_a.take(len));
            assert(path_values(nodes, dep, pa).take(len) =~= path_values(nodes, dep, a).take(
                len,
            )) by {
                assert(path_values(nodes, dep, a) == path_values(nodes, dep, pa)
                    + nodes[a].value@);
            }
            lemma_value_agreement(nodes, dep, pa, b, len);
        } else {
            // the edge from `pa` toward `b` carries `a`'s first token, so it
            // is `a` itself: `a` lies on `b`'s path
            let off = path_pa.len() as int;
            assert(is_prefix(path_pa, path_b)) by {
                assert(path_pa =~= path_a.take(off));
                assert(path_a.take(off) =~= path_b.take(len).take(off));
                assert(path_b.take(len).take(off) =~= path_b.take(off));
            }
            lemma_trace(nodes, dep, pa, b);
            if pa == b {
                assert(false);
            }
            let c = lemma_path_child_exists(nodes, dep, pa, b);
            lemma_anc_prefix(nodes, dep, c, b);
            assert(node_wf(nodes, c));
            let path_c = path_tokens(nodes, dep, c);
            assert(path_c == path_pa + nodes[c].key@);
            assert(path_c[off] == nodes[c].key@[0]);
            assert(path_b[off] == nodes[c].key@[0]) by {
                assert(path_c == path_b.take(path_c.len() as int));
            }
            assert(path_a[off] == nodes[a].key@[0]);
            assert(path_b[off] == nodes[a].key@[0]) by {
                assert(path_a.take(len)[off] == path_b.take(len)[off]);
            }
            assert(has_child(nodes[pa], nodes[a].key@[0], a));
            assert(has_child(nodes[pa], nodes[c].key@[0], c));
            let e1 = choose|e1: int|
                0 <= e1 < nodes[pa].children@.len() && (#[trigger] nodes[pa].children@[e1]).0
                    == nodes[a].key@[0] && nodes[pa].children@[e1].1 == a;
            let e2 = choose|e2: int|
                0 <= e2 < nodes[pa].children@.len() && (#[trigger] nodes[pa].children@[e2]).0
                    == nodes[c].key@[0] && nodes[pa].children@[e2].1 == c;
            assert(node_wf(nodes, pa));
            assert(e1 == e2);
            assert(c == a);
            lemma_anc_value_prefix(nodes, dep, a, b);
            assert(path_values(nodes, dep, a).take(len) =~= path_values(nodes, dep, b).take(
                len,
            ));
        }
    }
}

/// Two arenas of the same length that agree on liveness, keys, values and
/// parent links carry the same cached sequences and stored values.
proof fn lemma_model_equal(a: RadixCacheManager, b: RadixCacheManager)
    requires
        tree_wf(a.nodes@, a.depths@),
        tree_wf(b.nodes@, b.depths@),
        a.nodes@.len() == b.nodes@.len(),
        forall|k: int|
            0 <= k < a.nodes@.len() ==> (#[trigger] b.nodes@[k]).live == a.nodes@[k].live
                && b.nodes@[k].key@ == a.nodes@[k].key@ && b.nodes@[k].value@
                == a.nodes@[k].value@ && b.nodes@[k].parent == a.nodes@[k].parent,
    ensures
        forall|t: Seq<i32>|
            #[trigger] covers(a.nodes@, a.depths@, t) ==> covers(b.nodes@, b.depths@, t),
        forall|t: Seq<i32>, v: Seq<i32>|
            #[trigger] a.spec_cached_values(t, v) ==> b.spec_cached_values(t, v),
{
    assert forall|w: int| live(a.nodes@, w) implies #[trigger] path_tokens(
        b.nodes@,
        b.depths@,
        w,
    ) == path_tokens(a.nodes@, a.depths@, w) && path_values(b.nodes@, b.depths@, w)
        == path_values(a.nodes@, a.depths@, w) && live(b.nodes@, w) by {
        lemma_path_tokens_congruence(a.nodes@, a.depths@, b.nodes@, b.depths@, w);
    }
    assert forall|t: Seq<i32>|
        #[trigger] covers(a.nodes@, a.depths@, t) implies covers(b.nodes@, b.depths@, t) by {
        let w = choose|w: int|
            #![trigger path_tokens(a.nodes@, a.depths@, w)]
            live(a.nodes@, w) && t.len() <= path_tokens(a.nodes@, a.depths@, w).len() && t
                == path_tokens(a.nodes@, a.depths@, w).take(t.len() as int);
        assert(path_tokens(b.nodes@, b.depths@, w) == path_tokens(a.nodes@, a.depths@, w));
    }
    assert forall|t: Seq<i32>, v: Seq<i32>|
        #[trigger] a.spec_cached_values(t, v) implies b.spec_cached_values(t, v) by {
        let w = choose|w: int|
            #![trigger path_tokens(a.nodes@, a.depths@, w)]
            live(a.nodes@, w) && t.len() <= path_tokens(a.nodes@, a.depths@, w).len() && t
                == path_tokens(a.nodes@, a.depths@, w).take(t.len() as int) && v == path_values(
                a.nodes@,
                a.depths@,
                w,
            ).take(t.len() as int);
        assert(path_tokens(b.nodes@, b.depths@, w) == path_tokens(a.nodes@, a.depths@, w));
    }
}

/// `t` is a (not necessarily proper) prefix of `s`.
spec fn is_prefix(t: Seq<i32>, s: Seq<i32>) -> bool {
    t.len() <= s.len() && t == s.take(t.len() as int)
}

/// The root is an ancestor of every live node.
proof fn lemma_root_anc(nodes: Seq<RadixNode>, dep: Map<int, nat>, b: int)
    requires
        tree_wf(nodes, dep),
        live(nodes, b),
    ensures
        in_subtree(nodes, dep, 0, b),
    decreases dep[b],
{
    if b != 0 {
        assert(node_wf(nodes, b));
        lemma_root_anc(nodes, dep, nodes[b].parent as int);
    }
}

/// An ancestor's path is a prefix of the descendant's path.
proof fn lemma_anc_prefix(nodes: Seq<RadixNode>, dep: Map<int, nat>, a: int, d: int)
    requires
        tree_wf(nodes, dep),
        in_subtree(nodes, dep, a, d),
    ensures
        is_prefix(path_tokens(nodes, dep, a), path_tokens(nodes, dep, d)),
    decreases dep[d],
{
    lemma_subtree_deeper(nodes, dep, a, d);
    let pa = path_tokens(nodes, dep, a);
    let pd = path_tokens(nodes, dep, d);
    if d == a {
        assert(pa =~= pd.take(pa.len() as int));
    } else {
        assert(node_wf(nodes, d));
        let p = nodes[d].parent as int;
        lemma_anc_prefix(nodes, dep, a, p);
        let pp = path_tokens(nodes, dep, p);
        assert(pd == pp + nodes[d].key@);
        assert(pa =~= pd.take(pa.len() as int)) by {
            assert(pa == pp.take(pa.len() as int));
        }
    }
}

/// If one node's path is a prefix of another's, the first is an ancestor of
/// the second: the tree's distinct edge tokens force a unique trace.
proof fn lemma_trace(nodes: Seq<RadixNode>, dep: Map<int, nat>, a: int, b: int)
    requires
        tree_wf(nodes, dep),
        live(nodes, a),
        live(nodes, b),
        is_prefix(path_tokens(nodes, dep, a), path_tokens(nodes, dep, b)),
    ensures
        in_subtree(nodes, dep, a, b),
    decreases dep[a],
{
    if a == 0 {
        lemma_root_anc(nodes, dep, b);
    } else if a == b {
    } else {
        assert(node_wf(nodes, a));
        let pa = nodes[a].parent as int;
        let path_a = path_tokens(nodes, dep, a);
        let path_pa = path_tokens(nodes, dep, pa);
        let path_b = path_tokens(nodes, dep, b);
        assert(path_a == path_pa + nodes[a].key@);
        assert(is_prefix(path_pa, path_b)) by {
            assert(path_pa =~= path_a.take(path_pa.len() as int));
            assert(path_pa =~= path_b.take(path_pa.len() as int));
        }
        lemma_trace(nodes, dep, pa, b);
        if pa == b {
            lemma_anc_prefix(nodes, dep, b, b);
            assert(path_b.len() >= path_a.len());
            assert(path_a.len() == path_pa.len() + nodes[a].key@.len());
            assert(false);
        }
        let c = lemma_path_child_exists(nodes, dep, pa, b);
        lemma_anc_prefix(nodes, dep, c, b);
        assert(node_wf(nodes, c));
        let path_c = path_tokens(nodes, dep, c);
        assert(path_c == path_pa + nodes[c].key@);
        let off = path_pa.len() as int;
        assert(path_c[off] == nodes[c].key@[0]);
        assert(path_b[off] == nodes[c].key@[0]) by {
            assert(path_c == path_b.take(path_c.len() as int));
        }
        assert(path_a[off] == nodes[a].key@[0]);
        assert(path_b[off] == nodes[a].key@[0]) by {
            assert(path_a == path_b.take(path_a.len() as int));
        }
        // both `a` and `c` hang off `pa` under the same edge token
        assert(has_child(nodes[pa], nodes[a].key@[0], a));
        assert(has_child(nodes[pa], nodes[c].key@[0], c));
        let e1 = choose|e1: int|
            0 <= e1 < nodes[pa].children@.len() && (#[trigger] nodes[pa].children@[e1]).0
                == nodes[a].key@[0] && nodes[pa].children@[e1].1 == a;
        let e2 = choose|e2: int|
            0 <= e2 < nodes[pa].children@.len() && (#[trigger] nodes[pa].children@[e2]).0
                == nodes[c].key@[0] && nodes[pa].children@[e2].1 == c;
        assert(node_wf(nodes, pa));
        assert(e1 == e2);
        assert(c == a);
    }
}

/// A sequence whose next token has no edge at the reached node is not
/// cached: no node's path extends the frontier.
proof fn lemma_uncovered_at_frontier(
    nodes: Seq<RadixNode>,
    dep: Map<int, nat>,
    node: int,
    t: Seq<i32>,
    pl: int,
)
    requires
        tree_wf(nodes, dep),
        live(nodes, node),
        0 <= pl < t.len(),
        path_tokens(nodes, dep, node) == t.take(pl),
        !has_edge(nodes[node], t[pl]),
    ensures
        !covers(nodes, dep, t),
{
    if covers(nodes, dep, t) {
        let w = choose|w: int|
            #![trigger path_tokens(nodes, dep, w)]
            live(nodes, w) && t.len() <= path_tokens(nodes, dep, w).len() && t == path_tokens(
                nodes,
                dep,
                w,
            ).take(t.len() as int);
        let path_w = path_tokens(nodes, dep, w);
        let path_n = path_tokens(nodes, dep, node);
        assert(is_prefix(path_n, path_w)) by {
            assert(path_n =~= path_w.take(pl));
            assert(path_n =~= path_w.take(path_n.len() as int));
        }
        lemma_trace(nodes, dep, node, w);
        assert(node != w) by {
            assert(path_w.len() >= t.len());
        }
        let c = lemma_path_child_exists(nodes, dep, node, w);
        lemma_anc_prefix(nodes, dep, c, w);
        assert(node_wf(nodes, c));
        let path_c = path_tokens(nodes, dep, c);
        assert(path_c == path_n + nodes[c].key@);
        assert(path_c[pl] == nodes[c].key@[0]);
        assert(path_w[pl] == nodes[c].key@[0]) by {
            assert(path_c == path_w.take(path_c.len() as int));
        }
        assert(path_w[pl] == t[pl]);
        assert(has_child(nodes[node], nodes[c].key@[0], c));
        assert(has_edge(nodes[node], t[pl]));
        assert(false);
    }
}

/// `path_len` only reads liveness, key lengths and parent links: two arenas
/// that agree on those for every node live in the first agree on it.
proof fn lemma_path_len_congruence(
    base: Seq<RadixNode>,
    dep_b: Map<int, nat>,
    fin: Seq<RadixNode>,
    dep_f: Map<int, nat>,
    j: int,
)
    requires
        tree_wf(base, dep_b),
        tree_wf(fin, dep_f),
        live(base, j),
        forall|k: int|
            #[trigger] live(base, k) ==> live(fin, k) && fin[k].key@.len() == base[k].key@.len()
                && fin[k].parent == base[k].parent,
    ensures
        path_len(fin, dep_f, j) == path_len(base, dep_b, j),
    decreases dep_b[j],
{
    if j != 0 {
        assert(node_wf(base, j));
        lemma_path_len_congruence(base, dep_b, fin, dep_f, base[j].parent as int);
    }
}

/// The same congruence, for nodes outside a modified subtree.
proof fn lemma_path_len_outside(
    base: Seq<RadixNode>,
    dep_b: Map<int, nat>,
    fin: Seq<RadixNode>,
    dep_f: Map<int, nat>,
    a: int,
    j: int,
)
    requires
        tree_wf(base, dep_b),
        tree_wf(fin, dep_f),
        live(base, j),
        !in_subtree(base, dep_b, a, j),
        forall|k: int|
            #[trigger] live(base, k) && !in_subtree(base, dep_b, a, k) ==> live(fin, k)
                && fin[k].key@.len() == base[k].key@.len() && fin[k].parent == base[k].parent,
    ensures
        path_len(fin, dep_f, j) == path_len(base, dep_b, j),
    decreases dep_b[j],
{
    if j != 0 {
        assert(node_wf(base, j));
        let p = base[j].parent as int;
        if in_subtree(base, dep_b, a, p) {
            assert(in_subtree(base, dep_b, a, j));
        }
        lemma_path_len_outside(base, dep_b, fin, dep_f, a, p);
    }
}

/// `j` is a non-root node on the path from `hn` up to the root.
spec fn on_path(nodes: Seq<RadixNode>, depths: Map<int, nat>, j: int, hn: int) -> bool {
    j != 0 && in_subtree(nodes, depths, j, hn)
}

/// The same node with another reference count.
spec fn with_rc(n: RadixNode, rc: int) -> RadixNode {
    RadixNode { ref_count: rc as usize, ..n }
}

/// Ancestors of one node are linearly ordered: two at the same depth agree.
proof fn lemma_anc_unique_depth(
    nodes: Seq<RadixNode>,
    depths: Map<int, nat>,
    a: int,
    b: int,
    d: int,
)
    requires
        tree_wf(nodes, depths),
        in_subtree(nodes, depths, a, d),
        in_subtree(nodes, depths, b, d),
        depths[a] == depths[b],
    ensures
        a == b,
    decreases depths[d],
{
    lemma_subtree_deeper(nodes, depths, a, d);
    lemma_subtree_deeper(nodes, depths, b, d);
    if a == d {
        if b != d {
            assert(in_subtree(nodes, depths, b, nodes[d].parent as int));
            lemma_subtree_deeper(nodes, depths, b, nodes[d].parent as int);
        }
    } else if b == d {
        assert(in_subtree(nodes, depths, a, nodes[d].parent as int));
        lemma_subtree_deeper(nodes, depths, a, nodes[d].parent as int);
    } else {
        lemma_anc_unique_depth(nodes, depths, a, b, nodes[d].parent as int);
    }
}

/// An ancestor's parent is an ancestor too.
proof fn lemma_subtree_step_up(nodes: Seq<RadixNode>, depths: Map<int, nat>, c: int, d: int)
    requires
        tree_wf(nodes, depths),
        in_subtree(nodes, depths, c, d),
        c != 0,
    ensures
        in_subtree(nodes, depths, nodes[c].parent as int, d),
    decreases depths[d],
{
    if c == d {
        assert(node_wf(nodes, c));
        let p = nodes[c].parent as int;
        assert(live(nodes, p));
        assert(in_subtree(nodes, depths, p, p));
    } else {
        lemma_subtree_step_up(nodes, depths, c, nodes[d].parent as int);
    }
}

proof fn lemma_esum_update(nodes: Seq<RadixNode>, i: int, n2: RadixNode)
    requires
        0 <= i < nodes.len(),
    ensures
        esum(nodes.update(i, n2)) == esum(nodes) - e_weight(nodes[i]) + e_weight(n2),
        psum(nodes.update(i, n2)) == psum(nodes) - p_weight(nodes[i]) + p_weight(n2),
    decreases nodes.len(),
{
    let upd = nodes.update(i, n2);
    if i == nodes.len() - 1 {
        assert(upd.drop_last() =~= nodes.drop_last());
        assert(upd.last() == n2);
    } else {
        assert(upd.drop_last() =~= nodes.drop_last().update(i, n2));
        lemma_esum_update(nodes.drop_last(), i, n2);
        assert(upd.last() == nodes.last());
    }
}

proof fn lemma_esum_push(nodes: Seq<RadixNode>, n2: RadixNode)
    ensures
        esum(nodes.push(n2)) == esum(nodes) + e_weight(n2),
        psum(nodes.push(n2)) == psum(nodes) + p_weight(n2),
{
    assert(nodes.push(n2).drop_last() =~= nodes);
    assert(nodes.push(n2).last() == n2);
}

proof fn lemma_esum_take_succ(nodes: Seq<RadixNode>, i: int)
    requires
        0 <= i < nodes.len(),
    ensures
        esum(nodes.take(i + 1)) == esum(nodes.take(i)) + e_weight(nodes[i]),
        psum(nodes.take(i + 1)) == psum(nodes.take(i)) + p_weight(nodes[i]),
{
    assert(nodes.take(i + 1).drop_last() =~= nodes.take(i));
    assert(nodes.take(i + 1).last() == nodes[i]);
}

proof fn lemma_esum_take_mono(nodes: Seq<RadixNode>, a: int, b: int)
    requires
        0 <= a <= b <= nodes.len(),
    ensures
        esum(nodes.take(a)) <= esum(nodes.take(b)),
        psum(nodes.take(a)) <= psum(nodes.take(b)),
    decreases b - a,
{
    if a < b {
        lemma_esum_take_mono(nodes, a, b - 1);
        lemma_esum_take_succ(nodes, b - 1);
    }
}

proof fn lemma_esum_element(nodes: Seq<RadixNode>, i: int)
    requires
        0 <= i < nodes.len(),
    ensures
        esum(nodes) >= e_weight(nodes[i]),
        psum(nodes) >= p_weight(nodes[i]),
        esum(nodes) >= 0,
        psum(nodes) >= 0,
    decreases nodes.len(),
{
    if i == nodes.len() - 1 {
        lemma_esum_nonneg(nodes.drop_last());
    } else {
        lemma_esum_element(nodes.drop_last(), i);
        assert(nodes.drop_last()[i] == nodes[i]);
    }
}

proof fn lemma_esum_pointwise(nodes1: Seq<RadixNode>, nodes2: Seq<RadixNode>)
    requires
        nodes1.len() == nodes2.len(),
        forall|i: int|
            0 <= i < nodes1.len() ==> e_weight(#[trigger] nodes2[i]) == e_weight(nodes1[i])
                && p_weight(nodes2[i]) == p_weight(nodes1[i]),
    ensures
        esum(nodes2) == esum(nodes1),
        psum(nodes2) == psum(nodes1),
    decreases nodes1.len(),
{
    if nodes1.len() > 0 {
        lemma_esum_pointwise(nodes1.drop_last(), nodes2.drop_last());
    }
}

proof fn lemma_esum_nonneg(nodes: Seq<RadixNode>)
    ensures
        esum(nodes) >= 0,
        psum(nodes) >= 0,
    decreases nodes.len(),
{
    if nodes.len() > 0 {
        lemma_esum_nonneg(nodes.drop_last());
    }
}

proof fn lemma_rc_sum_congruence(
    nodes1: Seq<RadixNode>,
    ch1: Seq<(i32, usize)>,
    nodes2: Seq<RadixNode>,
    ch2: Seq<(i32, usize)>,
)
    requires
        ch1.len() == ch2.len(),
        forall|e: int|
            0 <= e < ch1.len() ==> rc_at(nodes1, #[trigger] ch1[e]) == rc_at(nodes2, ch2[e]),
    ensures
        rc_sum(nodes1, ch1) == rc_sum(nodes2, ch2),
    decreases ch1.len(),
{
    if ch1.len() > 0 {
        lemma_rc_sum_congruence(nodes1, ch1.drop_last(), nodes2, ch2.drop_last());
    }
}

proof fn lemma_rc_sum_nonneg(nodes: Seq<RadixNode>, ch: Seq<(i32, usize)>)
    ensures
        rc_sum(nodes, ch) >= 0,
    decreases ch.len(),
{
    if ch.len() > 0 {
        lemma_rc_sum_nonneg(nodes, ch.drop_last());
    }
}

proof fn lemma_rc_sum_element(nodes: Seq<RadixNode>, ch: Seq<(i32, usize)>, e: int)
    requires
        0 <= e < ch.len(),
    ensures
        rc_sum(nodes, ch) >= rc_at(nodes, ch[e]),
    decreases ch.len(),
{
    lemma_rc_sum_nonneg(nodes, ch);
    if e == ch.len() - 1 {
        lemma_rc_sum_nonneg(nodes, ch.drop_last());
    } else {
        lemma_rc_sum_element(nodes, ch.drop_last(), e);
        assert(ch.drop_last()[e] == ch[e]);
    }
}

proof fn lemma_rc_sum_delta(
    nodes1: Seq<RadixNode>,
    nodes2: Seq<RadixNode>,
    ch: Seq<(i32, usize)>,
    e0: int,
    delta: int,
)
    requires
        0 <= e0 < ch.len(),
        forall|e: int|
            0 <= e < ch.len() ==> rc_at(nodes2, #[trigger] ch[e]) == rc_at(nodes1, ch[e]) + if e
                == e0 {
                delta
            } else {
                0
            },
    ensures
        rc_sum(nodes2, ch) == rc_sum(nodes1, ch) + delta,
    decreases ch.len(),
{
    if e0 == ch.len() - 1 {
        lemma_rc_sum_congruence(nodes1, ch.drop_last(), nodes2, ch.drop_last());
    } else {
        lemma_rc_sum_delta(nodes1, nodes2, ch.drop_last(), e0, delta);
    }
}

/// If `i` lies strictly above the handle on its root path, exactly one of
/// its children continues the path, and the path transform raises the child
/// sum by exactly `delta`.
proof fn lemma_rc_sum_path_update(
    pre: Seq<RadixNode>,
    fin: Seq<RadixNode>,
    dep: Map<int, nat>,
    i: int,
    hn: int,
    delta: int,
)
    requires
        tree_wf(pre, dep),
        live(pre, hn),
        on_path(pre, dep, i, hn),
        i != hn,
        fin.len() == pre.len(),
        forall|j: int|
            0 <= j < pre.len() ==> #[trigger] fin[j] == if on_path(pre, dep, j, hn) {
                with_rc(pre[j], pre[j].ref_count + delta)
            } else {
                pre[j]
            },
        forall|j: int|
            on_path(pre, dep, j, hn) ==> pre[j].ref_count + delta >= 0 && pre[j].ref_count + delta
                <= usize::MAX,
    ensures
        rc_sum(fin, pre[i].children@) == rc_sum(pre, pre[i].children@) + delta,
{
    let c = lemma_path_child_exists(pre, dep, i, hn);
    assert(node_wf(pre, c));
    let ch = pre[i].children@;
    assert(has_child(pre[i], pre[c].key@[0], c));
    let e0 = choose|e0: int|
        0 <= e0 < ch.len() && (#[trigger] ch[e0]).0 == pre[c].key@[0] && ch[e0].1 == c;
    assert forall|e: int|
        0 <= e < ch.len() implies rc_at(fin, #[trigger] ch[e]) == rc_at(pre, ch[e]) + if e == e0 {
        delta
    } else {
        0
    } by {
        assert(node_wf(pre, i));
        let c2 = ch[e].1 as int;
        assert(live(pre, c2));
        if e == e0 {
            assert(on_path(pre, dep, c, hn));
        } else {
            if on_path(pre, dep, c2, hn) {
                assert(dep[c2] == dep[i] + 1);
                assert(dep[c] == dep[i] + 1);
                lemma_anc_unique_depth(pre, dep, c2, c, hn);
                assert(ch[e].0 == pre[c2].key@[0]);
                assert(ch[e0].0 == pre[c].key@[0]);
                assert(false);
            }
            assert(fin[c2] == pre[c2]);
        }
    }
    lemma_rc_sum_delta(pre, fin, ch, e0, delta);
}

/// A node that is the handle itself, or off the path, keeps its child sum:
/// none of its children lies on the path.
proof fn lemma_rc_sum_no_path_child(
    pre: Seq<RadixNode>,
    fin: Seq<RadixNode>,
    dep: Map<int, nat>,
    i: int,
    hn: int,
    delta: int,
)
    requires
        tree_wf(pre, dep),
        live(pre, i),
        i == hn || !on_path(pre, dep, i, hn),
        i != 0,
        fin.len() == pre.len(),
        forall|j: int|
            0 <= j < pre.len() ==> #[trigger] fin[j] == if on_path(pre, dep, j, hn) {
                with_rc(pre[j], pre[j].ref_count + delta)
            } else {
                pre[j]
            },
    ensures
        rc_sum(fin, pre[i].children@) == rc_sum(pre, pre[i].children@),
{
    let ch = pre[i].children@;
    assert forall|e: int|
        0 <= e < ch.len() implies rc_at(pre, #[trigger] ch[e]) == rc_at(fin, ch[e]) by {
        assert(node_wf(pre, i));
        let c2 = ch[e].1 as int;
        assert(live(pre, c2));
        if on_path(pre, dep, c2, hn) {
            if i == hn {
                lemma_subtree_deeper(pre, dep, c2, hn);
                assert(dep[c2] == dep[i] + 1);
                assert(false);
            } else {
                lemma_subtree_step_up(pre, dep, c2, hn);
                assert(in_subtree(pre, dep, i, hn));
                assert(false);
            }
        }
        assert(fin[c2] == pre[c2]);
    }
    lemma_rc_sum_congruence(pre, ch, fin, ch);
}

/// Every node on a handle's root path carries at least as many references
/// as the handle's node itself: pins accumulate upward.
proof fn lemma_path_rc_monotone(
    nodes: Seq<RadixNode>,
    dep: Map<int, nat>,
    own: Map<int, nat>,
    total: nat,
    j: int,
    hn: int,
)
    requires
        tree_wf(nodes, dep),
        lock_wf(nodes, own, total),
        live(nodes, hn),
        on_path(nodes, dep, j, hn),
    ensures
        nodes[j].ref_count >= nodes[hn].ref_count,
    decreases dep[hn],
{
    if j != hn {
        assert(hn != 0);
        assert(node_wf(nodes, hn));
        let p = nodes[hn].parent as int;
        assert(in_subtree(nodes, dep, j, p));
        assert(p != 0) by {
            if p == 0 {
                assert(!in_subtree(nodes, dep, j, 0));
            }
        }
        assert(has_child(nodes[p], nodes[hn].key@[0], hn));
        let e0 = choose|e0: int|
            0 <= e0 < nodes[p].children@.len() && (#[trigger] nodes[p].children@[e0]).0
                == nodes[hn].key@[0] && nodes[p].children@[e0].1 == hn;
        lemma_rc_sum_element(nodes, nodes[p].children@, e0);
        assert(nodes[p].ref_count >= nodes[hn].ref_count);
        lemma_path_rc_monotone(nodes, dep, own, total, j, p);
    }
}

/// Picks the unique child of `i` that continues the path down to `hn`.
proof fn lemma_path_child_exists(pre: Seq<RadixNode>, dep: Map<int, nat>, i: int, hn: int) -> (c:
    int)
    requires
        tree_wf(pre, dep),
        live(pre, hn),
        in_subtree(pre, dep, i, hn),
        i != hn,
    ensures
        live(pre, c),
        c != 0,
        pre[c].parent == i,
        on_path(pre, dep, c, hn),
        dep[c] == dep[i] + 1,
        in_subtree(pre, dep, c, hn),
    decreases dep[hn],
{
    lemma_subtree_deeper(pre, dep, i, hn);
    assert(hn != 0);
    assert(node_wf(pre, hn));
    let p = pre[hn].parent as int;
    if p == i {
        hn
    } else {
        assert(in_subtree(pre, dep, i, p));
        let c = lemma_path_child_exists(pre, dep, i, p);
        lemma_subtree_deeper(pre, dep, c, p);
        assert(c != hn);
        assert(in_subtree(pre, dep, c, hn)) by {
            assert(in_subtree(pre, dep, c, p));
        }
        c
    }
}

/// A live, unpinned, non-root leaf: what eviction may remove.
spec fn is_cand(nodes: Seq<RadixNode>, j: int) -> bool {
    &&& live(nodes, j)
    &&& j != 0
    &&& nodes[j].ref_count == 0
    &&& nodes[j].children@.len() == 0
}

proof fn lemma_esum_pos_witness(nodes: Seq<RadixNode>) -> (i: int)
    requires
        esum(nodes) > 0,
    ensures
        0 <= i < nodes.len(),
        e_weight(nodes[i]) > 0,
    decreases nodes.len(),
{
    if e_weight(nodes.last()) > 0 {
        nodes.len() - 1
    } else {
        lemma_esum_pos_witness(nodes.drop_last())
    }
}

/// Below any live, unpinned, non-root node there is an unpinned leaf.
proof fn lemma_descend_to_leaf(
    nodes: Seq<RadixNode>,
    depths: Map<int, nat>,
    own: Map<int, nat>,
    total: nat,
    i: int,
) -> (j: int)
    requires
        tree_wf(nodes, depths),
        lock_wf(nodes, own, total),
        live(nodes, i),
        i != 0,
        nodes[i].ref_count == 0,
    ensures
        is_cand(nodes, j),
    decreases nodes.len() - depths[i],
{
    assert(node_wf(nodes, i));
    if nodes[i].children@.len() == 0 {
        i
    } else {
        let c = nodes[i].children@[0].1 as int;
        assert(live(nodes, c));
        lemma_rc_sum_element(nodes, nodes[i].children@, 0);
        lemma_rc_sum_nonneg(nodes, nodes[i].children@);
        assert(nodes[c].ref_count == 0);
        assert(depths[c] == depths[i] + 1);
        assert(depths[c] < nodes.len());
        lemma_descend_to_leaf(nodes, depths, own, total, c)
    }
}

proof fn lemma_rc_sum_remove(nodes: Seq<RadixNode>, ch: Seq<(i32, usize)>, e: int)
    requires
        0 <= e < ch.len(),
    ensures
        rc_sum(nodes, ch.remove(e)) == rc_sum(nodes, ch) - rc_at(nodes, ch[e]),
    decreases ch.len(),
{
    if e == ch.len() - 1 {
        assert(ch.remove(e) =~= ch.drop_last());
    } else {
        lemma_rc_sum_remove(nodes, ch.drop_last(), e);
        assert(ch.remove(e).drop_last() =~= ch.drop_last().remove(e));
        assert(ch.remove(e).last() == ch.last());
        assert(ch.drop_last()[e] == ch[e]);
    }
}

/// Number of slot indices stored at one arena slot (zero when out of bounds).
spec fn value_len(nodes: Seq<RadixNode>, p: int) -> int {
    if 0 <= p < nodes.len() {
        nodes[p].value@.len() as int
    } else {
        0
    }
}

/// Total number of slot indices over a list of arena slots.
spec fn vals_len(nodes: Seq<RadixNode>, ps: Seq<usize>) -> int
    decreases ps.len(),
{
    if ps.len() == 0 {
        0
    } else {
        value_len(nodes, ps[0] as int) + vals_len(nodes, ps.drop_first())
    }
}

/// The stored values of one arena slot (empty when out of bounds).
spec fn node_vals(nodes: Seq<RadixNode>, p: int) -> Seq<i32> {
    if 0 <= p < nodes.len() {
        nodes[p].value@
    } else {
        Seq::empty()
    }
}

/// Values of a bottom-up collected chain, concatenated top-down.
spec fn rev_vals(nodes: Seq<RadixNode>, ps: Seq<usize>) -> Seq<i32>
    decreases ps.len(),
{
    if ps.len() == 0 {
        Seq::empty()
    } else {
        node_vals(nodes, ps.last() as int) + rev_vals(nodes, ps.drop_last())
    }
}

proof fn lemma_rev_vals_skip(nodes: Seq<RadixNode>, ps: Seq<usize>, k: int)
    requires
        0 <= k < ps.len(),
    ensures
        rev_vals(nodes, ps.skip(k)) == rev_vals(nodes, ps.skip(k + 1)) + node_vals(
            nodes,
            ps[k] as int,
        ),
    decreases ps.len(),
{
    if k == ps.len() - 1 {
        assert(ps.skip(k + 1) =~= Seq::<usize>::empty());
        assert(ps.skip(k).drop_last() =~= Seq::<usize>::empty());
        assert(ps.skip(k).last() == ps[k]);
        assert(rev_vals(nodes, Seq::<usize>::empty()) =~= Seq::<i32>::empty());
        assert(rev_vals(nodes, ps.skip(k)) =~= rev_vals(nodes, ps.skip(k + 1)) + node_vals(
            nodes,
            ps[k] as int,
        ));
    } else {
        assert(ps.skip(k).drop_last() =~= ps.drop_last().skip(k));
        assert(ps.skip(k).last() == ps.last());
        assert(ps.skip(k + 1).drop_last() =~= ps.drop_last().skip(k + 1));
        assert(ps.skip(k + 1).last() == ps.last());
        lemma_rev_vals_skip(nodes, ps.drop_last(), k);
        assert(ps.drop_last()[k] == ps[k]);
        assert(rev_vals(nodes, ps.skip(k)) =~= rev_vals(nodes, ps.skip(k + 1)) + node_vals(
            nodes,
            ps[k] as int,
        ));
    }
}

proof fn lemma_vals_len_push(nodes: Seq<RadixNode>, ps: Seq<usize>, x: usize)
    ensures
        vals_len(nodes, ps.push(x)) == vals_len(nodes, ps) + value_len(nodes, x as int),
    decreases ps.len(),
{
    if ps.len() == 0 {
        assert(ps.push(x).drop_first() =~= Seq::<usize>::empty());
        assert(vals_len(nodes, Seq::<usize>::empty()) == 0);
        assert(ps.push(x)[0] == x);
    } else {
        assert(ps.push(x).drop_first() =~= ps.drop_first().push(x));
        lemma_vals_len_push(nodes, ps.drop_first(), x);
    }
}

proof fn lemma_size_partition_rec(nodes: Seq<RadixNode>)
    requires
        nodes.len() >= 1,
        nodes[0].key@.len() == 0,
        nodes[0].ref_count == 1,
    ensures
        esum(nodes) + psum(nodes) == ksum(nodes),
    decreases nodes.len(),
{
    if nodes.len() == 1 {
        assert(nodes.drop_last() =~= Seq::<RadixNode>::empty());
        assert(esum(Seq::<RadixNode>::empty()) == 0);
        assert(psum(Seq::<RadixNode>::empty()) == 0);
        assert(ksum(Seq::<RadixNode>::empty()) == 0);
        assert(nodes.last() == nodes[0]);
    } else {
        lemma_size_partition_rec(nodes.drop_last());
        assert(nodes.drop_last()[0] == nodes[0]);
    }
}

/// `in_subtree` reads only liveness and parent links, so it is stable under
/// changes that keep both.
proof fn lemma_in_subtree_congruence(
    base: Seq<RadixNode>,
    fin: Seq<RadixNode>,
    dep: Map<int, nat>,
    a: int,
    d: int,
)
    requires
        tree_wf(base, dep),
        tree_wf(fin, dep),
        fin.len() == base.len(),
        forall|k: int|
            0 <= k < base.len() ==> (#[trigger] fin[k]).live == base[k].live && fin[k].parent
                == base[k].parent,
    ensures
        in_subtree(fin, dep, a, d) == in_subtree(base, dep, a, d),
    decreases dep[d],
{
    if live(base, d) && d != a && d != 0 {
        assert(node_wf(base, d));
        lemma_in_subtree_congruence(base, fin, dep, a, base[d].parent as int);
    }
}

/// The prefix-reuse law: a cached token sequence determines its stored slot
/// indices. Whatever node witnesses a match, the indices handed back for a
/// given prefix are always the ones originally committed for it.
pub proof fn lemma_cached_values_unique(
    c: RadixCacheManager,
    t: Seq<i32>,
    v1: Seq<i32>,
    v2: Seq<i32>,
)
    requires
        c.wf(),
        c.spec_cached_values(t, v1),
        c.spec_cached_values(t, v2),
    ensures
        v1 == v2,
{
    let nodes = c.nodes@;
    let dep = c.depths@;
    let w1 = choose|w: int|
        #![trigger path_tokens(nodes, dep, w)]
        live(nodes, w) && t.len() <= path_tokens(nodes, dep, w).len() && t == path_tokens(
            nodes,
            dep,
            w,
        ).take(t.len() as int) && v1 == path_values(nodes, dep, w).take(t.len() as int);
    let w2 = choose|w: int|
        #![trigger path_tokens(nodes, dep, w)]
        live(nodes, w) && t.len() <= path_tokens(nodes, dep, w).len() && t == path_tokens(
            nodes,
            dep,
            w,
        ).take(t.len() as int) && v2 == path_values(nodes, dep, w).take(t.len() as int);
    lemma_value_agreement(nodes, dep, w1, w2, t.len() as int);
}

/// Slot indices of a removal record list, concatenated in removal order.
pub open spec fn concat_slices(rs: Seq<(Seq<i32>, Seq<i32>)>) -> Seq<i32>
    decreases rs.len(),
{
    if rs.len() == 0 {
        Seq::empty()
    } else {
        concat_slices(rs.drop_last()) + rs.last().1
    }
}

/// Coverage is closed under prefixes: every leading part of a cached token
/// sequence is cached too.
pub proof fn lemma_covers_prefix(c: RadixCacheManager, t: Seq<i32>, k: int)
    requires
        c.spec_covers(t),
        0 <= k <= t.len(),
    ensures
        c.spec_covers(t.take(k)),
{
    let w = choose|w: int|
        #![trigger path_tokens(c.nodes@, c.depths@, w)]
        live(c.nodes@, w) && t.len() <= path_tokens(c.nodes@, c.depths@, w).len() && t
            == path_tokens(c.nodes@, c.depths@, w).take(t.len() as int);
    assert(t.take(k) =~= path_tokens(c.nodes@, c.depths@, w).take(k));
}

/// Stored values are closed under prefixes along with their tokens.
pub proof fn lemma_cached_values_prefix(c: RadixCacheManager, t: Seq<i32>, v: Seq<i32>, k: int)
    requires
        c.wf(),
        c.spec_cached_values(t, v),
        0 <= k <= t.len(),
    ensures
        c.spec_cached_values(t.take(k), v.take(k)),
{
    let w = choose|w: int|
        #![trigger path_tokens(c.nodes@, c.depths@, w)]
        live(c.nodes@, w) && t.len() <= path_tokens(c.nodes@, c.depths@, w).len() && t
            == path_tokens(c.nodes@, c.depths@, w).take(t.len() as int) && v == path_values(
            c.nodes@,
            c.depths@,
            w,
        ).take(t.len() as int);
    lemma_path_values_len(c.nodes@, c.depths@, w);
    assert(t.take(k) =~= path_tokens(c.nodes@, c.depths@, w).take(k));
    assert(v.take(k) =~= path_values(c.nodes@, c.depths@, w).take(k));
}

/// The law behind the size counters: in any well-formed cache, the
/// evictable and the protected totals partition the cached tokens, so their
/// sum equals the summed edge lengths of all non-root nodes.
pub proof fn lemma_size_accounting_partitions(c: RadixCacheManager)
    requires
        c.wf(),
    ensures
        c.spec_evictable() + c.spec_protected() == c.spec_cached_total(),
{
    assert(node_wf(c.nodes@, 0));
    lemma_size_partition_rec(c.nodes@);
}

impl PrefixCacheManager for RadixCacheManager {
    type Handle = RadixCacheHandle;

    open spec fn inv(&self) -> bool {
        self.wf()
    }

    open spec fn handle_inv(&self, handle: &RadixCacheHandle) -> bool {
        self.handle_ok(*handle)
    }

    open spec fn may_pin(&self) -> bool {
        self.spec_lock_count() < usize::MAX
    }

    open spec fn may_release(&self, handle: &RadixCacheHandle) -> bool {
        handle.spec_node() != 0 ==> self.locks_at(*handle) >= 1
    }

    fn match_prefix(&mut self, input_ids: &[i32]) -> Result<
        (RadixCacheHandle, Vec<i32>),
        CacheError,
    > {
        RadixCacheManager::match_prefix(self, input_ids)
    }

    fn lock_handle(&mut self, handle: &RadixCacheHandle, unlock: bool) -> Result<(), CacheError> {
        RadixCacheManager::lock_handle(self, handle, unlock)
    }

    fn insert_prefix(&mut self, input_ids: &[i32], indices: &[i32]) -> Result<usize, CacheError> {
        RadixCacheManager::insert_prefix(self, input_ids, indices)
    }

    fn evict(&mut self, size: usize) -> Result<Vec<i32>, CacheError> {
        RadixCacheManager::evict(self, size)
    }

    fn size_info(&self) -> SizeInfo {
        RadixCacheManager::size_info(self)
    }

    fn check_integrity(&self) -> Result<(), CacheError> {
        RadixCacheManager::check_integrity(self)
    }
}

/// Copies `v[a..b]` into a fresh vector.
fn copy_range(v: &[i32], a: usize, b: usize) -> (r: Vec<i32>)
    requires
        a <= b <= v@.len(),
    ensures
        r@ == v@.subrange(a as int, b as int),
{
    let mut r: Vec<i32> = Vec::new();
    let mut i = a;
    while i < b
        invariant
            a <= i <= b <= v@.len(),
            r@ == v@.subrange(a as int, i as int),
        decreases b - i,
    {
        r.push(v[i]);
        i = i + 1;
        proof {
            assert(r@ =~= v@.subrange(a as int, i as int));
        }
    }
    r
}

impl RadixCacheManager {
    /// The cache invariant: structure, lock bookkeeping, and counters that
    /// equal the arena sums and fit in `usize` together.
    pub closed spec fn wf(self) -> bool {
        &&& tree_wf(self.nodes@, self.depths@)
        &&& lock_wf(self.nodes@, self.own_locks@, self.lock_count@)
        &&& self.evictable_size == esum(self.nodes@)
        &&& self.protected_size == psum(self.nodes@)
        &&& self.evictable_size + self.protected_size <= usize::MAX
    }

    /// The current evictable total, as the contracts see it.
    pub closed spec fn spec_evictable(self) -> int {
        self.evictable_size as int
    }

    /// The total number of cached tokens: the summed edge lengths of every
    /// live non-root node.
    pub closed spec fn spec_cached_total(self) -> int {
        ksum(self.nodes@)
    }

    /// The current protected total, as the contracts see it.
    pub closed spec fn spec_protected(self) -> int {
        self.protected_size as int
    }

    /// A handle that may be used with `lock_handle`: its node is live.
    pub closed spec fn handle_ok(self, h: RadixCacheHandle) -> bool {
        live(self.nodes@, h.node as int)
    }

    /// The token sequence `t` is cached: it is a prefix of some node path.
    pub closed spec fn spec_covers(self, t: Seq<i32>) -> bool {
        covers(self.nodes@, self.depths@, t)
    }

    /// The cached token sequence `t` stores exactly the slot indices `v`:
    /// some node's path starts with `t` and its stored values start with
    /// `v`. In a well-formed cache `v` is unique for `t`
    /// (`lemma_cached_values_unique`).
    pub closed spec fn spec_cached_values(self, t: Seq<i32>, v: Seq<i32>) -> bool {
        cached_values_at(self.nodes@, self.depths@, t, v)
    }

    /// Outstanding locks taken through handles at this node.
    pub closed spec fn locks_at(self, h: RadixCacheHandle) -> nat {
        self.own_locks@[h.node as int]
    }

    /// Total edge length of the handle's root path: what one lock moves
    /// between the evictable and the protected pool when nothing on the
    /// path was pinned yet.
    pub closed spec fn spec_handle_weight(self, h: RadixCacheHandle) -> int {
        path_len(self.nodes@, self.depths@, h.node as int)
    }

    /// How many locks were ever taken; bounds every reference count.
    pub closed spec fn spec_lock_count(self) -> nat {
        self.lock_count@
    }

    pub fn new() -> (m: RadixCacheManager)
        ensures
            m.wf(),
            m.spec_evictable() == 0,
            m.spec_protected() == 0,
            m.spec_lock_count() == 0,
            forall|t: Seq<i32>| #[trigger] m.spec_covers(t) ==> t.len() == 0,
            m.spec_covers(Seq::<i32>::empty()),
            forall|t: Seq<i32>, v: Seq<i32>|
                #[trigger] m.spec_cached_values(t, v) ==> t.len() == 0 && v.len() == 0,
    {
        let root = RadixNode {
            live: true,
            key: Vec::new(),
            value: Vec::new(),
            children: Vec::new(),
            parent: 0,
            ref_count: 1,
            timestamp: 0,
        };
        let mut nodes: Vec<RadixNode> = Vec::new();
        nodes.push(root);
        let m = RadixCacheManager {
            nodes,
            evictable_size: 0,
            protected_size: 0,
            tick: 0,
            depths: Ghost(Map::new(|i: int| true, |i: int| 0nat)),
            own_locks: Ghost(Map::new(|i: int| true, |i: int| 0nat)),
            lock_count: Ghost(0nat),
        };
        proof {
            assert(m.nodes@.drop_last() =~= Seq::<RadixNode>::empty());
            assert forall|i: int| 0 <= i < m.nodes@.len() implies node_wf(m.nodes@, i) by {
                assert(m.nodes@[i].children@.len() == 0);
            }
            assert(esum(Seq::<RadixNode>::empty()) == 0);
            assert(psum(Seq::<RadixNode>::empty()) == 0);
            assert(m.nodes@.last() == m.nodes@[0]);
            assert(esum(m.nodes@) == e_weight(m.nodes@[0]));
            assert(psum(m.nodes@) == p_weight(m.nodes@[0]));
            // only the root exists, so only the empty sequence is cached
            assert forall|t: Seq<i32>| #[trigger] covers(m.nodes@, m.depths@, t) implies t.len()
                == 0 by {
                let w = choose|w: int|
                    #![trigger path_tokens(m.nodes@, m.depths@, w)]
                    live(m.nodes@, w) && t.len() <= path_tokens(m.nodes@, m.depths@, w).len()
                        && t == path_tokens(m.nodes@, m.depths@, w).take(t.len() as int);
                assert(w == 0);
                assert(path_tokens(m.nodes@, m.depths@, 0) =~= Seq::<i32>::empty());
            }
            assert(covers(m.nodes@, m.depths@, Seq::<i32>::empty())) by {
                assert(path_tokens(m.nodes@, m.depths@, 0) =~= Seq::<i32>::empty());
                assert(Seq::<i32>::empty() =~= path_tokens(m.nodes@, m.depths@, 0).take(0));
            }
            assert forall|t: Seq<i32>, v: Seq<i32>|
                #[trigger] m.spec_cached_values(t, v) implies t.len() == 0 && v.len() == 0 by {
                let w = choose|w: int|
                    #![trigger path_tokens(m.nodes@, m.depths@, w)]
                    live(m.nodes@, w) && t.len() <= path_tokens(m.nodes@, m.depths@, w).len()
                        && t == path_tokens(m.nodes@, m.depths@, w).take(t.len() as int) && v
                        == path_values(m.nodes@, m.depths@, w).take(t.len() as int);
                assert(w == 0);
                assert(path_tokens(m.nodes@, m.depths@, 0) =~= Seq::<i32>::empty());
                assert(v =~= Seq::<i32>::empty());
            }
            assert(tree_wf(m.nodes@, m.depths@));
            assert(lock_wf(m.nodes@, m.own_locks@, m.lock_count@));
        }
        m
    }

    /// Advances the logical clock and returns the new tick. The clock
    /// saturates at the largest representable tick.
    fn now_tick(&mut self) -> (t: u128)
        ensures
            final(self).nodes@ == old(self).nodes@,
            final(self).evictable_size == old(self).evictable_size,
            final(self).protected_size == old(self).protected_size,
            final(self).depths == old(self).depths,
            final(self).own_locks == old(self).own_locks,
            final(self).lock_count == old(self).lock_count,
            t == final(self).tick,
    {
        if self.tick < u128::MAX {
            self.tick = self.tick + 1;
        }
        self.tick
    }

    /// Scans a node's child list for an entry mapping `tok` to `c`.
    fn contains_child(&self, p: usize, tok: i32, c: usize) -> (b: bool)
        requires
            p < self.nodes@.len(),
        ensures
            b == has_child(self.nodes@[p as int], tok, c as int),
    {
        let ch = &self.nodes[p].children;
        let m = ch.len();
        for e in 0..m
            invariant
                m == ch@.len(),
                ch@ == self.nodes@[p as int].children@,
                forall|e2: int| 0 <= e2 < e ==> !((#[trigger] ch@[e2]).0 == tok && ch@[e2].1 == c),
        {
            let entry = ch[e];
            if entry.0 == tok && entry.1 == c {
                return true;
            }
        }
        false
    }

    /// Scans a node's child list for the child under edge token `tok`.
    fn find_child(&self, p: usize, tok: i32) -> (r: Option<usize>)
        requires
            p < self.nodes@.len(),
        ensures
            match r {
                Some(c) => has_child(self.nodes@[p as int], tok, c as int),
                None => !has_edge(self.nodes@[p as int], tok),
            },
    {
        let ch = &self.nodes[p].children;
        let m = ch.len();
        for e in 0..m
            invariant
                m == ch@.len(),
                ch@ == self.nodes@[p as int].children@,
                forall|e2: int| 0 <= e2 < e ==> (#[trigger] ch@[e2]).0 != tok,
        {
            let entry = ch[e];
            if entry.0 == tok {
                return Some(entry.1);
            }
        }
        None
    }

    /// Scans a node's child list for the entry index under edge token `tok`.
    fn find_edge_idx(&self, p: usize, tok: i32) -> (r: Option<usize>)
        requires
            p < self.nodes@.len(),
        ensures
            match r {
                Some(e) => e < self.nodes@[p as int].children@.len()
                    && self.nodes@[p as int].children@[e as int].0 == tok,
                None => !has_edge(self.nodes@[p as int], tok),
            },
    {
        let ch = &self.nodes[p].children;
        let m = ch.len();
        for e in 0..m
            invariant
                m == ch@.len(),
                ch@ == self.nodes@[p as int].children@,
                forall|e2: int| 0 <= e2 < e ==> (#[trigger] ch@[e2]).0 != tok,
        {
            if ch[e].0 == tok {
                return Some(e);
            }
        }
        None
    }

    /// Splits a node's edge at `pos`: a new node takes the first `pos`
    /// tokens of the edge (with the node's pin count and timestamp) and the
    /// node keeps the rest as the new node's only child. Neither the cached
    /// contents nor the size accounting change.
    fn split_node(&mut self, node: usize, pos: usize) -> (s: usize)
        requires
            old(self).wf(),
            live(old(self).nodes@, node as int),
            node != 0,
            0 < pos < old(self).nodes@[node as int].key@.len(),
        ensures
            final(self).wf(),
            final(self).nodes@.len() == old(self).nodes@.len() + 1,
            s == old(self).nodes@.len(),
            live(final(self).nodes@, s as int),
            forall|j: int|
                live(old(self).nodes@, j) ==> live(final(self).nodes@, j)
                    && final(self).nodes@[j].ref_count == old(self).nodes@[j].ref_count,
            final(self).evictable_size == old(self).evictable_size,
            final(self).protected_size == old(self).protected_size,
            final(self).lock_count == old(self).lock_count,
            forall|j: int|
                live(old(self).nodes@, j) ==> final(self).own_locks@[j]
                    == old(self).own_locks@[j],
            final(self).nodes@[s as int].key@ == old(self).nodes@[node as int].key@.take(
                pos as int,
            ),
            final(self).nodes@[s as int].value@ == old(self).nodes@[node as int].value@.take(
                pos as int,
            ),
            final(self).nodes@[s as int].parent == old(self).nodes@[node as int].parent,
            final(self).nodes@[node as int].key@ == old(self).nodes@[node as int].key@.skip(
                pos as int,
            ),
            final(self).nodes@[node as int].value@ == old(self).nodes@[node as int].value@.skip(
                pos as int,
            ),
            final(self).nodes@[node as int].parent == s,
            final(self).nodes@[s as int].children@.len() == 1,
            final(self).nodes@[s as int].children@[0] == (
                old(self).nodes@[node as int].key@[pos as int],
                node,
            ),
            path_len(final(self).nodes@, final(self).depths@, s as int) == path_len(
                old(self).nodes@,
                old(self).depths@,
                node as int,
            ) - (old(self).nodes@[node as int].key@.len() - pos),
            forall|d: int|
                live(old(self).nodes@, d) ==> #[trigger] path_tokens(
                    final(self).nodes@,
                    final(self).depths@,
                    d,
                ) == path_tokens(old(self).nodes@, old(self).depths@, d),
            forall|d: int|
                live(old(self).nodes@, d) ==> #[trigger] path_values(
                    final(self).nodes@,
                    final(self).depths@,
                    d,
                ) == path_values(old(self).nodes@, old(self).depths@, d),
            forall|t: Seq<i32>|
                covers(old(self).nodes@, old(self).depths@, t) ==> #[trigger] covers(
                    final(self).nodes@,
                    final(self).depths@,
                    t,
                ),
            forall|t: Seq<i32>|
                #[trigger] covers(final(self).nodes@, final(self).depths@, t) ==> covers(
                    old(self).nodes@,
                    old(self).depths@,
                    t,
                ),
            forall|t: Seq<i32>, v: Seq<i32>|
                old(self).spec_cached_values(t, v) ==> #[trigger] final(self).spec_cached_values(
                    t,
                    v,
                ),
            forall|t: Seq<i32>, v: Seq<i32>|
                #[trigger] final(self).spec_cached_values(t, v) ==> old(self).spec_cached_values(
                    t,
                    v,
                ),
            path_tokens(final(self).nodes@, final(self).depths@, s as int) == path_tokens(
                old(self).nodes@,
                old(self).depths@,
                old(self).nodes@[node as int].parent as int,
            ) + old(self).nodes@[node as int].key@.take(pos as int),
    {
        proof {
            assert(node_wf(self.nodes@, node as int));
            assert(node_wf(self.nodes@, self.nodes@[node as int].parent as int));
        }
        let ghost old_nodes = self.nodes@;
        let s = self.nodes.len();
        let parent = self.nodes[node].parent;
        let klen = self.nodes[node].key.len();
        let tok = self.nodes[node].key[0];
        let tok_tail = self.nodes[node].key[pos];
        let orig_rc = self.nodes[node].ref_count;
        let orig_ts = self.nodes[node].timestamp;

        let skey = copy_range(&self.nodes[node].key, 0, pos);
        let sval = copy_range(&self.nodes[node].value, 0, pos);
        let tkey = copy_range(&self.nodes[node].key, pos, klen);
        let tval = copy_range(&self.nodes[node].value, pos, klen);

        let mut sch: Vec<(i32, usize)> = Vec::new();
        sch.push((tok_tail, node));
        let split = RadixNode {
            live: true,
            key: skey,
            value: sval,
            children: sch,
            parent,
            ref_count: orig_rc,
            timestamp: orig_ts,
        };
        self.nodes.push(split);
        self.nodes[node].key = tkey;
        self.nodes[node].value = tval;
        self.nodes[node].parent = s;

        let e = match self.find_edge_idx(parent, tok) {
            Some(e) => e,
            None => {
                proof {
                    assert(has_child(old_nodes[parent as int], tok, node as int));
                    assert(self.nodes@[parent as int].children@ == old_nodes[parent as int].children@);
                    assert(false);
                }
                0
            },
        };
        proof {
            // the edge entry under `tok` is the one that pointed at `node`
            assert(has_child(old_nodes[parent as int], tok, node as int));
            let e0 = choose|e0: int|
                0 <= e0 < old_nodes[parent as int].children@.len() && (#[trigger] old_nodes[parent as int].children@[e0]).0 == tok && old_nodes[parent as int].children@[e0].1
                    == node as int;
            assert(self.nodes@[parent as int].children@ == old_nodes[parent as int].children@);
            assert(e0 == e as int);
            assert(old_nodes[parent as int].children@[e as int].1 == node as int);
        }
        self.nodes[parent].children[e] = (tok, s);

        let ghost dep0 = self.depths@;
        proof {
            self.depths@ = Map::new(
                |i: int| true,
                |i: int|
                    if i == s as int {
                        dep0[node as int]
                    } else if in_subtree(old_nodes, dep0, node as int, i) {
                        (dep0[i] + 1) as nat
                    } else {
                        dep0[i]
                    },
            );
            self.own_locks@ = self.own_locks@.insert(s as int, 0nat);
        }

        proof {
            let base = old_nodes;
            let fin = self.nodes@;
            let d1 = self.depths@;
            let ni = node as int;
            let pi = parent as int;
            let si = s as int;
            let ei = e as int;
            let own0 = old(self).own_locks@;
            let total = self.lock_count@;

            // the parent is not inside the split node's subtree
            if in_subtree(base, dep0, ni, pi) {
                lemma_subtree_deeper(base, dep0, ni, pi);
                assert(false);
            }
            // only the parent's entry `e` targets the split node
            assert forall|x: int, e2: int|
                live(base, x) && 0 <= e2 < base[x].children@.len() && (#[trigger] base[x].children@[e2]).1 == node implies x == pi && e2 == ei by {
                assert(node_wf(base, x));
                assert(base[ni].parent == x);
                assert(base[x].children@[e2].0 == base[ni].key@[0]);
            }
            // node and parent are not mutually parented
            assert(base[pi].parent != ni || pi == 0) by {
                if pi != 0 && base[pi].parent == ni {
                    assert(dep0[pi] == dep0[ni] + 1);
                    assert(dep0[ni] == dep0[pi] + 1);
                }
            }

            // final arena, pointwise
            let split_val = fin[si];
            let node_new = fin[ni];
            let parent_new = fin[pi];
            assert(fin.len() == base.len() + 1);
            assert(forall|j: int|
                0 <= j < base.len() && j != ni && j != pi ==> fin[j] == base[j]);
            assert(parent_new.children@ =~= base[pi].children@.update(ei, (tok, s)));

            // structure
            assert forall|i: int| 0 <= i < fin.len() implies node_wf(fin, i) by {
                if fin[i].live {
                    if i == si {
                        assert(fin[si].children@.len() == 1);
                        assert(fin[si].children@[0] == (tok_tail, node));
                        assert(fin[ni].key@[0] == tok_tail);
                        assert(has_child(fin[pi], split_val.key@[0], si)) by {
                            assert(split_val.key@[0] == base[ni].key@[0]);
                            assert(parent_new.children@[ei] == (tok, s));
                        }
                    } else if i == ni {
                        assert(has_child(fin[si], node_new.key@[0], ni)) by {
                            assert(fin[si].children@[0] == (tok_tail, node));
                        }
                        assert forall|e2: int|
                            0 <= e2 < node_new.children@.len() implies {
                                let c = (#[trigger] node_new.children@[e2]).1 as int;
                                &&& live(fin, c)
                                &&& c != 0
                                &&& fin[c].parent == i
                                &&& fin[c].key@.len() > 0
                                &&& fin[c].key@[0] == node_new.children@[e2].0
                            } by {
                            assert(node_wf(base, ni));
                            let c = node_new.children@[e2].1 as int;
                            assert(live(base, c));
                            assert(base[c].parent == ni);
                            assert(c != ni);
                            assert(c != pi);
                            assert(fin[c] == base[c]);
                        }
                    } else if i == pi {
                        assert forall|e2: int|
                            0 <= e2 < parent_new.children@.len() implies {
                                let c = (#[trigger] parent_new.children@[e2]).1 as int;
                                &&& live(fin, c)
                                &&& c != 0
                                &&& fin[c].parent == i
                                &&& fin[c].key@.len() > 0
                                &&& fin[c].key@[0] == parent_new.children@[e2].0
                            } by {
                            assert(node_wf(base, pi));
                            if e2 == ei {
                                assert(parent_new.children@[e2] == (tok, s));
                            } else {
                                assert(parent_new.children@[e2] == base[pi].children@[e2]);
                                let c = parent_new.children@[e2].1 as int;
                                assert(live(base, c));
                                assert(c != ni);
                                assert(c != pi);
                                assert(fin[c] == base[c]);
                            }
                        }
                        assert forall|e1: int, e2: int|
                            0 <= e1 < e2 < parent_new.children@.len() implies (
                        #[trigger] parent_new.children@[e1]).0 != (
                        #[trigger] parent_new.children@[e2]).0 by {
                            assert(node_wf(base, pi));
                            assert(parent_new.children@[e1].0 == base[pi].children@[e1].0);
                            assert(parent_new.children@[e2].0 == base[pi].children@[e2].0);
                        }
                        if pi != 0 {
                            let p2 = base[pi].parent as int;
                            assert(node_wf(base, pi));
                            assert(has_child(base[p2], base[pi].key@[0], pi));
                            assert(p2 != ni && p2 != pi);
                            assert(fin[p2] == base[p2]);
                            assert(has_child(fin[p2], parent_new.key@[0], pi));
                        }
                    } else {
                        assert(node_wf(base, i));
                        assert forall|e2: int|
                            0 <= e2 < fin[i].children@.len() implies {
                                let c = (#[trigger] fin[i].children@[e2]).1 as int;
                                &&& live(fin, c)
                                &&& c != 0
                                &&& fin[c].parent == i
                                &&& fin[c].key@.len() > 0
                                &&& fin[c].key@[0] == fin[i].children@[e2].0
                            } by {
                            let c = fin[i].children@[e2].1 as int;
                            assert(live(base, c));
                            assert(c != ni);
                            if c == pi {
                                assert(fin[c].parent == base[c].parent);
                                assert(fin[c].key@ == base[c].key@);
                                assert(fin[c].live == base[c].live);
                            } else {
                                assert(fin[c] == base[c]);
                            }
                        }
                        if i != 0 {
                            let p2 = base[i].parent as int;
                            assert(has_child(base[p2], base[i].key@[0], i));
                            if p2 == pi {
                                let e2 = choose|e2: int|
                                    0 <= e2 < base[pi].children@.len() && (#[trigger] base[pi].children@[e2]).0 == base[i].key@[0] && base[pi].children@[e2].1 == i;
                                assert(e2 != ei);
                                assert(parent_new.children@[e2] == base[pi].children@[e2]);
                                assert(has_child(fin[pi], base[i].key@[0], i));
                            } else if p2 == ni {
                                assert(fin[ni].children@ == base[ni].children@);
                                assert(has_child(fin[ni], base[i].key@[0], i));
                            } else {
                                assert(fin[p2] == base[p2]);
                            }
                        }
                    }
                }
            }

            // depths
            assert(tree_wf(fin, d1)) by {
                assert forall|i: int|
                    #[trigger] live(fin, i) && i != 0 implies d1[i] == d1[fin[i].parent as int]
                        + 1 && d1[i] < fin.len() by {
                    if i == si {
                        assert(d1[si] == dep0[ni]);
                        assert(fin[si].parent == pi);
                        assert(!in_subtree(base, dep0, ni, pi));
                        assert(d1[pi] == dep0[pi]);
                        assert(dep0[ni] == dep0[pi] + 1);
                    } else if i == ni {
                        assert(live(base, ni));
                        assert(in_subtree(base, dep0, ni, ni));
                        assert(d1[ni] == dep0[ni] + 1);
                        assert(fin[ni].parent == si);
                        assert(d1[si] == dep0[ni]);
                        assert(dep0[ni] < base.len());
                    } else {
                        assert(live(base, i));
                        assert(node_wf(base, i));
                        let p2 = base[i].parent as int;
                        assert(fin[i].parent as int == p2);
                        assert(live(base, p2));
                        assert(dep0[i] == dep0[p2] + 1);
                        assert(in_subtree(base, dep0, ni, i) == in_subtree(base, dep0, ni, p2));
                        assert(p2 != si);
                        assert(dep0[i] < base.len());
                    }
                }
            }

            // locks
            assert(lock_wf(fin, self.own_locks@, total)) by {
                let own1 = self.own_locks@;
                assert forall|i: int|
                    #[trigger] live(fin, i) && i != 0 implies fin[i].ref_count == own1[i] + rc_sum(
                        fin,
                        fin[i].children@,
                    ) && fin[i].ref_count <= total by {
                    if i == si {
                        assert(rc_sum(fin, fin[si].children@) == rc_at(fin, (tok_tail, node)))
                            by {
                            assert(fin[si].children@.drop_last() =~= Seq::<(i32, usize)>::empty());
                            assert(rc_sum(fin, Seq::<(i32, usize)>::empty()) == 0);
                            assert(fin[si].children@.last() == (tok_tail, node));
                        }
                        assert(fin[ni].ref_count == orig_rc);
                        assert(own1[si] == 0);
                        assert(base[ni].ref_count <= total);
                    } else if i == pi {
                        assert(live(base, pi));
                        assert forall|e2: int|
                            0 <= e2 < base[pi].children@.len() implies rc_at(
                            base,
                            #[trigger] base[pi].children@[e2],
                        ) == rc_at(fin, parent_new.children@[e2]) by {
                            assert(node_wf(base, pi));
                            if e2 == ei {
                                assert(base[pi].children@[e2].1 == node);
                                assert(parent_new.children@[e2] == (tok, s));
                                assert(fin[si].ref_count == orig_rc);
                                assert(base[ni].ref_count == orig_rc);
                            } else {
                                let c = base[pi].children@[e2].1 as int;
                                assert(live(base, c));
                                assert(fin[c].ref_count == base[c].ref_count);
                            }
                        }
                        lemma_rc_sum_congruence(
                            base,
                            base[pi].children@,
                            fin,
                            parent_new.children@,
                        );
                        assert(own1[pi] == own0[pi]);
                    } else {
                        assert(live(base, i));
                        assert(fin[i].children@ == base[i].children@);
                        assert forall|e2: int|
                            0 <= e2 < base[i].children@.len() implies rc_at(
                            base,
                            #[trigger] base[i].children@[e2],
                        ) == rc_at(fin, fin[i].children@[e2]) by {
                            assert(node_wf(base, i));
                            let c = base[i].children@[e2].1 as int;
                            assert(live(base, c));
                            assert(fin[c].ref_count == base[c].ref_count);
                        }
                        lemma_rc_sum_congruence(base, base[i].children@, fin, fin[i].children@);
                        assert(own1[i] == own0[i]);
                    }
                }
                assert forall|i: int| #[trigger] live(fin, i) && i != 0 implies
                    own1.dom().contains(i) by {
                    if i != si {
                        assert(live(base, i));
                    }
                }
            }

            // sizes
            let u1 = base.push(split_val);
            let u2 = u1.update(ni, node_new);
            let u3 = u2.update(pi, parent_new);
            assert(fin =~= u3);
            lemma_esum_push(base, split_val);
            assert(u1[ni] == base[ni]);
            lemma_esum_update(u1, ni, node_new);
            assert(u2[pi] == base[pi]);
            lemma_esum_update(u2, pi, parent_new);
            assert(e_weight(parent_new) == e_weight(base[pi]));
            assert(p_weight(parent_new) == p_weight(base[pi]));
            assert(split_val.key@.len() == pos);
            assert(node_new.key@.len() == base[ni].key@.len() - pos);
            assert(esum(fin) == esum(base));
            assert(psum(fin) == psum(base));

            // the split node's path carries the matched part of the edge
            assert forall|k: int|
                #[trigger] live(base, k) && !in_subtree(base, dep0, ni, k) implies live(fin, k)
                    && fin[k].key@.len() == base[k].key@.len() && fin[k].parent
                    == base[k].parent by {
                if k == ni {
                    assert(in_subtree(base, dep0, ni, ni));
                } else if k != pi {
                    assert(fin[k] == base[k]);
                }
            }
            if pi != 0 {
                lemma_path_len_outside(base, dep0, fin, d1, ni, pi);
            } else {
                assert(path_len(fin, d1, 0) == 0);
                assert(path_len(base, dep0, 0) == 0);
            }
            assert(path_len(fin, d1, si) == fin[si].key@.len() + path_len(fin, d1, pi));
            assert(path_len(base, dep0, ni) == base[ni].key@.len() + path_len(base, dep0, pi));

            // no existing node's path changes, and the split node's path is
            // the matched part of the split edge
            assert forall|d: int| live(base, d) implies #[trigger] path_tokens(fin, d1, d)
                == path_tokens(base, dep0, d) by {
                lemma_split_keeps_paths(base, dep0, fin, d1, ni, si, pos as int, d);
            }
            assert forall|d: int| live(base, d) implies #[trigger] path_values(fin, d1, d)
                == path_values(base, dep0, d) by {
                lemma_split_keeps_paths(base, dep0, fin, d1, ni, si, pos as int, d);
            }
            assert(path_tokens(fin, d1, si) == path_tokens(fin, d1, pi) + fin[si].key@);

            // neither the cached sequences nor their stored values change:
            // the new node's path is a prefix of the split child's old path
            assert forall|w: int| 0 <= w < base.len() implies (#[trigger] fin[w]).live
                == base[w].live by {
                if w != ni && w != pi {
                    assert(fin[w] == base[w]);
                }
            }
            assert(path_tokens(fin, d1, ni) == path_tokens(fin, d1, si) + fin[ni].key@);
            assert(path_values(fin, d1, ni) == path_values(fin, d1, si) + fin[ni].value@);
            assert forall|t: Seq<i32>|
                covers(base, dep0, t) implies #[trigger] covers(fin, d1, t) by {
                let w = choose|w: int|
                    #![trigger path_tokens(base, dep0, w)]
                    live(base, w) && t.len() <= path_tokens(base, dep0, w).len() && t
                        == path_tokens(base, dep0, w).take(t.len() as int);
                assert(path_tokens(fin, d1, w) == path_tokens(base, dep0, w));
            }
            assert forall|t: Seq<i32>|
                #[trigger] covers(fin, d1, t) implies covers(base, dep0, t) by {
                let w = choose|w: int|
                    #![trigger path_tokens(fin, d1, w)]
                    live(fin, w) && t.len() <= path_tokens(fin, d1, w).len() && t == path_tokens(
                        fin,
                        d1,
                        w,
                    ).take(t.len() as int);
                if w == si {
                    assert(t =~= path_tokens(base, dep0, ni).take(t.len() as int));
                } else {
                    assert(live(base, w));
                    assert(path_tokens(fin, d1, w) == path_tokens(base, dep0, w));
                }
            }
            assert forall|t: Seq<i32>, v: Seq<i32>|
                old(self).spec_cached_values(t, v) implies #[trigger] final(self).spec_cached_values(t, v) by {
                let w = choose|w: int|
                    #![trigger path_tokens(base, dep0, w)]
                    live(base, w) && t.len() <= path_tokens(base, dep0, w).len() && t
                        == path_tokens(base, dep0, w).take(t.len() as int) && v == path_values(
                        base,
                        dep0,
                        w,
                    ).take(t.len() as int);
                assert(path_tokens(fin, d1, w) == path_tokens(base, dep0, w));
                assert(path_values(fin, d1, w) == path_values(base, dep0, w));
            }
            assert forall|t: Seq<i32>, v: Seq<i32>|
                #[trigger] final(self).spec_cached_values(t, v) implies old(self).spec_cached_values(t, v) by {
                let w = choose|w: int|
                    #![trigger path_tokens(fin, d1, w)]
                    live(fin, w) && t.len() <= path_tokens(fin, d1, w).len() && t == path_tokens(
                        fin,
                        d1,
                        w,
                    ).take(t.len() as int) && v == path_values(fin, d1, w).take(t.len() as int);
                if w == si {
                    assert(t =~= path_tokens(base, dep0, ni).take(t.len() as int));
                    assert(v =~= path_values(base, dep0, ni).take(t.len() as int)) by {
                        lemma_path_values_len(fin, d1, si);
                        lemma_path_values_len(fin, d1, ni);
                    }
                } else {
                    assert(live(base, w));
                    assert(path_tokens(fin, d1, w) == path_tokens(base, dep0, w));
                    assert(path_values(fin, d1, w) == path_values(base, dep0, w));
                }
            }
        }
        s
    }

    /// Caches `indices` for `input_ids`: walks the existing prefix and
    /// attaches one new unpinned leaf for the uncached suffix. Returns how
    /// many leading tokens were already cached; the evictable total grows by
    /// exactly the new suffix and already-cached indices keep their values.
    #[verifier::rlimit(100)]
    #[verifier::spinoff_prover]
    pub fn insert_prefix(&mut self, input_ids: &[i32], indices: &[i32]) -> (r: Result<
        usize,
        CacheError,
    >)
        requires
            old(self).wf(),
        ensures
            final(self).wf(),
            final(self).spec_protected() == old(self).spec_protected(),
            final(self).spec_lock_count() == old(self).spec_lock_count(),
            forall|h: RadixCacheHandle|
                old(self).handle_ok(h) ==> #[trigger] final(self).handle_ok(h)
                    && final(self).locks_at(h) == old(self).locks_at(h),
            forall|t: Seq<i32>|
                #[trigger] final(self).spec_covers(t) ==> old(self).spec_covers(t) || (t.len()
                    <= input_ids@.len() && t == input_ids@.take(t.len() as int)),
            forall|t: Seq<i32>, v: Seq<i32>|
                old(self).spec_cached_values(t, v) ==> #[trigger] final(self).spec_cached_values(
                    t,
                    v,
                ),
            match r {
                Ok(p) => {
                    &&& input_ids@.len() == indices@.len()
                    &&& p <= input_ids@.len()
                    &&& final(self).spec_evictable() == old(self).spec_evictable() + (
                    input_ids@.len() - p)
                    &&& final(self).spec_covers(input_ids@)
                    &&& old(self).spec_covers(input_ids@.take(p as int))
                    &&& (p < input_ids@.len() ==> !old(self).spec_covers(
                        input_ids@.take(p + 1),
                    ))
                    &&& exists|v: Seq<i32>|
                        #[trigger] final(self).spec_cached_values(input_ids@, v) && v.len()
                            == input_ids@.len() && v.skip(p as int) == indices@.skip(p as int)
                            && old(self).spec_cached_values(
                            input_ids@.take(p as int),
                            v.take(p as int),
                        )
                },
                Err(e) => match e {
                    CacheError::MismatchedInputAndIndices { input_len, indices_len } => {
                        &&& input_len == input_ids@.len()
                        &&& indices_len == indices@.len()
                        &&& input_ids@.len() != indices@.len()
                        &&& *final(self) == *old(self)
                    },
                    CacheError::CorruptedTree { .. } => {
                        &&& input_ids@.len() == indices@.len()
                        &&& old(self).spec_evictable() + old(self).spec_protected()
                            + input_ids@.len() > usize::MAX
                        &&& final(self).spec_evictable() == old(self).spec_evictable()
                    },
                    _ => false,
                },
            },
    {
        if input_ids.len() != indices.len() {
            return Err(
                CacheError::MismatchedInputAndIndices {
                    input_len: input_ids.len(),
                    indices_len: indices.len(),
                },
            );
        }

        let tick = self.now_tick();
        let (node, prefix_len) = self.walk(input_ids, tick);
        let n = input_ids.len();
        proof {
            // a shorter return never hides an already-cached longer prefix
            if prefix_len < input_ids@.len() {
                let t1 = input_ids@.take(prefix_len + 1);
                assert(path_tokens(self.nodes@, self.depths@, node as int) =~= t1.take(
                    prefix_len as int,
                ));
                assert(t1[prefix_len as int] == input_ids@[prefix_len as int]);
                lemma_uncovered_at_frontier(
                    self.nodes@,
                    self.depths@,
                    node as int,
                    t1,
                    prefix_len as int,
                );
                if covers(old(self).nodes@, old(self).depths@, t1) {
                    assert(covers(self.nodes@, self.depths@, t1));
                }
            }
            // the walked prefix was already cached, with its stored values
            let tp = input_ids@.take(prefix_len as int);
            let vp = path_values(self.nodes@, self.depths@, node as int);
            lemma_path_values_len(self.nodes@, self.depths@, node as int);
            assert(covers(self.nodes@, self.depths@, tp)) by {
                assert(tp =~= path_tokens(self.nodes@, self.depths@, node as int).take(
                    tp.len() as int,
                ));
            }
            assert(self.spec_cached_values(tp, vp)) by {
                assert(tp =~= path_tokens(self.nodes@, self.depths@, node as int).take(
                    tp.len() as int,
                ));
                assert(vp =~= path_values(self.nodes@, self.depths@, node as int).take(
                    tp.len() as int,
                ));
            }
            assert(covers(old(self).nodes@, old(self).depths@, tp));
            assert(old(self).spec_cached_values(tp, vp));
        }
        if prefix_len < n {
            let suffix_len = n - prefix_len;
            if suffix_len > usize::MAX - self.evictable_size - self.protected_size {
                return Err(CacheError::CorruptedTree { reason: "cache size counters exhausted" });
            }
            let ghost mid = *self;
            let new_idx = self.nodes.len();
            let key = copy_range(input_ids, prefix_len, n);
            let value = copy_range(indices, prefix_len, n);
            let leaf = RadixNode {
                live: true,
                key,
                value,
                children: Vec::new(),
                parent: node,
                ref_count: 0,
                timestamp: tick,
            };
            self.nodes.push(leaf);
            let edge_tok = input_ids[prefix_len];
            self.nodes[node].children.push((edge_tok, new_idx));
            self.evictable_size = self.evictable_size + suffix_len;
            proof {
                self.depths@ = self.depths@.insert(
                    new_idx as int,
                    (mid.depths@[node as int] + 1) as nat,
                );
                self.own_locks@ = self.own_locks@.insert(new_idx as int, 0nat);
            }

            proof {
                let base = mid.nodes@;
                let fin = self.nodes@;
                let ni = node as int;
                let li = new_idx as int;
                let leaf_val = fin[li];
                let node_new = fin[ni];
                assert(fin.len() == base.len() + 1);
                assert(forall|j: int| 0 <= j < base.len() && j != ni ==> fin[j] == base[j]);
                assert(node_new.children@ =~= base[ni].children@.push((edge_tok, new_idx)));
                assert(node_wf(base, ni));

                // structure
                assert forall|i: int| 0 <= i < fin.len() implies node_wf(fin, i) by {
                    if fin[i].live {
                        if i == li {
                            assert(fin[li].children@.len() == 0);
                            assert(has_child(fin[ni], leaf_val.key@[0], li)) by {
                                assert(node_new.children@.last() == (edge_tok, new_idx));
                                assert(leaf_val.key@[0] == input_ids@[prefix_len as int]);
                            }
                        } else if i == ni {
                            assert forall|e2: int|
                                0 <= e2 < node_new.children@.len() implies {
                                    let c = (#[trigger] node_new.children@[e2]).1 as int;
                                    &&& live(fin, c)
                                    &&& c != 0
                                    &&& fin[c].parent == i
                                    &&& fin[c].key@.len() > 0
                                    &&& fin[c].key@[0] == node_new.children@[e2].0
                                } by {
                                if e2 < base[ni].children@.len() {
                                    assert(node_new.children@[e2] == base[ni].children@[e2]);
                                    let c = node_new.children@[e2].1 as int;
                                    assert(live(base, c));
                                    assert(c != ni);
                                    assert(fin[c] == base[c]);
                                } else {
                                    assert(node_new.children@[e2] == (edge_tok, new_idx));
                                }
                            }
                            assert forall|e1: int, e2: int|
                                0 <= e1 < e2 < node_new.children@.len() implies (
                            #[trigger] node_new.children@[e1]).0 != (
                            #[trigger] node_new.children@[e2]).0 by {
                                if e2 < base[ni].children@.len() {
                                    assert(node_new.children@[e1] == base[ni].children@[e1]);
                                    assert(node_new.children@[e2] == base[ni].children@[e2]);
                                } else {
                                    assert(node_new.children@[e2].0 == edge_tok);
                                    assert(node_new.children@[e1] == base[ni].children@[e1]);
                                    assert(!has_edge(base[ni], edge_tok));
                                }
                            }
                            if ni != 0 {
                                let p2 = base[ni].parent as int;
                                assert(has_child(base[p2], base[ni].key@[0], ni));
                                assert(p2 != ni);
                                assert(fin[p2] == base[p2]);
                            }
                        } else {
                            assert(node_wf(base, i));
                            assert forall|e2: int|
                                0 <= e2 < fin[i].children@.len() implies {
                                    let c = (#[trigger] fin[i].children@[e2]).1 as int;
                                    &&& live(fin, c)
                                    &&& c != 0
                                    &&& fin[c].parent == i
                                    &&& fin[c].key@.len() > 0
                                    &&& fin[c].key@[0] == fin[i].children@[e2].0
                                } by {
                                let c = fin[i].children@[e2].1 as int;
                                assert(live(base, c));
                                if c == ni {
                                    assert(fin[c].parent == base[c].parent);
                                    assert(fin[c].key@ == base[c].key@);
                                } else {
                                    assert(fin[c] == base[c]);
                                }
                            }
                            if i != 0 {
                                let p2 = base[i].parent as int;
                                assert(has_child(base[p2], base[i].key@[0], i));
                                if p2 == ni {
                                    let e2 = choose|e2: int|
                                        0 <= e2 < base[ni].children@.len() && (#[trigger] base[ni].children@[e2]).0 == base[i].key@[0] && base[ni].children@[e2].1 == i;
                                    assert(node_new.children@[e2] == base[ni].children@[e2]);
                                    assert(has_child(fin[ni], base[i].key@[0], i));
                                } else {
                                    assert(fin[p2] == base[p2]);
                                }
                            }
                        }
                    }
                }

                // depths
                assert(tree_wf(fin, self.depths@)) by {
                    assert(li != 0);
                    assert(self.depths@[0] == mid.depths@[0]);
                    assert forall|i: int| #[trigger] live(fin, i) implies
                        self.depths@.dom().contains(i) by {
                        if i != li {
                            assert(live(base, i));
                        }
                    }
                    assert forall|i: int|
                        #[trigger] live(fin, i) && i != 0 implies self.depths@[i]
                            == self.depths@[fin[i].parent as int] + 1 && self.depths@[i]
                            < fin.len() by {
                        if i == li {
                            assert(live(base, ni));
                            assert(mid.depths@[ni] < base.len());
                        } else {
                            assert(live(base, i));
                            assert(node_wf(base, i));
                            assert(fin[i].parent == base[i].parent);
                            assert(live(base, base[i].parent as int));
                            assert(base[i].parent as int != li);
                            assert(mid.depths@[i] == mid.depths@[base[i].parent as int] + 1);
                            assert(mid.depths@[i] < base.len());
                        }
                    }
                }

                // locks
                assert(lock_wf(fin, self.own_locks@, self.lock_count@)) by {
                    let own1 = self.own_locks@;
                    assert forall|i: int|
                        #[trigger] live(fin, i) && i != 0 implies fin[i].ref_count == own1[i]
                            + rc_sum(fin, fin[i].children@) && fin[i].ref_count
                            <= self.lock_count@ by {
                        if i == li {
                            assert(rc_sum(fin, fin[li].children@) == 0);
                        } else if i == ni {
                            assert(live(base, ni));
                            assert forall|e2: int|
                                0 <= e2 < base[ni].children@.len() implies rc_at(
                                base,
                                #[trigger] base[ni].children@[e2],
                            ) == rc_at(fin, node_new.children@.drop_last()[e2]) by {
                                assert(node_wf(base, ni));
                                assert(node_new.children@.drop_last() =~= base[ni].children@);
                                let c = base[ni].children@[e2].1 as int;
                                assert(live(base, c));
                                assert(fin[c].ref_count == base[c].ref_count);
                            }
                            assert(node_new.children@.drop_last() =~= base[ni].children@);
                            lemma_rc_sum_congruence(
                                base,
                                base[ni].children@,
                                fin,
                                node_new.children@.drop_last(),
                            );
                            assert(rc_sum(fin, node_new.children@) == rc_sum(
                                fin,
                                node_new.children@.drop_last(),
                            ) + rc_at(fin, (edge_tok, new_idx)));
                            assert(rc_at(fin, (edge_tok, new_idx)) == 0);
                        } else {
                            assert(live(base, i));
                            assert(fin[i].children@ == base[i].children@);
                            assert forall|e2: int|
                                0 <= e2 < base[i].children@.len() implies rc_at(
                                base,
                                #[trigger] base[i].children@[e2],
                            ) == rc_at(fin, fin[i].children@[e2]) by {
                                assert(node_wf(base, i));
                                let c = base[i].children@[e2].1 as int;
                                assert(live(base, c));
                                assert(fin[c].ref_count == base[c].ref_count);
                            }
                            lemma_rc_sum_congruence(base, base[i].children@, fin, fin[i].children@);
                        }
                    }
                    assert forall|i: int| #[trigger] live(fin, i) && i != 0 implies
                        own1.dom().contains(i) by {
                        if i != li {
                            assert(live(base, i));
                        }
                    }
                }

                // sizes
                let u1 = base.push(leaf_val);
                let u2 = u1.update(ni, node_new);
                assert(fin =~= u2);
                lemma_esum_push(base, leaf_val);
                assert(u1[ni] == base[ni]);
                lemma_esum_update(u1, ni, node_new);
                assert(e_weight(node_new) == e_weight(base[ni]));
                assert(p_weight(node_new) == p_weight(base[ni]));
                assert(e_weight(leaf_val) == suffix_len);
                assert(p_weight(leaf_val) == 0);

                assert forall|j: int| live(mid.nodes@, j) implies live(fin, j)
                    && self.own_locks@[j] == mid.own_locks@[j] by {
                    if j != ni {
                        assert(fin[j] == base[j]);
                    }
                }

                // the new leaf's path spells out exactly the inserted ids,
                // and stores the committed suffix of the indices
                assert forall|k: int|
                    #[trigger] live(base, k) implies live(fin, k) && fin[k].key@
                        == base[k].key@ && fin[k].value@ == base[k].value@ && fin[k].parent
                        == base[k].parent by {
                    if k != ni {
                        assert(fin[k] == base[k]);
                    }
                }
                lemma_path_tokens_congruence(base, mid.depths@, fin, self.depths@, ni);
                assert(path_tokens(fin, self.depths@, li) == path_tokens(fin, self.depths@, ni)
                    + fin[li].key@);
                assert(path_tokens(fin, self.depths@, li) =~= input_ids@);
                assert(covers(fin, self.depths@, input_ids@)) by {
                    assert(input_ids@ =~= path_tokens(fin, self.depths@, li).take(
                        input_ids@.len() as int,
                    ));
                }
                assert(path_values(fin, self.depths@, li) == path_values(fin, self.depths@, ni)
                    + fin[li].value@);
                lemma_path_values_len(fin, self.depths@, li);
                lemma_path_values_len(fin, self.depths@, ni);
                let v_full = path_values(fin, self.depths@, li);
                assert(v_full.len() == input_ids@.len());
                assert(v_full.skip(prefix_len as int) =~= indices@.skip(prefix_len as int));
                assert(self.spec_cached_values(input_ids@, v_full)) by {
                    assert(input_ids@ =~= path_tokens(fin, self.depths@, li).take(
                        input_ids@.len() as int,
                    ));
                    assert(v_full =~= path_values(fin, self.depths@, li).take(
                        input_ids@.len() as int,
                    ));
                }
                // the already-cached part of the committed values is the old
                // stored prefix
                assert(v_full.take(prefix_len as int) =~= path_values(
                    mid.nodes@,
                    mid.depths@,
                    ni,
                ));
                assert(mid.spec_cached_values(
                    input_ids@.take(prefix_len as int),
                    v_full.take(prefix_len as int),
                )) by {
                    assert(input_ids@.take(prefix_len as int) =~= path_tokens(
                        mid.nodes@,
                        mid.depths@,
                        ni,
                    ).take(prefix_len as int));
                    assert(v_full.take(prefix_len as int) =~= path_values(
                        mid.nodes@,
                        mid.depths@,
                        ni,
                    ).take(prefix_len as int)) by {
                        lemma_path_values_len(mid.nodes@, mid.depths@, ni);
                    }
                }
                assert(old(self).spec_cached_values(
                    input_ids@.take(prefix_len as int),
                    v_full.take(prefix_len as int),
                ));
                // coverage grows only by prefixes of the inserted ids, and
                // stored values persist
                assert forall|t: Seq<i32>|
                    #[trigger] covers(fin, self.depths@, t) implies covers(
                        old(self).nodes@,
                        old(self).depths@,
                        t,
                    ) || (t.len() <= input_ids@.len() && t == input_ids@.take(
                        t.len() as int,
                    )) by {
                    let w = choose|w: int|
                        #![trigger path_tokens(fin, self.depths@, w)]
                        live(fin, w) && t.len() <= path_tokens(fin, self.depths@, w).len() && t
                            == path_tokens(fin, self.depths@, w).take(t.len() as int);
                    if w == li {
                        assert(t =~= input_ids@.take(t.len() as int));
                    } else {
                        assert(live(mid.nodes@, w));
                        lemma_path_tokens_congruence(
                            mid.nodes@,
                            mid.depths@,
                            fin,
                            self.depths@,
                            w,
                        );
                        assert(covers(mid.nodes@, mid.depths@, t));
                    }
                }
                assert forall|t: Seq<i32>, v: Seq<i32>|
                    old(self).spec_cached_values(t, v) implies #[trigger] self.spec_cached_values(t, v) by {
                    assert(mid.spec_cached_values(t, v));
                    let w = choose|w: int|
                        #![trigger path_tokens(mid.nodes@, mid.depths@, w)]
                        live(mid.nodes@, w) && t.len() <= path_tokens(
                            mid.nodes@,
                            mid.depths@,
                            w,
                        ).len() && t == path_tokens(mid.nodes@, mid.depths@, w).take(
                            t.len() as int,
                        ) && v == path_values(mid.nodes@, mid.depths@, w).take(t.len() as int);
                    lemma_path_tokens_congruence(mid.nodes@, mid.depths@, fin, self.depths@, w);
                    assert(live(fin, w));
                }
            }
        } else {
            proof {
                assert(covers(self.nodes@, self.depths@, input_ids@)) by {
                    assert(path_tokens(self.nodes@, self.depths@, node as int) == input_ids@.take(
                        prefix_len as int,
                    ));
                    assert(input_ids@.take(prefix_len as int) =~= input_ids@);
                    assert(input_ids@ =~= path_tokens(self.nodes@, self.depths@, node as int).take(
                        input_ids@.len() as int,
                    ));
                }
                lemma_path_values_len(self.nodes@, self.depths@, node as int);
                let v_full = path_values(self.nodes@, self.depths@, node as int);
                assert(self.spec_cached_values(input_ids@, v_full)) by {
                    assert(input_ids@ =~= path_tokens(self.nodes@, self.depths@, node as int).take(
                        input_ids@.len() as int,
                    ));
                    assert(v_full =~= path_values(self.nodes@, self.depths@, node as int).take(
                        input_ids@.len() as int,
                    ));
                }
                assert(v_full.skip(prefix_len as int) =~= indices@.skip(prefix_len as int));
                assert(v_full.take(prefix_len as int) =~= v_full);
                assert(old(self).spec_cached_values(input_ids@, v_full));
                assert forall|t: Seq<i32>|
                    #[trigger] covers(self.nodes@, self.depths@, t) implies covers(
                        old(self).nodes@,
                        old(self).depths@,
                        t,
                    ) || (t.len() <= input_ids@.len() && t == input_ids@.take(
                        t.len() as int,
                    )) by {
                }
            }
        }

        Ok(prefix_len)
    }

    /// One removal record per freed node, in removal order: the node's full
    /// token path and its own slot indices. Each record's indices are a
    /// suffix of the values the pre-state stored for that path, the path is
    /// no longer cached afterwards, and the returned vector is exactly the
    /// concatenation of the record slices.
    pub open spec fn evict_records_ok(
        pre: RadixCacheManager,
        post: RadixCacheManager,
        out: Seq<i32>,
        removed: Seq<(Seq<i32>, Seq<i32>)>,
    ) -> bool {
        &&& out == concat_slices(removed)
        &&& forall|i: int|
            0 <= i < removed.len() ==> {
                let t = (#[trigger] removed[i]).0;
                let s = removed[i].1;
                &&& 1 <= s.len() <= t.len()
                &&& (exists|v: Seq<i32>|
                    #[trigger] pre.spec_cached_values(t, v) && s == v.skip(t.len() - s.len()))
                &&& pre.spec_covers(t)
                &&& !post.spec_covers(t)
                &&& (post.spec_covers(t.take(t.len() - s.len())) || exists|k: int|
                    i < k < removed.len() && (#[trigger] removed[k]).0 == t.take(
                        t.len() - s.len(),
                    ))
            }
    }

    /// Everything one successful eviction promises: the freed amount and
    /// accounting, the no-op case, and a removal record list describing the
    /// returned indices.
    pub open spec fn evict_ok_post(
        pre: RadixCacheManager,
        post: RadixCacheManager,
        out: Seq<i32>,
        size: int,
    ) -> bool {
        &&& out.len() >= size
        &&& size <= pre.spec_evictable()
        &&& post.spec_evictable() == pre.spec_evictable() - out.len()
        &&& (size == 0 ==> out.len() == 0 && post == pre)
        &&& exists|removed: Seq<(Seq<i32>, Seq<i32>)>|
            #[trigger] Self::evict_records_ok(pre, post, out, removed)
    }

    /// Every pinned node survives with its contents and pin count: eviction
    /// never returns the indices of a node whose reference count is positive.
    pub closed spec fn pinned_preserved(pre: Self, post: Self) -> bool {
        forall|j: int|
            live(pre.nodes@, j) && (#[trigger] pre.nodes@[j]).ref_count > 0 ==> live(post.nodes@, j)
                && post.nodes@[j].key == pre.nodes@[j].key && post.nodes@[j].value
                == pre.nodes@[j].value && post.nodes@[j].ref_count == pre.nodes@[j].ref_count
    }

    /// Frees at least `size` KV units by repeatedly removing the least
    /// recently used unpinned leaf (oldest timestamp, then lowest node id)
    /// and returns the freed slot indices in removal order. Fails only when
    /// more is asked for than is evictable; pinned paths always survive.
    #[verifier::rlimit(100)]
    #[verifier::spinoff_prover]
    pub fn evict(&mut self, size: usize) -> (r: Result<Vec<i32>, CacheError>)
        requires
            old(self).wf(),
        ensures
            final(self).wf(),
            final(self).spec_protected() == old(self).spec_protected(),
            final(self).spec_lock_count() == old(self).spec_lock_count(),
            Self::pinned_preserved(*old(self), *final(self)),
            forall|t: Seq<i32>|
                #[trigger] final(self).spec_covers(t) ==> old(self).spec_covers(t),
            forall|t: Seq<i32>, v: Seq<i32>|
                #[trigger] final(self).spec_cached_values(t, v) ==> old(self).spec_cached_values(
                    t,
                    v,
                ),
            forall|h: RadixCacheHandle|
                old(self).handle_ok(h) && old(self).locks_at(h) >= 1
                    ==> #[trigger] final(self).handle_ok(h) && final(self).locks_at(h)
                    == old(self).locks_at(h),
            match r {
                Ok(out) => Self::evict_ok_post(*old(self), *final(self), out@, size as int),
                Err(e) => match e {
                    CacheError::EvictTooLarge { requested, evictable } => {
                        &&& requested == size
                        &&& evictable == old(self).spec_evictable()
                        &&& size > old(self).spec_evictable()
                        &&& *final(self) == *old(self)
                    },
                    _ => false,
                },
            },
    {
        if size == 0 {
            let out: Vec<i32> = Vec::new();
            proof {
                assert(concat_slices(Seq::<(Seq<i32>, Seq<i32>)>::empty())
                    =~= Seq::<i32>::empty());
                assert(out@ =~= Seq::<i32>::empty());
                assert(Self::evict_records_ok(
                    *self,
                    *self,
                    out@,
                    Seq::<(Seq<i32>, Seq<i32>)>::empty(),
                ));
                assert(exists|removed: Seq<(Seq<i32>, Seq<i32>)>|
                    #[trigger] Self::evict_records_ok(*self, *self, out@, removed));
                assert(Self::evict_ok_post(*self, *self, out@, size as int));
            }
            return Ok(out);
        }
        if size > self.evictable_size {
            return Err(
                CacheError::EvictTooLarge { requested: size, evictable: self.evictable_size },
            );
        }

        let ghost pre = *old(self);
        let n = self.nodes.len();
        let mut candidates: Vec<usize> = Vec::new();
        let mut i: usize = 1;
        while i < n
            invariant
                pre == *self,
                pre.wf(),
                n == self.nodes@.len(),
                1 <= i <= n,
                forall|t: int|
                    0 <= t < candidates@.len() ==> is_cand(
                        self.nodes@,
                        (#[trigger] candidates@[t]) as int,
                    ),
                forall|j: usize|
                    1 <= j < i && is_cand(self.nodes@, j as int) ==> candidates@.contains(j),
                forall|t: int| 0 <= t < candidates@.len() ==> (#[trigger] candidates@[t]) < i,
                forall|t1: int, t2: int|
                    0 <= t1 < t2 < candidates@.len() ==> candidates@[t1] != candidates@[t2],
            decreases n - i,
        {
            let node = &self.nodes[i];
            if node.live && node.children.len() == 0 && node.ref_count == 0 {
                let ghost cand_before = candidates@;
                candidates.push(i);
                proof {
                    assert forall|j: usize|
                        1 <= j < i + 1 && is_cand(self.nodes@, j as int) implies
                        candidates@.contains(j) by {
                        if j == i {
                            assert(candidates@.last() == i);
                        } else {
                            assert(cand_before.contains(j));
                            let t = choose|t: int|
                                0 <= t < cand_before.len() && cand_before[t] == j;
                            assert(candidates@[t] == j);
                        }
                    }
                    assert forall|t1: int, t2: int|
                        0 <= t1 < t2 < candidates@.len() implies candidates@[t1] != candidates@[
                        t2] by {
                        if t2 == candidates@.len() - 1 {
                            assert(candidates@[t1] == cand_before[t1]);
                            assert(candidates@[t1] < i);
                        }
                    }
                }
            }
            i = i + 1;
        }

        let mut evicted: Vec<i32> = Vec::new();
        let mut freed: usize = 0;
        let ghost mut records: Seq<(Seq<i32>, Seq<i32>)> = Seq::empty();
        let ghost mut rparents: Seq<int> = Seq::empty();
        proof {
            assert(concat_slices(records) =~= Seq::<i32>::empty());
        }

        while freed < size
            invariant
                pre.wf(),
                size <= pre.evictable_size,
                size > 0,
                self.wf(),
                freed == evicted@.len(),
                self.nodes@.len() == pre.nodes@.len(),
                self.evictable_size == pre.evictable_size - freed,
                self.protected_size == pre.protected_size,
                self.depths == pre.depths,
                self.own_locks == pre.own_locks,
                self.lock_count == pre.lock_count,
                self.tick == pre.tick,
                forall|j: int|
                    #[trigger] live(self.nodes@, j) ==> live(pre.nodes@, j) && self.nodes@[j].key
                        == pre.nodes@[j].key && self.nodes@[j].value == pre.nodes@[j].value
                        && self.nodes@[j].ref_count == pre.nodes@[j].ref_count
                        && self.nodes@[j].parent == pre.nodes@[j].parent,
                forall|j: int|
                    live(pre.nodes@, j) && (#[trigger] pre.nodes@[j]).ref_count > 0 ==> live(
                        self.nodes@,
                        j,
                    ),
                forall|t: Seq<i32>|
                    #[trigger] covers(self.nodes@, self.depths@, t) ==> covers(
                        pre.nodes@,
                        pre.depths@,
                        t,
                    ),
                forall|t: Seq<i32>, v: Seq<i32>|
                    #[trigger] cached_values_at(self.nodes@, self.depths@, t, v)
                        ==> cached_values_at(pre.nodes@, pre.depths@, t, v),
                evicted@ == concat_slices(records),
                forall|i: int|
                    0 <= i < records.len() ==> {
                        let t = (#[trigger] records[i]).0;
                        let s = records[i].1;
                        &&& 1 <= s.len() <= t.len()
                        &&& (exists|v: Seq<i32>|
                            #[trigger] cached_values_at(pre.nodes@, pre.depths@, t, v) && s
                                == v.skip(t.len() - s.len()))
                        &&& covers(pre.nodes@, pre.depths@, t)
                        &&& !covers(self.nodes@, self.depths@, t)
                    },
                rparents.len() == records.len(),
                forall|i: int|
                    0 <= i < records.len() ==> {
                        let pp = (#[trigger] records[i]).0.take(
                            records[i].0.len() - records[i].1.len(),
                        );
                        ||| (live(self.nodes@, rparents[i]) && path_tokens(
                            self.nodes@,
                            self.depths@,
                            rparents[i],
                        ) == pp)
                        ||| (exists|k: int|
                            i < k < records.len() && (#[trigger] records[k]).0 == pp)
                    },
                forall|t: int|
                    0 <= t < candidates@.len() ==> is_cand(
                        self.nodes@,
                        (#[trigger] candidates@[t]) as int,
                    ),
                n == self.nodes@.len(),
                forall|j: usize| is_cand(self.nodes@, j as int) ==> candidates@.contains(j),
                forall|t1: int, t2: int|
                    0 <= t1 < t2 < candidates@.len() ==> candidates@[t1] != candidates@[t2],
            decreases size - (if freed <= size {
                freed as int
            } else {
                size as int
            }),
        {
            if candidates.len() == 0 {
                proof {
                    assert(esum(self.nodes@) > 0);
                    let w = lemma_esum_pos_witness(self.nodes@);
                    assert(node_wf(self.nodes@, 0));
                    assert(w != 0);
                    let leaf = lemma_descend_to_leaf(
                        self.nodes@,
                        self.depths@,
                        self.own_locks@,
                        self.lock_count@,
                        w,
                    );
                    assert(0 <= leaf < n);
                    assert(is_cand(self.nodes@, (leaf as usize) as int));
                    assert(candidates@.contains(leaf as usize));
                    assert(false);
                }
                return Err(CacheError::CorruptedTree { reason: "no evictable leaf found" });
            }

            // pick the least recently used candidate, lowest id on ties
            let mut best: usize = 0;
            let mut t: usize = 1;
            while t < candidates.len()
                invariant
                    candidates@.len() >= 1,
                    best < candidates@.len(),
                    t <= candidates@.len(),
                    forall|u: int|
                        0 <= u < candidates@.len() ==> is_cand(
                            self.nodes@,
                            (#[trigger] candidates@[u]) as int,
                        ),
                decreases candidates@.len() - t,
            {
                let ct = candidates[t];
                let cb = candidates[best];
                if self.nodes[ct].timestamp < self.nodes[cb].timestamp || (self.nodes[
                    ct].timestamp == self.nodes[cb].timestamp && ct < cb) {
                    best = t;
                }
                t = t + 1;
            }

            let m = candidates[best];
            proof {
                assert(is_cand(self.nodes@, m as int));
            }
            let ghost cand_pre = candidates@;
            candidates.remove(best);
            let ghost cand_after = candidates@;
            proof {
                assert(cand_after =~= cand_pre.remove(best as int));
                assert forall|t0: int|
                    0 <= t0 < cand_after.len() implies (#[trigger] cand_after[t0]) != m
                        && is_cand(self.nodes@, cand_after[t0] as int) by {
                    let u0 = if t0 < best {
                        t0
                    } else {
                        t0 + 1
                    };
                    assert(cand_after[t0] == cand_pre[u0]);
                    assert(u0 != best);
                    assert(cand_pre[best as int] == m);
                }
                assert forall|t1: int, t2: int|
                    0 <= t1 < t2 < cand_after.len() implies cand_after[t1] != cand_after[t2] by {
                    let o1 = if t1 < best {
                        t1
                    } else {
                        t1 + 1
                    };
                    let o2 = if t2 < best {
                        t2
                    } else {
                        t2 + 1
                    };
                    assert(cand_after[t1] == cand_pre[o1]);
                    assert(cand_after[t2] == cand_pre[o2]);
                }
                assert forall|j: usize|
                    cand_pre.contains(j) && j != m implies #[trigger] cand_after.contains(j) by {
                    let t0 = choose|t0: int| 0 <= t0 < cand_pre.len() && cand_pre[t0] == j;
                    assert(t0 != best);
                    if t0 < best {
                        assert(cand_after[t0] == j);
                    } else {
                        assert(cand_after[t0 - 1] == j);
                    }
                }
            }

            proof {
                assert(node_wf(self.nodes@, m as int));
            }
            let mlen = self.nodes[m].key.len();
            proof {
                lemma_esum_element(self.nodes@, m as int);
                assert(mlen >= 1);
            }

            // collect the freed slot indices
            let vlen = self.nodes[m].value.len();
            let ghost evicted_before = evicted@.len();
            let ghost evicted_snap = evicted@;
            let mut v: usize = 0;
            #[verifier::loop_isolation(false)]
            while v < vlen
                invariant
                    v <= vlen,
                    evicted@.len() == evicted_before + v,
                    evicted@ == evicted_snap + self.nodes@[m as int].value@.take(v as int),
                decreases vlen - v,
            {
                evicted.push(self.nodes[m].value[v]);
                v = v + 1;
                proof {
                    assert(evicted@ =~= evicted_snap + self.nodes@[m as int].value@.take(
                        v as int,
                    ));
                }
            }
            proof {
                assert(evicted@ =~= evicted_snap + self.nodes@[m as int].value@);
            }
            freed = freed + mlen;
            self.evictable_size = self.evictable_size - mlen;

            // unlink the leaf from its parent and free its slot
            let parent = self.nodes[m].parent;
            let tok = self.nodes[m].key[0];
            let ghost cur = self.nodes@;
            let e = match self.find_edge_idx(parent, tok) {
                Some(e) => e,
                None => {
                    proof {
                        assert(has_child(cur[parent as int], tok, m as int));
                        assert(false);
                    }
                    0
                },
            };
            proof {
                assert(has_child(cur[parent as int], tok, m as int));
                let e0 = choose|e0: int|
                    0 <= e0 < cur[parent as int].children@.len() && (#[trigger] cur[
                        parent as int].children@[e0]).0 == tok && cur[parent as int].children@[
                        e0].1 == m as int;
                assert(node_wf(cur, parent as int));
                assert(e0 == e as int);
                assert(cur[parent as int].children@[e as int].1 == m as int);
            }
            self.nodes[parent].children.remove(e);
            self.nodes[m].live = false;

            proof {
                let fin = self.nodes@;
                let mi = m as int;
                let pi = parent as int;
                let ei = e as int;
                assert(pi != mi);
                assert(forall|j: int| 0 <= j < cur.len() && j != mi && j != pi ==> fin[j] == cur[
                    j]);
                assert(fin[pi].children@ =~= cur[pi].children@.remove(ei));

                // only the parent's entry `e` targeted the removed leaf
                assert forall|x: int, e2: int|
                    live(cur, x) && 0 <= e2 < cur[x].children@.len() && (#[trigger] cur[
                        x].children@[e2]).1 == m implies x == pi && e2 == ei by {
                    assert(node_wf(cur, x));
                    assert(cur[mi].parent == x);
                    assert(cur[x].children@[e2].0 == cur[mi].key@[0]);
                }

                // structure
                assert forall|j: int| 0 <= j < fin.len() implies node_wf(fin, j) by {
                    if fin[j].live {
                        assert(node_wf(cur, j));
                        assert(live(cur, j));
                        if j == pi {
                            assert forall|e2: int|
                                0 <= e2 < fin[pi].children@.len() implies {
                                    let c = (#[trigger] fin[pi].children@[e2]).1 as int;
                                    &&& live(fin, c)
                                    &&& c != 0
                                    &&& fin[c].parent == j
                                    &&& fin[c].key@.len() > 0
                                    &&& fin[c].key@[0] == fin[pi].children@[e2].0
                                } by {
                                let old_e2 = if e2 < ei {
                                    e2
                                } else {
                                    e2 + 1
                                };
                                assert(fin[pi].children@[e2] == cur[pi].children@[old_e2]);
                                let c = cur[pi].children@[old_e2].1 as int;
                                assert(live(cur, c));
                                assert(c != mi);
                                if c != pi {
                                    assert(fin[c] == cur[c]);
                                }
                            }
                            assert forall|e1: int, e2: int|
                                0 <= e1 < e2 < fin[pi].children@.len() implies (#[trigger] fin[
                                pi].children@[e1]).0 != (#[trigger] fin[pi].children@[e2]).0 by {
                                let o1 = if e1 < ei {
                                    e1
                                } else {
                                    e1 + 1
                                };
                                let o2 = if e2 < ei {
                                    e2
                                } else {
                                    e2 + 1
                                };
                                assert(fin[pi].children@[e1] == cur[pi].children@[o1]);
                                assert(fin[pi].children@[e2] == cur[pi].children@[o2]);
                            }
                            if pi != 0 {
                                let p2 = cur[pi].parent as int;
                                assert(has_child(cur[p2], cur[pi].key@[0], pi));
                                assert(p2 != pi);
                                assert(p2 != mi);
                                assert(fin[p2].children@ == cur[p2].children@);
                            }
                        } else {
                            assert forall|e2: int|
                                0 <= e2 < fin[j].children@.len() implies {
                                    let c = (#[trigger] fin[j].children@[e2]).1 as int;
                                    &&& live(fin, c)
                                    &&& c != 0
                                    &&& fin[c].parent == j
                                    &&& fin[c].key@.len() > 0
                                    &&& fin[c].key@[0] == fin[j].children@[e2].0
                                } by {
                                assert(fin[j].children@ == cur[j].children@);
                                let c = cur[j].children@[e2].1 as int;
                                assert(live(cur, c));
                                assert(c != mi);
                                if c != pi {
                                    assert(fin[c] == cur[c]);
                                }
                            }
                            if j != 0 {
                                let p2 = cur[j].parent as int;
                                assert(p2 != mi);
                                assert(has_child(cur[p2], cur[j].key@[0], j));
                                if p2 == pi {
                                    let e2 = choose|e2: int|
                                        0 <= e2 < cur[pi].children@.len() && (#[trigger] cur[
                                            pi].children@[e2]).0 == cur[j].key@[0] && cur[
                                            pi].children@[e2].1 == j;
                                    assert(e2 != ei);
                                    if e2 < ei {
                                        assert(fin[pi].children@[e2] == cur[pi].children@[e2]);
                                    } else {
                                        assert(fin[pi].children@[e2 - 1] == cur[pi].children@[
                                            e2]);
                                    }
                                    assert(has_child(fin[pi], cur[j].key@[0], j));
                                } else {
                                    assert(fin[p2].children@ == cur[p2].children@);
                                }
                            }
                        }
                    }
                }

                // depths
                assert(tree_wf(fin, self.depths@)) by {
                    assert forall|j: int| #[trigger] live(fin, j) implies live(cur, j) && fin[
                        j].parent == cur[j].parent by {
                        if j != pi {
                            assert(fin[j] == cur[j]);
                        }
                    }
                }

                // locks
                assert(lock_wf(fin, self.own_locks@, self.lock_count@)) by {
                    assert forall|j: int|
                        #[trigger] live(fin, j) && j != 0 implies fin[j].ref_count
                            == self.own_locks@[j] + rc_sum(fin, fin[j].children@) && fin[
                        j].ref_count <= self.lock_count@ by {
                        assert(live(cur, j));
                        assert(node_wf(cur, j));
                        if j == pi {
                            assert forall|e2: int|
                                0 <= e2 < cur[pi].children@.len() implies rc_at(
                                cur,
                                #[trigger] cur[pi].children@[e2],
                            ) == rc_at(fin, cur[pi].children@[e2]) by {
                                let c = cur[pi].children@[e2].1 as int;
                                assert(live(cur, c));
                                if c == mi {
                                    assert(cur[mi].ref_count == 0);
                                    assert(fin[mi].ref_count == 0);
                                } else if c != pi {
                                    assert(fin[c] == cur[c]);
                                }
                            }
                            lemma_rc_sum_congruence(
                                cur,
                                cur[pi].children@,
                                fin,
                                cur[pi].children@,
                            );
                            lemma_rc_sum_remove(fin, cur[pi].children@, ei);
                            assert(rc_at(fin, cur[pi].children@[ei]) == 0);
                        } else {
                            assert(fin[j].children@ == cur[j].children@);
                            assert forall|e2: int|
                                0 <= e2 < cur[j].children@.len() implies rc_at(
                                cur,
                                #[trigger] cur[j].children@[e2],
                            ) == rc_at(fin, fin[j].children@[e2]) by {
                                let c = cur[j].children@[e2].1 as int;
                                assert(live(cur, c));
                                assert(c != mi);
                                if c != pi {
                                    assert(fin[c] == cur[c]);
                                }
                            }
                            lemma_rc_sum_congruence(cur, cur[j].children@, fin, fin[j].children@);
                        }
                    }
                    assert forall|j: int| #[trigger] live(fin, j) && j != 0 implies
                        self.own_locks@.dom().contains(j) by {
                        assert(live(cur, j));
                    }
                }

                // sizes
                let u1 = cur.update(pi, fin[pi]);
                let u2 = u1.update(mi, fin[mi]);
                assert(fin =~= u2);
                lemma_esum_update(cur, pi, fin[pi]);
                assert(e_weight(fin[pi]) == e_weight(cur[pi]));
                assert(p_weight(fin[pi]) == p_weight(cur[pi]));
                assert(u1[mi] == cur[mi]);
                lemma_esum_update(u1, mi, fin[mi]);
                assert(e_weight(cur[mi]) == mlen);
                assert(p_weight(cur[mi]) == 0);
                assert(e_weight(fin[mi]) == 0);
                assert(p_weight(fin[mi]) == 0);
            }

            // the parent may have become an evictable leaf
            let plen = self.nodes[parent].children.len();
            let prc = self.nodes[parent].ref_count;
            let is_parent_cand = parent != 0 && plen == 0 && prc == 0;
            if is_parent_cand {
                proof {
                    if cand_after.contains(parent) {
                        let t0 = choose|t0: int|
                            0 <= t0 < cand_after.len() && cand_after[t0] == parent;
                        assert(is_cand(cur, parent as int));
                        assert(cur[parent as int].children@.len() == 0);
                        assert(false);
                    }
                }
                candidates.push(parent);
            }

            proof {
                let fin = self.nodes@;
                let mi = m as int;
                let pi = parent as int;
                // candidate bookkeeping survives the removal
                assert forall|t0: int|
                    0 <= t0 < candidates@.len() implies is_cand(
                    fin,
                    (#[trigger] candidates@[t0]) as int,
                ) by {
                    let cj = candidates@[t0] as int;
                    if is_parent_cand && t0 == candidates@.len() - 1 {
                        assert(cj == pi);
                    } else {
                        assert(candidates@[t0] == cand_after[t0]);
                        assert(is_cand(cur, cj));
                        assert(cj != mi);
                        if cj != pi {
                            assert(fin[cj] == cur[cj]);
                        } else {
                            assert(cur[pi].children@.len() > 0);
                            assert(false);
                        }
                    }
                }
                assert forall|j: usize| is_cand(fin, j as int) implies candidates@.contains(
                    j,
                ) by {
                    if j as int == pi {
                        assert(is_parent_cand);
                        assert(candidates@.last() == parent);
                    } else {
                        assert(!fin[mi].live);
                        assert(j as int != mi);
                        assert(j != m);
                        assert(fin[j as int] == cur[j as int]);
                        assert(is_cand(cur, j as int));
                        assert(cand_pre.contains(j));
                        assert(cand_after.contains(j));
                        let t0 = choose|t0: int|
                            0 <= t0 < cand_after.len() && cand_after[t0] == j;
                        assert(candidates@[t0] == j);
                    }
                }
                assert forall|t1: int, t2: int|
                    0 <= t1 < t2 < candidates@.len() implies candidates@[t1] != candidates@[
                    t2] by {
                    if is_parent_cand && t2 == candidates@.len() - 1 {
                        if candidates@[t1] == parent {
                            assert(cand_after[t1] == parent);
                            assert(is_cand(cur, pi));
                            assert(cur[pi].children@.len() > 0);
                        }
                    } else {
                        assert(candidates@[t1] == cand_after[t1]);
                        assert(candidates@[t2] == cand_after[t2]);
                    }
                }
                // what survives still matches the pre-eviction arena
                assert forall|j: int| #[trigger] live(fin, j) implies live(pre.nodes@, j)
                    && fin[j].key == pre.nodes@[j].key && fin[j].value == pre.nodes@[j].value
                    && fin[j].ref_count == pre.nodes@[j].ref_count && fin[j].parent
                    == pre.nodes@[j].parent by {
                    assert(live(cur, j));
                    if j != pi && j != mi {
                        assert(fin[j] == cur[j]);
                    }
                }
                assert forall|j: int|
                    live(pre.nodes@, j) && (#[trigger] pre.nodes@[j]).ref_count > 0 implies live(
                    fin,
                    j,
                ) by {
                    assert(live(cur, j));
                    assert(cur[j].ref_count == pre.nodes@[j].ref_count);
                    assert(j != mi);
                    if j != pi {
                        assert(fin[j] == cur[j]);
                    }
                }
                // what is still cached now was cached at the start
                assert forall|k: int|
                    #[trigger] live(fin, k) implies live(cur, k) && cur[k].key@ == fin[k].key@
                        && cur[k].value@ == fin[k].value@ && cur[k].parent == fin[k].parent by {
                    if k != pi && k != mi {
                        assert(fin[k] == cur[k]);
                    }
                }
                assert forall|t: Seq<i32>|
                    #[trigger] covers(fin, self.depths@, t) implies covers(
                    pre.nodes@,
                    pre.depths@,
                    t,
                ) by {
                    let w = choose|w: int|
                        #![trigger path_tokens(fin, self.depths@, w)]
                        live(fin, w) && t.len() <= path_tokens(fin, self.depths@, w).len() && t
                            == path_tokens(fin, self.depths@, w).take(t.len() as int);
                    lemma_path_tokens_congruence(fin, self.depths@, cur, self.depths@, w);
                    assert(covers(cur, self.depths@, t));
                }
                assert forall|t: Seq<i32>, v: Seq<i32>|
                    #[trigger] cached_values_at(fin, self.depths@, t, v) implies cached_values_at(
                    pre.nodes@,
                    pre.depths@,
                    t,
                    v,
                ) by {
                    let w = choose|w: int|
                        #![trigger path_tokens(fin, self.depths@, w)]
                        live(fin, w) && t.len() <= path_tokens(fin, self.depths@, w).len() && t
                            == path_tokens(fin, self.depths@, w).take(t.len() as int) && v
                            == path_values(fin, self.depths@, w).take(t.len() as int);
                    lemma_path_tokens_congruence(fin, self.depths@, cur, self.depths@, w);
                    assert(cached_values_at(cur, self.depths@, t, v));
                }
                assert forall|t2: Seq<i32>|
                    #[trigger] covers(fin, self.depths@, t2) implies covers(
                    cur,
                    self.depths@,
                    t2,
                ) by {
                    let w = choose|w: int|
                        #![trigger path_tokens(fin, self.depths@, w)]
                        live(fin, w) && t2.len() <= path_tokens(fin, self.depths@, w).len() && t2
                            == path_tokens(fin, self.depths@, w).take(t2.len() as int);
                    lemma_path_tokens_congruence(fin, self.depths@, cur, self.depths@, w);
                }

                // record what this removal freed: the leaf's full path and
                // its own slot indices, no longer cached afterwards
                let ghost records_before = records;
                let t_m = path_tokens(cur, self.depths@, mi);
                let s_m = cur[mi].value@;
                let v_m = path_values(cur, self.depths@, mi);
                assert(node_wf(cur, mi));
                assert(t_m == path_tokens(cur, self.depths@, pi) + cur[mi].key@);
                assert(v_m == path_values(cur, self.depths@, pi) + cur[mi].value@);
                lemma_path_values_len(cur, self.depths@, pi);
                lemma_path_values_len(cur, self.depths@, mi);
                assert(1 <= s_m.len() <= t_m.len());
                assert(cached_values_at(cur, self.depths@, t_m, v_m)) by {
                    assert(t_m =~= path_tokens(cur, self.depths@, mi).take(t_m.len() as int));
                    assert(v_m =~= path_values(cur, self.depths@, mi).take(t_m.len() as int));
                }
                assert(covers(cur, self.depths@, t_m)) by {
                    assert(t_m =~= path_tokens(cur, self.depths@, mi).take(t_m.len() as int));
                }
                assert(cached_values_at(pre.nodes@, pre.depths@, t_m, v_m));
                assert(covers(pre.nodes@, pre.depths@, t_m));
                assert(s_m =~= v_m.skip(t_m.len() - s_m.len()));

                // the removed edge is gone: its token has no entry any more
                assert(path_tokens(fin, self.depths@, pi) == path_tokens(
                    cur,
                    self.depths@,
                    pi,
                )) by {
                    lemma_path_tokens_congruence(fin, self.depths@, cur, self.depths@, pi);
                }
                assert(path_tokens(fin, self.depths@, pi) =~= t_m.take(
                    t_m.len() - s_m.len(),
                ));
                assert(t_m[t_m.len() - s_m.len()] == tok);
                assert(!has_edge(fin[pi], tok)) by {
                    if has_edge(fin[pi], tok) {
                        let e2 = choose|e2: int|
                            0 <= e2 < fin[pi].children@.len() && (#[trigger] fin[pi].children@[
                                e2]).0 == tok;
                        let o2 = if e2 < e as int {
                            e2
                        } else {
                            e2 + 1
                        };
                        assert(fin[pi].children@[e2] == cur[pi].children@[o2]);
                        assert(o2 != e as int);
                        assert(cur[pi].children@[e as int].0 == tok);
                        assert(node_wf(cur, pi));
                        assert(false);
                    }
                }
                lemma_uncovered_at_frontier(
                    fin,
                    self.depths@,
                    pi,
                    t_m,
                    t_m.len() - s_m.len(),
                );

                let ghost rparents_before = rparents;
                records = records.push((t_m, s_m));
                rparents = rparents.push(pi);
                assert(records.drop_last() =~= records_before);
                assert(concat_slices(records) == concat_slices(records_before) + s_m);
                assert(evicted@ =~= concat_slices(records));
                // each earlier removed leaf's parent still stands, or is the
                // node removed now
                assert(t_m.take(t_m.len() - s_m.len()) == path_tokens(
                    fin,
                    self.depths@,
                    pi,
                ));
                assert forall|i: int|
                    0 <= i < records.len() implies {
                        let pp = (#[trigger] records[i]).0.take(
                            records[i].0.len() - records[i].1.len(),
                        );
                        ||| (live(fin, rparents[i]) && path_tokens(fin, self.depths@, rparents[i])
                            == pp)
                        ||| (exists|k: int|
                            i < k < records.len() && (#[trigger] records[k]).0 == pp)
                    } by {
                    let pp = records[i].0.take(records[i].0.len() - records[i].1.len());
                    if i < records_before.len() {
                        assert(records[i] == records_before[i]);
                        assert(rparents[i] == rparents_before[i]);
                        if live(cur, rparents_before[i]) && path_tokens(
                            cur,
                            self.depths@,
                            rparents_before[i],
                        ) == pp {
                            if rparents_before[i] == mi {
                                assert(records.last().0 == pp);
                                assert(records[records.len() - 1].0 == pp);
                            } else {
                                assert(live(fin, rparents_before[i]));
                                lemma_path_tokens_congruence(
                                    fin,
                                    self.depths@,
                                    cur,
                                    self.depths@,
                                    rparents_before[i],
                                );
                            }
                        } else {
                            let k = choose|k: int|
                                i < k < records_before.len() && (#[trigger] records_before[
                                    k]).0 == pp;
                            assert(records[k].0 == pp);
                        }
                    } else {
                        assert(records[i] == (t_m, s_m));
                        assert(rparents[i] == pi);
                        assert(live(fin, pi));
                    }
                }
                assert forall|i: int|
                    0 <= i < records.len() implies {
                        let t = (#[trigger] records[i]).0;
                        let s = records[i].1;
                        &&& 1 <= s.len() <= t.len()
                        &&& (exists|v2: Seq<i32>|
                            #[trigger] cached_values_at(pre.nodes@, pre.depths@, t, v2) && s
                                == v2.skip(t.len() - s.len()))
                        &&& covers(pre.nodes@, pre.depths@, t)
                        &&& !covers(fin, self.depths@, t)
                    } by {
                    if i < records_before.len() {
                        assert(records[i] == records_before[i]);
                        if covers(fin, self.depths@, records[i].0) {
                            assert(covers(cur, self.depths@, records[i].0));
                        }
                    } else {
                        assert(records[i] == (t_m, s_m));
                    }
                }
            }
        }

        proof {
            assert forall|h: RadixCacheHandle|
                pre.handle_ok(h) && pre.locks_at(h) >= 1 implies #[trigger] self.handle_ok(h)
                    && self.locks_at(h) == pre.locks_at(h) by {
                let j = h.node as int;
                assert(live(pre.nodes@, j));
                assert(node_wf(pre.nodes@, j));
                if j != 0 {
                    lemma_rc_sum_nonneg(pre.nodes@, pre.nodes@[j].children@);
                    assert(pre.nodes@[j].ref_count >= pre.own_locks@[j]);
                }
                assert(pre.nodes@[j].ref_count > 0);
                assert(live(self.nodes@, j));
            }
            assert forall|i: int|
                0 <= i < records.len() implies {
                    let t = (#[trigger] records[i]).0;
                    let s = records[i].1;
                    &&& 1 <= s.len() <= t.len()
                    &&& (exists|v: Seq<i32>|
                        #[trigger] pre.spec_cached_values(t, v) && s == v.skip(
                            t.len() - s.len(),
                        ))
                    &&& pre.spec_covers(t)
                    &&& !self.spec_covers(t)
                    &&& (self.spec_covers(t.take(t.len() - s.len())) || exists|k: int|
                        i < k < records.len() && (#[trigger] records[k]).0 == t.take(
                            t.len() - s.len(),
                        ))
                } by {
                let t = records[i].0;
                let s = records[i].1;
                let v0 = choose|v0: Seq<i32>|
                    #![trigger cached_values_at(pre.nodes@, pre.depths@, t, v0)]
                    cached_values_at(pre.nodes@, pre.depths@, t, v0) && s == v0.skip(
                        t.len() - s.len(),
                    );
                assert(pre.spec_cached_values(t, v0));
                let pp = t.take(t.len() - s.len());
                if live(self.nodes@, rparents[i]) && path_tokens(
                    self.nodes@,
                    self.depths@,
                    rparents[i],
                ) == pp {
                    assert(pp =~= path_tokens(self.nodes@, self.depths@, rparents[i]).take(
                        pp.len() as int,
                    ));
                    assert(covers(self.nodes@, self.depths@, pp));
                }
            }
            assert(Self::evict_records_ok(pre, *self, evicted@, records));
            assert(exists|removed: Seq<(Seq<i32>, Seq<i32>)>|
                #[trigger] Self::evict_records_ok(pre, *self, evicted@, removed));
            assert(Self::evict_ok_post(pre, *self, evicted@, size as int));
        }
        Ok(evicted)
    }

    /// The observable shape of a state reached from `s0` by a balanced run
    /// with `k` locks on `h` not yet released.
    spec fn balanced_char(s0: Self, si: Self, h: RadixCacheHandle, k: int) -> bool {
        let hn = h.node as int;
        &&& si.nodes@.len() == s0.nodes@.len()
        &&& si.depths@ == s0.depths@
        &&& (forall|j: int|
            0 <= j < s0.nodes@.len() ==> #[trigger] si.nodes@[j] == if on_path(
                s0.nodes@,
                s0.depths@,
                j,
                hn,
            ) {
                with_rc(s0.nodes@[j], s0.nodes@[j].ref_count + k)
            } else {
                s0.nodes@[j]
            })
        &&& (forall|key: int| key != hn ==> #[trigger] si.own_locks@[key] == s0.own_locks@[key])
        &&& (hn != 0 ==> si.own_locks@[hn] == s0.own_locks@[hn] + k)
        &&& (hn == 0 ==> si.own_locks@ == s0.own_locks@)
    }

    /// One more lock or unlock step moves the balanced characterization by
    /// exactly one.
    #[verifier::spinoff_prover]
    proof fn lemma_balanced_step(
        s0: Self,
        sp: Self,
        si: Self,
        h: RadixCacheHandle,
        bound: int,
        k_prev: int,
        unlocking: bool,
    )
        requires
            s0.wf(),
            sp.wf(),
            s0.handle_ok(h),
            0 <= k_prev <= bound,
            !unlocking ==> k_prev + 1 <= bound,
            unlocking ==> k_prev >= 1,
            s0.spec_lock_count() + bound <= usize::MAX,
            Self::balanced_char(s0, sp, h, k_prev),
            Self::lock_step(sp, si, h, unlocking),
        ensures
            Self::balanced_char(
                s0,
                si,
                h,
                if unlocking {
                    k_prev - 1
                } else {
                    k_prev + 1
                },
            ),
    {
        let hn = h.node as int;
        assert forall|j: int|
            on_path(s0.nodes@, s0.depths@, j, hn) implies (#[trigger] s0.nodes@[j]).ref_count
                + bound <= usize::MAX by {
            lemma_subtree_deeper(s0.nodes@, s0.depths@, j, hn);
            assert(live(s0.nodes@, j));
            assert(s0.nodes@[j].ref_count <= s0.lock_count@);
        }
        assert forall|j: int|
            0 <= j < s0.nodes@.len() implies on_path(sp.nodes@, sp.depths@, j, hn) == on_path(
            s0.nodes@,
            s0.depths@,
            j,
            hn,
        ) by {
            lemma_in_subtree_congruence(s0.nodes@, sp.nodes@, s0.depths@, j, hn);
        }
    }

    /// The net effect of `i` steps of a balanced lock/unlock run: every
    /// node on the handle's path carries `k` extra references, where `k`
    /// counts the locks not yet released.
    #[verifier::spinoff_prover]
    proof fn lemma_balanced_iter(
        states: Seq<RadixCacheManager>,
        h: RadixCacheHandle,
        n: int,
        i: int,
    )
        requires
            n >= 0,
            0 <= i <= 2 * n,
            states.len() == 2 * n + 1,
            forall|t: int| 0 <= t <= 2 * n ==> (#[trigger] states[t]).wf(),
            states[0].handle_ok(h),
            forall|t: int|
                0 <= t < n ==> Self::lock_step(#[trigger] states[t], states[t + 1], h, false),
            forall|t: int|
                n <= t < 2 * n ==> Self::lock_step(#[trigger] states[t], states[t + 1], h, true),
            states[0].spec_lock_count() + n <= usize::MAX,
        ensures
            Self::balanced_char(
                states[0],
                states[i],
                h,
                if i <= n {
                    i
                } else {
                    2 * n - i
                },
            ),
        decreases i,
    {
        if i == 0 {
            let s0 = states[0];
            assert forall|j: int|
                0 <= j < s0.nodes@.len() implies #[trigger] s0.nodes@[j] == if on_path(
                s0.nodes@,
                s0.depths@,
                j,
                h.node as int,
            ) {
                with_rc(s0.nodes@[j], s0.nodes@[j].ref_count + 0)
            } else {
                s0.nodes@[j]
            } by {}
        } else {
            Self::lemma_balanced_iter(states, h, n, i - 1);
            let unlocking = i - 1 >= n;
            let k_prev = if i - 1 <= n {
                i - 1
            } else {
                2 * n - (i - 1)
            };
            Self::lemma_balanced_step(
                states[0],
                states[i - 1],
                states[i],
                h,
                n,
                k_prev,
                unlocking,
            );
        }
    }

    /// Balanced locking is idempotent on the cache: any number of locks on
    /// one handle followed by the same number of unlocks restores the arena,
    /// every pin count, and both size totals exactly.
    pub proof fn lemma_balanced_lock_unlock(
        states: Seq<RadixCacheManager>,
        h: RadixCacheHandle,
        n: int,
    )
        requires
            n >= 0,
            states.len() == 2 * n + 1,
            forall|t: int| 0 <= t <= 2 * n ==> (#[trigger] states[t]).wf(),
            states[0].handle_ok(h),
            forall|t: int|
                0 <= t < n ==> Self::lock_step(#[trigger] states[t], states[t + 1], h, false),
            forall|t: int|
                n <= t < 2 * n ==> Self::lock_step(#[trigger] states[t], states[t + 1], h, true),
            states[0].spec_lock_count() + n <= usize::MAX,
        ensures
            states[2 * n].spec_evictable() == states[0].spec_evictable(),
            states[2 * n].spec_protected() == states[0].spec_protected(),
            forall|h2: RadixCacheHandle| #[trigger] states[2 * n].locks_at(h2) == states[0].locks_at(h2),
    {
        Self::lemma_balanced_iter(states, h, n, 2 * n);
        let s0 = states[0];
        let sf = states[2 * n];
        let hn = h.node as int;
        assert forall|j: int|
            0 <= j < s0.nodes@.len() implies #[trigger] sf.nodes@[j] == s0.nodes@[j] by {
            if on_path(s0.nodes@, s0.depths@, j, hn) {
                assert(sf.nodes@[j] == with_rc(s0.nodes@[j], s0.nodes@[j].ref_count + 0));
            }
        }
        assert(sf.nodes@ =~= s0.nodes@);
    }

    /// The exact state change one `lock_handle` call makes: every non-root
    /// node on the handle's root path gains (lock) or loses (unlock) one
    /// reference, the handle's node gains or loses one own lock, and nothing
    /// else changes.
    pub closed spec fn lock_step(pre: Self, post: Self, h: RadixCacheHandle, unlock: bool) -> bool {
        let hn = h.node as int;
        let delta: int = if unlock {
            -1
        } else {
            1
        };
        &&& post.nodes@.len() == pre.nodes@.len()
        &&& (forall|j: int|
            0 <= j < pre.nodes@.len() ==> #[trigger] post.nodes@[j] == if on_path(
                pre.nodes@,
                pre.depths@,
                j,
                hn,
            ) {
                with_rc(pre.nodes@[j], pre.nodes@[j].ref_count + delta)
            } else {
                pre.nodes@[j]
            })
        &&& post.depths@ == pre.depths@
        &&& post.tick == pre.tick
        &&& post.own_locks@ == if hn == 0 {
            pre.own_locks@
        } else {
            pre.own_locks@.insert(hn, (pre.own_locks@[hn] + delta) as nat)
        }
        &&& post.lock_count@ == pre.lock_count@ + if unlock {
            0int
        } else {
            1int
        }
        &&& post.evictable_size + post.protected_size == pre.evictable_size + pre.protected_size
    }

    /// Pins (`unlock == false`) or releases (`unlock == true`) the whole
    /// root path of a handle. Locking moves newly pinned edges from the
    /// evictable to the protected total; releasing the last lock moves them
    /// back. With a valid handle and, for unlock, a lock actually held at
    /// it, the call always succeeds.
    pub fn lock_handle(&mut self, handle: &RadixCacheHandle, unlock: bool) -> (r: Result<
        (),
        CacheError,
    >)
        requires
            old(self).wf(),
            old(self).handle_ok(*handle),
            !unlock ==> old(self).spec_lock_count() < usize::MAX,
            unlock && handle.spec_node() != 0 ==> old(self).locks_at(*handle) >= 1,
        ensures
            final(self).wf(),
            r is Ok,
            Self::lock_step(*old(self), *final(self), *handle, unlock),
            final(self).spec_evictable() + final(self).spec_protected() == old(
                self,
            ).spec_evictable() + old(self).spec_protected(),
            forall|h2: RadixCacheHandle|
                old(self).handle_ok(h2) ==> #[trigger] final(self).handle_ok(h2),
            forall|h2: RadixCacheHandle|
                old(self).handle_ok(h2) && h2.spec_node() != handle.spec_node()
                    ==> #[trigger] final(self).locks_at(h2) == old(self).locks_at(h2),
            handle.spec_node() != 0 ==> final(self).locks_at(*handle) == old(self).locks_at(
                *handle,
            ) + if unlock {
                -1int
            } else {
                1int
            },
            final(self).spec_lock_count() == old(self).spec_lock_count() + if unlock {
                0int
            } else {
                1int
            },
            !unlock && old(self).spec_protected() == 0 ==> final(self).spec_protected()
                == old(self).spec_handle_weight(*handle) && final(self).spec_evictable()
                == old(self).spec_evictable() - old(self).spec_handle_weight(*handle),
            !unlock && old(self).locks_at(*handle) >= 1 ==> final(self).spec_protected()
                == old(self).spec_protected() && final(self).spec_evictable()
                == old(self).spec_evictable(),
            unlock && old(self).locks_at(*handle) >= 2 ==> final(self).spec_protected()
                == old(self).spec_protected() && final(self).spec_evictable()
                == old(self).spec_evictable(),
            forall|t: Seq<i32>|
                old(self).spec_covers(t) ==> #[trigger] final(self).spec_covers(t),
            forall|t: Seq<i32>| #[trigger] final(self).spec_covers(t) ==> old(self).spec_covers(t),
            forall|t: Seq<i32>, v: Seq<i32>|
                old(self).spec_cached_values(t, v) ==> #[trigger] final(self).spec_cached_values(
                    t,
                    v,
                ),
            forall|t: Seq<i32>, v: Seq<i32>|
                #[trigger] final(self).spec_cached_values(t, v) ==> old(self).spec_cached_values(
                    t,
                    v,
                ),
    {
        let ghost pre = *old(self);
        let ghost hn = handle.node as int;
        let ghost dep = self.depths@;
        proof {
            if hn != 0 {
                self.own_locks@ = self.own_locks@.insert(
                    hn,
                    (pre.own_locks@[hn] + if unlock {
                        -1int
                    } else {
                        1int
                    }) as nat,
                );
            }
            if !unlock {
                self.lock_count@ = (pre.lock_count@ + 1) as nat;
            }
        }

        let mut node = handle.node;
        proof {
            if node != 0 {
                assert(in_subtree(pre.nodes@, dep, hn, hn));
                if unlock {
                    assert(node_wf(pre.nodes@, hn));
                    lemma_rc_sum_nonneg(pre.nodes@, pre.nodes@[hn].children@);
                    assert(pre.nodes@[hn].ref_count >= pre.own_locks@[hn]);
                }
            }
            assert forall|j: int| on_path(pre.nodes@, dep, j, hn) implies dep[j] <= dep[hn] by {
                lemma_subtree_deeper(pre.nodes@, dep, j, hn);
            }
        }

        while node != 0
            invariant
                pre.wf(),
                pre == *old(self),
                hn == handle.node as int,
                dep == pre.depths@,
                self.depths@ == dep,
                self.tick == pre.tick,
                self.nodes@.len() == pre.nodes@.len(),
                node == 0 || (live(pre.nodes@, node as int) && in_subtree(
                    pre.nodes@,
                    dep,
                    node as int,
                    hn,
                )),
                forall|j: int|
                    0 <= j < pre.nodes@.len() ==> #[trigger] self.nodes@[j] == if on_path(
                        pre.nodes@,
                        dep,
                        j,
                        hn,
                    ) && dep[j] > dep[node as int] {
                        with_rc(
                            pre.nodes@[j],
                            pre.nodes@[j].ref_count + if unlock {
                                -1int
                            } else {
                                1int
                            },
                        )
                    } else {
                        pre.nodes@[j]
                    },
                tree_wf(self.nodes@, dep),
                self.evictable_size == esum(self.nodes@),
                self.protected_size == psum(self.nodes@),
                self.evictable_size + self.protected_size == pre.evictable_size
                    + pre.protected_size,
                self.own_locks@ == if hn == 0 {
                    pre.own_locks@
                } else {
                    pre.own_locks@.insert(
                        hn,
                        (pre.own_locks@[hn] + if unlock {
                            -1int
                        } else {
                            1int
                        }) as nat,
                    )
                },
                self.lock_count@ == pre.lock_count@ + if unlock {
                    0int
                } else {
                    1int
                },
                !unlock && pre.protected_size == 0 ==> self.protected_size == path_len(
                    pre.nodes@,
                    dep,
                    hn,
                ) - path_len(pre.nodes@, dep, node as int),
                unlock && node != 0 ==> pre.nodes@[node as int].ref_count >= 1,
                unlock ==> forall|j: int|
                    on_path(pre.nodes@, dep, j, hn) && dep[j] > dep[node as int]
                        ==> (#[trigger] pre.nodes@[j]).ref_count >= 1,
                !unlock ==> pre.lock_count@ < usize::MAX,
            decreases dep[node as int],
        {
            proof {
                assert(node_wf(pre.nodes@, node as int));
                assert(self.nodes@[node as int] == pre.nodes@[node as int]);
                if !unlock {
                    assert(pre.nodes@[node as int].ref_count <= pre.lock_count@);
                }
            }
            let ghost before = self.nodes@;
            let rc = self.nodes[node].ref_count;
            let len = self.nodes[node].key.len();
            if unlock {
                if rc == 0 {
                    return Err(CacheError::UnlockUnderflow);
                }
                self.nodes[node].ref_count = rc - 1;
                proof {
                    lemma_esum_update(before, node as int, self.nodes@[node as int]);
                }
                if rc - 1 == 0 {
                    proof {
                        lemma_esum_element(before, node as int);
                    }
                    self.protected_size = self.protected_size - len;
                    self.evictable_size = self.evictable_size + len;
                }
            } else {
                self.nodes[node].ref_count = rc + 1;
                proof {
                    lemma_esum_update(before, node as int, self.nodes@[node as int]);
                }
                if rc == 0 {
                    proof {
                        lemma_esum_element(before, node as int);
                    }
                    self.evictable_size = self.evictable_size - len;
                    self.protected_size = self.protected_size + len;
                }
            }

            let ghost cur = node as int;
            let parent = self.nodes[node].parent;
            node = parent;
            proof {
                let fin = self.nodes@;
                assert(fin[cur].parent == pre.nodes@[cur].parent);
                let p = pre.nodes@[cur].parent as int;
                assert(dep[p] == dep[cur] - 1);
                if !unlock && pre.protected_size == 0 {
                    lemma_esum_element(pre.nodes@, cur);
                    assert(p_weight(pre.nodes@[cur]) == 0);
                    assert(node_wf(pre.nodes@, cur));
                    assert(pre.nodes@[cur].ref_count == 0);
                    assert(path_len(pre.nodes@, dep, cur) == pre.nodes@[cur].key@.len()
                        + path_len(pre.nodes@, dep, p));
                }
                lemma_subtree_step_up(pre.nodes@, dep, cur, hn);
                if unlock && p != 0 {
                    // the parent holds at least as many pins as this child
                    assert(node_wf(pre.nodes@, cur));
                    let ch = pre.nodes@[p].children@;
                    let e0 = choose|e0: int|
                        0 <= e0 < ch.len() && (#[trigger] ch[e0]).0 == pre.nodes@[cur].key@[0]
                            && ch[e0].1 == cur;
                    lemma_rc_sum_element(pre.nodes@, ch, e0);
                    lemma_rc_sum_nonneg(pre.nodes@, ch);
                    assert(pre.nodes@[p].ref_count >= pre.nodes@[cur].ref_count);
                }
                // the processed set grows by exactly the current node
                assert forall|j: int| 0 <= j < pre.nodes@.len() implies #[trigger] fin[j]
                    == if on_path(pre.nodes@, dep, j, hn) && dep[j] > dep[p] {
                    with_rc(
                        pre.nodes@[j],
                        pre.nodes@[j].ref_count + if unlock {
                            -1int
                        } else {
                            1int
                        },
                    )
                } else {
                    pre.nodes@[j]
                } by {
                    if j != cur && on_path(pre.nodes@, dep, j, hn) && dep[j] == dep[cur] {
                        lemma_anc_unique_depth(pre.nodes@, dep, j, cur, hn);
                    }
                }
                if unlock {
                    assert(pre.nodes@[cur].ref_count >= 1);
                    assert forall|j: int|
                        on_path(pre.nodes@, dep, j, hn) && dep[j] > dep[p] implies (
                    #[trigger] pre.nodes@[j]).ref_count >= 1 by {
                        if dep[j] == dep[cur] {
                            lemma_anc_unique_depth(pre.nodes@, dep, j, cur, hn);
                        }
                    }
                }
                // structure is untouched, so the tree stays well-formed
                assert(tree_wf(fin, dep)) by {
                    assert forall|i: int| 0 <= i < fin.len() implies node_wf(fin, i) by {
                        assert(node_wf(before, i));
                        if fin[i].live {
                            assert(fin[i].children@ == before[i].children@);
                            if i != 0 {
                                let p2 = before[i].parent as int;
                                assert(has_child(before[p2], before[i].key@[0], i));
                                assert(fin[p2].children@ == before[p2].children@);
                            }
                        }
                    }
                    assert forall|i: int| #[trigger] live(fin, i) implies live(before, i)
                        && fin[i].parent == before[i].parent by {
                        if i != cur {
                            assert(fin[i] == before[i]);
                        }
                    }
                }
            }
        }

        proof {
            let fin = self.nodes@;
            if !unlock && pre.protected_size == 0 {
                assert(path_len(pre.nodes@, dep, 0) == 0);
            }
            // the loop processed the whole path
            assert forall|j: int| 0 <= j < pre.nodes@.len() implies #[trigger] fin[j]
                == if on_path(pre.nodes@, dep, j, hn) {
                with_rc(
                    pre.nodes@[j],
                    pre.nodes@[j].ref_count + if unlock {
                        -1int
                    } else {
                        1int
                    },
                )
            } else {
                pre.nodes@[j]
            } by {
                if on_path(pre.nodes@, dep, j, hn) {
                    lemma_subtree_deeper(pre.nodes@, dep, j, hn);
                    assert(dep[j] >= 1);
                }
            }
            // lock bookkeeping holds again at the end of the walk
            let delta: int = if unlock {
                -1int
            } else {
                1int
            };
            assert forall|j: int|
                on_path(pre.nodes@, dep, j, hn) implies pre.nodes@[j].ref_count + delta >= 0
                    && pre.nodes@[j].ref_count + delta <= usize::MAX by {
                lemma_subtree_deeper(pre.nodes@, dep, j, hn);
                assert(live(pre.nodes@, j));
                if !unlock {
                    assert(pre.nodes@[j].ref_count <= pre.lock_count@);
                } else {
                    assert(dep[j] >= 1);
                    assert(pre.nodes@[j].ref_count >= 1);
                }
            }
            assert(lock_wf(fin, self.own_locks@, self.lock_count@)) by {
                let own1 = self.own_locks@;
                assert forall|i: int|
                    #[trigger] live(fin, i) && i != 0 implies fin[i].ref_count == own1[i]
                        + rc_sum(fin, fin[i].children@) && fin[i].ref_count
                        <= self.lock_count@ by {
                    assert(live(pre.nodes@, i));
                    assert(node_wf(pre.nodes@, i));
                    let ch = pre.nodes@[i].children@;
                    assert(fin[i].children@ == ch);
                    if on_path(pre.nodes@, dep, i, hn) && i != hn {
                        lemma_rc_sum_path_update(pre.nodes@, fin, dep, i, hn, delta);
                        assert(own1[i] == pre.own_locks@[i]);
                    } else if i == hn && i != 0 {
                        lemma_rc_sum_no_path_child(pre.nodes@, fin, dep, i, hn, delta);
                        assert(on_path(pre.nodes@, dep, hn, hn)) by {
                            assert(in_subtree(pre.nodes@, dep, hn, hn));
                        }
                        assert(own1[i] == (pre.own_locks@[hn] + delta) as nat);
                    } else {
                        lemma_rc_sum_no_path_child(pre.nodes@, fin, dep, i, hn, delta);
                        assert(own1[i] == pre.own_locks@[i]);
                    }
                }
                assert forall|i: int| #[trigger] live(fin, i) && i != 0 implies
                    own1.dom().contains(i) by {
                    assert(live(pre.nodes@, i));
                }
            }
            // pinning changes no path and no stored value
            lemma_model_equal(pre, *self);
            lemma_model_equal(*self, pre);
            // a pin already held at the handle keeps every weight in place
            if (!unlock && pre.own_locks@[hn] >= 1 && hn != 0) || (unlock && pre.own_locks@[hn]
                >= 2 && hn != 0) {
                assert forall|j: int|
                    0 <= j < pre.nodes@.len() implies e_weight(#[trigger] fin[j]) == e_weight(
                    pre.nodes@[j],
                ) && p_weight(fin[j]) == p_weight(pre.nodes@[j]) by {
                    if on_path(pre.nodes@, dep, j, hn) {
                        lemma_subtree_deeper(pre.nodes@, dep, j, hn);
                        assert(node_wf(pre.nodes@, hn));
                        lemma_rc_sum_nonneg(pre.nodes@, pre.nodes@[hn].children@);
                        assert(pre.nodes@[hn].ref_count >= pre.own_locks@[hn]);
                        lemma_path_rc_monotone(
                            pre.nodes@,
                            dep,
                            pre.own_locks@,
                            pre.lock_count@,
                            j,
                            hn,
                        );
                        assert(pre.nodes@[j].ref_count >= 1);
                    }
                }
                lemma_esum_pointwise(pre.nodes@, fin);
            }
            if hn == 0 {
                assert forall|j: int|
                    0 <= j < pre.nodes@.len() implies e_weight(#[trigger] fin[j]) == e_weight(
                    pre.nodes@[j],
                ) && p_weight(fin[j]) == p_weight(pre.nodes@[j]) by {
                    if on_path(pre.nodes@, dep, j, hn) {
                        lemma_subtree_deeper(pre.nodes@, dep, j, hn);
                    }
                }
                lemma_esum_pointwise(pre.nodes@, fin);
            }
        }
        Ok(())
    }

    /// Longest-prefix lookup: walks `input_ids`, refreshes timestamps of the
    /// traversed nodes, and returns a handle for the deepest matched node
    /// together with the matched KV slot indices (one per matched token).
    /// Never fails; an unmatched input yields a zero-length handle.
    pub fn match_prefix(&mut self, input_ids: &[i32]) -> (r: Result<
        (RadixCacheHandle, Vec<i32>),
        CacheError,
    >)
        requires
            old(self).wf(),
        ensures
            final(self).wf(),
            final(self).spec_evictable() == old(self).spec_evictable(),
            final(self).spec_protected() == old(self).spec_protected(),
            final(self).spec_lock_count() == old(self).spec_lock_count(),
            forall|h: RadixCacheHandle|
                old(self).handle_ok(h) ==> #[trigger] final(self).handle_ok(h)
                    && final(self).locks_at(h) == old(self).locks_at(h),
            forall|t: Seq<i32>|
                old(self).spec_covers(t) ==> #[trigger] final(self).spec_covers(t),
            forall|t: Seq<i32>| #[trigger] final(self).spec_covers(t) ==> old(self).spec_covers(t),
            forall|t: Seq<i32>, v: Seq<i32>|
                old(self).spec_cached_values(t, v) ==> #[trigger] final(self).spec_cached_values(
                    t,
                    v,
                ),
            forall|t: Seq<i32>, v: Seq<i32>|
                #[trigger] final(self).spec_cached_values(t, v) ==> old(self).spec_cached_values(
                    t,
                    v,
                ),
            match r {
                Ok((h, v)) => {
                    &&& h.spec_cached_len() <= input_ids@.len()
                    &&& v@.len() == h.spec_cached_len()
                    &&& final(self).handle_ok(h)
                    &&& final(self).spec_handle_weight(h) == h.spec_cached_len()
                    &&& (h.spec_cached_len() > 0 ==> h.spec_node() != 0)
                    &&& final(self).spec_covers(input_ids@.take(h.spec_cached_len()))
                    &&& final(self).spec_cached_values(
                        input_ids@.take(h.spec_cached_len()),
                        v@,
                    )
                    &&& (h.spec_cached_len() < input_ids@.len() ==> !final(self).spec_covers(
                        input_ids@.take(h.spec_cached_len() + 1),
                    ))
                    &&& (old(self).spec_covers(input_ids@) ==> h.spec_cached_len()
                        == input_ids@.len())
                },
                Err(_) => false,
            },
    {
        let tick = self.now_tick();
        let (node, prefix_len) = self.walk(input_ids, tick);
        proof {
            if covers(old(self).nodes@, old(self).depths@, input_ids@) && prefix_len
                < input_ids@.len() {
                assert(covers(self.nodes@, self.depths@, input_ids@));
                lemma_uncovered_at_frontier(
                    self.nodes@,
                    self.depths@,
                    node as int,
                    input_ids@,
                    prefix_len as int,
                );
                assert(false);
            }
            // the matched length is exactly the longest cached prefix
            assert(covers(self.nodes@, self.depths@, input_ids@.take(prefix_len as int))) by {
                let pt = path_tokens(self.nodes@, self.depths@, node as int);
                assert(input_ids@.take(prefix_len as int) =~= pt.take(
                    input_ids@.take(prefix_len as int).len() as int,
                ));
            }
            if prefix_len < input_ids@.len() {
                let t1 = input_ids@.take(prefix_len + 1);
                assert(path_tokens(self.nodes@, self.depths@, node as int) =~= t1.take(
                    prefix_len as int,
                ));
                assert(t1[prefix_len as int] == input_ids@[prefix_len as int]);
                lemma_uncovered_at_frontier(
                    self.nodes@,
                    self.depths@,
                    node as int,
                    t1,
                    prefix_len as int,
                );
            }
        }
        if prefix_len == 0 {
            proof {
                lemma_path_values_len(self.nodes@, self.depths@, node as int);
                assert(input_ids@.take(0) =~= path_tokens(
                    self.nodes@,
                    self.depths@,
                    node as int,
                ).take(0));
                assert(Seq::<i32>::empty() =~= path_values(
                    self.nodes@,
                    self.depths@,
                    node as int,
                ).take(0));
            }
            return Ok((RadixCacheHandle::new(0, node), Vec::new()));
        }

        let mut path: Vec<usize> = Vec::new();
        let mut cur = node;
        let ghost fin = self.nodes@;
        let ghost dep = self.depths@;
        while cur != 0
            invariant
                self.wf(),
                self.nodes@ == fin,
                self.depths@ == dep,
                live(fin, cur as int),
                vals_len(fin, path@) + path_len(fin, dep, cur as int) == prefix_len,
                path_values(fin, dep, node as int) == path_values(fin, dep, cur as int)
                    + rev_vals(fin, path@),
                forall|t: int| 0 <= t < path@.len() ==> live(fin, (#[trigger] path@[t]) as int),
            decreases dep[cur as int],
        {
            proof {
                assert(node_wf(fin, cur as int));
                lemma_vals_len_push(fin, path@, cur);
            }
            let ghost path_before = path@;
            let ghost cur_before = cur as int;
            path.push(cur);
            cur = self.nodes[cur].parent;
            proof {
                assert(path@.drop_last() =~= path_before);
                assert(path@.last() == cur_before as usize);
                assert(rev_vals(fin, path@) == node_vals(fin, cur_before) + rev_vals(
                    fin,
                    path_before,
                ));
                assert(path_values(fin, dep, cur_before) == path_values(fin, dep, cur as int)
                    + fin[cur_before].value@);
                assert((path_values(fin, dep, cur as int) + fin[cur_before].value@) + rev_vals(
                    fin,
                    path_before,
                ) =~= path_values(fin, dep, cur as int) + (node_vals(fin, cur_before)
                    + rev_vals(fin, path_before)));
            }
        }
        proof {
            assert(path_len(fin, dep, 0) == 0);
            assert(path_values(fin, dep, 0) =~= Seq::<i32>::empty());
            assert(Seq::<i32>::empty() + rev_vals(fin, path@) =~= rev_vals(fin, path@));
        }

        let mut out: Vec<i32> = Vec::new();
        let mut k = path.len();
        proof {
            assert(path@.skip(k as int) =~= Seq::<usize>::empty());
        }
        while k > 0
            invariant
                self.nodes@ == fin,
                k <= path@.len(),
                forall|t: int| 0 <= t < path@.len() ==> live(fin, (#[trigger] path@[t]) as int),
                out@.len() == vals_len(fin, path@.skip(k as int)),
                out@ == rev_vals(fin, path@.skip(k as int)),
            decreases k,
        {
            k = k - 1;
            let p = path[k];
            let vlen = self.nodes[p].value.len();
            let ghost out_before = out@.len();
            let ghost out_snapshot = out@;
            let mut j: usize = 0;
            #[verifier::loop_isolation(false)]
            while j < vlen
                invariant
                    j <= vlen,
                    out@.len() == out_before + j,
                    out@ == out_snapshot + fin[p as int].value@.take(j as int),
                decreases vlen - j,
            {
                out.push(self.nodes[p].value[j]);
                j = j + 1;
                proof {
                    assert(out@ =~= out_snapshot + fin[p as int].value@.take(j as int));
                }
            }
            proof {
                assert(path@.skip(k as int).drop_first() =~= path@.skip(k + 1 as int));
                assert(path@.skip(k as int)[0] == path@[k as int]);
                lemma_rev_vals_skip(fin, path@, k as int);
                assert(fin[p as int].value@.take(vlen as int) =~= fin[p as int].value@);
                assert(out@ =~= rev_vals(fin, path@.skip(k as int)));
            }
        }
        proof {
            assert(path@.skip(0) =~= path@);
            // the collected indices are the stored values of the matched path
            assert(out@ == path_values(fin, dep, node as int));
            lemma_path_values_len(fin, dep, node as int);
            assert(input_ids@.take(prefix_len as int) =~= path_tokens(fin, dep, node as int).take(
                input_ids@.take(prefix_len as int).len() as int,
            ));
            assert(out@ =~= path_values(fin, dep, node as int).take(prefix_len as int));
        }

        Ok((RadixCacheHandle::new(prefix_len, node), out))
    }

    /// Refreshes one node's timestamp; nothing else changes.
    fn touch(&mut self, c: usize, tick: u128)
        requires
            old(self).wf(),
            live(old(self).nodes@, c as int),
        ensures
            final(self).wf(),
            final(self).nodes@.len() == old(self).nodes@.len(),
            forall|j: int|
                0 <= j < old(self).nodes@.len() && j != c ==> final(self).nodes@[j]
                    == old(self).nodes@[j],
            final(self).nodes@[c as int].live == old(self).nodes@[c as int].live,
            final(self).nodes@[c as int].key == old(self).nodes@[c as int].key,
            final(self).nodes@[c as int].value == old(self).nodes@[c as int].value,
            final(self).nodes@[c as int].children == old(self).nodes@[c as int].children,
            final(self).nodes@[c as int].parent == old(self).nodes@[c as int].parent,
            final(self).nodes@[c as int].ref_count == old(self).nodes@[c as int].ref_count,
            final(self).evictable_size == old(self).evictable_size,
            final(self).protected_size == old(self).protected_size,
            final(self).tick == old(self).tick,
            final(self).depths == old(self).depths,
            final(self).own_locks == old(self).own_locks,
            final(self).lock_count == old(self).lock_count,
    {
        let ghost base = self.nodes@;
        self.nodes[c].timestamp = tick;
        proof {
            let fin = self.nodes@;
            let ci = c as int;
            assert(fin =~= base.update(ci, fin[ci]));
            assert forall|i: int| 0 <= i < fin.len() implies node_wf(fin, i) by {
                assert(node_wf(base, i));
                if fin[i].live {
                    assert(fin[i].children@ == base[i].children@);
                    if i != 0 {
                        let p2 = base[i].parent as int;
                        assert(has_child(base[p2], base[i].key@[0], i));
                        assert(fin[p2].children@ == base[p2].children@);
                    }
                }
            }
            assert forall|i: int| #[trigger] live(fin, i) implies live(base, i) && fin[i].parent
                == base[i].parent by {
                if i != ci {
                    assert(fin[i] == base[i]);
                }
            }
            assert(tree_wf(fin, self.depths@));
            assert forall|i: int| #[trigger] live(fin, i) && i != 0 implies fin[i].ref_count
                == self.own_locks@[i] + rc_sum(fin, fin[i].children@) && fin[i].ref_count
                <= self.lock_count@ by {
                assert(live(base, i));
                assert(fin[i].children@ == base[i].children@);
                assert forall|e2: int|
                    0 <= e2 < base[i].children@.len() implies rc_at(
                    base,
                    #[trigger] base[i].children@[e2],
                ) == rc_at(fin, fin[i].children@[e2]) by {
                    assert(node_wf(base, i));
                }
                lemma_rc_sum_congruence(base, base[i].children@, fin, fin[i].children@);
            }
            lemma_esum_update(base, ci, fin[ci]);
            assert(e_weight(fin[ci]) == e_weight(base[ci]));
            assert(p_weight(fin[ci]) == p_weight(base[ci]));
        }
    }

    /// Walks from the root consuming `input_ids`, refreshing timestamps of
    /// fully traversed edges and splitting a partially matched edge. Returns
    /// the deepest node reached and how many input tokens its path covers;
    /// when input remains, the returned node has no edge for the next token.
    fn walk(&mut self, input_ids: &[i32], tick: u128) -> (r: (usize, usize))
        requires
            old(self).wf(),
        ensures
            final(self).wf(),
            r.1 <= input_ids@.len(),
            live(final(self).nodes@, r.0 as int),
            path_len(final(self).nodes@, final(self).depths@, r.0 as int) == r.1,
            path_tokens(final(self).nodes@, final(self).depths@, r.0 as int) == input_ids@.take(
                r.1 as int,
            ),
            r.1 < input_ids@.len() ==> !has_edge(
                final(self).nodes@[r.0 as int],
                input_ids@[r.1 as int],
            ),
            final(self).nodes@.len() >= old(self).nodes@.len(),
            forall|j: int|
                live(old(self).nodes@, j) ==> live(final(self).nodes@, j)
                    && final(self).nodes@[j].ref_count == old(self).nodes@[j].ref_count,
            final(self).evictable_size == old(self).evictable_size,
            final(self).protected_size == old(self).protected_size,
            final(self).lock_count == old(self).lock_count,
            forall|j: int|
                live(old(self).nodes@, j) ==> final(self).own_locks@[j]
                    == old(self).own_locks@[j],
            forall|t: Seq<i32>|
                covers(old(self).nodes@, old(self).depths@, t) ==> #[trigger] covers(
                    final(self).nodes@,
                    final(self).depths@,
                    t,
                ),
            forall|t: Seq<i32>|
                #[trigger] covers(final(self).nodes@, final(self).depths@, t) ==> covers(
                    old(self).nodes@,
                    old(self).depths@,
                    t,
                ),
            forall|t: Seq<i32>, v: Seq<i32>|
                old(self).spec_cached_values(t, v) ==> #[trigger] final(self).spec_cached_values(
                    t,
                    v,
                ),
            forall|t: Seq<i32>, v: Seq<i32>|
                #[trigger] final(self).spec_cached_values(t, v) ==> old(self).spec_cached_values(
                    t,
                    v,
                ),
    {
        let n = input_ids.len();
        let mut node: usize = 0;
        let mut prefix_len: usize = 0;
        proof {
            assert(path_tokens(self.nodes@, self.depths@, 0) =~= input_ids@.take(0));
        }

        while prefix_len < n
            invariant
                self.wf(),
                n == input_ids@.len(),
                prefix_len <= n,
                live(self.nodes@, node as int),
                path_len(self.nodes@, self.depths@, node as int) == prefix_len,
                path_tokens(self.nodes@, self.depths@, node as int) == input_ids@.take(
                    prefix_len as int,
                ),
                self.nodes@.len() >= old(self).nodes@.len(),
                forall|j: int|
                    live(old(self).nodes@, j) ==> live(self.nodes@, j)
                        && self.nodes@[j].ref_count == old(self).nodes@[j].ref_count,
                self.evictable_size == old(self).evictable_size,
                self.protected_size == old(self).protected_size,
                self.lock_count == old(self).lock_count,
                forall|j: int|
                    live(old(self).nodes@, j) ==> self.own_locks@[j]
                        == old(self).own_locks@[j],
                forall|t: Seq<i32>|
                    covers(old(self).nodes@, old(self).depths@, t) ==> #[trigger] covers(
                        self.nodes@,
                        self.depths@,
                        t,
                    ),
                forall|t: Seq<i32>|
                    #[trigger] covers(self.nodes@, self.depths@, t) ==> covers(
                        old(self).nodes@,
                        old(self).depths@,
                        t,
                    ),
                forall|t: Seq<i32>, v: Seq<i32>|
                    old(self).spec_cached_values(t, v) ==> #[trigger] self.spec_cached_values(
                        t,
                        v,
                    ),
                forall|t: Seq<i32>, v: Seq<i32>|
                    #[trigger] self.spec_cached_values(t, v) ==> old(self).spec_cached_values(
                        t,
                        v,
                    ),
            decreases n - prefix_len,
        {
            let id = input_ids[prefix_len];
            let c = match self.find_child(node, id) {
                Some(c) => c,
                None => {
                    return (node, prefix_len);
                },
            };
            proof {
                assert(node_wf(self.nodes@, node as int));
            }
            let child_klen = self.nodes[c].key.len();
            let mut m: usize = 0;
            #[verifier::loop_isolation(false)]
            while m < child_klen && prefix_len + m < n && self.nodes[c].key[m] == input_ids[prefix_len + m]
                invariant
                    m <= child_klen,
                    prefix_len + m <= n,
                    forall|k: int|
                        0 <= k < m ==> self.nodes@[c as int].key@[k] == input_ids@[prefix_len
                            + k],
                decreases child_klen - m,
            {
                m = m + 1;
            }
            proof {
                assert(node_wf(self.nodes@, c as int));
                assert(m >= 1) by {
                    assert(self.nodes@[c as int].key@[0] == id);
                    assert(self.nodes@[c as int].key@.len() >= 1);
                }
            }
            let ghost mid = *self;
            if m != child_klen {
                let s = self.split_node(c, m);
                proof {
                    assert(path_len(mid.nodes@, mid.depths@, c as int) == mid.nodes@[
                        c as int].key@.len() + path_len(mid.nodes@, mid.depths@, node as int))
                        by {
                        assert(mid.nodes@[c as int].parent == node);
                    }
                    assert(path_len(self.nodes@, self.depths@, s as int) == prefix_len + m);
                    assert(path_tokens(self.nodes@, self.depths@, s as int) == input_ids@.take(
                        prefix_len + m,
                    )) by {
                        assert(path_tokens(self.nodes@, self.depths@, s as int) == path_tokens(
                            mid.nodes@,
                            mid.depths@,
                            node as int,
                        ) + mid.nodes@[c as int].key@.take(m as int));
                        assert(path_tokens(self.nodes@, self.depths@, s as int) =~= input_ids@.take(
                            prefix_len + m,
                        ));
                    }
                    assert forall|j: int| live(old(self).nodes@, j) implies live(self.nodes@, j)
                        && self.nodes@[j].ref_count == old(self).nodes@[j].ref_count by {
                        assert(live(mid.nodes@, j));
                    }
                    assert forall|j: int| live(old(self).nodes@, j) implies
                        self.own_locks@[j] == old(self).own_locks@[j] by {
                        assert(live(mid.nodes@, j));
                    }
                    assert forall|t: Seq<i32>|
                        covers(old(self).nodes@, old(self).depths@, t) implies #[trigger] covers(
                            self.nodes@,
                            self.depths@,
                            t,
                        ) by {
                        assert(covers(mid.nodes@, mid.depths@, t));
                    }
                    assert forall|t: Seq<i32>|
                        #[trigger] covers(self.nodes@, self.depths@, t) implies covers(
                            old(self).nodes@,
                            old(self).depths@,
                            t,
                        ) by {
                        assert(covers(mid.nodes@, mid.depths@, t));
                    }
                    assert forall|t: Seq<i32>, v: Seq<i32>|
                        old(self).spec_cached_values(t, v) implies #[trigger] self.spec_cached_values(t, v) by {
                        assert(mid.spec_cached_values(t, v));
                    }
                    assert forall|t: Seq<i32>, v: Seq<i32>|
                        #[trigger] self.spec_cached_values(t, v) implies old(self).spec_cached_values(t, v) by {
                        assert(mid.spec_cached_values(t, v));
                    }
                    // the split node's only edge is the mismatched tail token
                    if prefix_len + m < n {
                        assert(!has_edge(self.nodes@[s as int], input_ids@[prefix_len + m]))
                            by {
                            assert(self.nodes@[s as int].children@[0].0 == mid.nodes@[
                                c as int].key@[m as int]);
                            assert(mid.nodes@[c as int].key@[m as int] != input_ids@[prefix_len
                                + m]);
                        }
                    }
                }
                return (s, prefix_len + m);
            }
            self.touch(c, tick);
            proof {
                assert(path_len(self.nodes@, self.depths@, c as int) == prefix_len + m) by {
                    lemma_path_len_congruence(
                        mid.nodes@,
                        mid.depths@,
                        self.nodes@,
                        self.depths@,
                        c as int,
                    );
                    assert(path_len(mid.nodes@, mid.depths@, c as int) == mid.nodes@[
                        c as int].key@.len() + path_len(mid.nodes@, mid.depths@, node as int))
                        by {
                        assert(mid.nodes@[c as int].parent == node);
                    }
                }
                assert forall|k: int|
                    #[trigger] live(mid.nodes@, k) implies live(self.nodes@, k)
                        && self.nodes@[k].key@ == mid.nodes@[k].key@ && self.nodes@[k].value@
                        == mid.nodes@[k].value@ && self.nodes@[k].parent
                        == mid.nodes@[k].parent by {
                    if k != c {
                        assert(self.nodes@[k] == mid.nodes@[k]);
                    }
                }
                lemma_model_equal(mid, *self);
                lemma_model_equal(*self, mid);
                assert forall|t: Seq<i32>|
                    covers(old(self).nodes@, old(self).depths@, t) implies #[trigger] covers(
                        self.nodes@,
                        self.depths@,
                        t,
                    ) by {
                    assert(covers(mid.nodes@, mid.depths@, t));
                }
                assert forall|t: Seq<i32>, v: Seq<i32>|
                    old(self).spec_cached_values(t, v) implies #[trigger] self.spec_cached_values(t, v) by {
                    assert(mid.spec_cached_values(t, v));
                }
                assert(path_tokens(self.nodes@, self.depths@, c as int) == input_ids@.take(
                    prefix_len + m,
                )) by {
                    lemma_path_tokens_congruence(
                        mid.nodes@,
                        mid.depths@,
                        self.nodes@,
                        self.depths@,
                        c as int,
                    );
                    assert(path_tokens(mid.nodes@, mid.depths@, c as int) == path_tokens(
                        mid.nodes@,
                        mid.depths@,
                        node as int,
                    ) + mid.nodes@[c as int].key@) by {
                        assert(mid.nodes@[c as int].parent == node);
                    }
                    assert(path_tokens(mid.nodes@, mid.depths@, c as int) =~= input_ids@.take(
                        prefix_len + m,
                    ));
                }
            }
            node = c;
            prefix_len = prefix_len + m;
        }
        (node, prefix_len)
    }

    /// Recomputes both size sums and re-validates every structural condition
    /// of the tree; a well-formed cache always passes.
    pub fn check_integrity(&self) -> (r: Result<(), CacheError>)
        requires
            self.wf(),
        ensures
            r is Ok,
    {
        let n = self.nodes.len();
        proof {
            assert(node_wf(self.nodes@, 0));
        }
        if self.nodes[0].ref_count != 1 {
            return Err(CacheError::CorruptedTree { reason: "root ref_count must stay at 1" });
        }
        if self.nodes[0].key.len() != 0 || self.nodes[0].value.len() != 0 {
            return Err(CacheError::CorruptedTree { reason: "root key/value must be empty" });
        }

        let mut evictable_sum: usize = 0;
        let mut protected_sum: usize = 0;
        for i in 0..n
            invariant
                self.wf(),
                n == self.nodes@.len(),
                evictable_sum == esum(self.nodes@.take(i as int)),
                protected_sum == psum(self.nodes@.take(i as int)),
        {
            proof {
                lemma_esum_take_succ(self.nodes@, i as int);
                lemma_esum_take_mono(self.nodes@, i + 1 as int, n as int);
                assert(self.nodes@.take(n as int) =~= self.nodes@);
                lemma_esum_nonneg(self.nodes@.take(i as int));
            }
            proof {
                assert(node_wf(self.nodes@, i as int));
            }
            let node = &self.nodes[i];
            if node.live {
                if i != 0 {
                    if node.key.len() == 0 || node.key.len() != node.value.len() {
                        return Err(
                            CacheError::CorruptedTree { reason: "node key/value shape mismatch" },
                        );
                    }
                    let parent = node.parent;
                    if parent >= n || !self.nodes[parent].live {
                        return Err(CacheError::CorruptedTree { reason: "missing parent pointer" });
                    }
                    if !self.contains_child(parent, node.key[0], i) {
                        return Err(
                            CacheError::CorruptedTree { reason: "child edge key mismatch" },
                        );
                    }
                    if node.ref_count == 0 {
                        evictable_sum = evictable_sum + node.key.len();
                    } else {
                        protected_sum = protected_sum + node.key.len();
                    }
                }
                let ch_len = self.nodes[i].children.len();
                for e in 0..ch_len
                    invariant
                        self.wf(),
                        n == self.nodes@.len(),
                        i < n,
                        live(self.nodes@, i as int),
                        ch_len == self.nodes@[i as int].children@.len(),
                {
                    let entry = self.nodes[i].children[e];
                    proof {
                        assert(node_wf(self.nodes@, i as int));
                        assert(self.nodes@[i as int].children@[e as int] == entry);
                    }
                    let c = entry.1;
                    if c >= n || c == 0 || !self.nodes[c].live {
                        return Err(
                            CacheError::CorruptedTree { reason: "child parent pointer missing" },
                        );
                    }
                    if self.nodes[c].parent != i {
                        return Err(
                            CacheError::CorruptedTree { reason: "child parent pointer mismatch" },
                        );
                    }
                    if self.nodes[c].key.len() == 0 || self.nodes[c].key[0] != entry.0 {
                        return Err(
                            CacheError::CorruptedTree { reason: "child edge key mismatch" },
                        );
                    }
                }
            }
        }
        proof {
            assert(self.nodes@.take(n as int) =~= self.nodes@);
        }

        if evictable_sum != self.evictable_size || protected_sum != self.protected_size {
            return Err(CacheError::CorruptedTree { reason: "size accounting mismatch" });
        }
        Ok(())
    }

    /// The running counters.
    pub fn size_info(&self) -> (s: SizeInfo)
        ensures
            s.evictable_size == self.spec_evictable(),
            s.protected_size == self.spec_protected(),
            self.wf() ==> s.evictable_size + s.protected_size <= usize::MAX,
    {
        SizeInfo { evictable_size: self.evictable_size, protected_size: self.protected_size }
    }
}

} // verus!
