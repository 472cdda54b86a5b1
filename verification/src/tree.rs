//! The committed React tree of one window root: a dense vector of node
//! records, indexed by host id, with parent and sibling links. Each sibling
//! list (a parent's children, or the roots) is modelled as a sequence of ids;
//! the links are proved to spell exactly those sequences, and placements are
//! proved never to create a cycle.
use vstd::prelude::*;
use crate::registry::{kinds_below, Capabilities, Op, Registry};
use crate::plan::{above_in, place_step, refusal, up_to, Rehearsal, Sketch};
use crate::text::{decimal, decimal_string};

verus! {

/// The parent of a root node.
pub const ROOT: u32 = 0xFFFF_FFFF;

/// The parent of a node that is in no list.
pub const DETACHED: u32 = 0xFFFF_FFFE;

/// The absent sibling or child.
pub const NONE: u32 = 0xFFFF_FFFF;

/// The kind of a free record.
pub const EMPTY_KIND: u16 = 0xFFFF;

/// How far past the end of the node vector a new id may reach.
pub const MAX_SKIP: usize = 65536;

/// One React host node: links, the current event subscription, the row of
/// its data in its kind's table, and a generation that changes each time the
/// record is reused.
#[derive(Clone, Copy, Debug)]
pub struct Node {
    pub parent: u32,
    pub first_child: u32,
    pub last_child: u32,
    pub next_sibling: u32,
    pub prev_sibling: u32,
    pub child_count: u32,
    /// Current `onEvent` subscription, zero when nobody listens.
    pub subscription: u32,
    /// Row in the kind's table.
    pub slot: u32,
    /// Registry index; `EMPTY_KIND` marks a free record.
    pub kind: u16,
    pub hidden: bool,
    /// Set while the node's child list awaits delivery to its view.
    pub dirty: bool,
    pub generation: u16,
}

/// A free record of the given generation.
pub open spec fn empty_node(generation: u16) -> Node {
    Node {
        parent: DETACHED,
        first_child: NONE,
        last_child: NONE,
        next_sibling: NONE,
        prev_sibling: NONE,
        child_count: 0,
        subscription: 0,
        slot: 0,
        kind: EMPTY_KIND,
        hidden: false,
        dirty: false,
        generation,
    }
}

impl Node {
    /// The record holds no node.
    pub open spec fn free(self) -> bool {
        self.kind == EMPTY_KIND
    }

    /// A free record of the given generation.
    pub fn empty(generation: u16) -> (n: Node)
        ensures
            n == empty_node(generation),
    {
        Node {
            parent: DETACHED,
            first_child: NONE,
            last_child: NONE,
            next_sibling: NONE,
            prev_sibling: NONE,
            child_count: 0,
            subscription: 0,
            slot: 0,
            kind: EMPTY_KIND,
            hidden: false,
            dirty: false,
            generation,
        }
    }
}

/// `id` names a node in use.
pub open spec fn live(nodes: Seq<Node>, id: u32) -> bool {
    (id as int) < nodes.len() && !nodes[id as int].free()
}

/// The `i`th entry of the sibling list `l` owned by `owner` is a node in use
/// whose parent and sibling links agree with its place in `l`.
pub open spec fn member(nodes: Seq<Node>, owner: u32, l: Seq<u32>, i: int) -> bool {
    let x = l[i];
    &&& live(nodes, x)
    &&& nodes[x as int].parent == owner
    &&& nodes[x as int].prev_sibling == (if i == 0 {
        NONE
    } else {
        l[i - 1]
    })
    &&& nodes[x as int].next_sibling == (if i + 1 == l.len() {
        NONE
    } else {
        l[i + 1]
    })
}

/// The head, tail and count of a list, and the links of its entries, spell
/// exactly the sequence `l`.
pub open spec fn chained(
    nodes: Seq<Node>,
    owner: u32,
    l: Seq<u32>,
    first: u32,
    last: u32,
    count: u32,
) -> bool {
    &&& count == l.len()
    &&& first == (if l.len() == 0 {
        NONE
    } else {
        l[0]
    })
    &&& last == (if l.len() == 0 {
        NONE
    } else {
        l[l.len() - 1]
    })
    &&& l.no_duplicates()
    &&& forall|i: int| 0 <= i < l.len() ==> #[trigger] member(nodes, owner, l, i)
}

/// The number of records in use.
pub open spec fn count_live(nodes: Seq<Node>) -> nat
    decreases nodes.len(),
{
    if nodes.len() == 0 {
        0
    } else {
        count_live(nodes.drop_last()) + if nodes.last().free() {
            0nat
        } else {
            1nat
        }
    }
}

proof fn lemma_count_live_bound(nodes: Seq<Node>)
    ensures
        count_live(nodes) <= nodes.len(),
    decreases nodes.len(),
{
    if nodes.len() > 0 {
        lemma_count_live_bound(nodes.drop_last());
    }
}

proof fn lemma_count_live_update(nodes: Seq<Node>, i: int, node: Node)
    requires
        0 <= i < nodes.len(),
    ensures
        count_live(nodes.update(i, node)) + (if nodes[i].free() {
            0int
        } else {
            1int
        }) == count_live(nodes) + (if node.free() {
            0int
        } else {
            1int
        }),
    decreases nodes.len(),
{
    let u = nodes.update(i, node);
    if i == nodes.len() - 1 {
        assert(u.drop_last() =~= nodes.drop_last());
    } else {
        assert(u.drop_last() =~= nodes.drop_last().update(i, node));
        lemma_count_live_update(nodes.drop_last(), i, node);
    }
}

proof fn lemma_count_live_frame(a: Seq<Node>, b: Seq<Node>)
    requires
        a.len() == b.len(),
        forall|i: int| 0 <= i < a.len() ==> (#[trigger] a[i]).free() == b[i].free(),
    ensures
        count_live(a) == count_live(b),
    decreases a.len(),
{
    if a.len() > 0 {
        lemma_count_live_frame(a.drop_last(), b.drop_last());
    }
}

proof fn lemma_count_live_none(a: Seq<Node>)
    requires
        forall|i: int| 0 <= i < a.len() ==> (#[trigger] a[i]).free(),
    ensures
        count_live(a) == 0,
    decreases a.len(),
{
    if a.len() > 0 {
        lemma_count_live_none(a.drop_last());
    }
}

proof fn lemma_count_live_push_free(nodes: Seq<Node>, node: Node)
    requires
        node.free(),
    ensures
        count_live(nodes.push(node)) == count_live(nodes),
{
    assert(nodes.push(node).drop_last() =~= nodes);
}

proof fn lemma_distinct_bound(s: Seq<u32>, n: int)
    requires
        s.no_duplicates(),
        0 <= n <= 0x1_0000_0000,
        forall|i: int| 0 <= i < s.len() ==> (#[trigger] s[i] as int) < n,
    ensures
        s.len() <= n,
    decreases n,
{
    if s.len() > 0 {
        assert((s[0] as int) < n);
        let top = (n - 1) as u32;
        if s.contains(top) {
            let k = choose|k: int| 0 <= k < s.len() && s[k] == top;
            let t = s.remove(k);
            assert(t.len() == s.len() - 1);
            assert forall|i: int| 0 <= i < t.len() implies (#[trigger] t[i] as int) < n - 1 by {
                if i < k {
                    assert(t[i] == s[i]);
                } else {
                    assert(t[i] == s[i + 1]);
                }
            }
            assert forall|i: int, j: int| 0 <= i < t.len() && 0 <= j < t.len() && i != j implies t[i]
                != t[j] by {
                let a = if i < k { i } else { i + 1 };
                let b = if j < k { j } else { j + 1 };
                assert(t[i] == s[a]);
                assert(t[j] == s[b]);
            }
            lemma_distinct_bound(t, n - 1);
            assert(s.len() <= n);
        } else {
            assert forall|i: int| 0 <= i < s.len() implies (#[trigger] s[i] as int) < n - 1 by {
                assert(s[i] != top);
            }
            lemma_distinct_bound(s, n - 1);
            assert(s.len() <= n);
        }
    }
}

/// Keeps the nodes that are not hidden.
pub open spec fn shown(nodes: Seq<Node>) -> spec_fn(u32) -> bool {
    |x: u32| !nodes[x as int].hidden
}

/// `v` holds the children of `l` that are not hidden, in their order: each
/// entry of `v` is an entry of `l` that is not hidden, each entry of `l` that
/// is not hidden is in `v`, and `v` is no longer than `l`.
pub open spec fn visible_of(v: Seq<u32>, l: Seq<u32>, nodes: Seq<Node>) -> bool {
    &&& v.len() <= l.len()
    &&& forall|j: int| 0 <= j < v.len() ==> !nodes[#[trigger] v[j] as int].hidden && l.contains(v[j])
    &&& forall|c: u32| #[trigger] l.contains(c) && !nodes[c as int].hidden ==> v.contains(c)
}

/// Leaving out the hidden children keeps exactly the visible ones.
pub proof fn lemma_visible(l: Seq<u32>, nodes: Seq<Node>)
    ensures
        visible_of(l.filter(shown(nodes)), l, nodes),
{
    let v = l.filter(shown(nodes));
    l.lemma_filter_len(shown(nodes));
    assert forall|j: int| 0 <= j < v.len() implies !nodes[#[trigger] v[j] as int].hidden && l.contains(v[j]) by {
        l.lemma_filter_pred(shown(nodes), j);
        l.lemma_filter_contains_rev(shown(nodes), v[j]);
        assert(v.contains(v[j]));
    }
    assert forall|c: u32| #[trigger] l.contains(c) && !nodes[c as int].hidden implies v.contains(c) by {
        let k = choose|k: int| 0 <= k < l.len() && l[k] == c;
        l.lemma_filter_contains(shown(nodes), k);
    }
}

/// The same node apart from its links and its pending-delivery mark.
pub open spec fn kept(a: Node, b: Node) -> bool {
    &&& a.subscription == b.subscription
    &&& a.slot == b.slot
    &&& a.kind == b.kind
    &&& a.hidden == b.hidden
    &&& a.generation == b.generation
}

/// The same links, apart from the pending-delivery mark.
pub open spec fn same_links(a: Node, b: Node) -> bool {
    &&& a.parent == b.parent
    &&& a.first_child == b.first_child
    &&& a.last_child == b.last_child
    &&& a.next_sibling == b.next_sibling
    &&& a.prev_sibling == b.prev_sibling
    &&& a.child_count == b.child_count
}

/// `l` without the entry `x`, if it holds one.
pub open spec fn without(l: Seq<u32>, x: u32) -> Seq<u32> {
    if l.contains(x) {
        l.remove(l.index_of(x))
    } else {
        l
    }
}

proof fn lemma_remove_facts(l: Seq<u32>, k: int)
    requires
        l.no_duplicates(),
        0 <= k < l.len(),
    ensures
        l.remove(k).len() == l.len() - 1,
        l.remove(k).no_duplicates(),
        forall|i: int| 0 <= i < k ==> #[trigger] l.remove(k)[i] == l[i],
        forall|i: int| k <= i < l.len() - 1 ==> #[trigger] l.remove(k)[i] == l[i + 1],
        forall|x: u32| #[trigger] l.remove(k).contains(x) <==> (l.contains(x) && x != l[k]),
        l.index_of(l[k]) == k,
        without(l, l[k]) == l.remove(k),
{
    let t = l.remove(k);
    assert forall|i: int, j: int| 0 <= i < t.len() && 0 <= j < t.len() && i != j implies t[i]
        != t[j] by {
        let a = if i < k { i } else { i + 1 };
        let b = if j < k { j } else { j + 1 };
        assert(t[i] == l[a]);
        assert(t[j] == l[b]);
    }
    assert forall|x: u32| #[trigger] t.contains(x) <==> (l.contains(x) && x != l[k]) by {
        if t.contains(x) {
            let i = choose|i: int| 0 <= i < t.len() && t[i] == x;
            let a = if i < k { i } else { i + 1 };
            assert(l[a] == x);
        }
        if l.contains(x) && x != l[k] {
            let a = choose|a: int| 0 <= a < l.len() && l[a] == x;
            if a < k {
                assert(t[a] == x);
            } else {
                assert(t[a - 1] == x);
            }
        }
    }
    assert(l.contains(l[k]));
    let j = l.index_of(l[k]);
    assert(l[j] == l[k]);
}

/// The head, tail and count of the list owned by `p`: the root fields for
/// `ROOT`, the node's own fields otherwise.
pub open spec fn head_of(nodes: Seq<Node>, root: (u32, u32, u32), p: u32) -> (u32, u32, u32) {
    if p == ROOT {
        root
    } else {
        let n = nodes[p as int];
        (n.first_child, n.last_child, n.child_count)
    }
}

/// The list owned by `p` is spelled by its links.
pub open spec fn list_fine(
    nodes: Seq<Node>,
    lists: spec_fn(u32) -> Seq<u32>,
    root: (u32, u32, u32),
    p: u32,
) -> bool {
    let h = head_of(nodes, root, p);
    chained(nodes, p, lists(p), h.0, h.1, h.2)
}

/// `x` is detached, or listed in its parent's list.
pub open spec fn placed_in(nodes: Seq<Node>, lists: spec_fn(u32) -> Seq<u32>, x: u32) -> bool {
    let n = nodes[x as int];
    ||| (n.parent == DETACHED && n.prev_sibling == NONE && n.next_sibling == NONE)
    ||| ((n.parent == ROOT || live(nodes, n.parent)) && lists(n.parent).contains(x))
}

/// The links of the records spell the lists, every node in use is detached
/// or listed under its parent, and ranks strictly increase towards the roots.
pub open spec fn shaped(
    nodes: Seq<Node>,
    lists: spec_fn(u32) -> Seq<u32>,
    root: (u32, u32, u32),
    rank: spec_fn(u32) -> nat,
    top: nat,
) -> bool {
    &&& list_fine(nodes, lists, root, ROOT)
    &&& forall|p: u32| #[trigger] live(nodes, p) ==> list_fine(nodes, lists, root, p)
    &&& forall|x: u32| #[trigger] live(nodes, x) ==> placed_in(nodes, lists, x)
    &&& forall|x: u32|
        #![trigger live(nodes, x), nodes[x as int].parent]
        live(nodes, x) && nodes[x as int].parent != ROOT && nodes[x as int].parent != DETACHED
            ==> rank(nodes[x as int].parent) > rank(x)
    &&& forall|x: u32| #[trigger] live(nodes, x) ==> rank(x) < top
}

/// Two record vectors with the same links and the same records in use.
pub open spec fn steady(a: Seq<Node>, b: Seq<Node>) -> bool {
    &&& a.len() == b.len()
    &&& forall|x: int|
        0 <= x < a.len() ==> (#[trigger] a[x]).free() == b[x].free() && same_links(a[x], b[x])
}

proof fn lemma_steady_shaped(
    a: Seq<Node>,
    b: Seq<Node>,
    lists: spec_fn(u32) -> Seq<u32>,
    root: (u32, u32, u32),
    rank: spec_fn(u32) -> nat,
    top: nat,
)
    requires
        steady(a, b),
        shaped(a, lists, root, rank, top),
    ensures
        shaped(b, lists, root, rank, top),
        count_live(a) == count_live(b),
{
    assert forall|p: u32| p == ROOT || live(b, p) implies #[trigger] list_fine(b, lists, root, p) by {
        if p != ROOT {
            assert(live(a, p));
        }
        assert(list_fine(a, lists, root, p));
        let l = lists(p);
        assert forall|i: int| 0 <= i < l.len() implies #[trigger] member(b, p, l, i) by {
            assert(member(a, p, l, i));
        }
    }
    assert forall|x: u32| #[trigger] live(b, x) implies placed_in(b, lists, x) by {
        assert(live(a, x));
        assert(placed_in(a, lists, x));
    }
    assert forall|x: u32|
        #![trigger live(b, x), b[x as int].parent]
        live(b, x) && b[x as int].parent != ROOT && b[x as int].parent != DETACHED implies rank(
        b[x as int].parent) > rank(x) by {
        assert(live(a, x));
        assert(a[x as int].parent == b[x as int].parent);
    }
    assert forall|x: u32| #[trigger] live(b, x) implies rank(x) < top by {
        assert(live(a, x));
    }
    lemma_count_live_frame(a, b);
}

/// The entries next to a listed node, and the facts that keep them apart.
proof fn lemma_unlink_facts(
    n: Seq<Node>,
    lists: spec_fn(u32) -> Seq<u32>,
    root: (u32, u32, u32),
    rank: spec_fn(u32) -> nat,
    top: nat,
    id: u32,
)
    requires
        shaped(n, lists, root, rank, top),
        n.len() <= DETACHED,
        live(n, id),
        n[id as int].parent != DETACHED,
    ensures
        ({
            let p = n[id as int].parent;
            let l = lists(p);
            let k = l.index_of(id);
            let prev = n[id as int].prev_sibling;
            let next = n[id as int].next_sibling;
            &&& 0 <= k < l.len()
            &&& l[k] == id
            &&& p == ROOT || live(n, p)
            &&& prev == (if k == 0 { NONE } else { l[k - 1] })
            &&& next == (if k + 1 == l.len() { NONE } else { l[k + 1] })
            &&& prev != NONE ==> live(n, prev) && prev != id && prev != p
            &&& next != NONE ==> live(n, next) && next != id && next != p && next != prev
            &&& id != p
            &&& head_of(n, root, p).2 == l.len()
            &&& head_of(n, root, p).2 >= 1
        }),
{
    let p = n[id as int].parent;
    let l = lists(p);
    assert(placed_in(n, lists, id));
    assert(l.contains(id));
    let k = l.index_of(id);
    assert(list_fine(n, lists, root, p));
    assert(member(n, p, l, k));
    if k > 0 {
        assert(member(n, p, l, k - 1));
    }
    if k + 1 < l.len() {
        assert(member(n, p, l, k + 1));
    }
    if p != ROOT {
        assert(rank(p) > rank(id));
        if k > 0 {
            assert(rank(n[l[k - 1] as int].parent) > rank(l[k - 1]));
        }
        if k + 1 < l.len() {
            assert(rank(n[l[k + 1] as int].parent) > rank(l[k + 1]));
        }
    }
}

/// The record with another next sibling.
pub open spec fn with_next(n: Node, next: u32) -> Node {
    Node { next_sibling: next, ..n }
}

/// The record with another previous sibling.
pub open spec fn with_prev(n: Node, prev: u32) -> Node {
    Node { prev_sibling: prev, ..n }
}

/// The record with another head, tail and count of children.
pub open spec fn with_head(n: Node, h: (u32, u32, u32)) -> Node {
    Node { first_child: h.0, last_child: h.1, child_count: h.2, ..n }
}

/// The record listed under `p` between `prev` and `next`.
pub open spec fn listed(n: Node, p: u32, prev: u32, next: u32) -> Node {
    Node { parent: p, prev_sibling: prev, next_sibling: next, ..n }
}

/// The record taken out of every list.
pub open spec fn unlisted(n: Node) -> Node {
    Node { parent: DETACHED, prev_sibling: NONE, next_sibling: NONE, ..n }
}

/// Where a detached node enters a list: before `anchor`, or at the end when
/// `anchor` is `NONE`.
pub open spec fn slot_of(l: Seq<u32>, anchor: u32) -> int {
    if anchor == NONE {
        l.len() as int
    } else {
        l.index_of(anchor)
    }
}

/// Placing before an anchor puts the child immediately before the anchor;
/// placing with no anchor puts it last. Either way the other entries keep
/// their order, and only the child is added.
pub proof fn lemma_placed_before(l: Seq<u32>, anchor: u32, child: u32)
    requires
        anchor == NONE || l.contains(anchor),
    ensures
        ({
            let m = l.insert(slot_of(l, anchor), child);
            &&& m.len() == l.len() + 1
            &&& anchor == NONE ==> m.last() == child && m.drop_last() == l
            &&& anchor != NONE ==> exists|k: int| 0 <= k < l.len() && m[k] == child && m[k + 1] == anchor && m.remove(k) == l
        }),
{
    let k = slot_of(l, anchor);
    if anchor == NONE {
        assert(l.insert(k, child).drop_last() =~= l);
    } else {
        assert(l.index_of(anchor) == k);
        assert(0 <= k < l.len() && l[k] == anchor);
        let m = l.insert(k, child);
        assert(m.remove(k) =~= l);
        assert(m[k] == child && m[k + 1] == anchor);
    }
}

/// Taking a node out of a list drops it and keeps every other entry.
pub proof fn lemma_without(l: Seq<u32>, x: u32)
    requires
        l.no_duplicates(),
    ensures
        !without(l, x).contains(x),
        forall|y: u32| y != x ==> (#[trigger] without(l, x).contains(y) == l.contains(y)),
        without(l, x).len() == if l.contains(x) { l.len() - 1 } else { l.len() as int },
{
    if l.contains(x) {
        let k = l.index_of(x);
        let w = l.remove(k);
        assert forall|y: u32| y != x implies (#[trigger] w.contains(y) == l.contains(y)) by {
            if l.contains(y) {
                let j = choose|j: int| 0 <= j < l.len() && l[j] == y;
                if j < k {
                    assert(w[j] == y);
                } else {
                    assert(j != k);
                    assert(w[j - 1] == y);
                }
            }
            if w.contains(y) {
                let j = choose|j: int| 0 <= j < w.len() && w[j] == y;
                if j < k {
                    assert(l[j] == y);
                } else {
                    assert(l[j + 1] == y);
                }
            }
        }
        if w.contains(x) {
            let j = choose|j: int| 0 <= j < w.len() && w[j] == x;
            if j < k {
                assert(l[j] == x);
            } else {
                assert(l[j + 1] == x);
            }
        }
    }
}

/// The neighbours a detached node gets when listed under `p`, and the facts
/// that keep them apart.
proof fn lemma_link_facts(
    n: Seq<Node>,
    lists: spec_fn(u32) -> Seq<u32>,
    root: (u32, u32, u32),
    rank: spec_fn(u32) -> nat,
    top: nat,
    p: u32,
    child: u32,
    anchor: u32,
)
    requires
        shaped(n, lists, root, rank, top),
        n.len() <= DETACHED,
        live(n, child),
        n[child as int].parent == DETACHED,
        p == ROOT || (live(n, p) && rank(p) > rank(child)),
        anchor == NONE || (live(n, anchor) && n[anchor as int].parent == p),
    ensures
        ({
            let l = lists(p);
            let pos = slot_of(l, anchor);
            let prev = if pos == 0 {
                NONE
            } else {
                l[pos - 1]
            };
            &&& 0 <= pos <= l.len()
            &&& anchor != NONE ==> n[anchor as int].prev_sibling == prev && anchor != child && anchor
                != p && anchor != prev
            &&& anchor == NONE ==> head_of(n, root, p).1 == prev
            &&& prev != NONE ==> live(n, prev) && prev != child && prev != p
            &&& p != child
            &&& head_of(n, root, p).2 + 1 <= 0xFFFF_FFFF
        }),
{
    let l = lists(p);
    assert(list_fine(n, lists, root, p));
    if anchor != NONE {
        assert(placed_in(n, lists, anchor));
        assert(l[l.index_of(anchor)] == anchor);
        assert(member(n, p, l, l.index_of(anchor)));
        if l.index_of(anchor) > 0 {
            assert(member(n, p, l, l.index_of(anchor) - 1));
        }
    } else if l.len() > 0 {
        assert(member(n, p, l, l.len() - 1));
    }
    assert(!l.contains(child)) by {
        if l.contains(child) {
            let i = choose|i: int| 0 <= i < l.len() && l[i] == child;
            assert(member(n, p, l, i));
        }
    }
    let lc = l.push(child);
    assert forall|i: int| 0 <= i < lc.len() implies (#[trigger] lc[i] as int) < n.len() by {
        if i < l.len() {
            assert(member(n, p, l, i));
        }
    }
    assert(lc.no_duplicates()) by {
        assert forall|i: int, j: int| 0 <= i < lc.len() && 0 <= j < lc.len() && i != j implies lc[i]
            != lc[j] by {
            if i < l.len() && j < l.len() {
            } else if i < l.len() {
                assert(l.contains(l[i]));
            } else if j < l.len() {
                assert(l.contains(l[j]));
            }
        }
    }
    lemma_distinct_bound(lc, n.len() as int);
    if p != ROOT {
        if anchor != NONE && l.index_of(anchor) > 0 {
            assert(rank(n[l[l.index_of(anchor) - 1] as int].parent) > rank(l[l.index_of(anchor) - 1]));
        }
        if anchor == NONE && l.len() > 0 {
            assert(rank(n[l[l.len() - 1] as int].parent) > rank(l[l.len() - 1]));
        }
        if anchor != NONE {
            assert(rank(n[anchor as int].parent) > rank(anchor));
        }
    }
}

/// The record updates of a link, one position at a time.
proof fn lemma_link_records(
    n: Seq<Node>,
    n1: Seq<Node>,
    child: u32,
    p: u32,
    prev: u32,
    next: u32,
    h1: (u32, u32, u32),
)
    requires
        n.len() <= DETACHED,
        (child as int) < n.len(),
        prev != NONE ==> (prev as int) < n.len() && prev != child && prev != p,
        next != NONE ==> (next as int) < n.len() && next != child && next != p && next != prev,
        p != ROOT ==> (p as int) < n.len() && p != child,
        ({
            let na = if prev != NONE {
                n.update(prev as int, with_next(n[prev as int], child))
            } else {
                n
            };
            let nb = if next != NONE {
                na.update(next as int, with_prev(na[next as int], child))
            } else {
                na
            };
            let nc = if p != ROOT {
                nb.update(p as int, with_head(nb[p as int], h1))
            } else {
                nb
            };
            n1 == nc.update(child as int, listed(nc[child as int], p, prev, next))
        }),
    ensures
        n1.len() == n.len(),
        forall|x: int|
            0 <= x < n.len() && x != prev && x != next && x != p && x != child ==> #[trigger] n1[x]
                == n[x],
        prev != NONE ==> n1[prev as int] == with_next(n[prev as int], child),
        next != NONE ==> n1[next as int] == with_prev(n[next as int], child),
        p != ROOT ==> n1[p as int] == with_head(n[p as int], h1),
        n1[child as int] == listed(n[child as int], p, prev, next),
{
}

/// Linking a detached node before an entry of a list, or at its end, keeps
/// the tree shaped, with the node inserted into that list.
#[verifier::rlimit(80)]
#[verifier::spinoff_prover]
proof fn lemma_link_shape(
    n: Seq<Node>,
    n1: Seq<Node>,
    lists: spec_fn(u32) -> Seq<u32>,
    lists1: spec_fn(u32) -> Seq<u32>,
    root: (u32, u32, u32),
    root1: (u32, u32, u32),
    rank: spec_fn(u32) -> nat,
    top: nat,
    p: u32,
    child: u32,
    anchor: u32,
)
    requires
        shaped(n, lists, root, rank, top),
        n.len() <= DETACHED,
        live(n, child),
        n[child as int].parent == DETACHED,
        p == ROOT || (live(n, p) && rank(p) > rank(child)),
        anchor == NONE || (live(n, anchor) && n[anchor as int].parent == p),
        ({
            let l = lists(p);
            let pos = slot_of(l, anchor);
            let prev = if pos == 0 {
                NONE
            } else {
                l[pos - 1]
            };
            let next = anchor;
            let h = head_of(n, root, p);
            let h1 = (
                if prev == NONE {
                    child
                } else {
                    h.0
                },
                if next == NONE {
                    child
                } else {
                    h.1
                },
                (h.2 + 1) as u32,
            );
            &&& n1.len() == n.len()
            &&& forall|x: int|
                0 <= x < n.len() && x != prev && x != next && x != p && x != child ==> #[trigger] n1[x]
                    == n[x]
            &&& prev != NONE ==> n1[prev as int] == with_next(n[prev as int], child)
            &&& next != NONE ==> n1[next as int] == with_prev(n[next as int], child)
            &&& p == ROOT ==> root1 == h1
            &&& p != ROOT ==> root1 == root && n1[p as int] == with_head(n[p as int], h1)
            &&& n1[child as int] == listed(n[child as int], p, prev, next)
            &&& h.2 + 1 <= 0xFFFF_FFFF
            &&& forall|q: u32|
                #[trigger] lists1(q) == if q == p {
                    l.insert(pos, child)
                } else {
                    lists(q)
                }
        }),
    ensures
        shaped(n1, lists1, root1, rank, top),
{
    let l = lists(p);
    assert(list_fine(n, lists, root, p));
    let pos = slot_of(l, anchor);
    if anchor != NONE {
        assert(placed_in(n, lists, anchor));
        assert(l.contains(anchor));
        assert(l[l.index_of(anchor)] == anchor);
    }
    assert(0 <= pos <= l.len());
    let prev = if pos == 0 {
        NONE
    } else {
        l[pos - 1]
    };
    let next = anchor;
    let l2 = l.insert(pos, child);
    assert(lists1(p) == l2);
    assert(!l.contains(child)) by {
        if l.contains(child) {
            let i = choose|i: int| 0 <= i < l.len() && l[i] == child;
            assert(member(n, p, l, i));
        }
    }
    if pos > 0 {
        assert(member(n, p, l, pos - 1));
        if p != ROOT {
            assert(rank(n[prev as int].parent) > rank(prev));
        }
    }
    if anchor != NONE {
        assert(member(n, p, l, pos));
        if p != ROOT {
            assert(rank(n[anchor as int].parent) > rank(anchor));
        }
    }
    assert(l2.len() == l.len() + 1);
    assert forall|i: int| 0 <= i < pos implies #[trigger] l2[i] == l[i] by {}
    assert forall|i: int| pos < i < l2.len() implies #[trigger] l2[i] == l[i - 1] by {}
    assert(l2[pos] == child);
    assert(l2.no_duplicates()) by {
        assert forall|i: int, j: int| 0 <= i < l2.len() && 0 <= j < l2.len() && i != j implies l2[i]
            != l2[j] by {
            if i != pos && j != pos {
                let a = if i < pos { i } else { i - 1 };
                let b = if j < pos { j } else { j - 1 };
                assert(l2[i] == l[a]);
                assert(l2[j] == l[b]);
            } else if i == pos {
                let b = if j < pos { j } else { j - 1 };
                assert(l2[j] == l[b]);
            } else {
                let a = if i < pos { i } else { i - 1 };
                assert(l2[i] == l[a]);
            }
        }
    }
    assert forall|x: int| 0 <= x < n.len() implies #[trigger] n1[x].free() == n[x].free() by {
        if x != prev && x != next && x != p && x != child {
            assert(n1[x] == n[x]);
        }
    }
    assert forall|x: u32| #[trigger] live(n1, x) == live(n, x) by {
        if (x as int) < n.len() {
            assert(n1[x as int].free() == n[x as int].free());
        }
    }
    // the changed list
    assert(list_fine(n1, lists1, root1, p)) by {
        if pos > 0 {
            assert(l2[0] == l[0]);
        }
        if pos < l.len() {
            assert(l2[l2.len() - 1] == l[l.len() - 1]);
        }
        assert forall|i: int| 0 <= i < l2.len() implies #[trigger] member(n1, p, l2, i) by {
            if i < pos {
                assert(member(n, p, l, i));
                if i > 0 {
                    assert(l2[i - 1] == l[i - 1]);
                }
                if i + 1 < pos {
                    assert(l2[i + 1] == l[i + 1]);
                    assert(l[i] != prev);
                    assert(l[i] != next);
                } else {
                    assert(l[i] == prev);
                    if pos < l.len() {
                        assert(member(n, p, l, pos));
                        assert(l[i] != next);
                    }
                }
                assert(l[i] != child);
            } else if i == pos {
            } else {
                assert(member(n, p, l, i - 1));
                assert(l2[i] == l[i - 1]);
                if i + 1 < l2.len() {
                    assert(l2[i + 1] == l[i]);
                }
                if i == pos + 1 {
                    assert(l[i - 1] == next);
                    if pos > 0 {
                        assert(l[i - 1] != prev);
                    }
                } else {
                    assert(l2[i - 1] == l[i - 2]);
                    assert(l[i - 1] != next);
                    if pos > 0 {
                        assert(l[i - 1] != prev);
                    }
                }
                assert(l[i - 1] != child);
            }
        }
    }
    // every other list is unchanged, and holds none of the changed nodes
    assert forall|q: u32| q != p && (q == ROOT || live(n1, q)) implies #[trigger] list_fine(
        n1,
        lists1,
        root1,
        q,
    ) by {
        assert(list_fine(n, lists, root, q));
        let lq = lists(q);
        assert forall|i: int| 0 <= i < lq.len() implies #[trigger] member(n1, q, lq, i) by {
            assert(member(n, q, lq, i));
            let x = lq[i];
            assert(x != child && x != prev && x != next);
        }
    }
    assert forall|q: u32| #[trigger] live(n1, q) implies list_fine(n1, lists1, root1, q) by {
        if q == p {
        } else {
            assert(list_fine(n1, lists1, root1, q));
        }
    }
    if p != ROOT {
        assert(list_fine(n1, lists1, root1, ROOT));
    }
    assert forall|x: u32| #[trigger] live(n1, x) implies placed_in(n1, lists1, x) by {
        assert(placed_in(n, lists, x));
        if x == child {
            assert(l2.contains(child));
        } else if n[x as int].parent == p {
            let i = choose|i: int| 0 <= i < l.len() && l[i] == x;
            if i < pos {
                assert(l2[i] == x);
            } else {
                assert(l2[i + 1] == x);
            }
        } else if n[x as int].parent == DETACHED {
            assert(x != prev && x != next);
        }
    }
    assert forall|x: u32|
        #![trigger live(n1, x), n1[x as int].parent]
        live(n1, x) && n1[x as int].parent != ROOT && n1[x as int].parent != DETACHED implies rank(
        n1[x as int].parent) > rank(x) by {
        if x != child {
            assert(n[x as int].parent == n1[x as int].parent);
        }
    }
    assert forall|x: u32| #[trigger] live(n1, x) implies rank(x) < top by {
        assert(live(n, x));
    }
}

/// Raising the ranks of a parent-closed set of nodes keeps ranks increasing
/// towards the roots and puts `target` above `child`.
proof fn lemma_rerank(
    n: Seq<Node>,
    lists: spec_fn(u32) -> Seq<u32>,
    root: (u32, u32, u32),
    rank: spec_fn(u32) -> nat,
    top: nat,
    anc: Set<u32>,
    child: u32,
    target: u32,
)
    requires
        shaped(n, lists, root, rank, top),
        live(n, child),
        anc.contains(target),
        !anc.contains(child),
        forall|a: u32|
            #[trigger] anc.contains(a) ==> live(n, a) && (n[a as int].parent == ROOT
                || n[a as int].parent == DETACHED || anc.contains(n[a as int].parent)),
    ensures
        ({
            let d = rank(child) + 1;
            let rank2 = |x: u32|
                if anc.contains(x) {
                    (rank(x) + d) as nat
                } else {
                    rank(x)
                };
            shaped(n, lists, root, rank2, (top + d) as nat) && rank2(target) > rank2(child)
        }),
{
    let d = rank(child) + 1;
    let rank2 = |x: u32|
        if anc.contains(x) {
            (rank(x) + d) as nat
        } else {
            rank(x)
        };
    assert forall|x: u32|
        #![trigger live(n, x), n[x as int].parent]
        live(n, x) && n[x as int].parent != ROOT && n[x as int].parent != DETACHED implies rank2(
        n[x as int].parent) > rank2(x) by {
        let q = n[x as int].parent;
        assert(rank(q) > rank(x));
        if anc.contains(x) {
            assert(anc.contains(q));
        }
    }
    assert forall|x: u32| #[trigger] live(n, x) implies rank2(x) < top + d by {
        assert(rank(x) < top);
    }
}

/// The record updates of an unlink, one position at a time.
proof fn lemma_unlink_records(
    n: Seq<Node>,
    n1: Seq<Node>,
    root: (u32, u32, u32),
    id: u32,
    p: u32,
    prev: u32,
    next: u32,
    h1: (u32, u32, u32),
)
    requires
        n.len() <= DETACHED,
        (id as int) < n.len(),
        prev != NONE ==> (prev as int) < n.len() && prev != id && prev != p,
        next != NONE ==> (next as int) < n.len() && next != id && next != p && next != prev,
        p != ROOT ==> (p as int) < n.len() && p != id,
        ({
            let na = if prev != NONE {
                n.update(prev as int, with_next(n[prev as int], next))
            } else {
                n
            };
            let nb = if next != NONE {
                na.update(next as int, with_prev(na[next as int], prev))
            } else {
                na
            };
            let nc = if p != ROOT {
                nb.update(p as int, with_head(nb[p as int], h1))
            } else {
                nb
            };
            n1 == nc.update(id as int, unlisted(nc[id as int]))
        }),
    ensures
        n1.len() == n.len(),
        forall|x: int|
            0 <= x < n.len() && x != prev && x != next && x != p && x != id ==> #[trigger] n1[x]
                == n[x],
        prev != NONE ==> n1[prev as int] == with_next(n[prev as int], next),
        next != NONE ==> n1[next as int] == with_prev(n[next as int], prev),
        p != ROOT ==> n1[p as int] == with_head(n[p as int], h1),
        n1[id as int] == unlisted(n[id as int]),
{
}

/// Unlinking a listed node keeps the tree shaped, with the node's entry
/// removed from its parent's list.
proof fn lemma_unlink_shape(
    n: Seq<Node>,
    n1: Seq<Node>,
    lists: spec_fn(u32) -> Seq<u32>,
    lists1: spec_fn(u32) -> Seq<u32>,
    root: (u32, u32, u32),
    root1: (u32, u32, u32),
    rank: spec_fn(u32) -> nat,
    top: nat,
    id: u32,
)
    requires
        shaped(n, lists, root, rank, top),
        n.len() <= DETACHED,
        live(n, id),
        n[id as int].parent != DETACHED,
        ({
            let p = n[id as int].parent;
            let prev = n[id as int].prev_sibling;
            let next = n[id as int].next_sibling;
            let h = head_of(n, root, p);
            let h1 = (
                if h.0 == id {
                    next
                } else {
                    h.0
                },
                if h.1 == id {
                    prev
                } else {
                    h.1
                },
                (h.2 - 1) as u32,
            );
            &&& n1.len() == n.len()
            &&& forall|x: int|
                0 <= x < n.len() && x != prev && x != next && x != p && x != id ==> #[trigger] n1[x]
                    == n[x]
            &&& prev != NONE ==> n1[prev as int] == with_next(n[prev as int], next)
            &&& next != NONE ==> n1[next as int] == with_prev(n[next as int], prev)
            &&& p == ROOT ==> root1 == h1
            &&& p != ROOT ==> root1 == root && n1[p as int] == with_head(n[p as int], h1)
            &&& n1[id as int] == unlisted(n[id as int])
            &&& forall|q: u32|
                #[trigger] lists1(q) == if q == p {
                    without(lists(p), id)
                } else {
                    lists(q)
                }
        }),
    ensures
        shaped(n1, lists1, root1, rank, top),
        forall|x: int| 0 <= x < n.len() ==> #[trigger] n1[x].free() == n[x].free(),
{
    lemma_unlink_facts(n, lists, root, rank, top, id);
    let p = n[id as int].parent;
    let prev = n[id as int].prev_sibling;
    let next = n[id as int].next_sibling;
    let l = lists(p);
    let k = l.index_of(id);
    assert(list_fine(n, lists, root, p));
    lemma_remove_facts(l, k);
    let l2 = l.remove(k);
    assert(lists1(p) == l2);
    assert forall|x: int| 0 <= x < n.len() implies #[trigger] n1[x].free() == n[x].free() by {}
    assert forall|x: u32| #[trigger] live(n1, x) == live(n, x) by {}
    // the changed list
    assert(list_fine(n1, lists1, root1, p)) by {
        let h1 = head_of(n1, root1, p);
        if l2.len() > 0 {
            if k == 0 {
                assert(l2[0] == l[1]);
            } else {
                assert(l2[0] == l[0]);
            }
            if k == l.len() - 1 {
                assert(l2[l2.len() - 1] == l[l.len() - 2]);
            } else {
                assert(l2[l2.len() - 1] == l[l.len() - 1]);
            }
        }
        assert forall|i: int| 0 <= i < l2.len() implies #[trigger] member(n1, p, l2, i) by {
            if i < k {
                assert(member(n, p, l, i));
                assert(l2[i] == l[i]);
                if i > 0 {
                    assert(l2[i - 1] == l[i - 1]);
                }
                if i + 1 < k {
                    assert(l2[i + 1] == l[i + 1]);
                } else if i + 1 < l2.len() {
                    assert(l2[i + 1] == l[i + 2]);
                }
            } else {
                assert(member(n, p, l, i + 1));
                assert(l2[i] == l[i + 1]);
                if i + 1 < l2.len() {
                    assert(l2[i + 1] == l[i + 2]);
                }
                if i > 0 {
                    if i == k {
                        assert(l2[i - 1] == l[k - 1]);
                    } else {
                        assert(l2[i - 1] == l[i]);
                    }
                }
            }
        }
    }
    // every other list is unchanged, and holds none of the changed nodes
    assert forall|q: u32| q != p && (q == ROOT || live(n1, q)) implies #[trigger] list_fine(
        n1,
        lists1,
        root1,
        q,
    ) by {
        assert(list_fine(n, lists, root, q));
        let lq = lists(q);
        assert forall|i: int| 0 <= i < lq.len() implies #[trigger] member(n1, q, lq, i) by {
            assert(member(n, q, lq, i));
            let x = lq[i];
            if k > 0 {
                assert(member(n, p, l, k - 1));
            }
            if k + 1 < l.len() {
                assert(member(n, p, l, k + 1));
            }
            assert(x != id && x != prev && x != next);
        }
    }
    assert forall|q: u32| #[trigger] live(n1, q) implies list_fine(n1, lists1, root1, q) by {
        if q == p {
        } else {
            assert(list_fine(n1, lists1, root1, q));
        }
    }
    if p != ROOT {
        assert(list_fine(n1, lists1, root1, ROOT));
    }
    assert forall|x: u32| #[trigger] live(n1, x) implies placed_in(n1, lists1, x) by {
        assert(placed_in(n, lists, x));
        if x != id && n[x as int].parent == p {
            assert(l2.contains(x));
        }
        if x != id && n[x as int].parent == DETACHED {
            if k > 0 {
                assert(member(n, p, l, k - 1));
            }
            if k + 1 < l.len() {
                assert(member(n, p, l, k + 1));
            }
        }
    }
    assert forall|x: u32|
        #![trigger live(n1, x), n1[x as int].parent]
        live(n1, x) && n1[x as int].parent != ROOT && n1[x as int].parent != DETACHED implies rank(
        n1[x as int].parent) > rank(x) by {
        assert(n[x as int].parent == n1[x as int].parent);
    }
    assert forall|x: u32| #[trigger] live(n1, x) implies rank(x) < top by {
        assert(live(n, x));
    }
}

/// Following parent links from `x` reaches `a`; ranks bound the walk.
spec fn reaches(n: Seq<Node>, rank: spec_fn(u32) -> nat, top: nat, a: u32, x: u32) -> bool
    decreases top - rank(x),
{
    if x == a {
        true
    } else if live(n, x) && n[x as int].parent != ROOT && n[x as int].parent != DETACHED && rank(x)
        < rank(n[x as int].parent) && rank(n[x as int].parent) < top {
        reaches(n, rank, top, a, n[x as int].parent)
    } else {
        false
    }
}

/// The generation a record takes when its node is released.
pub open spec fn next_generation(g: u16) -> u16 {
    if g == 0xFFFF {
        0
    } else {
        (g + 1) as u16
    }
}

/// The subscriptions of released nodes, in release order, skipping zero.
pub open spec fn subscriptions(v: Seq<(u32, Node)>) -> Seq<u64>
    decreases v.len(),
{
    if v.len() == 0 {
        Seq::empty()
    } else if v.last().1.subscription != 0 {
        subscriptions(v.drop_last()).push(v.last().1.subscription as u64)
    } else {
        subscriptions(v.drop_last())
    }
}

/// The routes of released nodes that had a subscription, in release order.
pub open spec fn retirements(v: Seq<(u32, Node)>) -> Seq<(u32, u16, u32)>
    decreases v.len(),
{
    if v.len() == 0 {
        Seq::empty()
    } else if v.last().1.subscription != 0 {
        retirements(v.drop_last()).push((v.last().0, v.last().1.generation, v.last().1.subscription))
    } else {
        retirements(v.drop_last())
    }
}

/// Releasing a parent-closed set of nodes keeps the rest of the tree shaped.
proof fn lemma_release_shape(
    n: Seq<Node>,
    n1: Seq<Node>,
    lists: spec_fn(u32) -> Seq<u32>,
    root: (u32, u32, u32),
    rank: spec_fn(u32) -> nat,
    top: nat,
    gone: Set<u32>,
)
    requires
        shaped(n, lists, root, rank, top),
        n.len() <= DETACHED,
        forall|s: u32| #[trigger] gone.contains(s) ==> live(n, s),
        forall|s: u32|
            #[trigger] gone.contains(s) ==> n[s as int].parent == DETACHED || gone.contains(
                n[s as int].parent,
            ),
        forall|x: u32|
            live(n, x) && #[trigger] gone.contains(n[x as int].parent) ==> gone.contains(x),
        n1.len() == n.len(),
        forall|x: u32| (x as int) < n.len() && #[trigger] gone.contains(x) ==> n1[x as int].free(),
        forall|x: u32| (x as int) < n.len() && !gone.contains(x) ==> #[trigger] n1[x as int] == n[x as int],
    ensures
        shaped(n1, lists, root, rank, top),
{
    assert forall|x: u32| #[trigger] live(n1, x) implies live(n, x) && !gone.contains(x) by {
        if gone.contains(x) {
            assert(n1[x as int].free());
        }
    }
    assert forall|q: u32| q == ROOT || live(n1, q) implies #[trigger] list_fine(n1, lists, root, q) by {
        assert(list_fine(n, lists, root, q));
        let l = lists(q);
        assert forall|i: int| 0 <= i < l.len() implies #[trigger] member(n1, q, l, i) by {
            assert(member(n, q, l, i));
            let y = l[i];
            if gone.contains(y) {
                assert(n[y as int].parent == q);
            }
            assert(!gone.contains(y));
            assert(n1[y as int] == n[y as int]);
            if i > 0 {
                assert(member(n, q, l, i - 1));
            }
        }
        if q != ROOT {
            assert(n1[q as int] == n[q as int]);
        }
    }
    assert forall|x: u32| #[trigger] live(n1, x) implies placed_in(n1, lists, x) by {
        assert(placed_in(n, lists, x));
        assert(n1[x as int] == n[x as int]);
        let q = n[x as int].parent;
        if q != ROOT && q != DETACHED {
            assert(!gone.contains(q));
            assert(n1[q as int] == n[q as int]);
        }
    }
    assert forall|x: u32|
        #![trigger live(n1, x), n1[x as int].parent]
        live(n1, x) && n1[x as int].parent != ROOT && n1[x as int].parent != DETACHED implies rank(
        n1[x as int].parent) > rank(x) by {
        assert(n1[x as int] == n[x as int]);
    }
    assert forall|x: u32| #[trigger] live(n1, x) implies rank(x) < top by {}
}

/// Following parent links to `a` depends only on the links below `a`.
proof fn lemma_reaches_frame(
    n: Seq<Node>,
    n2: Seq<Node>,
    rank: spec_fn(u32) -> nat,
    top: nat,
    a: u32,
    x: u32,
)
    requires
        forall|y: u32|
            y != a ==> #[trigger] live(n, y) == live(n2, y) && (live(n, y) ==> n[y as int].parent
                == n2[y as int].parent),
    ensures
        reaches(n, rank, top, a, x) == reaches(n2, rank, top, a, x),
    decreases top - rank(x),
{
    if x != a && live(n, x) {
        let q = n[x as int].parent;
        if q != ROOT && q != DETACHED && rank(x) < rank(q) && rank(q) < top {
            lemma_reaches_frame(n, n2, rank, top, a, q);
        }
    }
}

/// Installing a node in a free record keeps the tree shaped, with an empty
/// child list and the lowest rank for the new node.
proof fn lemma_install_shape(
    n: Seq<Node>,
    n1: Seq<Node>,
    lists: spec_fn(u32) -> Seq<u32>,
    lists1: spec_fn(u32) -> Seq<u32>,
    root: (u32, u32, u32),
    rank: spec_fn(u32) -> nat,
    rank1: spec_fn(u32) -> nat,
    top: nat,
    id: u32,
)
    requires
        shaped(n, lists, root, rank, top),
        n.len() <= DETACHED,
        (id as int) < n.len(),
        n[id as int].free(),
        n1 == n.update(id as int, n1[id as int]),
        !n1[id as int].free(),
        n1[id as int].parent == DETACHED,
        n1[id as int].prev_sibling == NONE,
        n1[id as int].next_sibling == NONE,
        n1[id as int].first_child == NONE,
        n1[id as int].last_child == NONE,
        n1[id as int].child_count == 0,
        forall|q: u32| #[trigger] lists1(q) == if q == id { Seq::<u32>::empty() } else { lists(q) },
        forall|q: u32| #[trigger] rank1(q) == if q == id { 0nat } else { rank(q) },
    ensures
        shaped(n1, lists1, root, rank1, top + 1),
{
    assert forall|x: u32| x != id implies #[trigger] live(n1, x) == live(n, x) by {}
    assert forall|p: u32| p == ROOT || live(n1, p) implies #[trigger] list_fine(n1, lists1, root, p) by {
        if p != id {
            if p != ROOT {
                assert(live(n, p));
            }
            assert(list_fine(n, lists, root, p));
            let l = lists(p);
            assert(lists1(p) == l);
            assert forall|i: int| 0 <= i < l.len() implies #[trigger] member(n1, p, l, i) by {
                assert(member(n, p, l, i));
                assert(l[i] != id);
                assert(n1[l[i] as int] == n[l[i] as int]);
            }
            if p != ROOT {
                assert(n1[p as int] == n[p as int]);
            }
        } else {
            assert(lists1(id).len() == 0);
        }
    }
    assert forall|x: u32| #[trigger] live(n1, x) implies placed_in(n1, lists1, x) by {
        if x != id {
            assert(live(n, x));
            assert(placed_in(n, lists, x));
            assert(n1[x as int] == n[x as int]);
            let q = n[x as int].parent;
            if q != ROOT && q != DETACHED {
                assert(live(n, q));
                assert(q != id);
                assert(lists1(q) == lists(q));
                assert(n1[q as int] == n[q as int]);
            }
            if q == ROOT {
                assert(lists1(q) == lists(q));
            }
        }
    }
    assert forall|x: u32|
        #![trigger live(n1, x), n1[x as int].parent]
        live(n1, x) && n1[x as int].parent != ROOT && n1[x as int].parent != DETACHED implies rank1(
        n1[x as int].parent) > rank1(x) by {
        assert(x != id);
        assert(live(n, x));
        assert(rank(n[x as int].parent) > rank(x));
        assert(placed_in(n, lists, x));
    }
    assert forall|x: u32| #[trigger] live(n1, x) implies rank1(x) < top + 1 by {
        if x != id {
            assert(live(n, x));
        }
    }
}

/// The record a prepared node takes once its component created its row.
pub open spec fn installed(old: Node, kind: u16, slot: u32, subscription: u32) -> Node {
    Node {
        parent: DETACHED,
        first_child: NONE,
        last_child: NONE,
        next_sibling: NONE,
        prev_sibling: NONE,
        child_count: 0,
        subscription,
        slot,
        kind,
        hidden: false,
        dirty: old.dirty,
        generation: old.generation,
    }
}

/// Accepts `value` when it exceeds `*previous` and fits in 32 bits, and
/// records it.
pub fn increasing(value: u64, previous: &mut u64) -> (ok: bool)
    ensures
        ok == (*old(previous) < value && value < 0x1_0000_0000),
        *final(previous) == if ok {
            value
        } else {
            *old(previous)
        },
{
    if value > *previous && value < 0x1_0000_0000 {
        *previous = value;
        true
    } else {
        false
    }
}

/// A changed child list owed to a view that lays out its children.
pub struct Delivery {
    pub id: u32,
    pub kind: u16,
    pub slot: u32,
    /// The visible children, in order.
    pub children: Vec<u32>,
}

impl View for Delivery {
    type V = (u32, u16, u32, Seq<u32>);

    open spec fn view(&self) -> (u32, u16, u32, Seq<u32>) {
        (self.id, self.kind, self.slot, self.children@)
    }
}

/// What `listen` reports: the subscription it replaced, and for a view the
/// route update to run in the view's own effect queue as `(generation,
/// subscription)`.
pub struct Listened {
    pub retired: Option<u64>,
    pub deferred: Option<(u16, u32)>,
}

/// The subscription of the first retired route for `(id, generation)`, or
/// zero.
pub open spec fn retired_route(s: Seq<(u32, u16, u32)>, id: u32, generation: u16) -> u32
    decreases s.len(),
{
    if s.len() == 0 {
        0
    } else if s[0].0 == id && s[0].1 == generation {
        s[0].2
    } else {
        retired_route(s.drop_first(), id, generation)
    }
}

/// The index of the first retired route for `(id, generation)`, if any.
pub open spec fn route_index(s: Seq<(u32, u16, u32)>, id: u32, generation: u16) -> Option<int>
    decreases s.len(),
{
    if s.len() == 0 {
        None
    } else if s[0].0 == id && s[0].1 == generation {
        Some(0)
    } else {
        match route_index(s.drop_first(), id, generation) {
            Some(i) => Some(i + 1),
            None => None,
        }
    }
}

/// Climbs from `p`, the parent of `child`, to the nearest node whose
/// component is a view that lays out children; ranks bound the climb.
spec fn climb(
    n: Seq<Node>,
    rank: spec_fn(u32) -> nat,
    top: nat,
    caps: Seq<Capabilities>,
    child: u32,
    p: u32,
) -> Option<(u32, u32)>
    decreases top - rank(p),
{
    if p == ROOT || p == DETACHED || !live(n, p) {
        None
    } else if caps[n[p as int].kind as int].view && caps[n[p as int].kind as int].children {
        Some((p, child))
    } else {
        let q = n[p as int].parent;
        if q != ROOT && q != DETACHED && rank(p) < rank(q) && rank(q) < top {
            climb(n, rank, top, caps, p, q)
        } else {
            None
        }
    }
}

/// The records in use among the first `k`, with their ids, in id order.
pub open spec fn records_below(n: Seq<Node>, k: int) -> Seq<(u32, Node)>
    decreases k,
{
    if k <= 0 {
        Seq::empty()
    } else if !n[k - 1].free() {
        records_below(n, k - 1).push(((k - 1) as u32, n[k - 1]))
    } else {
        records_below(n, k - 1)
    }
}

/// The record without its pending-delivery mark.
pub open spec fn unmarked(n: Node) -> Node {
    Node { dirty: false, ..n }
}

/// The views of a sequence of deliveries.
pub open spec fn deliveries(v: Seq<Delivery>) -> Seq<(u32, u16, u32, Seq<u32>)> {
    v.map_values(|d: Delivery| d@)
}

/// A record released by `clear`, keeping its pending-delivery mark.
pub open spec fn cleared(n: Node) -> Node {
    Node { generation: next_generation(n.generation), dirty: n.dirty, ..empty_node(0) }
}

proof fn lemma_reaches_rank(n: Seq<Node>, rank: spec_fn(u32) -> nat, top: nat, a: u32, y: u32)
    requires
        reaches(n, rank, top, a, y),
    ensures
        rank(a) >= rank(y),
    decreases top - rank(y),
{
    if y != a {
        lemma_reaches_rank(n, rank, top, a, n[y as int].parent);
    }
}

/// Why a structural change was refused.
#[derive(Clone, Copy, Debug, PartialEq, Eq, Structural)]
pub enum HostError {
    /// The transaction does not follow the last applied one.
    OutOfOrder,
    /// A new id collides with the link sentinels.
    IdOutOfRange,
    /// A new id lies too far past the end of the node vector.
    SkipsTooFar(u32),
    /// A new id names a node in use.
    InUse(u32),
    /// A subscription id did not increase or does not fit in 32 bits.
    SubscriptionOrder,
    /// A request id did not increase or does not fit in 32 bits.
    RequestOrder,
    /// A subscription was given when creating a node of a component without events.
    NoEvents(u16),
    /// A subscription was given to an existing node whose component has no events.
    ViewNoEvents,
    /// An id names no node in use.
    Unknown(u32),
    /// A node is not of the component an operation names.
    Mismatch(u32),
    /// The parent's component does not accept children.
    NoChildren,
    /// The child is the parent or one of its ancestors.
    Cycle,
    /// The insertion anchor is not a child of the parent.
    BadAnchor,
    /// A node created by the transaction was never placed.
    NotAttached(u32),
}

/// The message of a host error, given the registered component names.
pub open spec fn host_error_text(e: HostError, names: Seq<Seq<char>>) -> Seq<char> {
    match e {
        HostError::OutOfOrder => "transaction sequence is out of order"@,
        HostError::IdOutOfRange => "host ID out of range"@,
        HostError::SkipsTooFar(id) => "host ID "@ + decimal(id as nat) + " skips too far ahead"@,
        HostError::InUse(id) => "host ID "@ + decimal(id as nat) + " is in use"@,
        HostError::SubscriptionOrder => "subscription must increase and fit in 32 bits"@,
        HostError::RequestOrder => "request must increase and fit in 32 bits"@,
        HostError::NoEvents(kind) => if (kind as int) < names.len() {
            names[kind as int] + " has no events"@
        } else {
            "component has no events"@
        },
        HostError::ViewNoEvents => "view has no events"@,
        HostError::Unknown(id) => "unknown view "@ + decimal(id as nat),
        HostError::Mismatch(id) => "component mismatch for view "@ + decimal(id as nat),
        HostError::NoChildren => "parent does not accept children"@,
        HostError::Cycle => "child insertion would create a cycle"@,
        HostError::BadAnchor => "insertion anchor is not a child of this parent"@,
        HostError::NotAttached(id) => "new view "@ + decimal(id as nat) + " was not attached"@,
    }
}

/// `prefix`, the decimal digits of `id`, then `suffix`.
fn with_id(prefix: &str, id: u32, suffix: &str) -> (r: String)
    ensures
        r@ == prefix@ + decimal(id as nat) + suffix@,
{
    let mut r = prefix.to_string();
    let digits = decimal_string(id as u64);
    r.append(digits.as_str());
    r.append(suffix);
    r
}

impl HostError {
    /// The human-readable message of this error; `registry` names the
    /// component of a `NoEvents` error.
    pub fn message(&self, registry: &Registry) -> (r: String)
        ensures
            r@ == host_error_text(*self, registry.names()),
    {
        proof {
            reveal_strlit("");
        }
        match self {
            HostError::OutOfOrder => "transaction sequence is out of order".to_string(),
            HostError::IdOutOfRange => "host ID out of range".to_string(),
            HostError::SkipsTooFar(id) => with_id("host ID ", *id, " skips too far ahead"),
            HostError::InUse(id) => with_id("host ID ", *id, " is in use"),
            HostError::SubscriptionOrder => "subscription must increase and fit in 32 bits".to_string(),
            HostError::RequestOrder => "request must increase and fit in 32 bits".to_string(),
            HostError::NoEvents(kind) => {
                if (*kind as usize) < registry.len() {
                    let mut r = registry.registration(*kind).name.clone();
                    proof {
                        assert(registry.names()[*kind as int] == registry.entries()[*kind as int].name@);
                    }
                    r.append(" has no events");
                    r
                } else {
                    "component has no events".to_string()
                }
            },
            HostError::ViewNoEvents => "view has no events".to_string(),
            HostError::Unknown(id) => with_id("unknown view ", *id, ""),
            HostError::Mismatch(id) => with_id("component mismatch for view ", *id, ""),
            HostError::NoChildren => "parent does not accept children".to_string(),
            HostError::Cycle => "child insertion would create a cycle".to_string(),
            HostError::BadAnchor => "insertion anchor is not a child of this parent".to_string(),
            HostError::NotAttached(id) => with_id("new view ", *id, " was not attached"),
        }
    }
}

/// Every detached node in use is one of `ids`.
pub open spec fn detached_within(nodes: Seq<Node>, ids: Seq<u32>) -> bool {
    forall|x: u32| #[trigger] live(nodes, x) && nodes[x as int].parent == DETACHED ==> ids.contains(x)
}

/// Where every detached node in use of `b` was a detached node in use of `a`
/// or is one of `more`, and `more` keeps every entry of `ids`, the detached
/// nodes of `b` are all among `more`.
proof fn lemma_detached_within(a: Seq<Node>, b: Seq<Node>, ids: Seq<u32>, more: Seq<u32>)
    requires
        detached_within(a, ids),
        forall|x: u32| #[trigger] live(b, x) && b[x as int].parent == DETACHED ==> (live(a, x)
            && a[x as int].parent == DETACHED) || more.contains(x),
        forall|x: u32| ids.contains(x) ==> #[trigger] more.contains(x),
    ensures
        detached_within(b, more),
{
    assert forall|x: u32| #[trigger] live(b, x) && b[x as int].parent == DETACHED implies more.contains(x) by {
        if live(a, x) && a[x as int].parent == DETACHED {
            assert(ids.contains(x));
        }
    }
}

/// Records that keep which of them are in use and their parents, and add
/// only free records, keep every detached node among `ids`.
proof fn lemma_detached_steady(a: Seq<Node>, b: Seq<Node>, ids: Seq<u32>)
    requires
        detached_within(a, ids),
        a.len() <= b.len(),
        forall|x: int| 0 <= x < a.len() ==> (#[trigger] b[x]).free() == a[x].free() && b[x].parent == a[x].parent,
        forall|x: int| a.len() <= x < b.len() ==> (#[trigger] b[x]).free(),
    ensures
        detached_within(b, ids),
{
    assert forall|x: u32| #[trigger] live(b, x) && b[x as int].parent == DETACHED implies ids.contains(x) by {
        assert(b[x as int].free() == a[x as int].free());
        assert(live(a, x));
    }
}

/// Where no node in use is detached, every detached node is among any `ids`.
proof fn lemma_none_detached(nodes: Seq<Node>, ids: Seq<u32>)
    requires
        forall|x: u32| #[trigger] live(nodes, x) ==> nodes[x as int].parent != DETACHED,
    ensures
        detached_within(nodes, ids),
{
}

/// The committed tree of one window root.
pub struct Host {
    registry: Registry,
    nodes: Vec<Node>,
    live: usize,
    first_root: u32,
    last_root: u32,
    root_count: u32,
    /// Subscriptions of removed nodes, `(id, generation, subscription)`, kept
    /// until the effects queued before removal have run.
    retiring: Vec<(u32, u16, u32)>,
    /// Nodes whose child lists changed since the last delivery.
    dirty: Vec<u32>,
    /// Nodes created by the transaction being applied.
    created: Vec<u32>,
    sequence: u64,
    pending: u64,
    last_subscription: u64,
    last_request: u64,
    /// The sibling list owned by each node in use, and the roots under `ROOT`.
    lists: Ghost<spec_fn(u32) -> Seq<u32>>,
    /// Strictly increases from every attached node to its parent.
    rank: Ghost<spec_fn(u32) -> nat>,
    /// Bounds every rank in use.
    top: Ghost<nat>,
}

impl Host {
    /// The node records, indexed by host id.
    pub closed spec fn nodes(&self) -> Seq<Node> {
        self.nodes@
    }

    /// The children of node `p` in order, or the roots for `ROOT`.
    pub closed spec fn list(&self, p: u32) -> Seq<u32> {
        (self.lists@)(p)
    }

    /// The component registry the tree was built against.
    pub closed spec fn reg(&self) -> Registry {
        self.registry
    }

    /// The sequence number of the last applied transaction.
    pub closed spec fn applied(&self) -> u64 {
        self.sequence
    }

    /// The retired subscriptions still routable.
    pub closed spec fn retired(&self) -> Seq<(u32, u16, u32)> {
        self.retiring@
    }

    /// The ids awaiting delivery of their child lists.
    pub closed spec fn pending_lists(&self) -> Seq<u32> {
        self.dirty@
    }

    /// The root list's head, tail and count.
    pub closed spec fn root(&self) -> (u32, u32, u32) {
        (self.first_root, self.last_root, self.root_count)
    }

    /// Everything the tree keeps true between operations.
    pub closed spec fn wf(&self) -> bool {
        let n = self.nodes@;
        &&& n.len() <= DETACHED
        &&& self.registry.well_formed()
        &&& forall|x: u32| #[trigger]
            live(n, x) ==> n[x as int].kind < self.registry.entries().len()
        &&& shaped(n, self.lists@, self.root(), self.rank@, self.top@)
        &&& self.live == count_live(n)
        &&& self.marks_ok()
    }

    /// No node in use is detached; with `wf`, every node's parent is `ROOT` or
    /// a node in use. This holds between transactions.
    pub open spec fn attached(&self) -> bool {
        forall|x: u32| #[trigger] live(self.nodes(), x) ==> self.nodes()[x as int].parent != DETACHED
    }

    /// Every detached node in use was created by the transaction being
    /// applied. This holds while a transaction is applied.
    pub closed spec fn detached_are_fresh(&self) -> bool {
        detached_within(self.nodes@, self.created@)
    }

    /// The pending-delivery marks are exactly the ids in `dirty`, once each.
    spec fn marks_ok(&self) -> bool {
        let n = self.nodes@;
        &&& self.dirty@.no_duplicates()
        &&& forall|x: u32|
            (x as int) < n.len() ==> (#[trigger] n[x as int].dirty <==> self.dirty@.contains(x))
        &&& forall|i: int| 0 <= i < self.dirty@.len() ==> (#[trigger] self.dirty@[i] as int) < n.len()
    }

    /// An empty tree over a registry.
    pub fn new(registry: Registry) -> (h: Host)
        ensures
            h.wf(),
            h.attached(),
            h.nodes().len() == 0,
            h.list(ROOT).len() == 0,
            h.reg() == registry,
            h.applied() == 0,
            h.retired().len() == 0,
    {
        registry.check_well_formed();
        let h = Host {
            registry,
            nodes: Vec::new(),
            live: 0,
            first_root: NONE,
            last_root: NONE,
            root_count: 0,
            retiring: Vec::new(),
            dirty: Vec::new(),
            created: Vec::new(),
            sequence: 0,
            pending: 0,
            last_subscription: 0,
            last_request: 0,
            lists: Ghost(|p: u32| Seq::<u32>::empty()),
            rank: Ghost(|p: u32| 0nat),
            top: Ghost(1nat),
        };
        assert(list_fine(h.nodes@, h.lists@, h.root(), ROOT));
        h
    }

    /// The component registry the tree was built against.
    pub fn registry(&self) -> (r: &Registry)
        ensures
            *r == self.reg(),
    {
        &self.registry
    }

    /// The number of nodes in use.
    pub fn len(&self) -> (n: usize)
        requires
            self.wf(),
        ensures
            n == count_live(self.nodes()),
    {
        self.live
    }

    /// No node is in use.
    pub fn is_empty(&self) -> (b: bool)
        requires
            self.wf(),
        ensures
            b == (count_live(self.nodes()) == 0),
    {
        self.live == 0
    }

    /// The record of a node in use.
    pub fn node(&self, id: u32) -> (r: Option<Node>)
        ensures
            r == (if live(self.nodes(), id) {
                Some(self.nodes()[id as int])
            } else {
                None::<Node>
            }),
    {
        if (id as usize) < self.nodes.len() && self.nodes[id as usize].kind != EMPTY_KIND {
            Some(self.nodes[id as usize])
        } else {
            None
        }
    }

    /// The record of a node in use, or `Unknown`.
    pub fn existing(&self, id: u32) -> (r: Result<Node, HostError>)
        ensures
            r == (if live(self.nodes(), id) {
                Ok(self.nodes()[id as int])
            } else {
                Err::<Node, HostError>(HostError::Unknown(id))
            }),
    {
        match self.node(id) {
            Some(n) => Ok(n),
            None => Err(HostError::Unknown(id)),
        }
    }

    /// The record of a node in use of the given component.
    pub fn checked(&self, id: u32, kind: u16) -> (r: Result<Node, HostError>)
        ensures
            r == (if !live(self.nodes(), id) {
                Err::<Node, HostError>(HostError::Unknown(id))
            } else if self.nodes()[id as int].kind != kind {
                Err::<Node, HostError>(HostError::Mismatch(id))
            } else {
                Ok(self.nodes()[id as int])
            }),
    {
        let node = self.existing(id)?;
        if node.kind != kind {
            return Err(HostError::Mismatch(id));
        }
        Ok(node)
    }

    /// Everything but the records, the lists and the ranks is unchanged.
    spec fn frame(&self, old: &Host) -> bool {
        &&& self.registry == old.registry
        &&& self.retiring@ == old.retiring@
        &&& self.created@ == old.created@
        &&& self.sequence == old.sequence
        &&& self.pending == old.pending
        &&& self.last_subscription == old.last_subscription
        &&& self.last_request == old.last_request
    }

    /// Marks the list owned by `p` for delivery to its view.
    fn mark(&mut self, p: u32)
        requires
            old(self).wf(),
        ensures
            final(self).wf(),
            old(self).detached_are_fresh() ==> final(self).detached_are_fresh(),
            final(self).frame(old(self)),
            final(self).live == old(self).live,
            final(self).lists@ == old(self).lists@,
            final(self).rank@ == old(self).rank@,
            final(self).top@ == old(self).top@,
            final(self).first_root == old(self).first_root,
            final(self).last_root == old(self).last_root,
            final(self).root_count == old(self).root_count,
            final(self).nodes@.len() == old(self).nodes@.len(),
            forall|x: int|
                0 <= x < old(self).nodes@.len() ==> kept(#[trigger] final(self).nodes@[x], old(self).nodes@[x])
                    && same_links(final(self).nodes@[x], old(self).nodes@[x]),
            forall|x: int|
                0 <= x < old(self).nodes@.len() && x != p ==> #[trigger] final(self).nodes@[x]
                    == old(self).nodes@[x],
            final(self).dirty@.to_set() == if (p as int) < old(self).nodes@.len() {
                old(self).dirty@.to_set().insert(p)
            } else {
                old(self).dirty@.to_set()
            },
    {
        let ghost before = self.nodes@;
        if (p as usize) < self.nodes.len() && !self.nodes[p as usize].dirty {
            let mut n = self.nodes[p as usize];
            n.dirty = true;
            self.nodes.set(p as usize, n);
            self.dirty.push(p);
            proof {
                broadcast use vstd::seq_lib::group_seq_properties;
                assert(self.dirty@.to_set() =~= old(self).dirty@.to_set().insert(p));
                assert forall|x: u32| (x as int) < self.nodes@.len() implies (
                #[trigger] self.nodes@[x as int].dirty <==> self.dirty@.contains(x)) by {
                    if x != p {
                        if old(self).dirty@.contains(x) {
                            let i = choose|i: int| 0 <= i < old(self).dirty@.len() && old(self).dirty@[i] == x;
                            assert(self.dirty@[i] == x);
                        }
                        if self.dirty@.contains(x) {
                            let i = choose|i: int| 0 <= i < self.dirty@.len() && self.dirty@[i] == x;
                            if i < old(self).dirty@.len() {
                                assert(old(self).dirty@[i] == x);
                            }
                        }
                    } else {
                        assert(self.dirty@[self.dirty@.len() - 1] == p);
                    }
                }
                assert(self.dirty@.no_duplicates());
                assert(steady(before, self.nodes@));
                lemma_steady_shaped(before, self.nodes@, self.lists@, self.root(), self.rank@, self.top@);
                assert forall|x: u32| #[trigger] live(self.nodes@, x) implies self.nodes@[x as int].kind
                    < self.registry.entries().len() by {
                    assert(live(before, x));
                }
            }
        } else {
            proof {
                if (p as int) < self.nodes@.len() {
                    assert(self.dirty@.to_set() =~= old(self).dirty@.to_set().insert(p));
                }
            }
        }
        proof {
            if old(self).detached_are_fresh() {
                lemma_detached_steady(before, self.nodes@, self.created@);
            }
        }
    }

    /// Takes `id` out of its parent's list and marks that list; a detached
    /// node is left as it is.
    fn detach(&mut self, id: u32)
        requires
            old(self).wf(),
            live(old(self).nodes@, id),
        ensures
            final(self).wf(),
            final(self).frame(old(self)),
            final(self).live == old(self).live,
            final(self).rank@ == old(self).rank@,
            final(self).top@ == old(self).top@,
            final(self).nodes@.len() == old(self).nodes@.len(),
            forall|x: int|
                0 <= x < old(self).nodes@.len() ==> kept(
                    #[trigger] final(self).nodes@[x],
                    old(self).nodes@[x],
                ),
            forall|x: int|
                0 <= x < old(self).nodes@.len() && x != id ==> (#[trigger] final(self).nodes@[x]).parent
                    == old(self).nodes@[x].parent,
            final(self).nodes@[id as int].parent == DETACHED,
            forall|q: u32|
                #[trigger] final(self).list(q) == if old(self).nodes@[id as int].parent != DETACHED && q
                    == old(self).nodes@[id as int].parent {
                    without(old(self).list(q), id)
                } else {
                    old(self).list(q)
                },
            final(self).dirty@.to_set() == if old(self).nodes@[id as int].parent != DETACHED
                && old(self).nodes@[id as int].parent != ROOT {
                old(self).dirty@.to_set().insert(old(self).nodes@[id as int].parent)
            } else {
                old(self).dirty@.to_set()
            },
    {
        let p = self.nodes[id as usize].parent;
        self.unlink(id);
        let ghost mid = *self;
        if p != DETACHED {
            self.mark(p);
        }
        assert forall|q: u32| #[trigger] self.list(q) == mid.list(q) by {}
    }

    /// Takes `id` out of its parent's list.
    #[verifier::rlimit(80)]
    #[verifier::spinoff_prover]
    fn unlink(&mut self, id: u32)
        requires
            old(self).wf(),
            live(old(self).nodes@, id),
        ensures
            final(self).wf(),
            final(self).frame(old(self)),
            final(self).live == old(self).live,
            final(self).rank@ == old(self).rank@,
            final(self).top@ == old(self).top@,
            final(self).nodes@.len() == old(self).nodes@.len(),
            forall|x: int|
                0 <= x < old(self).nodes@.len() ==> kept(
                    #[trigger] final(self).nodes@[x],
                    old(self).nodes@[x],
                ),
            forall|x: int|
                0 <= x < old(self).nodes@.len() && x != id ==> (#[trigger] final(self).nodes@[x]).parent
                    == old(self).nodes@[x].parent,
            final(self).nodes@[id as int].parent == DETACHED,
            forall|q: u32|
                #[trigger] final(self).list(q) == if old(self).nodes@[id as int].parent != DETACHED && q
                    == old(self).nodes@[id as int].parent {
                    without(old(self).list(q), id)
                } else {
                    old(self).list(q)
                },
            final(self).dirty@ == old(self).dirty@,
    {
        let node = self.nodes[id as usize];
        if node.parent == DETACHED {
            return;
        }
        let p = node.parent;
        let prev = node.prev_sibling;
        let next = node.next_sibling;
        let ghost n = self.nodes@;
        let ghost root = self.root();
        proof {
            lemma_unlink_facts(n, self.lists@, root, self.rank@, self.top@, id);
        }
        if prev != NONE {
            let mut a = self.nodes[prev as usize];
            a.next_sibling = next;
            self.nodes.set(prev as usize, a);
        }
        if next != NONE {
            let mut b = self.nodes[next as usize];
            b.prev_sibling = prev;
            self.nodes.set(next as usize, b);
        }
        if p == ROOT {
            if self.first_root == id {
                self.first_root = next;
            }
            if self.last_root == id {
                self.last_root = prev;
            }
            self.root_count = self.root_count - 1;
        } else {
            let mut h = self.nodes[p as usize];
            if h.first_child == id {
                h.first_child = next;
            }
            if h.last_child == id {
                h.last_child = prev;
            }
            h.child_count = h.child_count - 1;
            self.nodes.set(p as usize, h);
        }
        let mut m = self.nodes[id as usize];
        m.parent = DETACHED;
        m.prev_sibling = NONE;
        m.next_sibling = NONE;
        self.nodes.set(id as usize, m);
        let ghost old_lists = self.lists@;
        let ghost l2 = without(old_lists(p), id);
        self.lists = Ghost(|q: u32| if q == p { l2 } else { old_lists(q) });
        proof {
            let n1 = self.nodes@;
            let h = head_of(n, root, p);
            let h1 = (
                if h.0 == id {
                    next
                } else {
                    h.0
                },
                if h.1 == id {
                    prev
                } else {
                    h.1
                },
                (h.2 - 1) as u32,
            );
            lemma_unlink_records(n, n1, root, id, p, prev, next, h1);
            lemma_unlink_shape(n, n1, old_lists, self.lists@, root, self.root(), self.rank@, self.top@, id);
            assert forall|x: int| 0 <= x < n.len() implies kept(#[trigger] n1[x], n[x]) && n1[x].dirty
                == n[x].dirty && (x != id ==> n1[x].parent == n[x].parent) by {
                if x != prev && x != next && x != p && x != id {
                    assert(n1[x] == n[x]);
                }
            }
            lemma_count_live_frame(n, n1);
            assert forall|x: u32| #[trigger] live(n1, x) implies n1[x as int].kind
                < self.registry.entries().len() by {
                assert(live(n, x));
            }
            assert forall|x: u32| (x as int) < n1.len() implies (#[trigger] n1[x as int].dirty
                <==> self.dirty@.contains(x)) by {
                assert(n1[x as int].dirty == n[x as int].dirty);
            }
            assert forall|q: u32| #[trigger] self.list(q) == (if q == p {
                without(old(self).list(q), id)
            } else {
                old(self).list(q)
            }) by {}
        }
    }

    /// Lists a detached node under `p`, before `anchor` or at the end when
    /// `anchor` is `NONE`.
    #[verifier::rlimit(40)]
    #[verifier::spinoff_prover]
    fn link(&mut self, p: u32, child: u32, anchor: u32)
        requires
            old(self).wf(),
            live(old(self).nodes@, child),
            old(self).nodes@[child as int].parent == DETACHED,
            p == ROOT || (live(old(self).nodes@, p) && (old(self).rank@)(p) > (old(self).rank@)(
                child)),
            anchor == NONE || (live(old(self).nodes@, anchor) && old(self).nodes@[anchor as int].parent
                == p),
        ensures
            final(self).wf(),
            final(self).frame(old(self)),
            final(self).live == old(self).live,
            final(self).rank@ == old(self).rank@,
            final(self).top@ == old(self).top@,
            final(self).dirty@ == old(self).dirty@,
            final(self).nodes@.len() == old(self).nodes@.len(),
            forall|x: int|
                0 <= x < old(self).nodes@.len() ==> kept(
                    #[trigger] final(self).nodes@[x],
                    old(self).nodes@[x],
                ) && (x != child ==> final(self).nodes@[x].parent == old(self).nodes@[x].parent),
            final(self).nodes@[child as int].parent == p,
            forall|q: u32|
                #[trigger] final(self).list(q) == if q == p {
                    old(self).list(p).insert(slot_of(old(self).list(p), anchor), child)
                } else {
                    old(self).list(q)
                },
    {
        let ghost n = self.nodes@;
        let ghost root = self.root();
        let ghost l = self.list(p);
        proof {
            lemma_link_facts(n, self.lists@, root, self.rank@, self.top@, p, child, anchor);
        }
        let prev = if anchor != NONE {
            self.nodes[anchor as usize].prev_sibling
        } else if p == ROOT {
            self.last_root
        } else {
            self.nodes[p as usize].last_child
        };
        let next = anchor;
        if prev != NONE {
            let mut a = self.nodes[prev as usize];
            a.next_sibling = child;
            self.nodes.set(prev as usize, a);
        }
        if next != NONE {
            let mut b = self.nodes[next as usize];
            b.prev_sibling = child;
            self.nodes.set(next as usize, b);
        }
        if p == ROOT {
            if prev == NONE {
                self.first_root = child;
            }
            if next == NONE {
                self.last_root = child;
            }
            self.root_count = self.root_count + 1;
        } else {
            let mut h = self.nodes[p as usize];
            if prev == NONE {
                h.first_child = child;
            }
            if next == NONE {
                h.last_child = child;
            }
            h.child_count = h.child_count + 1;
            self.nodes.set(p as usize, h);
        }
        let mut m = self.nodes[child as usize];
        m.parent = p;
        m.prev_sibling = prev;
        m.next_sibling = next;
        self.nodes.set(child as usize, m);
        let ghost old_lists = self.lists@;
        let ghost l2 = l.insert(slot_of(l, anchor), child);
        self.lists = Ghost(|q: u32| if q == p { l2 } else { old_lists(q) });
        proof {
            let n1 = self.nodes@;
            let h = head_of(n, root, p);
            let h1 = (
                if prev == NONE {
                    child
                } else {
                    h.0
                },
                if next == NONE {
                    child
                } else {
                    h.1
                },
                (h.2 + 1) as u32,
            );
            lemma_link_records(n, n1, child, p, prev, next, h1);
            lemma_link_shape(n, n1, old_lists, self.lists@, root, self.root(), self.rank@, self.top@, p, child, anchor);
            assert forall|x: int| 0 <= x < n.len() implies #[trigger] n1[x].free() == n[x].free()
                && kept(n1[x], n[x]) && n1[x].dirty == n[x].dirty && (x != child ==> n1[x].parent
                == n[x].parent) by {
                if x != prev && x != next && x != p && x != child {
                    assert(n1[x] == n[x]);
                }
            }
            lemma_count_live_frame(n, n1);
            assert forall|x: u32| #[trigger] live(n1, x) implies n1[x as int].kind
                < self.registry.entries().len() by {
                assert(live(n, x));
            }
            assert forall|x: u32| (x as int) < n1.len() implies (#[trigger] n1[x as int].dirty
                <==> self.dirty@.contains(x)) by {
                assert(n1[x as int].dirty == n[x as int].dirty);
            }
            assert forall|q: u32| #[trigger] self.list(q) == (if q == p {
                l2
            } else {
                old(self).list(q)
            }) by {}
        }
    }

    /// `a` is `x` or one of its ancestors.
    pub closed spec fn above(&self, a: u32, x: u32) -> bool {
        reaches(self.nodes@, self.rank@, self.top@, a, x)
    }

    /// A node's ancestors are its parent and the parent's ancestors.
    pub proof fn lemma_above(&self, a: u32, x: u32)
        requires
            self.wf(),
        ensures
            self.above(a, x) == (x == a || (live(self.nodes(), x) && self.nodes()[x as int].parent
                != ROOT && self.nodes()[x as int].parent != DETACHED && self.above(
                a,
                self.nodes()[x as int].parent,
            ))),
    {
        let n = self.nodes@;
        if x != a && live(n, x) && n[x as int].parent != ROOT && n[x as int].parent != DETACHED {
            let q = n[x as int].parent;
            assert((self.rank@)(q) > (self.rank@)(x));
            assert(placed_in(n, self.lists@, x));
            assert((self.rank@)(q) < self.top@);
        }
    }

    /// The tree holds no cycle: no node is an ancestor of its own parent.
    pub proof fn lemma_acyclic(&self, x: u32)
        requires
            self.wf(),
            live(self.nodes(), x),
            self.nodes()[x as int].parent != ROOT,
            self.nodes()[x as int].parent != DETACHED,
        ensures
            !self.above(x, self.nodes()[x as int].parent),
    {
        let p = self.nodes@[x as int].parent;
        assert((self.rank@)(p) > (self.rank@)(x));
        if self.above(x, p) {
            lemma_reaches_rank(self.nodes@, self.rank@, self.top@, x, p);
        }
    }

    /// The links of every tree, for one list: the children of a node in use,
    /// or the roots under `ROOT`. The owner's head, tail and count (the root
    /// fields for `ROOT`) spell the list; no id occurs in it twice; each entry
    /// is a node in use whose parent is the owner and whose sibling links
    /// name its neighbours in the list.
    pub proof fn lemma_list_links(&self, p: u32)
        requires
            self.wf(),
            p == ROOT || live(self.nodes(), p),
        ensures
            ({
                let n = self.nodes();
                let l = self.list(p);
                &&& if p == ROOT {
                    chained(n, ROOT, l, self.root().0, self.root().1, self.root().2)
                } else {
                    chained(n, p, l, n[p as int].first_child, n[p as int].last_child, n[p as int].child_count)
                }
                &&& l.no_duplicates()
                &&& forall|i: int| 0 <= i < l.len() ==> #[trigger] member(n, p, l, i)
            }),
    {
    }

    /// The links of every tree, for one node `x` in use: its parent is
    /// `ROOT`, a node in use, or `DETACHED` (created and not yet placed, with
    /// no siblings). Once attached it occurs exactly once in its parent's
    /// list, its sibling links name its neighbours there and point back to
    /// it, and it is not an ancestor of its own parent.
    pub proof fn lemma_node_links(&self, x: u32)
        requires
            self.wf(),
            live(self.nodes(), x),
        ensures
            ({
                let n = self.nodes();
                let node = n[x as int];
                let p = node.parent;
                &&& p == ROOT || p == DETACHED || live(n, p)
                &&& p == DETACHED ==> node.prev_sibling == NONE && node.next_sibling == NONE
                &&& p != DETACHED ==> {
                    &&& self.list(p).contains(x)
                    &&& self.list(p).no_duplicates()
                    &&& exists|i: int| 0 <= i < self.list(p).len() && self.list(p)[i] == x && member(n, p, self.list(p), i)
                    &&& node.next_sibling != NONE ==> live(n, node.next_sibling) && n[node.next_sibling as int].prev_sibling == x
                    &&& node.prev_sibling != NONE ==> live(n, node.prev_sibling) && n[node.prev_sibling as int].next_sibling == x
                }
                &&& p != ROOT && p != DETACHED ==> !self.above(x, p)
            }),
    {
        let n = self.nodes@;
        let p = n[x as int].parent;
        assert(placed_in(n, self.lists@, x));
        if p != DETACHED {
            let l = self.list(p);
            assert(list_fine(n, self.lists@, self.root(), p));
            let i = choose|i: int| 0 <= i < l.len() && l[i] == x;
            assert(member(n, p, l, i));
            if i + 1 < l.len() {
                assert(member(n, p, l, i + 1));
            }
            if i > 0 {
                assert(member(n, p, l, i - 1));
            }
            if p != ROOT {
                self.lemma_acyclic(x);
            }
        }
    }

    /// A walk up that reaches `a` within some number of links reaches it
    /// in the tree's sense.
    proof fn lemma_up_to_reaches(&self, a: u32, x: u32, fuel: nat)
        requires
            self.wf(),
            up_to(self.nodes@, a, x, fuel),
        ensures
            reaches(self.nodes@, self.rank@, self.top@, a, x),
        decreases fuel,
    {
        let n = self.nodes@;
        if x != a {
            let p = n[x as int].parent;
            assert(placed_in(n, self.lists@, x));
            assert((self.rank@)(p) > (self.rank@)(x));
            assert((self.rank@)(p) < self.top@);
            self.lemma_up_to_reaches(a, p, (fuel - 1) as nat);
        }
    }

    /// The nodes passed on the way up from `x` to its ancestor `a`: in use,
    /// ranked ever higher, and enough links to walk it.
    proof fn lemma_reaches_path(&self, a: u32, x: u32) -> (path: Seq<u32>)
        requires
            self.wf(),
            reaches(self.nodes@, self.rank@, self.top@, a, x),
        ensures
            up_to(self.nodes@, a, x, path.len()),
            forall|i: int| 0 <= i < path.len() ==> live(self.nodes@, #[trigger] path[i]),
            forall|i: int| 0 <= i < path.len() ==> (self.rank@)(#[trigger] path[i]) >= (self.rank@)(x),
            forall|i: int, j: int| 0 <= i < j < path.len() ==> (self.rank@)(#[trigger] path[i]) < (self.rank@)(
                #[trigger] path[j],
            ),
        decreases self.top@ - (self.rank@)(x),
    {
        let n = self.nodes@;
        if x == a {
            Seq::empty()
        } else {
            let p = n[x as int].parent;
            let rest = self.lemma_reaches_path(a, p);
            let path = seq![x] + rest;
            assert forall|i: int, j: int| 0 <= i < j < path.len() implies (self.rank@)(#[trigger] path[i]) < (
            self.rank@)(#[trigger] path[j]) by {
                if i == 0 {
                    assert(path[j] == rest[j - 1]);
                } else {
                    assert(path[i] == rest[i - 1]);
                    assert(path[j] == rest[j - 1]);
                }
            }
            assert forall|i: int| 0 <= i < path.len() implies live(n, #[trigger] path[i]) && (self.rank@)(path[i])
                >= (self.rank@)(x) by {
                if i > 0 {
                    assert(path[i] == rest[i - 1]);
                }
            }
            assert(path.drop_first() == rest);
            path
        }
    }

    /// More links to walk never loses an ancestor.
    proof fn lemma_up_to_more(n: Seq<Node>, a: u32, x: u32, f: nat, g: nat)
        requires
            up_to(n, a, x, f),
            f <= g,
        ensures
            up_to(n, a, x, g),
        decreases f,
    {
        if x != a {
            Self::lemma_up_to_more(n, a, n[x as int].parent, (f - 1) as nat, (g - 1) as nat);
        }
    }

    /// Every id of a record fits below the link sentinels.
    pub proof fn lemma_len_bound(&self)
        requires
            self.wf(),
        ensures
            self.nodes().len() <= DETACHED,
    {
    }

    /// The sketch's walk up, bounded by the number of records, finds exactly
    /// the tree's ancestors.
    pub proof fn lemma_above_in(&self, a: u32, x: u32)
        requires
            self.wf(),
        ensures
            self.above(a, x) == above_in(self.nodes(), a, x),
    {
        let n = self.nodes@;
        if above_in(n, a, x) {
            self.lemma_up_to_reaches(a, x, n.len());
        }
        if self.above(a, x) {
            let path = self.lemma_reaches_path(a, x);
            assert(path.no_duplicates()) by {
                assert forall|i: int, j: int| 0 <= i < path.len() && 0 <= j < path.len() && i != j implies path[i]
                    != path[j] by {
                    if i < j {
                        assert((self.rank@)(path[i]) < (self.rank@)(path[j]));
                    } else {
                        assert((self.rank@)(path[j]) < (self.rank@)(path[i]));
                    }
                }
            }
            assert forall|i: int| 0 <= i < path.len() implies (#[trigger] path[i] as int) < n.len() by {
                assert(live(n, path[i]));
            }
            lemma_distinct_bound(path, n.len() as int);
            Self::lemma_up_to_more(n, a, x, path.len(), n.len());
        }
    }

    /// The sketch refuses a placement exactly when the tree does, with the
    /// same error.
    pub proof fn lemma_rehearsed_place(&self, parent: Option<u32>, child: u32, before: Option<u32>)
        requires
            self.wf(),
        ensures
            match place_step(self.sketch(), self.reg().caps(), parent, child, before) {
                Err(e) => self.place_error(parent, child, before) == Some(e),
                Ok(_) => self.place_error(parent, child, before) is None,
            },
    {
        let target = match parent {
            Some(id) => id,
            None => ROOT,
        };
        self.lemma_above_in(child, target);
    }

    /// What `place` refuses, if anything, in the order it checks.
    pub open spec fn place_error(&self, parent: Option<u32>, child: u32, before: Option<u32>) -> Option<
        HostError,
    > {
        let n = self.nodes();
        let target = match parent {
            Some(id) => id,
            None => ROOT,
        };
        if parent is Some && !live(n, target) {
            Some(HostError::Unknown(target))
        } else if parent is Some && !self.reg().caps()[n[target as int].kind as int].children {
            Some(HostError::NoChildren)
        } else if !live(n, child) {
            Some(HostError::Unknown(child))
        } else if self.above(child, target) {
            Some(HostError::Cycle)
        } else if before == Some(child) {
            None
        } else {
            match before {
                Some(a) => if !live(n, a) {
                    Some(HostError::Unknown(a))
                } else if n[a as int].parent != target {
                    Some(HostError::BadAnchor)
                } else {
                    None
                },
                None => None,
            }
        }
    }

    /// Places `child` under `parent` (the roots for `None`), before `before`
    /// or at the end, taking it out of its current list first.
    pub fn place(&mut self, parent: Option<u32>, child: u32, before: Option<u32>) -> (r: Result<
        (),
        HostError,
    >)
        requires
            old(self).wf(),
        ensures
            final(self).wf(),
            final(self).fresh() == old(self).fresh(),
            final(self).subscribed() == old(self).subscribed(),
            final(self).requested() == old(self).requested(),
            final(self).upcoming() == old(self).upcoming(),
            old(self).detached_are_fresh() ==> final(self).detached_are_fresh(),
            final(self).reg() == old(self).reg(),
            final(self).applied() == old(self).applied(),
            final(self).retired() == old(self).retired(),
            r == (match old(self).place_error(parent, child, before) {
                Some(e) => Err(e),
                None => Ok(()),
            }),
            r is Err || before == Some(child) ==> final(self).nodes() == old(self).nodes() && forall|
                q: u32,
            | #[trigger] final(self).list(q) == old(self).list(q),
            r is Ok && before != Some(child) ==> ({
                let target = match parent {
                    Some(id) => id,
                    None => ROOT,
                };
                let from = old(self).nodes()[child as int].parent;
                let anchor = match before {
                    Some(a) => a,
                    None => NONE,
                };
                let mid = |q: u32|
                    if from != DETACHED && q == from {
                        without(old(self).list(q), child)
                    } else {
                        old(self).list(q)
                    };
                &&& final(self).nodes().len() == old(self).nodes().len()
                &&& forall|x: int|
                    0 <= x < old(self).nodes().len() ==> kept(
                        #[trigger] final(self).nodes()[x],
                        old(self).nodes()[x],
                    ) && (x != child ==> final(self).nodes()[x].parent == old(self).nodes()[x].parent)
                &&& final(self).nodes()[child as int].parent == target
                &&& forall|q: u32|
                    #[trigger] final(self).list(q) == if q == target {
                        mid(target).insert(slot_of(mid(target), anchor), child)
                    } else {
                        mid(q)
                    }
            }),
    {
        let target = match parent {
            Some(id) => {
                let node = self.existing(id)?;
                let caps = self.registry.registration(node.kind).capabilities;
                proof {
                    assert(live(self.nodes@, id));
                    assert(self.reg().caps()[node.kind as int] == caps);
                }
                if !caps.children {
                    return Err(HostError::NoChildren);
                }
                id
            },
            None => ROOT,
        };
        self.existing(child)?;
        let ghost n = self.nodes@;
        let mut ancestor = target;
        let ghost mut anc: Set<u32> = Set::empty();
        while ancestor != ROOT && ancestor != DETACHED
            invariant
                self.wf(),
                *self == *old(self),
                n == self.nodes@,
                target == (match parent {
                    Some(id) => id,
                    None => ROOT,
                }),
                parent is Some ==> live(n, target) && self.reg().caps()[n[target as int].kind as int].children,
                ancestor == ROOT || ancestor == DETACHED || live(n, ancestor),
                live(n, child),
                target == ROOT || live(n, target),
                self.above(child, target) == self.above(child, ancestor),
                forall|a: u32|
                    #[trigger] anc.contains(a) ==> live(n, a) && a != child && (n[a as int].parent == ROOT
                        || n[a as int].parent == DETACHED || anc.contains(n[a as int].parent)
                        || n[a as int].parent == ancestor),
                target != ROOT ==> (anc.contains(target) || ancestor == target),
            decreases (if ancestor == ROOT || ancestor == DETACHED {
                0
            } else {
                self.top@ - (self.rank@)(ancestor)
            }),
        {
            if ancestor == child {
                proof {
                    self.lemma_above(child, ancestor);
                }
                return Err(HostError::Cycle);
            }
            let up = self.nodes[ancestor as usize].parent;
            proof {
                self.lemma_above(child, ancestor);
                assert(placed_in(n, self.lists@, ancestor));
                if up != ROOT && up != DETACHED {
                    assert((self.rank@)(up) > (self.rank@)(ancestor));
                    assert((self.rank@)(up) < self.top@);
                }
                assert((self.rank@)(ancestor) < self.top@);
                anc = anc.insert(ancestor);
            }
            ancestor = up;
        }
        proof {
            self.lemma_above(child, ancestor);
        }
        if before == Some(child) {
            return Ok(());
        }
        let anchor = match before {
            Some(a) => {
                let node = self.existing(a)?;
                if node.parent != target {
                    return Err(HostError::BadAnchor);
                }
                a
            },
            None => NONE,
        };
        if target != ROOT {
            let ghost d = (self.rank@)(child) + 1;
            let ghost rank = self.rank@;
            let ghost rank2 = |x: u32|
                if anc.contains(x) {
                    (rank(x) + d) as nat
                } else {
                    rank(x)
                };
            proof {
                lemma_rerank(n, self.lists@, self.root(), self.rank@, self.top@, anc, child, target);
            }
            self.rank = Ghost(rank2);
            self.top = Ghost((self.top@ + d) as nat);
        }
        let ghost before_detach = *self;
        self.detach(child);
        let ghost after_detach = *self;
        self.link(target, child, anchor);
        let ghost after_link = *self;
        self.mark(target);
        proof {
            assert forall|q: u32| #[trigger] self.list(q) == after_link.list(q) by {}
            assert forall|q: u32| #[trigger] before_detach.list(q) == old(self).list(q) by {}
            assert forall|x: int| 0 <= x < n.len() implies kept(
                #[trigger] self.nodes@[x],
                n[x],
            ) && (x != child ==> self.nodes@[x].parent == n[x].parent) by {
                assert(kept(after_detach.nodes@[x], n[x]));
                assert(kept(after_link.nodes@[x], after_detach.nodes@[x]));
            }
            assert(self.nodes@[child as int].parent == target);
            assert forall|x: u32| #[trigger] live(self.nodes@, x) && self.nodes@[x as int].parent == DETACHED implies (
            live(n, x) && n[x as int].parent == DETACHED) || self.created@.contains(x) by {
                assert(kept(self.nodes@[x as int], n[x as int]));
            }
            if old(self).detached_are_fresh() {
                lemma_detached_within(n, self.nodes@, old(self).created@, self.created@);
            }
        }
        Ok(())
    }

    /// The node a command or query runs on, with its value: a value that did
    /// not decode keeps its error, and a node that is not in use or not of the
    /// named component gives the message of that refusal. Either way the
    /// error becomes the call's answer and the transaction goes on.
    pub fn call_target<V>(&self, id: u32, kind: u16, value: Result<V, String>) -> (r: Result<(Node, V), String>)
        ensures
            match value {
                Err(e) => r == Err::<(Node, V), String>(e),
                Ok(v) => if !live(self.nodes(), id) {
                    r matches Err(m) && m@ == host_error_text(HostError::Unknown(id), self.reg().names())
                } else if self.nodes()[id as int].kind != kind {
                    r matches Err(m) && m@ == host_error_text(HostError::Mismatch(id), self.reg().names())
                } else {
                    r == Ok::<(Node, V), String>((self.nodes()[id as int], v))
                },
            },
    {
        match value {
            Err(e) => Err(e),
            Ok(v) => match self.checked(id, kind) {
                Ok(node) => Ok((node, v)),
                Err(e) => Err(e.message(&self.registry)),
            },
        }
    }

    /// What a transaction's checks read of this tree.
    pub open spec fn sketch(&self) -> Sketch {
        Sketch { nodes: self.nodes(), subscribed: self.subscribed(), requested: self.requested(), fresh: self.fresh() }
    }

    /// Takes a transaction's operations in order on a sketch of this tree,
    /// before any of them is applied or any component is created or
    /// updated: the first thing the tree would refuse, if anything. The tree
    /// itself does not change.
    pub fn rehearse<P>(&self, ops: &Vec<Op<P>>) -> (r: Result<(), HostError>)
        requires
            self.wf(),
            kinds_below(ops@, self.reg().entries().len() as int),
        ensures
            r == match refusal(self.sketch(), self.reg().caps(), ops@) {
                Some(e) => Err::<(), HostError>(e),
                None => Ok(()),
            },
    {
        let mut nodes: Vec<Node> = Vec::new();
        let mut i: usize = 0;
        while i < self.nodes.len()
            invariant
                i <= self.nodes@.len(),
                nodes@ == self.nodes@.take(i as int),
            decreases self.nodes@.len() - i,
        {
            nodes.push(self.nodes[i]);
            proof {
                assert(self.nodes@.take(i + 1) =~= self.nodes@.take(i as int).push(self.nodes@[i as int]));
            }
            i = i + 1;
        }
        let mut fresh: Vec<u32> = Vec::new();
        let mut j: usize = 0;
        while j < self.created.len()
            invariant
                j <= self.created@.len(),
                fresh@ == self.created@.take(j as int),
            decreases self.created@.len() - j,
        {
            fresh.push(self.created[j]);
            proof {
                assert(self.created@.take(j + 1) =~= self.created@.take(j as int).push(self.created@[j as int]));
            }
            j = j + 1;
        }
        proof {
            assert(self.nodes@.take(i as int) =~= self.nodes@);
            assert(self.created@.take(j as int) =~= self.created@);
            assert(self.reg().caps().len() == self.reg().entries().len());
        }
        let mut rehearsal = Rehearsal {
            nodes,
            subscribed: self.last_subscription,
            requested: self.last_request,
            fresh,
        };
        crate::plan::rehearse(&mut rehearsal, &self.registry, ops)
    }

    /// The subtree of a detached node, each node after its parent.
    fn subtree(&self, id: u32) -> (order: Vec<u32>)
        requires
            self.wf(),
            live(self.nodes@, id),
            self.nodes@[id as int].parent == DETACHED,
        ensures
            order@.len() >= 1,
            order@[0] == id,
            order@.no_duplicates(),
            forall|j: int|
                0 <= j < order@.len() ==> live(self.nodes@, #[trigger] order@[j]) && self.above(
                    id,
                    order@[j],
                ),
            forall|j: int|
                1 <= j < order@.len() ==> exists|k: int|
                    0 <= k < j && #[trigger] self.nodes@[order@[j] as int].parent == order@[k],
            forall|x: u32| live(self.nodes@, x) && #[trigger] self.above(id, x) ==> order@.contains(x),
    {
        let ghost n = self.nodes@;
        let mut order: Vec<u32> = Vec::new();
        order.push(id);
        let ghost mut pidx: Seq<int> = seq![-1int];
        let mut index: usize = 0;
        proof {
            self.lemma_above(id, id);
        }
        while index < order.len()
            invariant
                self.wf(),
                n == self.nodes@,
                live(n, id),
                n[id as int].parent == DETACHED,
                1 <= order@.len(),
                order@[0] == id,
                index <= order@.len(),
                order@.no_duplicates(),
                forall|j: int|
                    0 <= j < order@.len() ==> live(n, #[trigger] order@[j]) && self.above(id, order@[j]),
                pidx.len() == order@.len(),
                forall|j: int|
                    1 <= j < order@.len() ==> 0 <= #[trigger] pidx[j] < j && pidx[j] < index
                        && n[order@[j] as int].parent == order@[pidx[j]],
                forall|k: int, c: u32|
                    0 <= k < index && #[trigger] self.list(order@[k]).contains(c) ==> #[trigger] order@.contains(c),
            decreases n.len() - index,
        {
            proof {
                assert forall|j: int| 0 <= j < order@.len() implies (#[trigger] order@[j] as int) < n.len() by {
                    assert(live(n, order@[j]));
                }
                lemma_distinct_bound(order@, n.len() as int);
            }
            let owner = order[index];
            let ghost l = self.list(owner);
            let ghost start = order@.len();
            proof {
                assert(live(n, owner));
                assert(list_fine(n, self.lists@, self.root(), owner));
            }
            let mut child = self.nodes[owner as usize].first_child;
            let ghost mut t: int = 0;
            while child != NONE
                invariant
                    self.wf(),
                    n == self.nodes@,
                    live(n, id),
                    n[id as int].parent == DETACHED,
                    index < start <= order@.len(),
                    owner == order@[index as int],
                    l == self.list(owner),
                    list_fine(n, self.lists@, self.root(), owner),
                    0 <= t <= l.len(),
                    child == (if t < l.len() {
                        l[t]
                    } else {
                        NONE
                    }),
                    order@.len() == start + t,
                    forall|j: int| 0 <= j < t ==> #[trigger] order@[start + j] == l[j],
                    order@[0] == id,
                    order@.no_duplicates(),
                    forall|j: int|
                        0 <= j < order@.len() ==> live(n, #[trigger] order@[j]) && self.above(
                            id,
                            order@[j],
                        ),
                    pidx.len() == order@.len(),
                    forall|j: int|
                        1 <= j < start ==> 0 <= #[trigger] pidx[j] < j && pidx[j] < index
                            && n[order@[j] as int].parent == order@[pidx[j]],
                    forall|j: int|
                        start <= j < order@.len() ==> #[trigger] pidx[j] == index && n[order@[j] as int].parent
                            == owner,
                    forall|k: int, c: u32|
                        0 <= k < index && #[trigger] self.list(order@[k]).contains(c) ==> #[trigger] order@.contains(c),
                decreases l.len() - t,
            {
                proof {
                    assert(member(n, owner, l, t));
                    assert(!order@.contains(child)) by {
                        if order@.contains(child) {
                            let j = choose|j: int| 0 <= j < order@.len() && order@[j] == child;
                            if j == 0 {
                            } else if j < start {
                                assert(n[order@[j] as int].parent == order@[pidx[j]]);
                                assert(pidx[j] != index);
                            } else {
                                assert(order@[start + (j - start)] == l[j - start]);
                            }
                        }
                    }
                    self.lemma_above(id, child);
                }
                let ghost before_push = order@;
                order.push(child);
                proof {
                    pidx = pidx.push(index as int);
                    t = t + 1;
                    assert forall|j: int| 0 <= j < t implies #[trigger] order@[start + j] == l[j] by {}
                    assert forall|j: int|
                        start <= j < order@.len() implies #[trigger] pidx[j] == index && n[order@[j] as int].parent
                            == owner by {
                        if j < order@.len() - 1 {
                            assert(order@[j] == before_push[j]);
                        }
                    }
                    assert forall|k: int, c: u32|
                        0 <= k < index && #[trigger] self.list(order@[k]).contains(c) implies #[trigger] order@.contains(c) by {
                        assert(order@[k] == before_push[k]);
                        assert(before_push.contains(c));
                        let i = choose|i: int| 0 <= i < before_push.len() && before_push[i] == c;
                        assert(order@[i] == c);
                    }
                }
                child = self.nodes[child as usize].next_sibling;
            }
            proof {
                if t < l.len() {
                    assert(member(n, owner, l, t));
                }
                assert forall|k: int, c: u32|
                    0 <= k < index + 1 && #[trigger] self.list(order@[k]).contains(c) implies #[trigger] order@.contains(c) by {
                    if k == index {
                        let i = choose|i: int| 0 <= i < l.len() && l[i] == c;
                        assert(order@[start + i] == c);
                    }
                }
            }
            index = index + 1;
        }
        proof {
            assert forall|j: int| 1 <= j < order@.len() implies exists|k: int|
                0 <= k < j && #[trigger] self.nodes@[order@[j] as int].parent == order@[k] by {
                assert(n[order@[j] as int].parent == order@[pidx[j]]);
            }
            assert forall|x: u32| live(self.nodes@, x) && #[trigger] self.above(id, x) implies order@.contains(x) by {
                self.lemma_subtree_closed(id, order@, x);
            }
        }
        order
    }

    /// A set holding `id` and every child of its members holds every node
    /// below `id`.
    proof fn lemma_subtree_closed(&self, id: u32, order: Seq<u32>, x: u32)
        requires
            self.wf(),
            order.contains(id),
            forall|k: int, c: u32|
                0 <= k < order.len() && #[trigger] self.list(order[k]).contains(c) ==> #[trigger] order.contains(c),
            live(self.nodes@, x),
            self.above(id, x),
        ensures
            order.contains(x),
        decreases self.top@ - (self.rank@)(x),
    {
        self.lemma_above(id, x);
        if x != id {
            let n = self.nodes@;
            let q = n[x as int].parent;
            assert(placed_in(n, self.lists@, x));
            assert((self.rank@)(q) > (self.rank@)(x));
            assert((self.rank@)(q) < self.top@);
            self.lemma_subtree_closed(id, order, q);
            let k = choose|k: int| 0 <= k < order.len() && order[k] == q;
            assert(self.list(order[k]).contains(x));
        }
    }

    /// The tree `after` is this tree with the subtree of `id` released as
    /// `v`, descendants first, and `id` taken out of its parent's list.
    pub open spec fn released(&self, after: Host, id: u32, v: Seq<(u32, Node)>) -> bool {
        let on = self.nodes();
        &&& forall|i: int|
            0 <= i < v.len() ==> live(on, #[trigger] v[i].0) && self.above(id, v[i].0) && kept(
                v[i].1,
                on[v[i].0 as int],
            )
        &&& forall|i: int, j: int| 0 <= i < j < v.len() ==> #[trigger] v[i].0 != #[trigger] v[j].0
        &&& forall|x: u32|
            live(on, x) && #[trigger] self.above(id, x) ==> exists|i: int|
                0 <= i < v.len() && #[trigger] v[i].0 == x
        &&& forall|i: int, j: int|
            0 <= i < v.len() && 0 <= j < v.len() && v[i].0 != id && on[#[trigger] v[i].0 as int].parent
                == #[trigger] v[j].0 ==> i < j
        &&& after.nodes().len() == on.len()
        &&& forall|x: u32|
            (x as int) < on.len() ==> if live(on, x) && self.above(id, x) {
                (#[trigger] after.nodes()[x as int]).free() && after.nodes()[x as int].generation
                    == next_generation(on[x as int].generation)
            } else {
                kept(after.nodes()[x as int], on[x as int]) && after.nodes()[x as int].parent
                    == on[x as int].parent
            }
        &&& forall|q: u32|
            (q == ROOT || live(after.nodes(), q)) ==> #[trigger] after.list(q) == if q
                == on[id as int].parent {
                without(self.list(q), id)
            } else {
                self.list(q)
            }
        &&& after.retired() == self.retired() + retirements(v)
    }

    /// Removes a node and everything below it. Records are released
    /// descendants first; each released subscription is appended to
    /// `retired` and stays routable until the next transaction begins.
    #[verifier::rlimit(40)]
    pub fn remove(&mut self, id: u32, retired: &mut Vec<u64>) -> (r: Result<Vec<(u32, Node)>, HostError>)
        requires
            old(self).wf(),
        ensures
            final(self).wf(),
            final(self).fresh() == old(self).fresh(),
            final(self).subscribed() == old(self).subscribed(),
            final(self).requested() == old(self).requested(),
            final(self).upcoming() == old(self).upcoming(),
            old(self).detached_are_fresh() ==> final(self).detached_are_fresh(),
            final(self).reg() == old(self).reg(),
            final(self).applied() == old(self).applied(),
            !live(old(self).nodes(), id) ==> r == Err::<Vec<(u32, Node)>, HostError>(
                HostError::Unknown(id),
            ) && final(self).nodes() == old(self).nodes() && final(retired)@ == old(retired)@
                && final(self).retired() == old(self).retired() && forall|q: u32|
                #[trigger] final(self).list(q) == old(self).list(q),
            live(old(self).nodes(), id) ==> (match r {
                Ok(v) => old(self).released(*final(self), id, v@) && final(retired)@ == old(retired)@
                    + subscriptions(v@),
                Err(_) => false,
            }),
    {
        self.existing(id)?;
        let ghost n0 = self.nodes@;
        self.detach(id);
        let ghost mid = *self;
        let ghost n = self.nodes@;
        let order = self.subtree(id);
        proof {
            assert forall|x: u32| #[trigger] mid.above(id, x) == old(self).above(id, x) by {
                assert forall|y: u32| y != id implies #[trigger] live(n0, y) == live(n, y) && (live(n0, y)
                    ==> n0[y as int].parent == n[y as int].parent) by {
                    if (y as int) < n0.len() {
                        assert(kept(n[y as int], n0[y as int]));
                    }
                }
                lemma_reaches_frame(n0, n, self.rank@, self.top@, id, x);
            }
            assert forall|j: int| 0 <= j < order@.len() implies (#[trigger] order@[j] as int) < n.len() by {
                assert(live(n, order@[j]));
            }
        }
        let ghost len = order@.len();
        let mut released: Vec<(u32, Node)> = Vec::new();
        let mut i = order.len();
        while i > 0
            invariant
                mid.wf(),
                n == mid.nodes@,
                order@.len() == len,
                order@.no_duplicates(),
                forall|j: int| 0 <= j < len ==> live(n, #[trigger] order@[j]),
                0 <= i <= len,
                self.nodes@.len() == n.len(),
                forall|x: u32|
                    (x as int) < n.len() ==> if order@.subrange(i as int, len as int).contains(x) {
                        (#[trigger] self.nodes@[x as int]).free() && self.nodes@[x as int].generation
                            == next_generation(n[x as int].generation) && self.nodes@[x as int].dirty
                            == n[x as int].dirty
                    } else {
                        self.nodes@[x as int] == n[x as int]
                    },
                self.live == count_live(self.nodes@),
                released@.len() == len - i,
                forall|j: int|
                    0 <= j < released@.len() ==> #[trigger] released@[j] == (
                        order@[len - 1 - j],
                        n[order@[len - 1 - j] as int],
                    ),
                retired@ == old(retired)@ + subscriptions(released@),
                self.retiring@ == mid.retiring@ + retirements(released@),
                self.registry == mid.registry,
                self.lists@ == mid.lists@,
                self.rank@ == mid.rank@,
                self.top@ == mid.top@,
                self.dirty@ == mid.dirty@,
                self.created@ == mid.created@,
                self.first_root == mid.first_root,
                self.last_root == mid.last_root,
                self.root_count == mid.root_count,
                self.sequence == mid.sequence,
                self.pending == mid.pending,
                self.last_subscription == mid.last_subscription,
                self.last_request == mid.last_request,
            decreases i,
        {
            i = i - 1;
            let x = order[i];
            let ghost before = self.nodes@;
            let node = self.nodes[x as usize];
            proof {
                assert(!order@.subrange(i + 1, len as int).contains(x)) by {
                    if order@.subrange(i + 1, len as int).contains(x) {
                        let k = choose|k: int| 0 <= k < len - i - 1 && #[trigger] order@.subrange(i + 1, len as int)[k] == x;
                        assert(order@[i + 1 + k] == x);
                    }
                }
                assert(node == n[x as int]);
                assert(live(n, x));
            }
            let g = if node.generation == 0xFFFF {
                0
            } else {
                node.generation + 1
            };
            let mut e = Node::empty(g);
            e.dirty = node.dirty;
            self.nodes.set(x as usize, e);
            proof {
                lemma_count_live_update(before, x as int, e);
            }
            self.live = self.live - 1;
            let ghost rel = released@;
            if node.subscription != 0 {
                retired.push(node.subscription as u64);
                self.retiring.push((x, node.generation, node.subscription));
            }
            released.push((x, node));
            proof {
                assert(released@.drop_last() == rel);
                assert(released@.last() == (x, node));
                assert forall|y: u32| (y as int) < n.len() implies if order@.subrange(i as int, len as int).contains(y) {
                    (#[trigger] self.nodes@[y as int]).free() && self.nodes@[y as int].generation
                        == next_generation(n[y as int].generation) && self.nodes@[y as int].dirty
                        == n[y as int].dirty
                } else {
                    self.nodes@[y as int] == n[y as int]
                } by {
                    if y == x {
                        assert(order@.subrange(i as int, len as int)[0] == x);
                    } else {
                        if order@.subrange(i as int, len as int).contains(y) {
                            let k = choose|k: int| 0 <= k < len - i && #[trigger] order@.subrange(i as int, len as int)[k] == y;
                            assert(k > 0);
                            assert(order@.subrange(i + 1, len as int)[k - 1] == y);
                        }
                        if order@.subrange(i + 1, len as int).contains(y) {
                            let k = choose|k: int| 0 <= k < len - i - 1 && #[trigger] order@.subrange(i + 1, len as int)[k] == y;
                            assert(order@.subrange(i as int, len as int)[k + 1] == y);
                        }
                    }
                }
            }
        }
        proof {
            let gone = order@.to_set();
            let n1 = self.nodes@;
            assert(order@.subrange(0, len as int) == order@);
            assert forall|x: u32| #[trigger] gone.contains(x) <==> order@.contains(x) by {}
            assert forall|s: u32| #[trigger] gone.contains(s) ==> n[s as int].parent == DETACHED
                || gone.contains(n[s as int].parent) by {
                if gone.contains(s) && s != id {
                    let j = choose|j: int| 0 <= j < len && order@[j] == s;
                    assert(j != 0);
                    let k = choose|k: int| 0 <= k < j && #[trigger] n[order@[j] as int].parent == order@[k];
                    assert(order@.contains(order@[k]));
                }
            }
            assert forall|x: u32| live(n, x) && #[trigger] gone.contains(n[x as int].parent) implies gone.contains(x) by {
                let q = n[x as int].parent;
                let j = choose|j: int| 0 <= j < len && order@[j] == q;
                assert(live(n, q) && mid.above(id, q));
                mid.lemma_above(id, x);
            }
            lemma_release_shape(n, n1, self.lists@, self.root(), self.rank@, self.top@, gone);
            assert forall|x: u32| (x as int) < n.len() implies (order@.contains(x) <==> live(n0, x) && old(self).above(id, x)) && (!order@.contains(x) ==> #[trigger] n1[x as int] == n[x as int]) by {
                if order@.contains(x) {
                    let j = choose|j: int| 0 <= j < len && order@[j] == x;
                    assert(live(n, order@[j]));
                    assert(kept(n[x as int], n0[x as int]));
                }
                if live(n0, x) && old(self).above(id, x) {
                    assert(kept(n[x as int], n0[x as int]));
                    assert(mid.above(id, x));
                    assert(live(n, x));
                }
            }
            assert forall|x: u32| #[trigger] live(n1, x) implies n1[x as int].kind < self.registry.entries().len() by {
                if order@.contains(x) {
                    assert(n1[x as int].free());
                }
                assert(n1[x as int] == n[x as int]);
            }
            assert forall|x: u32| (x as int) < n1.len() implies (#[trigger] n1[x as int].dirty
                <==> self.dirty@.contains(x)) by {
                assert(n1[x as int].dirty == n[x as int].dirty);
            }
            assert(self.wf());
            let v = released@;
            assert forall|i: int| 0 <= i < v.len() implies live(n0, #[trigger] v[i].0) && old(self).above(id, v[i].0)
                && kept(v[i].1, n0[v[i].0 as int]) by {
                assert(v[i] == (order@[len - 1 - i], n[order@[len - 1 - i] as int]));
                assert(live(n, order@[len - 1 - i]));
                assert(kept(n[v[i].0 as int], n0[v[i].0 as int]));
            }
            assert forall|i: int, j: int| 0 <= i < j < v.len() implies #[trigger] v[i].0 != #[trigger] v[j].0 by {
                assert(v[i] == (order@[len - 1 - i], n[order@[len - 1 - i] as int]));
                assert(v[j] == (order@[len - 1 - j], n[order@[len - 1 - j] as int]));
            }
            assert forall|x: u32| live(n0, x) && #[trigger] old(self).above(id, x) implies exists|i: int|
                0 <= i < v.len() && #[trigger] v[i].0 == x by {
                assert(mid.above(id, x));
                assert(kept(n[x as int], n0[x as int]));
                assert(live(n, x));
                assert(order@.contains(x));
                let j = choose|j: int| 0 <= j < len && order@[j] == x;
                assert(v.len() == len);
                assert(v[len - 1 - j] == (order@[j], n[order@[j] as int]));
                assert(v[len - 1 - j].0 == x);
            }
            assert forall|i: int, j: int|
                0 <= i < v.len() && 0 <= j < v.len() && v[i].0 != id && n0[#[trigger] v[i].0 as int].parent
                    == #[trigger] v[j].0 implies i < j by {
                let ci = len - 1 - i;
                let pj = len - 1 - j;
                assert(v[i] == (order@[ci], n[order@[ci] as int]));
                assert(v[j] == (order@[pj], n[order@[pj] as int]));
                assert(ci != 0);
                assert(n[order@[ci] as int].parent == n0[order@[ci] as int].parent);
                let k = choose|k: int| 0 <= k < ci && #[trigger] n[order@[ci] as int].parent == order@[k];
                assert(order@[k] == order@[pj]);
            }
            assert forall|q: u32| #[trigger] self.list(q) == mid.list(q) by {}
            assert forall|x: u32|
                (x as int) < n0.len() implies if live(n0, x) && old(self).above(id, x) {
                    (#[trigger] n1[x as int]).free() && n1[x as int].generation == next_generation(n0[x as int].generation)
                } else {
                    kept(n1[x as int], n0[x as int]) && n1[x as int].parent == n0[x as int].parent
                } by {
                assert(kept(n[x as int], n0[x as int]));
                if order@.contains(x) {
                    assert(order@.subrange(0, len as int).contains(x));
                } else {
                    assert(x != id) by {
                        assert(order@[0] == id);
                    }
                }
            }
            assert forall|q: u32|
                (q == ROOT || live(n1, q)) implies #[trigger] self.list(q) == if q == n0[id as int].parent {
                    without(old(self).list(q), id)
                } else {
                    old(self).list(q)
                } by {
                assert(mid.list(q) == if n0[id as int].parent != DETACHED && q == n0[id as int].parent {
                    without(old(self).list(q), id)
                } else {
                    old(self).list(q)
                });
            }
            assert(retired@ == old(retired)@ + subscriptions(v));
            assert(self.retired() == old(self).retired() + retirements(v));
            assert(old(self).released(*self, id, v));
        }
        Ok(released)
    }

    /// Replaces the payload of a node in use, keeping its links and mark.
    fn rewrite(&mut self, x: u32, node: Node)
        requires
            old(self).wf(),
            live(old(self).nodes@, x),
            !node.free(),
            node.kind < old(self).registry.entries().len(),
            same_links(node, old(self).nodes@[x as int]),
            node.dirty == old(self).nodes@[x as int].dirty,
        ensures
            final(self).wf(),
            old(self).detached_are_fresh() ==> final(self).detached_are_fresh(),
            final(self).frame(old(self)),
            final(self).nodes@ == old(self).nodes@.update(x as int, node),
            final(self).lists@ == old(self).lists@,
            final(self).dirty@ == old(self).dirty@,
            final(self).live == old(self).live,
    {
        let ghost before = self.nodes@;
        self.nodes.set(x as usize, node);
        proof {
            let n1 = self.nodes@;
            if old(self).detached_are_fresh() {
                lemma_detached_steady(before, n1, self.created@);
            }
            assert(steady(before, n1));
            lemma_steady_shaped(before, n1, self.lists@, self.root(), self.rank@, self.top@);
            assert forall|y: u32| #[trigger] live(n1, y) implies n1[y as int].kind
                < self.registry.entries().len() by {
                assert(live(before, y));
            }
            assert forall|y: u32| (y as int) < n1.len() implies (#[trigger] n1[y as int].dirty
                <==> self.dirty@.contains(y)) by {
                assert(n1[y as int].dirty == before[y as int].dirty);
            }
        }
    }

    /// Starts applying transaction `sequence`: it must follow the last one.
    /// Routes of nodes removed earlier are dropped.
    pub fn begin(&mut self, sequence: u64) -> (r: Result<(), HostError>)
        requires
            old(self).wf(),
        ensures
            final(self).wf(),
            final(self).requested() == old(self).requested(),
            final(self).subscribed() == old(self).subscribed(),
            old(self).attached() ==> final(self).detached_are_fresh(),
            final(self).reg() == old(self).reg(),
            final(self).nodes() == old(self).nodes(),
            forall|q: u32| #[trigger] final(self).list(q) == old(self).list(q),
            final(self).applied() == old(self).applied(),
            r is Ok <==> (old(self).applied() < u64::MAX && sequence == old(self).applied() + 1),
            r is Ok ==> final(self).retired().len() == 0 && final(self).fresh().len() == 0
                && final(self).upcoming() == sequence,
            r is Err ==> r == Err::<(), HostError>(HostError::OutOfOrder) && final(self).retired()
                == old(self).retired(),
    {
        proof {
            if old(self).attached() {
                assert forall|x: u32| #[trigger] live(self.nodes@, x) implies self.nodes@[x as int].parent != DETACHED by {
                    assert(live(old(self).nodes(), x));
                }
                lemma_none_detached(self.nodes@, self.created@);
                lemma_none_detached(self.nodes@, Seq::empty());
            }
        }
        if self.sequence == u64::MAX || sequence != self.sequence + 1 {
            return Err(HostError::OutOfOrder);
        }
        self.retiring = Vec::new();
        self.created = Vec::new();
        self.pending = sequence;
        proof {
            assert(self.created@ =~= Seq::<u32>::empty());
        }
        Ok(())
    }

    /// The nodes created by the transaction being applied.
    pub closed spec fn fresh(&self) -> Seq<u32> {
        self.created@
    }

    /// The sequence number of the transaction being applied.
    pub closed spec fn upcoming(&self) -> u64 {
        self.pending
    }

    /// The last subscription id accepted.
    pub closed spec fn subscribed(&self) -> u64 {
        self.last_subscription
    }

    /// The last request id accepted.
    pub closed spec fn requested(&self) -> u64 {
        self.last_request
    }

    /// Checks a new node before its component creates its row: the id is in
    /// range and free, and a subscription increases and finds events. The
    /// node vector grows to hold the id. Returns the record's generation.
    pub fn prepare_create(&mut self, id: u32, kind: u16, subscription: Option<u64>) -> (r: Result<
        u16,
        HostError,
    >)
        requires
            old(self).wf(),
            kind < old(self).reg().entries().len(),
        ensures
            final(self).wf(),
            old(self).detached_are_fresh() ==> final(self).detached_are_fresh(),
            final(self).reg() == old(self).reg(),
            final(self).applied() == old(self).applied(),
            final(self).retired() == old(self).retired(),
            final(self).fresh() == old(self).fresh(),
            final(self).upcoming() == old(self).upcoming(),
            forall|q: u32| #[trigger] final(self).list(q) == old(self).list(q),
            forall|x: int|
                0 <= x < old(self).nodes().len() ==> #[trigger] final(self).nodes()[x] == old(self).nodes()[x],
            forall|x: int|
                old(self).nodes().len() <= x < final(self).nodes().len() ==> #[trigger] final(self).nodes()[x] == empty_node(0),
            r == (if id >= DETACHED {
                Err::<u16, HostError>(HostError::IdOutOfRange)
            } else if id as int > old(self).nodes().len() + MAX_SKIP {
                Err(HostError::SkipsTooFar(id))
            } else if live(old(self).nodes(), id) {
                Err(HostError::InUse(id))
            } else if subscription is Some && !(old(self).subscribed() < subscription->0
                && subscription->0 < 0x1_0000_0000) {
                Err(HostError::SubscriptionOrder)
            } else if subscription is Some && !old(self).reg().caps()[kind as int].events {
                Err(HostError::NoEvents(kind))
            } else {
                Ok(
                    if (id as int) < old(self).nodes().len() {
                        old(self).nodes()[id as int].generation
                    } else {
                        0
                    },
                )
            }),
            r is Ok ==> (id as int) < final(self).nodes().len() && final(self).nodes().len() == if (id as int)
                < old(self).nodes().len() {
                old(self).nodes().len() as int
            } else {
                id + 1
            },
            final(self).subscribed() == if subscription is Some && (r is Ok || r == Err::<u16, HostError>(
                HostError::NoEvents(kind),
            )) {
                subscription->0
            } else {
                old(self).subscribed()
            },
            final(self).requested() == old(self).requested(),
    {
        if id >= DETACHED {
            return Err(HostError::IdOutOfRange);
        }
        let index = id as usize;
        if index > self.nodes.len() && index - self.nodes.len() > MAX_SKIP {
            return Err(HostError::SkipsTooFar(id));
        }
        if index >= self.nodes.len() {
            self.grow(index + 1);
        }
        proof {
            if old(self).detached_are_fresh() {
                lemma_detached_steady(old(self).nodes@, self.nodes@, self.created@);
            }
        }
        if self.nodes[index].kind != EMPTY_KIND {
            return Err(HostError::InUse(id));
        }
        let caps = self.registry.registration(kind).capabilities;
        proof {
            assert(self.reg().caps()[kind as int] == caps);
        }
        if let Some(sub) = subscription {
            if !increasing(sub, &mut self.last_subscription) {
                return Err(HostError::SubscriptionOrder);
            }
            if !caps.events {
                return Err(HostError::NoEvents(kind));
            }
        }
        Ok(self.nodes[index].generation)
    }

    /// Grows the node vector with free records to `len`.
    fn grow(&mut self, len: usize)
        requires
            old(self).wf(),
            old(self).nodes@.len() < len <= DETACHED,
        ensures
            final(self).wf(),
            final(self).frame(old(self)),
            final(self).lists@ == old(self).lists@,
            final(self).nodes@.len() == len,
            forall|x: int| 0 <= x < old(self).nodes@.len() ==> #[trigger] final(self).nodes@[x] == old(self).nodes@[x],
            forall|x: int| old(self).nodes@.len() <= x < len ==> #[trigger] final(self).nodes@[x] == empty_node(0),
    {
        let ghost start = self.nodes@;
        while self.nodes.len() < len
            invariant
                self.frame(old(self)),
                self.lists@ == old(self).lists@,
                self.rank@ == old(self).rank@,
                self.top@ == old(self).top@,
                self.dirty@ == old(self).dirty@,
                self.live == old(self).live,
                self.root() == old(self).root(),
                start == old(self).nodes@,
                start.len() <= self.nodes@.len() <= len,
                len <= DETACHED,
                forall|x: int| 0 <= x < start.len() ==> #[trigger] self.nodes@[x] == start[x],
                forall|x: int| start.len() <= x < self.nodes@.len() ==> #[trigger] self.nodes@[x] == empty_node(0),
                count_live(self.nodes@) == count_live(start),
            decreases len - self.nodes@.len(),
        {
            let ghost before = self.nodes@;
            self.nodes.push(Node::empty(0));
            proof {
                lemma_count_live_push_free(before, empty_node(0));
            }
        }
        proof {
            let n = self.nodes@;
            assert forall|x: u32| #[trigger] live(n, x) == live(start, x) by {}
            assert(shaped(n, self.lists@, self.root(), self.rank@, self.top@)) by {
                let lists = self.lists@;
                let root = self.root();
                assert forall|p: u32| p == ROOT || live(n, p) implies #[trigger] list_fine(n, lists, root, p) by {
                    assert(list_fine(start, lists, root, p));
                    let l = lists(p);
                    assert forall|i: int| 0 <= i < l.len() implies #[trigger] member(n, p, l, i) by {
                        assert(member(start, p, l, i));
                    }
                }
                assert forall|x: u32| #[trigger] live(n, x) implies placed_in(n, lists, x) by {
                    assert(placed_in(start, lists, x));
                }
                assert forall|x: u32|
                    #![trigger live(n, x), n[x as int].parent]
                    live(n, x) && n[x as int].parent != ROOT && n[x as int].parent != DETACHED implies (self.rank@)(
                    n[x as int].parent) > (self.rank@)(x) by {
                    assert(live(start, x));
                }
                assert forall|x: u32| #[trigger] live(n, x) implies (self.rank@)(x) < self.top@ by {
                    assert(live(start, x));
                }
            }
            assert forall|x: u32| #[trigger] live(n, x) implies n[x as int].kind < self.registry.entries().len() by {
                assert(live(start, x));
            }
            assert forall|x: u32| (x as int) < n.len() implies (#[trigger] n[x as int].dirty
                <==> self.dirty@.contains(x)) by {
                if (x as int) >= start.len() {
                    assert(!self.dirty@.contains(x)) by {
                        if self.dirty@.contains(x) {
                            let i = choose|i: int| 0 <= i < self.dirty@.len() && self.dirty@[i] == x;
                            assert((self.dirty@[i] as int) < start.len());
                        }
                    }
                }
            }
        }
    }

    /// Records a node prepared by `prepare_create` once its component has
    /// created its row: detached, with the given row and subscription.
    pub fn install(&mut self, id: u32, kind: u16, slot: u32, subscription: u32) -> (r: Result<(), HostError>)
        requires
            old(self).wf(),
            kind < old(self).reg().entries().len(),
        ensures
            final(self).wf(),
            old(self).detached_are_fresh() ==> final(self).detached_are_fresh(),
            final(self).reg() == old(self).reg(),
            final(self).applied() == old(self).applied(),
            final(self).retired() == old(self).retired(),
            final(self).upcoming() == old(self).upcoming(),
            final(self).subscribed() == old(self).subscribed(),
            final(self).requested() == old(self).requested(),
            forall|q: u32| q != id ==> #[trigger] final(self).list(q) == old(self).list(q),
            r is Ok ==> final(self).list(id).len() == 0,
            r is Err ==> final(self).list(id) == old(self).list(id),
            r == (if (id as int) < old(self).nodes().len() && !live(old(self).nodes(), id) {
                Ok::<(), HostError>(())
            } else if live(old(self).nodes(), id) {
                Err(HostError::InUse(id))
            } else {
                Err(HostError::Unknown(id))
            }),
            r is Ok ==> final(self).nodes() == old(self).nodes().update(
                id as int,
                installed(old(self).nodes()[id as int], kind, slot, subscription),
            ) && final(self).fresh() == old(self).fresh().push(id),
            r is Err ==> final(self).nodes() == old(self).nodes() && final(self).fresh() == old(self).fresh(),
    {
        if (id as usize) >= self.nodes.len() {
            return Err(HostError::Unknown(id));
        }
        let old_node = self.nodes[id as usize];
        if old_node.kind != EMPTY_KIND {
            return Err(HostError::InUse(id));
        }
        let node = Node {
            parent: DETACHED,
            first_child: NONE,
            last_child: NONE,
            next_sibling: NONE,
            prev_sibling: NONE,
            child_count: 0,
            subscription,
            slot,
            kind,
            hidden: false,
            dirty: old_node.dirty,
            generation: old_node.generation,
        };
        let ghost before = self.nodes@;
        let ghost lists0 = self.lists@;
        let ghost rank0 = self.rank@;
        proof {
            self.registry.lemma_unique();
            lemma_count_live_update(before, id as int, node);
            lemma_count_live_bound(before.update(id as int, node));
        }
        self.nodes.set(id as usize, node);
        self.lists = Ghost(|q: u32| if q == id { Seq::<u32>::empty() } else { lists0(q) });
        self.rank = Ghost(|q: u32| if q == id { 0nat } else { rank0(q) });
        self.top = Ghost(self.top@ + 1);
        self.live = self.live + 1;
        self.created.push(id);
        proof {
            lemma_count_live_update(before, id as int, node);
            lemma_count_live_bound(before);
            lemma_install_shape(before, self.nodes@, lists0, self.lists@, self.root(), rank0, self.rank@, old(self).top@, id);
            let n1 = self.nodes@;
            assert forall|x: u32| #[trigger] live(n1, x) implies n1[x as int].kind
                < self.registry.entries().len() by {
                if x != id {
                    assert(live(before, x));
                }
            }
            assert forall|y: u32| (y as int) < n1.len() implies (#[trigger] n1[y as int].dirty
                <==> self.dirty@.contains(y)) by {
                assert(n1[y as int].dirty == before[y as int].dirty);
            }
            assert forall|q: u32| q != id implies #[trigger] self.list(q) == old(self).list(q) by {}
            if old(self).detached_are_fresh() {
                assert(self.created@[self.created@.len() - 1] == id);
                assert forall|x: u32| #[trigger] live(n1, x) && n1[x as int].parent == DETACHED implies (live(
                    before,
                    x,
                ) && before[x as int].parent == DETACHED) || self.created@.contains(x) by {}
                assert forall|x: u32| old(self).created@.contains(x) implies #[trigger] self.created@.contains(x) by {
                    let k = choose|k: int| 0 <= k < old(self).created@.len() && old(self).created@[k] == x;
                    assert(self.created@[k] == x);
                }
                lemma_detached_within(before, n1, old(self).created@, self.created@);
            }
        }
        Ok(())
    }

    /// Validates and applies a subscription change. A view's route changes
    /// in its own effect queue, through `settle`; any other node's now.
    pub fn listen(&mut self, id: u32, subscription: Option<u64>) -> (r: Result<Listened, HostError>)
        requires
            old(self).wf(),
        ensures
            final(self).wf(),
            old(self).detached_are_fresh() ==> final(self).detached_are_fresh(),
            final(self).reg() == old(self).reg(),
            final(self).applied() == old(self).applied(),
            final(self).retired() == old(self).retired(),
            final(self).fresh() == old(self).fresh(),
            final(self).upcoming() == old(self).upcoming(),
            final(self).requested() == old(self).requested(),
            forall|q: u32| #[trigger] final(self).list(q) == old(self).list(q),
            ({
                let n = old(self).nodes();
                let sub_ok = subscription is None || (old(self).subscribed() < subscription->0
                    && subscription->0 < 0x1_0000_0000);
                let value: u32 = match subscription {
                    Some(v) => v as u32,
                    None => 0,
                };
                &&& final(self).subscribed() == if subscription is Some && sub_ok {
                    subscription->0
                } else {
                    old(self).subscribed()
                }
                &&& !sub_ok ==> r is Err && r->Err_0 == HostError::SubscriptionOrder
                &&& sub_ok && !live(n, id) ==> r is Err && r->Err_0 == HostError::Unknown(id)
                &&& sub_ok && live(n, id) && subscription is Some && !old(self).reg().caps()[n[id as int].kind as int].events
                    ==> r is Err && r->Err_0 == HostError::ViewNoEvents
                &&& r is Err ==> final(self).nodes() == old(self).nodes()
                &&& r is Ok <==> (sub_ok && live(n, id) && (subscription is None || old(self).reg().caps()[n[id as int].kind as int].events))
                &&& r matches Ok(l) ==> {
                    &&& sub_ok && live(n, id)
                    &&& (subscription is None || old(self).reg().caps()[n[id as int].kind as int].events)
                    &&& l.retired == if n[id as int].subscription != 0 {
                        Some(n[id as int].subscription as u64)
                    } else {
                        None
                    }
                    &&& if old(self).reg().caps()[n[id as int].kind as int].view {
                        &&& l.deferred == Some((n[id as int].generation, value))
                        &&& final(self).nodes() == n
                    } else {
                        &&& l.deferred is None
                        &&& final(self).nodes() == n.update(
                            id as int,
                            Node { subscription: value, ..n[id as int] },
                        )
                    }
                }
            }),
    {
        if let Some(sub) = subscription {
            if !increasing(sub, &mut self.last_subscription) {
                return Err(HostError::SubscriptionOrder);
            }
        }
        let node = self.existing(id)?;
        let caps = self.registry.registration(node.kind).capabilities;
        proof {
            assert(live(self.nodes@, id));
            assert(self.reg().caps()[node.kind as int] == caps);
        }
        if !caps.events && subscription.is_some() {
            return Err(HostError::ViewNoEvents);
        }
        let retired = if node.subscription != 0 {
            Some(node.subscription as u64)
        } else {
            None
        };
        let value: u32 = match subscription {
            Some(v) => v as u32,
            None => 0,
        };
        if caps.view {
            Ok(Listened { retired, deferred: Some((node.generation, value)) })
        } else {
            self.rewrite(id, Node { subscription: value, ..node });
            Ok(Listened { retired, deferred: None })
        }
    }

    /// Runs a deferred route update: the node of that generation takes the
    /// subscription, or, if it was removed meanwhile, its retired route does.
    pub fn settle(&mut self, id: u32, generation: u16, subscription: u32)
        requires
            old(self).wf(),
        ensures
            final(self).wf(),
            old(self).detached_are_fresh() ==> final(self).detached_are_fresh(),
            final(self).reg() == old(self).reg(),
            final(self).applied() == old(self).applied(),
            final(self).fresh() == old(self).fresh(),
            final(self).upcoming() == old(self).upcoming(),
            final(self).subscribed() == old(self).subscribed(),
            final(self).requested() == old(self).requested(),
            forall|q: u32| #[trigger] final(self).list(q) == old(self).list(q),
            ({
                let n = old(self).nodes();
                if live(n, id) && n[id as int].generation == generation {
                    &&& final(self).nodes() == n.update(
                        id as int,
                        Node { subscription, ..n[id as int] },
                    )
                    &&& final(self).retired() == old(self).retired()
                } else {
                    &&& final(self).nodes() == n
                    &&& final(self).retired() == match route_index(old(self).retired(), id, generation) {
                        Some(i) => old(self).retired().update(i, (id, generation, subscription)),
                        None => old(self).retired(),
                    }
                }
            }),
    {
        if (id as usize) < self.nodes.len() && self.nodes[id as usize].kind != EMPTY_KIND
            && self.nodes[id as usize].generation == generation {
            let node = self.nodes[id as usize];
            proof {
                assert(live(self.nodes@, id));
            }
            self.rewrite(id, Node { subscription, ..node });
            return;
        }
        let mut i: usize = 0;
        proof {
            assert(self.retiring@.subrange(0, self.retiring@.len() as int) =~= self.retiring@);
        }
        while i < self.retiring.len()
            invariant
                *self == *old(self),
                old(self).wf(),
                !(live(old(self).nodes(), id) && old(self).nodes()[id as int].generation == generation),
                i <= self.retiring@.len(),
                route_index(self.retiring@, id, generation) == match route_index(
                    self.retiring@.subrange(i as int, self.retiring@.len() as int),
                    id,
                    generation,
                ) {
                    Some(k) => Some(k + i),
                    None => None::<int>,
                },
            decreases self.retiring@.len() - i,
        {
            let entry = self.retiring[i];
            let ghost rest = self.retiring@.subrange(i as int, self.retiring@.len() as int);
            proof {
                assert(rest[0] == entry);
                assert(rest.drop_first() =~= self.retiring@.subrange(i + 1, self.retiring@.len() as int));
            }
            if entry.0 == id && entry.1 == generation {
                self.retiring.set(i, (id, generation, subscription));
                return;
            }
            i = i + 1;
        }
        proof {
            assert(self.retiring@.subrange(i as int, self.retiring@.len() as int).len() == 0);
        }
    }

    /// Shows or hides a node in use; a change marks its parent's list.
    pub fn set_hidden(&mut self, id: u32, hidden: bool) -> (r: Result<(), HostError>)
        requires
            old(self).wf(),
        ensures
            final(self).wf(),
            old(self).detached_are_fresh() ==> final(self).detached_are_fresh(),
            final(self).reg() == old(self).reg(),
            final(self).applied() == old(self).applied(),
            final(self).retired() == old(self).retired(),
            final(self).fresh() == old(self).fresh(),
            final(self).upcoming() == old(self).upcoming(),
            final(self).subscribed() == old(self).subscribed(),
            final(self).requested() == old(self).requested(),
            forall|q: u32| #[trigger] final(self).list(q) == old(self).list(q),
            r == (if live(old(self).nodes(), id) {
                Ok::<(), HostError>(())
            } else {
                Err(HostError::Unknown(id))
            }),
            final(self).nodes().len() == old(self).nodes().len(),
            forall|x: int|
                0 <= x < old(self).nodes().len() ==> #[trigger] final(self).nodes()[x] == if r is Ok
                    && x == id {
                    Node { hidden, dirty: final(self).nodes()[x].dirty, ..old(self).nodes()[x] }
                } else {
                    Node { dirty: final(self).nodes()[x].dirty, ..old(self).nodes()[x] }
                },
            r is Ok && old(self).nodes()[id as int].hidden != hidden && old(self).nodes()[id as int].parent != ROOT
                && old(self).nodes()[id as int].parent != DETACHED ==> final(self).pending_lists().contains(
                old(self).nodes()[id as int].parent,
            ),
    {
        let node = self.existing(id)?;
        if node.hidden != hidden {
            proof {
                assert(live(self.nodes@, id));
            }
            self.rewrite(id, Node { hidden, ..node });
            let ghost mid = self.nodes@;
            self.mark(node.parent);
            proof {
                if node.parent != ROOT && node.parent != DETACHED {
                    assert(placed_in(mid, self.lists@, id));
                    assert(self.dirty@.to_set().contains(node.parent));
                }
            }
        }
        Ok(())
    }

    /// Accepts the request id of a command or query.
    pub fn begin_call(&mut self, request: u64) -> (r: Result<(), HostError>)
        requires
            old(self).wf(),
        ensures
            final(self).wf(),
            old(self).detached_are_fresh() ==> final(self).detached_are_fresh(),
            final(self).reg() == old(self).reg(),
            final(self).nodes() == old(self).nodes(),
            final(self).applied() == old(self).applied(),
            final(self).retired() == old(self).retired(),
            final(self).fresh() == old(self).fresh(),
            final(self).upcoming() == old(self).upcoming(),
            final(self).subscribed() == old(self).subscribed(),
            forall|q: u32| #[trigger] final(self).list(q) == old(self).list(q),
            r is Ok <==> (old(self).requested() < request && request < 0x1_0000_0000),
            r is Err ==> r == Err::<(), HostError>(HostError::RequestOrder) && final(self).requested()
                == old(self).requested(),
            r is Ok ==> final(self).requested() == request,
    {
        if increasing(request, &mut self.last_request) {
            Ok(())
        } else {
            Err(HostError::RequestOrder)
        }
    }

    /// The route of a listener created for `(id, generation)`: the node's
    /// subscription while that generation lives, else its retired route.
    pub fn route(&self, id: u32, generation: u16) -> (r: Option<u64>)
        ensures
            ({
                let n = self.nodes();
                let sub = if live(n, id) && n[id as int].generation == generation {
                    n[id as int].subscription
                } else {
                    retired_route(self.retired(), id, generation)
                };
                r == if sub != 0 {
                    Some(sub as u64)
                } else {
                    None::<u64>
                }
            }),
    {
        let mut sub: u32 = 0;
        let mut found = false;
        if (id as usize) < self.nodes.len() && self.nodes[id as usize].kind != EMPTY_KIND
            && self.nodes[id as usize].generation == generation {
            sub = self.nodes[id as usize].subscription;
            found = true;
        }
        if !found {
            let mut i: usize = 0;
            let mut done = false;
            proof {
                assert(self.retiring@.subrange(0, self.retiring@.len() as int) =~= self.retiring@);
            }
            while !done && i < self.retiring.len()
                invariant
                    i <= self.retiring@.len(),
                    !done ==> sub == 0,
                    done ==> sub == retired_route(self.retiring@, id, generation),
                    !done ==> retired_route(self.retiring@, id, generation) == retired_route(
                        self.retiring@.subrange(i as int, self.retiring@.len() as int),
                        id,
                        generation,
                    ),
                decreases self.retiring@.len() - i + (if done { 0int } else { 1int }),
            {
                let entry = self.retiring[i];
                let ghost rest = self.retiring@.subrange(i as int, self.retiring@.len() as int);
                proof {
                    assert(rest[0] == entry);
                    assert(rest.drop_first() =~= self.retiring@.subrange(i + 1, self.retiring@.len() as int));
                }
                if entry.0 == id && entry.1 == generation {
                    sub = entry.2;
                    done = true;
                } else {
                    i = i + 1;
                }
            }
            proof {
                if !done {
                    assert(self.retiring@.subrange(i as int, self.retiring@.len() as int).len() == 0);
                }
            }
        }
        if sub != 0 {
            Some(sub as u64)
        } else {
            None
        }
    }

    /// The deliveries owed for the marked ids `ids`, in order: each id in use
    /// whose component is a view laying out children, with its visible
    /// children.
    pub open spec fn owed(&self, ids: Seq<u32>) -> Seq<(u32, u16, u32, Seq<u32>)>
        decreases ids.len(),
    {
        if ids.len() == 0 {
            Seq::empty()
        } else {
            let rest = self.owed(ids.drop_last());
            let x = ids.last();
            let n = self.nodes();
            if live(n, x) && self.reg().caps()[n[x as int].kind as int].view && self.reg().caps()[n[x as int].kind as int].children {
                rest.push((x, n[x as int].kind, n[x as int].slot, self.list(x).filter(shown(n))))
            } else {
                rest
            }
        }
    }

    /// Clears every pending-delivery mark.
    fn clear_marks(&mut self)
        requires
            old(self).wf(),
        ensures
            final(self).wf(),
            old(self).detached_are_fresh() ==> final(self).detached_are_fresh(),
            final(self).frame(old(self)),
            final(self).lists@ == old(self).lists@,
            final(self).dirty@.len() == 0,
            final(self).nodes@.len() == old(self).nodes@.len(),
            forall|x: int|
                0 <= x < old(self).nodes@.len() ==> #[trigger] final(self).nodes@[x] == unmarked(old(self).nodes@[x]),
    {
        let mut list: Vec<u32> = Vec::new();
        std::mem::swap(&mut list, &mut self.dirty);
        let ghost start = self.nodes@;
        let mut i: usize = 0;
        while i < list.len()
            invariant
                self.frame(old(self)),
                self.lists@ == old(self).lists@,
                self.rank@ == old(self).rank@,
                self.top@ == old(self).top@,
                self.live == old(self).live,
                self.root() == old(self).root(),
                self.dirty@.len() == 0,
                start == old(self).nodes@,
                start.len() <= DETACHED,
                list@ == old(self).dirty@,
                i <= list@.len(),
                self.nodes@.len() == start.len(),
                forall|j: int| 0 <= j < list@.len() ==> (#[trigger] list@[j] as int) < start.len(),
                forall|x: int|
                    0 <= x < start.len() ==> #[trigger] self.nodes@[x] == (Node {
                        dirty: start[x].dirty && !list@.take(i as int).contains(x as u32),
                        ..start[x]
                    }),
            decreases list@.len() - i,
        {
            let x = list[i];
            let mut node = self.nodes[x as usize];
            node.dirty = false;
            self.nodes.set(x as usize, node);
            proof {
                assert(list@.take(i + 1) =~= list@.take(i as int).push(x));
                assert forall|y: u32| #[trigger] list@.take(i + 1).contains(y) <==> (list@.take(i as int).contains(y) || y == x) by {
                    if list@.take(i + 1).contains(y) {
                        let k = choose|k: int| 0 <= k < i + 1 && #[trigger] list@.take(i + 1)[k] == y;
                        if k < i {
                            assert(list@.take(i as int)[k] == y);
                        }
                    }
                    if list@.take(i as int).contains(y) {
                        let k = choose|k: int| 0 <= k < i && #[trigger] list@.take(i as int)[k] == y;
                        assert(list@.take(i + 1)[k] == y);
                    }
                    if y == x {
                        assert(list@.take(i + 1)[i as int] == y);
                    }
                }
            }
            i = i + 1;
        }
        proof {
            let n1 = self.nodes@;
            assert(list@.take(i as int) =~= list@);
            assert forall|x: int| 0 <= x < start.len() implies #[trigger] n1[x] == unmarked(start[x]) by {
                assert(start[x].dirty <==> old(self).dirty@.contains(x as u32));
            }
            assert(steady(start, n1));
            lemma_steady_shaped(start, n1, self.lists@, self.root(), self.rank@, self.top@);
            assert forall|x: u32| #[trigger] live(n1, x) implies n1[x as int].kind < self.registry.entries().len() by {
                assert(live(start, x));
            }
            if old(self).detached_are_fresh() {
                lemma_detached_steady(start, n1, self.created@);
            }
        }
    }

    /// Hands over the child lists owed to views, and clears the marks.
    pub fn flush(&mut self) -> (r: Vec<Delivery>)
        requires
            old(self).wf(),
        ensures
            final(self).wf(),
            old(self).detached_are_fresh() ==> final(self).detached_are_fresh(),
            final(self).reg() == old(self).reg(),
            final(self).applied() == old(self).applied(),
            final(self).retired() == old(self).retired(),
            final(self).fresh() == old(self).fresh(),
            final(self).upcoming() == old(self).upcoming(),
            final(self).subscribed() == old(self).subscribed(),
            final(self).requested() == old(self).requested(),
            forall|q: u32| #[trigger] final(self).list(q) == old(self).list(q),
            deliveries(r@) == old(self).owed(old(self).pending_lists()),
            final(self).pending_lists().len() == 0,
            final(self).nodes().len() == old(self).nodes().len(),
            forall|x: int|
                0 <= x < old(self).nodes().len() ==> #[trigger] final(self).nodes()[x] == unmarked(old(self).nodes()[x]),
            forall|i: int, j: int|
                0 <= i < r@.len() && 0 <= j < r@[i].children@.len() ==> !old(self).nodes()[#[trigger] r@[i].children@[j] as int].hidden
                    && old(self).list(r@[i].id).contains(r@[i].children@[j]),
            forall|i: int, c: u32|
                0 <= i < r@.len() && #[trigger] old(self).list(r@[i].id).contains(c) && !old(self).nodes()[c as int].hidden
                    ==> r@[i].children@.contains(c),
    {
        let mut out: Vec<Delivery> = Vec::new();
        let mut i: usize = 0;
        while i < self.dirty.len()
            invariant
                self.wf(),
                *self == *old(self),
                i <= self.dirty@.len(),
                deliveries(out@) == self.owed(self.dirty@.take(i as int)),
            decreases self.dirty@.len() - i,
        {
            let x = self.dirty[i];
            let ghost before = out@;
            proof {
                assert(self.dirty@.take(i + 1).drop_last() =~= self.dirty@.take(i as int));
                assert(self.dirty@.take(i + 1).last() == x);
            }
            if (x as usize) < self.nodes.len() && self.nodes[x as usize].kind != EMPTY_KIND {
                let node = self.nodes[x as usize];
                proof {
                    assert(live(self.nodes@, x));
                }
                let caps = self.registry.registration(node.kind).capabilities;
                proof {
                    assert(self.reg().caps()[node.kind as int] == caps);
                }
                if caps.view && caps.children {
                    let children = self.siblings(x, true);
                    out.push(Delivery { id: x, kind: node.kind, slot: node.slot, children });
                    proof {
                        assert(deliveries(out@) =~= deliveries(before).push(
                            (x, node.kind, node.slot, children@),
                        ));
                    }
                }
            }
            i = i + 1;
        }
        proof {
            assert(self.dirty@.take(i as int) =~= self.dirty@);
            self.lemma_owed_visible(self.dirty@);
            let o = self.owed(self.dirty@);
            assert forall|i: int, j: int| 0 <= i < out@.len() && 0 <= j < out@[i].children@.len() implies !self.nodes()[
                #[trigger] out@[i].children@[j] as int].hidden && self.list(out@[i].id).contains(out@[i].children@[j]) by {
                assert(deliveries(out@)[i] == out@[i]@);
                assert(o[i].3 == out@[i].children@);
                assert(o[i].3[j] == out@[i].children@[j]);
            }
            assert forall|i: int, c: u32| 0 <= i < out@.len() && #[trigger] self.list(out@[i].id).contains(c)
                && !self.nodes()[c as int].hidden implies out@[i].children@.contains(c) by {
                assert(deliveries(out@)[i] == out@[i]@);
                assert(o[i].3 == out@[i].children@);
                assert(o[i].0 == out@[i].id);
            }
        }
        self.clear_marks();
        out
    }

    /// Every delivered child list is its owner's child list with the hidden
    /// children left out: the owner is a view in use that lays out children,
    /// each delivered child is a child of it that is not hidden, and each of
    /// its children that is not hidden is delivered.
    pub proof fn lemma_owed_visible(&self, ids: Seq<u32>)
        ensures
            forall|i: int|
                0 <= i < self.owed(ids).len() ==> {
                    let d = #[trigger] self.owed(ids)[i];
                    &&& live(self.nodes(), d.0)
                    &&& self.reg().caps()[self.nodes()[d.0 as int].kind as int].view
                    &&& self.reg().caps()[self.nodes()[d.0 as int].kind as int].children
                    &&& forall|j: int|
                        0 <= j < d.3.len() ==> !self.nodes()[#[trigger] d.3[j] as int].hidden && self.list(d.0).contains(
                            d.3[j],
                        )
                    &&& forall|c: u32|
                        #[trigger] self.list(d.0).contains(c) && !self.nodes()[c as int].hidden ==> d.3.contains(c)
                },
        decreases ids.len(),
    {
        if ids.len() > 0 {
            self.lemma_owed_visible(ids.drop_last());
            let rest = self.owed(ids.drop_last());
            let x = ids.last();
            let n = self.nodes();
            let o = self.owed(ids);
            assert forall|i: int| 0 <= i < rest.len() implies o[i] == rest[i] by {}
            if o.len() > rest.len() {
                let l = self.list(x);
                let cs = l.filter(shown(n));
                assert(o[rest.len() as int] == (x, n[x as int].kind, n[x as int].slot, cs));
                assert forall|j: int| 0 <= j < cs.len() implies !n[#[trigger] cs[j] as int].hidden && l.contains(cs[j]) by {
                    l.lemma_filter_pred(shown(n), j);
                    l.lemma_filter_contains_rev(shown(n), cs[j]);
                    assert(cs.contains(cs[j]));
                }
                assert forall|c: u32| #[trigger] l.contains(c) && !n[c as int].hidden implies cs.contains(c) by {
                    let k = choose|k: int| 0 <= k < l.len() && l[k] == c;
                    l.lemma_filter_contains(shown(n), k);
                }
            }
        }
    }

    /// Climbs from `p`, the parent of `child`, to the nearest view that lays
    /// out children, returning it and its child on the way.
    pub closed spec fn climb_from(&self, child: u32, p: u32) -> Option<(u32, u32)> {
        climb(self.nodes@, self.rank@, self.top@, self.registry.caps(), child, p)
    }

    /// One step of the climb.
    pub proof fn lemma_climb(&self, child: u32, p: u32)
        requires
            self.wf(),
        ensures
            self.climb_from(child, p) == if p == ROOT || p == DETACHED || !live(self.nodes(), p) {
                None
            } else if self.reg().caps()[self.nodes()[p as int].kind as int].view && self.reg().caps()[self.nodes()[p as int].kind as int].children {
                Some((p, child))
            } else {
                self.climb_from(p, self.nodes()[p as int].parent)
            },
    {
        let n = self.nodes@;
        if p != ROOT && p != DETACHED && live(n, p) {
            let q = n[p as int].parent;
            if q != ROOT && q != DETACHED {
                assert((self.rank@)(q) > (self.rank@)(p));
                assert(placed_in(n, self.lists@, p));
                assert((self.rank@)(q) < self.top@);
            } else {
                assert(climb(n, self.rank@, self.top@, self.registry.caps(), p, q) is None);
            }
        }
    }

    /// The nearest enclosing view that lays out children, to be told that
    /// one of its direct children changed inside: its kind, its row, and
    /// that child.
    pub fn invalidate(&self, id: u32) -> (r: Option<(u16, u32, u32)>)
        requires
            self.wf(),
        ensures
            r == match (if live(self.nodes(), id) {
                self.climb_from(id, self.nodes()[id as int].parent)
            } else {
                None
            }) {
                Some((p, c)) => Some((self.nodes()[p as int].kind, self.nodes()[p as int].slot, c)),
                None => None::<(u16, u32, u32)>,
            },
    {
        let mut child = id;
        let mut parent = match self.node(id) {
            Some(node) => node.parent,
            None => {
                return None;
            },
        };
        let ghost n = self.nodes@;
        while parent != ROOT && parent != DETACHED
            invariant
                self.wf(),
                n == self.nodes@,
                live(n, id),
                parent == ROOT || parent == DETACHED || live(n, parent),
                self.climb_from(id, n[id as int].parent) == self.climb_from(child, parent),
            decreases (if parent == ROOT || parent == DETACHED {
                0
            } else {
                self.top@ - (self.rank@)(parent)
            }),
        {
            let node = self.nodes[parent as usize];
            let caps = self.registry.registration(node.kind).capabilities;
            proof {
                self.lemma_climb(child, parent);
                assert(self.reg().caps()[node.kind as int] == caps);
                assert(placed_in(n, self.lists@, parent));
                if node.parent != ROOT && node.parent != DETACHED {
                    assert((self.rank@)(node.parent) > (self.rank@)(parent));
                    assert((self.rank@)(node.parent) < self.top@);
                }
                assert((self.rank@)(parent) < self.top@);
            }
            if caps.view && caps.children {
                return Some((node.kind, node.slot, child));
            }
            child = parent;
            parent = node.parent;
        }
        proof {
            self.lemma_climb(child, parent);
        }
        None
    }

    /// The first of `ids` still in use and detached, if any.
    pub open spec fn unattached(&self, ids: Seq<u32>) -> Option<u32>
        decreases ids.len(),
    {
        if ids.len() == 0 {
            None
        } else if live(self.nodes(), ids[0]) && self.nodes()[ids[0] as int].parent == DETACHED {
            Some(ids[0])
        } else {
            self.unattached(ids.drop_first())
        }
    }

    /// When none of `ids` is in use and detached, no entry of `ids` is.
    proof fn lemma_unattached_none(&self, ids: Seq<u32>)
        requires
            self.unattached(ids) is None,
        ensures
            forall|i: int|
                0 <= i < ids.len() ==> !(live(self.nodes(), #[trigger] ids[i]) && self.nodes()[ids[i] as int].parent
                    == DETACHED),
        decreases ids.len(),
    {
        if ids.len() > 0 {
            self.lemma_unattached_none(ids.drop_first());
            assert forall|i: int| 0 < i < ids.len() implies ids[i] == ids.drop_first()[i - 1] by {}
        }
    }

    /// Ends the transaction: every node it created must be attached. The
    /// changed child lists are handed over and the sequence advances.
    pub fn finish(&mut self) -> (r: Result<Vec<Delivery>, HostError>)
        requires
            old(self).wf(),
        ensures
            final(self).wf(),
            old(self).detached_are_fresh() && r is Ok ==> final(self).attached(),
            final(self).reg() == old(self).reg(),
            final(self).retired() == old(self).retired(),
            forall|q: u32| #[trigger] final(self).list(q) == old(self).list(q),
            match old(self).unattached(old(self).fresh()) {
                Some(x) => r == Err::<Vec<Delivery>, HostError>(HostError::NotAttached(x))
                    && final(self).nodes() == old(self).nodes() && final(self).applied() == old(self).applied(),
                None => r is Ok && deliveries(r->Ok_0@) == old(self).owed(
                    old(self).pending_lists(),
                ) && final(self).applied() == old(self).upcoming() && final(self).pending_lists().len() == 0,
            },
    {
        let mut i: usize = 0;
        proof {
            assert(self.created@.subrange(0, self.created@.len() as int) =~= self.created@);
        }
        while i < self.created.len()
            invariant
                self.wf(),
                *self == *old(self),
                i <= self.created@.len(),
                self.unattached(self.created@) == self.unattached(
                    self.created@.subrange(i as int, self.created@.len() as int),
                ),
            decreases self.created@.len() - i,
        {
            let id = self.created[i];
            let ghost rest = self.created@.subrange(i as int, self.created@.len() as int);
            proof {
                assert(rest[0] == id);
                assert(rest.drop_first() =~= self.created@.subrange(i + 1, self.created@.len() as int));
            }
            if let Some(node) = self.node(id) {
                if node.parent == DETACHED {
                    return Err(HostError::NotAttached(id));
                }
            }
            i = i + 1;
        }
        proof {
            assert(self.created@.subrange(i as int, self.created@.len() as int).len() == 0);
            self.lemma_unattached_none(self.created@);
            if self.detached_are_fresh() {
                assert forall|x: u32| #[trigger] live(self.nodes@, x) && self.nodes@[x as int].parent == DETACHED implies Seq::<
                    u32,
                >::empty().contains(x) by {
                    let k = choose|k: int| 0 <= k < self.created@.len() && self.created@[k] == x;
                    assert(!(live(self.nodes(), self.created@[k]) && self.nodes()[self.created@[k] as int].parent == DETACHED));
                }
            }
        }
        let ghost settled = self.nodes@;
        let out = self.flush();
        proof {
            if old(self).detached_are_fresh() {
                lemma_detached_steady(settled, self.nodes@, Seq::empty());
                assert forall|x: u32| #[trigger] live(self.nodes(), x) implies self.nodes()[x as int].parent != DETACHED by {
                    if self.nodes@[x as int].parent == DETACHED {
                        assert(Seq::<u32>::empty().contains(x));
                    }
                }
            }
        }
        let ghost flushed = *self;
        self.sequence = self.pending;
        assert forall|q: u32| #[trigger] self.list(q) == flushed.list(q) by {}
        Ok(out)
    }

    /// Releases every node, bumping each record's generation, and empties
    /// the root list. Returns the released records in id order.
    pub fn clear(&mut self) -> (r: Vec<(u32, Node)>)
        requires
            old(self).wf(),
        ensures
            final(self).wf(),
            old(self).detached_are_fresh() ==> final(self).detached_are_fresh(),
            final(self).reg() == old(self).reg(),
            final(self).applied() == old(self).applied(),
            final(self).retired() == old(self).retired(),
            r@ == records_below(old(self).nodes(), old(self).nodes().len() as int),
            final(self).nodes().len() == old(self).nodes().len(),
            forall|x: int|
                0 <= x < old(self).nodes().len() ==> #[trigger] final(self).nodes()[x] == if old(self).nodes()[x].free() {
                    old(self).nodes()[x]
                } else {
                    cleared(old(self).nodes()[x])
                },
            final(self).list(ROOT).len() == 0,
            count_live(final(self).nodes()) == 0,
    {
        let len = self.nodes.len();
        let ghost start = self.nodes@;
        let mut released: Vec<(u32, Node)> = Vec::new();
        let mut id: usize = 0;
        while id < len
            invariant
                len == start.len(),
                len <= DETACHED,
                start == old(self).nodes@,
                id <= len,
                self.nodes@.len() == len,
                self.frame(old(self)),
                self.dirty@ == old(self).dirty@,
                forall|x: int|
                    0 <= x < len ==> #[trigger] self.nodes@[x] == if x < id && !start[x].free() {
                        cleared(start[x])
                    } else {
                        start[x]
                    },
                self.live == count_live(self.nodes@),
                released@ == records_below(start, id as int),
            decreases len - id,
        {
            let node = self.nodes[id];
            let ghost before = self.nodes@;
            if node.kind != EMPTY_KIND {
                let g = if node.generation == 0xFFFF {
                    0
                } else {
                    node.generation + 1
                };
                let mut e = Node::empty(g);
                e.dirty = node.dirty;
                self.nodes.set(id, e);
                proof {
                    lemma_count_live_update(before, id as int, e);
                }
                self.live = self.live - 1;
                released.push((id as u32, node));
            }
            id = id + 1;
        }
        self.first_root = NONE;
        self.last_root = NONE;
        self.root_count = 0;
        self.lists = Ghost(|p: u32| Seq::<u32>::empty());
        proof {
            let n1 = self.nodes@;
            assert forall|x: u32| !#[trigger] live(n1, x) by {
                if (x as int) < len {
                    assert(n1[x as int].free());
                }
            }
            assert forall|i: int| 0 <= i < n1.len() implies (#[trigger] n1[i]).free() by {
                assert(n1[i] == if !start[i].free() { cleared(start[i]) } else { start[i] });
            }
            assert(list_fine(n1, self.lists@, self.root(), ROOT));
            lemma_count_live_none(n1);
            assert forall|x: u32| (x as int) < n1.len() implies (#[trigger] n1[x as int].dirty
                <==> self.dirty@.contains(x)) by {
                assert(n1[x as int].dirty == start[x as int].dirty);
            }
        }
        released
    }

    /// Walks the list owned by `p` through its links.
    fn siblings(&self, p: u32, visible_only: bool) -> (r: Vec<u32>)
        requires
            self.wf(),
            p == ROOT || live(self.nodes(), p),
        ensures
            r@ == (if visible_only {
                self.list(p).filter(shown(self.nodes()))
            } else {
                self.list(p)
            }),
    {
        let ghost l = self.list(p);
        let ghost f = shown(self.nodes@);
        assert(list_fine(self.nodes@, self.lists@, self.root(), p));
        let mut id = if p == ROOT {
            self.first_root
        } else {
            self.nodes[p as usize].first_child
        };
        let mut out: Vec<u32> = Vec::new();
        let ghost mut k: int = 0;
        assert(l.take(0) =~= Seq::<u32>::empty());
        while id != NONE
            invariant
                self.wf(),
                list_fine(self.nodes@, self.lists@, self.root(), p),
                l == self.list(p),
                f == shown(self.nodes@),
                0 <= k <= l.len(),
                id == (if k < l.len() {
                    l[k]
                } else {
                    NONE
                }),
                out@ == (if visible_only {
                    l.take(k).filter(f)
                } else {
                    l.take(k)
                }),
            decreases l.len() - k,
        {
            assert(member(self.nodes@, p, l, k));
            let node = self.nodes[id as usize];
            proof {
                assert(l.take(k + 1) =~= l.take(k).push(l[k]));
                l.take(k).lemma_filter_push(l[k], f);
            }
            if !visible_only || !node.hidden {
                out.push(id);
            }
            id = node.next_sibling;
            proof {
                k = k + 1;
            }
        }
        proof {
            if k < l.len() {
                assert(member(self.nodes@, p, l, k));
            }
            assert(l.take(k) =~= l);
        }
        out
    }

    /// The root ids in order.
    pub fn roots(&self) -> (r: Vec<u32>)
        requires
            self.wf(),
        ensures
            r@ == self.list(ROOT),
    {
        self.siblings(ROOT, false)
    }

    /// The child ids of a node in use, in order.
    pub fn children(&self, id: u32) -> (r: Option<Vec<u32>>)
        requires
            self.wf(),
        ensures
            match r {
                Some(v) => live(self.nodes(), id) && v@ == self.list(id),
                None => !live(self.nodes(), id),
            },
    {
        match self.node(id) {
            Some(_) => Some(self.siblings(id, false)),
            None => None,
        }
    }

    /// The children of a node in use that are not hidden, in order.
    pub fn visible_children(&self, id: u32) -> (r: Option<Vec<u32>>)
        requires
            self.wf(),
        ensures
            match r {
                Some(v) => live(self.nodes(), id) && v@ == self.list(id).filter(
                    shown(self.nodes()),
                ),
                None => !live(self.nodes(), id),
            },
            r matches Some(v) ==> visible_of(v@, self.list(id), self.nodes()),
    {
        proof {
            lemma_visible(self.list(id), self.nodes());
        }
        match self.node(id) {
            Some(_) => Some(self.siblings(id, true)),
            None => None,
        }
    }

    /// The roots that are not hidden, in order.
    pub fn visible_roots(&self) -> (r: Vec<u32>)
        requires
            self.wf(),
        ensures
            r@ == self.list(ROOT).filter(shown(self.nodes())),
            visible_of(r@, self.list(ROOT), self.nodes()),
    {
        proof {
            lemma_visible(self.list(ROOT), self.nodes());
        }
        self.siblings(ROOT, true)
    }
}

} // verus!
