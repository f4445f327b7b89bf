//! The host tree's links: slot 0 is the document, slot `i + 1` the fixture's node `i`;
//! each slot knows its parent, its first and last child, and its siblings on either side.
use vstd::prelude::*;
use crate::model::{nodes_view, Node, NodeModel};

verus! {

/// The parent slot of slot `s` (for `s >= 1`): the document for a fixture root, else the
/// slot of the fixture parent.
pub open spec fn slot_parent(ns: Seq<NodeModel>, s: int) -> int {
    if ns[s - 1].parent < 0 {
        0
    } else {
        ns[s - 1].parent + 1
    }
}

/// Whether slot `c` is an element slot whose parent is slot `p`.
pub open spec fn child_of(ns: Seq<NodeModel>, c: int, p: int) -> bool {
    1 <= c <= ns.len() && slot_parent(ns, c) == p
}

/// `f` is the first child of slot `p` among the slots below `lim`.
pub open spec fn first_ok(ns: Seq<NodeModel>, p: int, f: Option<u32>, lim: int) -> bool {
    match f {
        None => forall|c: int| 1 <= c < lim ==> !#[trigger] child_of(ns, c, p),
        Some(c) => {
            &&& 1 <= c < lim
            &&& child_of(ns, c as int, p)
            &&& forall|d: int| 1 <= d < c ==> !#[trigger] child_of(ns, d, p)
        },
    }
}

/// `l` is the last child of slot `p` among the slots below `lim`.
pub open spec fn last_ok(ns: Seq<NodeModel>, p: int, l: Option<u32>, lim: int) -> bool {
    match l {
        None => forall|c: int| 1 <= c < lim ==> !#[trigger] child_of(ns, c, p),
        Some(c) => {
            &&& 1 <= c < lim
            &&& child_of(ns, c as int, p)
            &&& forall|d: int| c < d < lim ==> !#[trigger] child_of(ns, d, p)
        },
    }
}

/// `x` is the next sibling of slot `c` among the slots below `lim`.
pub open spec fn next_ok(ns: Seq<NodeModel>, c: int, x: Option<u32>, lim: int) -> bool {
    let p = slot_parent(ns, c);
    match x {
        None => forall|d: int| c < d < lim ==> !#[trigger] child_of(ns, d, p),
        Some(d) => {
            &&& c < d < lim
            &&& child_of(ns, d as int, p)
            &&& forall|e: int| c < e < d ==> !#[trigger] child_of(ns, e, p)
        },
    }
}

/// `x` is the previous sibling of slot `c`.
pub open spec fn prev_ok(ns: Seq<NodeModel>, c: int, x: Option<u32>) -> bool {
    let p = slot_parent(ns, c);
    match x {
        None => forall|d: int| 1 <= d < c ==> !#[trigger] child_of(ns, d, p),
        Some(d) => {
            &&& 1 <= d < c
            &&& child_of(ns, d as int, p)
            &&& forall|e: int| d < e < c ==> !#[trigger] child_of(ns, e, p)
        },
    }
}

/// The host's shadow-root type. The StyleBench host has no shadow trees, so nothing is
/// ever one.
#[derive(Clone, Copy, Debug, PartialEq, Eq, Structural)]
pub struct NoShadow;

/// The links of the host's slots, one entry per slot.
pub struct SlotLinks {
    pub parent: Vec<Option<u32>>,
    pub first_child: Vec<Option<u32>>,
    pub last_child: Vec<Option<u32>>,
    pub next: Vec<Option<u32>>,
    pub prev: Vec<Option<u32>>,
}

/// The links over the slots below `lim`, for a tree of `ns`.
pub open spec fn links_ok(ns: Seq<NodeModel>, k: SlotLinks, lim: int) -> bool {
    let n = ns.len() + 1;
    &&& k.parent@.len() == n
    &&& k.first_child@.len() == n
    &&& k.last_child@.len() == n
    &&& k.next@.len() == n
    &&& k.prev@.len() == n
    &&& k.parent@[0] is None
    &&& forall|s: int| 1 <= s < n ==> #[trigger] k.parent@[s] == Some(slot_parent(ns, s) as u32)
    &&& forall|p: int| 0 <= p < n ==> first_ok(ns, p, #[trigger] k.first_child@[p], lim)
    &&& forall|p: int| 0 <= p < n ==> last_ok(ns, p, #[trigger] k.last_child@[p], lim)
    &&& k.next@[0] is None
    &&& k.prev@[0] is None
    &&& forall|c: int| 1 <= c < lim ==> next_ok(ns, c, #[trigger] k.next@[c], lim)
    &&& forall|c: int| 1 <= c < lim ==> prev_ok(ns, c, #[trigger] k.prev@[c])
    &&& forall|c: int| lim <= c < n ==> #[trigger] k.next@[c] is None && k.prev@[c] is None
}

/// A list of `n` empty links.
fn no_links(n: usize) -> (v: Vec<Option<u32>>)
    ensures
        v@.len() == n,
        forall|i: int| 0 <= i < n ==> #[trigger] v@[i] is None,
{
    let mut v: Vec<Option<u32>> = Vec::new();
    let mut i: usize = 0;
    while i < n
        invariant
            i <= n,
            v@.len() == i,
            forall|j: int| 0 <= j < i ==> #[trigger] v@[j] is None,
        decreases n - i,
    {
        v.push(None);
        i = i + 1;
    }
    v
}

/// The host's slot links for the fixture's nodes: the document in slot 0, node `i` in
/// slot `i + 1`, and each slot's children linked in slot order.
pub fn slot_links(nodes: &[Node]) -> (k: SlotLinks)
    requires
        nodes@.len() < u32::MAX,
        forall|i: int| 0 <= i < nodes@.len() ==> #[trigger] nodes@[i].parent < nodes@.len(),
    ensures
        links_ok(nodes_view(nodes@), k, nodes@.len() + 1int),
{
    let ghost ns = nodes_view(nodes@);
    let n = nodes.len() + 1;
    let mut parent: Vec<Option<u32>> = Vec::new();
    parent.push(None);
    let mut j: usize = 0;
    while j < nodes.len()
        invariant
            j <= nodes@.len(),
            ns == nodes_view(nodes@),
            nodes@.len() < u32::MAX,
            forall|i: int| 0 <= i < nodes@.len() ==> #[trigger] nodes@[i].parent < nodes@.len(),
            parent@.len() == j + 1,
            parent@[0] is None,
            forall|s: int| 1 <= s <= j ==> #[trigger] parent@[s] == Some(slot_parent(ns, s) as u32),
        decreases nodes@.len() - j,
    {
        proof {
            assert(ns[j as int] == nodes@[j as int]@);
        }
        let p: u32 = if nodes[j].parent < 0 {
            0
        } else {
            (nodes[j].parent as u32) + 1
        };
        parent.push(Some(p));
        j = j + 1;
    }
    proof {
        assert forall|s: int| 1 <= s < n implies 0 <= #[trigger] slot_parent(ns, s) < n by {
            assert(ns[s - 1] == nodes@[s - 1]@);
        }
    }
    let mut k = SlotLinks {
        parent,
        first_child: no_links(n),
        last_child: no_links(n),
        next: no_links(n),
        prev: no_links(n),
    };
    let mut i: usize = 1;
    while i < n
        invariant
            1 <= i <= n,
            n == nodes@.len() + 1,
            nodes@.len() < u32::MAX,
            ns == nodes_view(nodes@),
            forall|s: int| 1 <= s < n ==> 0 <= #[trigger] slot_parent(ns, s) < n,
            links_ok(ns, k, i as int),
        decreases n - i,
    {
        let p = k.parent[i].unwrap() as usize;
        let ghost before = k;
        match k.last_child[p] {
            Some(l) => {
                k.prev[i] = Some(l);
                k.next[l as usize] = Some(i as u32);
            },
            None => {
                k.first_child[p] = Some(i as u32);
            },
        }
        k.last_child[p] = Some(i as u32);
        proof {
            assert(slot_parent(ns, i as int) == p as int);
            assert(child_of(ns, i as int, p as int));
            assert(last_ok(ns, p as int, before.last_child@[p as int], i as int));
            assert(first_ok(ns, p as int, before.first_child@[p as int], i as int));
            assert forall|q: int| 0 <= q < n implies first_ok(ns, q, #[trigger] k.first_child@[q], i + 1) by {
                assert(first_ok(ns, q, before.first_child@[q], i as int));
                if q != p {
                    assert(!child_of(ns, i as int, q));
                    assert(k.first_child@[q] == before.first_child@[q]);
                }
            }
            assert forall|q: int| 0 <= q < n implies last_ok(ns, q, #[trigger] k.last_child@[q], i + 1) by {
                assert(last_ok(ns, q, before.last_child@[q], i as int));
                if q != p {
                    assert(!child_of(ns, i as int, q));
                    assert(k.last_child@[q] == before.last_child@[q]);
                }
            }
            assert forall|c: int| 1 <= c < i + 1 implies next_ok(ns, c, #[trigger] k.next@[c], i + 1) by {
                if c < i {
                    assert(next_ok(ns, c, before.next@[c], i as int));
                    if before.next@[c] is None && slot_parent(ns, c) == p {
                        assert(child_of(ns, c, p as int));
                        assert(last_ok(ns, p as int, before.last_child@[p as int], i as int));
                    }
                }
            }
            assert forall|c: int| 1 <= c < i + 1 implies prev_ok(ns, c, #[trigger] k.prev@[c]) by {
                if c < i {
                    assert(prev_ok(ns, c, before.prev@[c]));
                    assert(k.prev@[c] == before.prev@[c]);
                } else {
                    assert(c == i);
                    assert(before.next@[c] is None);
                    assert(before.prev@[c] is None);
                }
            }
        }
        i = i + 1;
    }
    k
}

} // verus!
