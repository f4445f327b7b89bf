//! Child lists of the live tree, its tree order, and the next free id number.
use vstd::prelude::*;
use crate::model::{nodes_view, Node, NodeModel};
use crate::text::{chars_of, has_prefix, parse_i32, parse_i32_spec, starts_with, tail};

verus! {

/// The entries of each child list.
pub open spec fn lists_view(v: Seq<Vec<usize>>) -> Seq<Seq<usize>> {
    Seq::new(v.len(), |i: int| v[i]@)
}

/// Every child comes after its parent and within the tree.
pub open spec fn children_ok(ch: Seq<Seq<usize>>) -> bool {
    forall|p: int, k: int|
        0 <= p < ch.len() && 0 <= k < ch[p].len() ==> p < #[trigger] ch[p][k] < ch.len()
}

/// Whether node `i` has a child that is not removed.
pub open spec fn has_live_child(ch: Seq<Seq<usize>>, dead: Seq<bool>, i: int) -> bool {
    exists|k: int| 0 <= k < ch[i].len() && !dead[#[trigger] ch[i][k] as int]
}

/// Whether node `i` has a child that is not removed.
pub fn live_child(children: &Vec<Vec<usize>>, dead: &Vec<bool>, i: usize) -> (b: bool)
    requires
        i < children@.len(),
        forall|k: int|
            0 <= k < lists_view(children@)[i as int].len() ==> #[trigger] lists_view(children@)[i as int][k]
                < dead@.len(),
    ensures
        b == has_live_child(lists_view(children@), dead@, i as int),
{
    let kids = &children[i];
    proof {
        assert(lists_view(children@)[i as int] == kids@);
    }
    let mut k: usize = 0;
    while k < kids.len()
        invariant
            kids@ == lists_view(children@)[i as int],
            forall|j: int| 0 <= j < kids@.len() ==> #[trigger] kids@[j] < dead@.len(),
            k <= kids@.len(),
            forall|j: int| 0 <= j < k ==> dead@[#[trigger] kids@[j] as int],
        decreases kids@.len() - k,
    {
        if !dead[kids[k]] {
            return true;
        }
        k = k + 1;
    }
    false
}

/// Child indices lie within the table, and `rank` falls from each node to each of its
/// children (and stays below the table's length): the lists hold no cycle.
pub open spec fn ranked(ch: Seq<Seq<usize>>, rank: Seq<nat>) -> bool {
    &&& rank.len() == ch.len()
    &&& forall|p: int| 0 <= p < ch.len() ==> #[trigger] rank[p] < ch.len()
    &&& forall|p: int, k: int|
        0 <= p < ch.len() && 0 <= k < ch[p].len() ==> #[trigger] ch[p][k] < ch.len() && rank[ch[p][k] as int]
            < rank[p]
}

/// The child lists form a forest: every child is in the table, and no node lies below
/// itself.
pub open spec fn acyclic(ch: Seq<Seq<usize>>) -> bool {
    exists|rank: Seq<nat>| ranked(ch, rank)
}

/// Lists whose children come after their parents hold no cycle.
pub proof fn lemma_forward_acyclic(ch: Seq<Seq<usize>>)
    requires
        children_ok(ch),
    ensures
        acyclic(ch),
{
    let n = ch.len();
    let rank = Seq::new(n, |p: int| (n - 1 - p) as nat);
    assert(ranked(ch, rank));
}

/// The live nodes below `i` (and `i` itself unless it is the root) in tree order, down to
/// `fuel` levels; removed subtrees are skipped.
pub open spec fn walk_at(ch: Seq<Seq<usize>>, dead: Seq<bool>, i: int, fuel: nat) -> Seq<usize>
    decreases fuel, 1int, 0int,
{
    if 0 <= i < ch.len() {
        (if i != 0 && !dead[i] {
            seq![i as usize]
        } else {
            Seq::<usize>::empty()
        }) + walk_kids(ch, dead, i, 0, fuel)
    } else {
        Seq::<usize>::empty()
    }
}

/// The walks of the live children of `i` from position `k` of its child list.
pub open spec fn walk_kids(ch: Seq<Seq<usize>>, dead: Seq<bool>, i: int, k: int, fuel: nat) -> Seq<usize>
    decreases fuel, 0int, ch[i].len() - k,
{
    if !(0 <= i < ch.len()) || k < 0 || k >= ch[i].len() {
        Seq::<usize>::empty()
    } else {
        let c = ch[i][k] as int;
        (if c < ch.len() && !dead[c] && fuel > 0 {
            walk_at(ch, dead, c, (fuel - 1) as nat)
        } else {
            Seq::<usize>::empty()
        }) + walk_kids(ch, dead, i, k + 1, fuel)
    }
}

/// The live nodes below `i` (and `i` itself unless it is the root) in tree order: a node,
/// then the walks of its live children in list order. A table without cycles is no deeper
/// than its length, so that many levels reach every node.
pub open spec fn walk_spec(ch: Seq<Seq<usize>>, dead: Seq<bool>, i: int) -> Seq<usize> {
    walk_at(ch, dead, i, ch.len())
}

/// Every node of a walk is in the table, and never the root.
pub open spec fn walk_entries_ok(s: Seq<usize>, lo: int, n: int) -> bool {
    forall|j: int| 0 <= j < s.len() ==> 1 <= #[trigger] s[j] < n && lo <= s[j]
}

fn walk(
    i: usize,
    children: &Vec<Vec<usize>>,
    dead: &Vec<bool>,
    out: &mut Vec<usize>,
    Ghost(rank): Ghost<Seq<nat>>,
    Ghost(fuel): Ghost<nat>,
)
    requires
        i < children@.len(),
        ranked(lists_view(children@), rank),
        rank[i as int] < fuel,
        dead@.len() == children@.len(),
    ensures
        final(out)@ == old(out)@ + walk_at(lists_view(children@), dead@, i as int, fuel),
        walk_entries_ok(walk_at(lists_view(children@), dead@, i as int, fuel), 0, children@.len() as int),
    decreases fuel,
{
    let ghost ch = lists_view(children@);
    let ghost start = out@;
    if i != 0 && !dead[i] {
        out.push(i);
    }
    let ghost mine = if i != 0 && !dead@[i as int] {
        seq![i as usize]
    } else {
        Seq::<usize>::empty()
    };
    proof {
        assert(out@ == start + mine);
    }
    let kids = &children[i];
    proof {
        assert(ch[i as int] == kids@);
    }
    let mut k: usize = 0;
    while k < kids.len()
        invariant
            i < children@.len(),
            ch == lists_view(children@),
            kids@ == ch[i as int],
            ranked(ch, rank),
            rank[i as int] < fuel,
            dead@.len() == children@.len(),
            k <= kids@.len(),
            out@ + walk_kids(ch, dead@, i as int, k as int, fuel) == start + walk_at(ch, dead@, i as int, fuel),
            walk_entries_ok(out@.skip(start.len() as int), 0, children@.len() as int),
            out@.len() >= start.len(),
            out@.take(start.len() as int) == start,
        decreases kids@.len() - k,
    {
        let c = kids[k];
        proof {
            assert(c == ch[i as int][k as int]);
            assert(c < ch.len() && rank[c as int] < rank[i as int]);
        }
        let ghost before = out@;
        if !dead[c] {
            walk(c, children, dead, out, Ghost(rank), Ghost((fuel - 1) as nat));
        }
        proof {
            let w = if !dead@[c as int] {
                walk_at(ch, dead@, c as int, (fuel - 1) as nat)
            } else {
                Seq::<usize>::empty()
            };
            assert(out@ == before + w);
            assert(walk_kids(ch, dead@, i as int, k as int, fuel) == w + walk_kids(ch, dead@, i as int, k + 1, fuel));
            assert(out@ + walk_kids(ch, dead@, i as int, k + 1, fuel) =~= before + walk_kids(
                ch,
                dead@,
                i as int,
                k as int,
                fuel,
            ));
            assert(out@.skip(start.len() as int) =~= before.skip(start.len() as int) + w);
            assert(out@.take(start.len() as int) =~= start);
        }
        k = k + 1;
    }
    proof {
        assert(walk_kids(ch, dead@, i as int, k as int, fuel) == Seq::<usize>::empty());
        assert(out@ =~= start + walk_at(ch, dead@, i as int, fuel));
        assert(out@.skip(start.len() as int) =~= walk_at(ch, dead@, i as int, fuel));
    }
}

/// The live nodes in tree order, without the root: a node, then the subtrees of its live
/// children in list order; a removed node's subtree is left out.
pub fn tree_order(children: &Vec<Vec<usize>>, dead: &Vec<bool>) -> (order: Vec<usize>)
    requires
        children@.len() >= 1,
        acyclic(lists_view(children@)),
        dead@.len() == children@.len(),
    ensures
        order@ == walk_spec(lists_view(children@), dead@, 0),
        walk_entries_ok(order@, 0, children@.len() as int),
{
    let ghost rank = choose|rank: Seq<nat>| ranked(lists_view(children@), rank);
    let mut out: Vec<usize> = Vec::new();
    proof {
        assert(rank[0] < lists_view(children@).len());
    }
    walk(0, children, dead, &mut out, Ghost(rank), Ghost(children@.len() as nat));
    proof {
        assert(out@ =~= walk_spec(lists_view(children@), dead@, 0));
    }
    out
}

/// The number `n` of an `id<n>` id, where the rest reads as an `i32`.
pub open spec fn id_number(dom_id: Option<Seq<char>>) -> Option<i32> {
    match dom_id {
        Some(s) => if has_prefix(s, "id"@) {
            parse_i32_spec(s.skip(2))
        } else {
            None
        },
        None => None,
    }
}

/// The greatest `id<n>` number among the nodes, or -1 when there is none.
pub open spec fn max_id_number(ns: Seq<NodeModel>) -> int
    decreases ns.len(),
{
    if ns.len() == 0 {
        -1
    } else {
        let m = max_id_number(ns.drop_last());
        match id_number(ns.last().dom_id) {
            Some(v) => if v > m {
                v as int
            } else {
                m
            },
            None => m,
        }
    }
}

/// Every `id<n>` number among the nodes is below `bound`.
pub open spec fn ids_below(ns: Seq<NodeModel>, bound: int) -> bool {
    forall|i: int|
        0 <= i < ns.len() ==> (#[trigger] id_number(ns[i].dom_id) matches Some(v) ==> v < bound)
}

/// Appending a node raises the greatest `id<n>` number to its own, if that is greater.
pub proof fn lemma_max_id_push(ns: Seq<NodeModel>, x: NodeModel)
    ensures
        max_id_number(ns.push(x)) == match id_number(x.dom_id) {
            Some(v) => if v > max_id_number(ns) {
                v as int
            } else {
                max_id_number(ns)
            },
            None => max_id_number(ns),
        },
        max_id_number(ns) <= max_id_number(ns.push(x)),
{
    assert(ns.push(x).drop_last() =~= ns);
}

/// No node's `id<n>` number exceeds the greatest.
/// The greatest `id<n>` number is at least -1, the value of a tree without one.
pub proof fn lemma_max_id_floor(ns: Seq<NodeModel>)
    ensures
        max_id_number(ns) >= -1,
    decreases ns.len(),
{
    if ns.len() > 0 {
        lemma_max_id_floor(ns.drop_last());
    }
}

pub proof fn lemma_max_id_ge(ns: Seq<NodeModel>, k: int)
    requires
        0 <= k < ns.len(),
    ensures
        id_number(ns[k].dom_id) matches Some(v) ==> v <= max_id_number(ns),
    decreases ns.len(),
{
    if k < ns.len() - 1 {
        lemma_max_id_ge(ns.drop_last(), k);
        assert(ns.drop_last()[k] == ns[k]);
    }
}

/// The next free number for `id<n>` ids.
pub fn next_dom_id_count(nodes: &[Node]) -> (r: i32)
    requires
        ids_below(nodes_view(nodes@), i32::MAX as int),
    ensures
        r == max_id_number(nodes_view(nodes@)) + 1,
        r >= 0,
{
    let ghost ns = nodes_view(nodes@);
    let mut max: i32 = -1;
    let mut i: usize = 0;
    while i < nodes.len()
        invariant
            i <= nodes@.len(),
            ns == nodes_view(nodes@),
            ids_below(ns, i32::MAX as int),
            max == max_id_number(ns.take(i as int)),
            -1 <= max < i32::MAX,
        decreases nodes@.len() - i,
    {
        proof {
            assert(ns.take(i + 1).drop_last() == ns.take(i as int));
            assert(ns.take(i + 1).last() == nodes@[i as int]@);
            assert(ns[i as int] == nodes@[i as int]@);
        }
        match &nodes[i].dom_id {
            Some(id) => {
                let cs = chars_of(id.as_str());
                if starts_with(cs.as_slice(), "id") {
                    proof {
                        reveal_strlit("id");
                    }
                    let rest = tail(cs.as_slice(), 2);
                    match parse_i32(rest.as_slice()) {
                        Some(v) => {
                            if v > max {
                                max = v;
                            }
                        },
                        None => {},
                    }
                }
            },
            None => {},
        }
        i = i + 1;
    }
    proof {
        assert(ns.take(i as int) == ns);
    }
    max + 1
}

} // verus!
