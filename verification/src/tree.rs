//! The generated DOM tree: random elements, repeated sequences of subtrees.
use vstd::prelude::*;
use vstd::string::*;
use crate::model::{attrs_view, copy_node, nodes_view, strings_view, Attr, Config, Node, NodeModel};
use crate::names::{
    is_word, lemma_name_literals, lemma_numbered_word, numbered, random_attribute_name,
    random_attribute_value, random_class_name, random_element_name, trunc_div, value_text,
};
use crate::random::{
    chance_draw, draw_below, fraction_draw, fraction_of, lcg_step, number_draw, weighted_draw, Random,
};
use crate::subtree::{
    appended_outside, desc, kids, lemma_desc_above, lemma_desc_stable, lemma_desc_trans,
    lemma_size_block, lemma_size_bound, lemma_size_stable, parents_wf, size,
};
use crate::text::{decimal, has_prefix, lemma_decimal_roundtrip, parse_i32_spec, push_int, push_str};
use crate::walk::{id_number, lemma_max_id_floor, lemma_max_id_ge, lemma_max_id_push, max_id_number};

verus! {

/// A non-empty string of letters and digits.
pub open spec fn gen_word(s: Seq<char>) -> bool {
    s.len() > 0 && is_word(s)
}

/// An id the generator hands out: a word, and when it is `id<n>`, `n` is below
/// `i32::MAX`.
pub open spec fn id_text_ok(s: Seq<char>) -> bool {
    &&& gen_word(s)
    &&& has_prefix(s, "id"@) ==> parse_i32_spec(s.skip(2)) != Some(i32::MAX)
}

/// A node as the generator makes them: words for the tag, id, classes and attribute
/// names, and a word (maybe empty) for each attribute value.
pub open spec fn node_ok(n: NodeModel) -> bool {
    &&& gen_word(n.tag)
    &&& (n.dom_id matches Some(s) ==> id_text_ok(s))
    &&& forall|i: int| 0 <= i < n.classes.len() ==> gen_word(#[trigger] n.classes[i])
    &&& forall|i: int|
        0 <= i < n.attrs.len() ==> gen_word((#[trigger] n.attrs[i]).0) && is_word(n.attrs[i].1)
}

/// The parent of each node.
pub open spec fn parents_of(ns: Seq<NodeModel>) -> Seq<int> {
    Seq::new(ns.len(), |i: int| ns[i].parent)
}

/// Every node is made of words.
pub open spec fn words_ok(ns: Seq<NodeModel>) -> bool {
    forall|i: int| 0 <= i < ns.len() ==> node_ok(#[trigger] ns[i])
}

/// A generated tree: parents come first and every node is made of words.
pub open spec fn tree_ok(ns: Seq<NodeModel>) -> bool {
    &&& parents_wf(parents_of(ns))
    &&& forall|i: int| 0 <= i < ns.len() ==> node_ok(#[trigger] ns[i])
}

proof fn lemma_numbered_id(k: int)
    requires
        0 <= k < i32::MAX,
    ensures
        id_text_ok(numbered("id"@, k)),
{
    lemma_name_literals();
    lemma_numbered_word("id"@, k);
    let s = numbered("id"@, k);
    assert(s.skip(2) =~= decimal(k));
    lemma_decimal_roundtrip(k as i32);
}

proof fn lemma_id_number_of(k: int)
    requires
        0 <= k < i32::MAX,
    ensures
        id_number(Some(numbered("id"@, k))) == Some(k as i32),
{
    lemma_name_literals();
    let s = numbered("id"@, k);
    assert(s.take(2) =~= "id"@);
    assert(s.skip(2) =~= decimal(k));
    lemma_decimal_roundtrip(k as i32);
}

/// The generator's state after, and the names of, `count` random class names.
pub open spec fn classes_draw(cfg: Config, s: int, count: int) -> (int, Seq<Seq<char>>)
    decreases count,
{
    if count <= 0 {
        (s, Seq::empty())
    } else {
        let (s1, cs) = classes_draw(cfg, s, count - 1);
        let (s2, v) = weighted_draw(s1, cfg.class_count as int);
        (s2, cs.push(numbered("class"@, v)))
    }
}

/// The generator's state after, and the names and values of, `count` random attributes.
pub open spec fn attrs_draw(cfg: Config, s: int, count: int) -> (int, Seq<(Seq<char>, Seq<char>)>)
    decreases count,
{
    if count <= 0 {
        (s, Seq::empty())
    } else {
        let (s1, attrs) = attrs_draw(cfg, s, count - 1);
        let (s2, n) = weighted_draw(s1, cfg.attribute_count as int);
        let (s3, v) = weighted_draw(s2, cfg.attribute_value_count as int);
        (s3, attrs.push((numbered("attr"@, n), value_text(v))))
    }
}

/// The `i`-th of `count` random attributes is the `i`-th name draw and the value draw
/// right after it: `attr<n>` for the name drawn from where the earlier attributes left
/// the generator, with the value text of the number drawn next (empty for 0, `val` for
/// 1, else `val<v>`).
pub proof fn lemma_attrs_drawn(cfg: Config, s: int, count: int, i: int)
    requires
        0 <= i < count,
    ensures
        attrs_draw(cfg, s, count).1.len() == count,
        ({
            let t = attrs_draw(cfg, s, i).0;
            let (t1, n) = weighted_draw(t, cfg.attribute_count as int);
            let (t2, v) = weighted_draw(t1, cfg.attribute_value_count as int);
            attrs_draw(cfg, s, count).1[i] == (numbered("attr"@, n), value_text(v))
        }),
    decreases count,
{
    lemma_attrs_len(cfg, s, count);
    if i < count - 1 {
        lemma_attrs_drawn(cfg, s, count - 1, i);
    }
}

proof fn lemma_attrs_len(cfg: Config, s: int, count: int)
    ensures
        attrs_draw(cfg, s, count).1.len() == if count > 0 {
            count
        } else {
            0
        },
    decreases count,
{
    if count > 0 {
        lemma_attrs_len(cfg, s, count - 1);
    }
}

/// The generator's state after `make_element` from state `s` with the id counter at
/// `id_count`, the element, and the counter after: a tag; with the element class chance,
/// one to `element_maximum_classes` classes (weighted to few); with the element
/// attribute chance, one to `element_maximum_attributes` attributes; with the id chance,
/// the id `id<id_count>`.
#[verifier::opaque]
pub open spec fn element_draw(cfg: Config, s: int, id_count: int) -> (int, NodeModel, int) {
    let (s1, t) = weighted_draw(s, cfg.element_type_count as int);
    let (s2, has_classes) = chance_draw(s1, cfg.element_class_chance as int);
    let (s4, classes) = if has_classes {
        let (s3, c) = weighted_draw(s2, cfg.element_maximum_classes as int);
        classes_draw(cfg, s3, c + 1)
    } else {
        (s2, Seq::empty())
    };
    let (s5, has_attrs) = chance_draw(s4, cfg.element_attribute_chance as int);
    let (s7, attrs) = if has_attrs {
        let (s6, c) = number_draw(s5, cfg.element_maximum_attributes as int);
        attrs_draw(cfg, s6, c + 1)
    } else {
        (s5, Seq::empty())
    };
    let (s8, has_id) = chance_draw(s7, cfg.id_chance as int);
    let node = NodeModel {
        parent: -1,
        tag: numbered("elem"@, t),
        dom_id: if has_id {
            Some(numbered("id"@, id_count))
        } else {
            None
        },
        classes,
        attrs,
    };
    (s8, node, if has_id {
        id_count + 1
    } else {
        id_count
    })
}

/// A random element: a tag, maybe classes, maybe attributes, maybe an id.
pub fn make_element(cfg: &Config, rng: &mut Random, id_count: &mut i32) -> (n: Node)
    requires
        *old(id_count) < i32::MAX,
    ensures
        (final(rng)@, n@, *final(id_count) as int) == element_draw(*cfg, old(rng)@, *old(id_count) as int),
        n.parent == -1,
        *old(id_count) >= 0 ==> node_ok(n@),
        n.dom_id is Some ==> *final(id_count) == *old(id_count) + 1 && opt_is(
            n@.dom_id,
            numbered("id"@, *old(id_count) as int),
        ),
        n.dom_id is None ==> *final(id_count) == *old(id_count),
{
    let ghost s0 = rng@;
    let tag = random_element_name(cfg, rng);
    let ghost s1 = rng@;
    let mut classes: Vec<String> = Vec::new();
    let mut attrs: Vec<Attr> = Vec::new();
    let ghost mut s3 = 0int;
    let ghost mut class_count = 0int;
    let has_classes = rng.chance(cfg.element_class_chance);
    let ghost s2 = rng@;
    proof {
        assert(strings_view(classes@) =~= Seq::<Seq<char>>::empty());
        assert(attrs_view(attrs@) =~= Seq::<(Seq<char>, Seq<char>)>::empty());
    }
    if has_classes {
        let count = rng.number_square_weighted_to_low(cfg.element_maximum_classes) + 1;
        proof {
            s3 = rng@;
            class_count = count as int;
        }
        let mut i: i32 = 0;
        while i < count
            invariant
                0 <= i <= count,
                forall|j: int| 0 <= j < classes@.len() ==> gen_word(#[trigger] classes@[j]@),
                (rng@, strings_view(classes@)) == classes_draw(*cfg, s3, i as int),
            decreases count - i,
        {
            let ghost before = strings_view(classes@);
            let c = random_class_name(cfg, rng);
            classes.push(c);
            proof {
                assert(strings_view(classes@) =~= before.push(c@));
            }
            i = i + 1;
        }
    }
    let ghost s4 = rng@;
    let ghost mut s6 = 0int;
    let ghost mut attr_count = 0int;
    let has_attrs = rng.chance(cfg.element_attribute_chance);
    let ghost s5 = rng@;
    if has_attrs {
        let count = rng.number(cfg.element_maximum_attributes) + 1;
        proof {
            s6 = rng@;
            attr_count = count as int;
        }
        let mut i: i32 = 0;
        while i < count
            invariant
                0 <= i <= count,
                forall|j: int|
                    0 <= j < attrs@.len() ==> gen_word((#[trigger] attrs@[j])@.0) && is_word(
                        attrs@[j]@.1,
                    ),
                (rng@, attrs_view(attrs@)) == attrs_draw(*cfg, s6, i as int),
            decreases count - i,
        {
            let ghost before = attrs_view(attrs@);
            let name = random_attribute_name(cfg, rng);
            let value = random_attribute_value(cfg, rng);
            let a = Attr { name, value };
            attrs.push(a);
            proof {
                assert(attrs_view(attrs@) =~= before.push(a@));
            }
            i = i + 1;
        }
    }
    let ghost s7 = rng@;
    let mut dom_id: Option<String> = None;
    let ghost id0 = *id_count as int;
    let has_id = rng.chance(cfg.id_chance);
    if has_id {
        let mut s = String::new();
        push_str(&mut s, "id");
        push_int(&mut s, *id_count as i64);
        proof {
            assert(s@ =~= numbered("id"@, *id_count as int));
            if *id_count >= 0 {
                lemma_numbered_id(*id_count as int);
            }
        }
        dom_id = Some(s);
        *id_count = *id_count + 1;
    }
    let n = Node { parent: -1, tag, dom_id, classes, attrs };
    proof {
        assert forall|j: int| 0 <= j < n@.classes.len() implies gen_word(#[trigger] n@.classes[j]) by {
            assert(n@.classes[j] == classes@[j]@);
        }
        assert forall|j: int| 0 <= j < n@.attrs.len() implies gen_word((#[trigger] n@.attrs[j]).0)
            && is_word(n@.attrs[j].1) by {
            assert(n@.attrs[j] == attrs@[j]@);
        }
        assert(weighted_draw(s0, cfg.element_type_count as int).0 == s1);
        assert(chance_draw(s1, cfg.element_class_chance as int) == (s2, has_classes));
        if has_classes {
            assert(weighted_draw(s2, cfg.element_maximum_classes as int) == (s3, class_count - 1));
            assert(classes_draw(*cfg, s3, class_count) == (s4, n@.classes));
        } else {
            assert(s4 == s2 && n@.classes == Seq::<Seq<char>>::empty());
        }
        assert(chance_draw(s4, cfg.element_attribute_chance as int) == (s5, has_attrs));
        if has_attrs {
            assert(number_draw(s5, cfg.element_maximum_attributes as int) == (s6, attr_count - 1));
            assert(attrs_draw(*cfg, s6, attr_count) == (s7, n@.attrs));
        } else {
            assert(s7 == s5 && n@.attrs == Seq::<(Seq<char>, Seq<char>)>::empty());
        }
        assert(chance_draw(s7, cfg.id_chance as int) == (rng@, has_id));
        reveal(element_draw);
    }
    n
}

/// Whether an optional string is the given one.
pub open spec fn opt_is(o: Option<Seq<char>>, s: Seq<char>) -> bool {
    o == Some(s)
}

/// The number of nodes in the subtree of `root`, counted as one plus the children's.
pub fn subtree_size(nodes: &[Node], root: usize) -> (n: i32)
    requires
        parents_wf(parents_of(nodes_view(nodes@))),
        root < nodes@.len(),
        nodes@.len() <= i32::MAX,
    ensures
        n as int == size(parents_of(nodes_view(nodes@)), root as int),
    decreases nodes@.len() - root,
{
    let ghost ps = parents_of(nodes_view(nodes@));
    proof {
        lemma_size_bound(ps, root as int);
    }
    let mut n: i32 = 1;
    let mut i: usize = 0;
    while i < nodes.len()
        invariant
            i <= nodes@.len(),
            ps == parents_of(nodes_view(nodes@)),
            parents_wf(ps),
            root < nodes@.len() <= i32::MAX,
            n + kids(ps, root as int, i as int) == size(ps, root as int),
            size(ps, root as int) <= nodes@.len() - root,
            n >= 1,
        decreases nodes@.len() - i,
    {
        proof {
            assert(ps[i as int] == nodes@[i as int].parent);
        }
        if nodes[i].parent == root as i32 {
            proof {
                assert(ps[i as int] < i);
            }
            let s = subtree_size(nodes, i);
            n = n + s;
        }
        i = i + 1;
    }
    n
}

/// Appended nodes keep the parents they had, and ancestry among the old nodes.
pub proof fn lemma_desc_prefix(ps: Seq<int>, qs: Seq<int>, j: int, r: int)
    requires
        ps.len() <= qs.len(),
        forall|k: int| 0 <= k < ps.len() ==> #[trigger] qs[k] == ps[k],
        0 <= j < ps.len(),
    ensures
        desc(qs, j, r) == desc(ps, j, r),
    decreases j,
{
    if j != r {
        let p = ps[j];
        if 0 <= p < j {
            lemma_desc_prefix(ps, qs, p, r);
        }
    }
}

/// The nodes after copying the subtree of `src` under `new_parent`: the copy of `src` is
/// appended, then each child of `src` (in index order, among the nodes before the copy)
/// is copied the same way under it. `fuel` bounds the depth of the copying; the height
/// of the subtree is always enough.
pub open spec fn clone_spec(ns: Seq<NodeModel>, src: int, new_parent: int, fuel: nat) -> Seq<
    NodeModel,
>
    decreases fuel, 1int, 0int,
{
    if fuel == 0 {
        ns
    } else {
        clone_kids(
            ns.push(NodeModel { parent: new_parent, ..ns[src] }),
            src,
            ns.len() as int,
            0,
            fuel,
        )
    }
}

/// The copying of the children of `src` at indices `i` and above, below the copy at
/// index `copy`.
pub open spec fn clone_kids(ns: Seq<NodeModel>, src: int, copy: int, i: int, fuel: nat) -> Seq<
    NodeModel,
>
    decreases fuel, 0int, copy - i,
{
    if i >= copy || fuel == 0 {
        ns
    } else {
        let next = if ns[i].parent == src {
            clone_spec(ns, i, copy, (fuel - 1) as nat)
        } else {
            ns
        };
        clone_kids(next, src, copy, i + 1, fuel)
    }
}

/// `a` is `b` under another parent: the same tag, id, classes and attributes.
pub open spec fn same_but_parent(a: NodeModel, b: NodeModel) -> bool {
    &&& a.tag == b.tag
    &&& a.dom_id == b.dom_id
    &&& a.classes == b.classes
    &&& a.attrs == b.attrs
}

/// Every node of `ns` after the first `base.len()` copies a node of `base`, and `ns`
/// starts with `base`.
pub open spec fn copies_of(base: Seq<NodeModel>, ns: Seq<NodeModel>) -> bool {
    &&& base.len() <= ns.len()
    &&& forall|k: int| 0 <= k < base.len() ==> #[trigger] ns[k] == base[k]
    &&& forall|k: int| base.len() <= k < ns.len() ==> copied(base, #[trigger] ns[k])
}

/// `n` is a node of `base` under another parent.
pub open spec fn copied(base: Seq<NodeModel>, n: NodeModel) -> bool {
    exists|j: int| 0 <= j < base.len() && #[trigger] same_but_parent(n, base[j])
}

proof fn lemma_copy_one(base: Seq<NodeModel>, ns: Seq<NodeModel>, src: int, np: int)
    requires
        copies_of(base, ns),
        0 <= src < ns.len(),
    ensures
        copies_of(base, ns.push(NodeModel { parent: np, ..ns[src] })),
{
    let m = ns.push(NodeModel { parent: np, ..ns[src] });
    assert(m[ns.len() as int] == NodeModel { parent: np, ..ns[src] });
    if src < base.len() {
        assert(ns[src] == base[src]);
        assert(same_but_parent(m[ns.len() as int], base[src]));
    } else {
        assert(copied(base, ns[src]));
        let j = choose|j: int| 0 <= j < base.len() && #[trigger] same_but_parent(ns[src], base[j]);
        assert(same_but_parent(m[ns.len() as int], base[j]));
    }
    assert forall|k: int| base.len() <= k < m.len() implies copied(base, #[trigger] m[k]) by {
        if k < ns.len() {
            assert(m[k] == ns[k]);
        }
    }
    assert forall|k: int| 0 <= k < base.len() implies #[trigger] m[k] == base[k] by {
        assert(m[k] == ns[k]);
    }
}

proof fn lemma_clone_spec_copies(base: Seq<NodeModel>, ns: Seq<NodeModel>, src: int, np: int, fuel: nat)
    requires
        copies_of(base, ns),
        0 <= src < ns.len(),
    ensures
        copies_of(base, clone_spec(ns, src, np, fuel)),
    decreases fuel, 1int, 0int,
{
    if fuel > 0 {
        lemma_copy_one(base, ns, src, np);
        lemma_clone_kids_copies(
            base,
            ns.push(NodeModel { parent: np, ..ns[src] }),
            src,
            ns.len() as int,
            0,
            fuel,
        );
    }
}

proof fn lemma_clone_kids_copies(base: Seq<NodeModel>, ns: Seq<NodeModel>, src: int, copy: int, i: int, fuel: nat)
    requires
        copies_of(base, ns),
        copy <= ns.len(),
        0 <= i,
    ensures
        copies_of(base, clone_kids(ns, src, copy, i, fuel)),
    decreases fuel, 0int, copy - i,
{
    if !(i >= copy || fuel == 0) {
        let next = if ns[i].parent == src {
            clone_spec(ns, i, copy, (fuel - 1) as nat)
        } else {
            ns
        };
        if ns[i].parent == src {
            lemma_clone_spec_copies(base, ns, i, copy, (fuel - 1) as nat);
            lemma_clone_len(ns, i, copy, (fuel - 1) as nat);
        }
        lemma_clone_kids_copies(base, next, src, copy, i + 1, fuel);
    }
}

proof fn lemma_clone_len(ns: Seq<NodeModel>, src: int, np: int, fuel: nat)
    ensures
        clone_spec(ns, src, np, fuel).len() >= ns.len(),
    decreases fuel, 1int, 0int,
{
    if fuel > 0 {
        lemma_clone_kids_len(ns.push(NodeModel { parent: np, ..ns[src] }), src, ns.len() as int, 0, fuel);
    }
}

proof fn lemma_clone_kids_len(ns: Seq<NodeModel>, src: int, copy: int, i: int, fuel: nat)
    ensures
        clone_kids(ns, src, copy, i, fuel).len() >= ns.len(),
    decreases fuel, 0int, copy - i,
{
    if !(i >= copy || fuel == 0) {
        let next = if ns[i].parent == src {
            clone_spec(ns, i, copy, (fuel - 1) as nat)
        } else {
            ns
        };
        if ns[i].parent == src {
            lemma_clone_len(ns, i, copy, (fuel - 1) as nat);
        }
        lemma_clone_kids_len(next, src, copy, i + 1, fuel);
    }
}

/// Copying the subtree of `src` keeps every node and appends only copies: each appended
/// node is a node of the tree before, with its tag, id, classes and attributes, under
/// another parent. The first appended is `src` itself, under `new_parent`.
pub proof fn lemma_clone_copies(ns: Seq<NodeModel>, src: int, new_parent: int, fuel: nat)
    requires
        0 <= src < ns.len(),
        fuel > 0,
    ensures
        copies_of(ns, clone_spec(ns, src, new_parent, fuel)),
        clone_spec(ns, src, new_parent, fuel).len() > ns.len(),
        same_but_parent(clone_spec(ns, src, new_parent, fuel)[ns.len() as int], ns[src]),
        clone_spec(ns, src, new_parent, fuel)[ns.len() as int].parent == new_parent,
{
    assert(copies_of(ns, ns));
    lemma_clone_spec_copies(ns, ns, src, new_parent, fuel);
    let m = ns.push(NodeModel { parent: new_parent, ..ns[src] });
    lemma_copy_one(ns, ns, src, new_parent);
    lemma_clone_kids_copies(m, m, src, ns.len() as int, 0, fuel);
    assert(copies_of(m, m));
}

/// The tree generator's state: the random generator, the nodes so far, how many nodes
/// are still to place, and the next `id<n>` number.
pub struct Growth {
    pub rng: int,
    pub nodes: Seq<NodeModel>,
    pub remaining: int,
    pub id_count: int,
}

/// The nodes and the count still to place after copying the subtrees of `run[t..]` under
/// `parent`, one after the other, stopping once no node remains to place.
pub open spec fn clone_run(ns: Seq<NodeModel>, remaining: int, run: Seq<int>, parent: int, t: int) -> (
    Seq<NodeModel>,
    int,
)
    decreases run.len() - t,
{
    if t >= run.len() || t < 0 {
        (ns, remaining)
    } else {
        let next = clone_spec(ns, run[t], parent, ns.len());
        let left = remaining - (next.len() - ns.len());
        if left <= 0 {
            (next, left)
        } else {
            clone_run(next, left, run, parent, t + 1)
        }
    }
}

/// Whether a child count can be drawn at `depth`: from the first level on, where the
/// chance of a non-empty subtree is positive.
pub open spec fn count_drawn_at(cfg: Config, depth: int) -> bool {
    &&& depth >= 1
    &&& cfg.maximum_tree_depth < 0 || (cfg.maximum_tree_depth > 0 && depth < cfg.maximum_tree_depth)
}

/// The width times `depth` fits `i32` wherever a child count is drawn at `depth`.
pub open spec fn width_fits(cfg: Config, depth: int) -> bool {
    count_drawn_at(cfg, depth) ==> abs(cfg.maximum_tree_width as int) * depth <= i32::MAX
}

/// The width products fit at every level from `depth` that `remaining` nodes reach.
pub open spec fn widths_fit(cfg: Config, depth: int, remaining: int) -> bool {
    forall|d: int| depth <= d < depth + remaining ==> #[trigger] width_fits(cfg, d)
}

/// The state after, and the result of, the roll that lets a node at `depth` have
/// children: true with probability `(maximum_depth - depth) / maximum_depth`.
pub open spec fn non_empty_draw(s: int, maximum_depth: int, depth: int) -> (int, bool) {
    if maximum_depth > 0 {
        fraction_draw(s, maximum_depth - depth, maximum_depth)
    } else if maximum_depth < 0 {
        fraction_draw(s, depth - maximum_depth, -maximum_depth)
    } else {
        fraction_draw(s, -1, 1)
    }
}

/// The state after, and the outcome of, the rolls before a subtree's children: whether a
/// leading run of children repeats and its length, then the number of children (all
/// remaining nodes at the top).
#[verifier::opaque]
pub open spec fn children_roll(cfg: Config, s: int, remaining: int, depth: int) -> (int, bool, int, int) {
    let (s1, should_repeat) = chance_draw(s, cfg.repeating_sequence_chance as int);
    let (s2, run_length) = if should_repeat {
        let (t, v) = number_draw(s1, cfg.repeating_sequence_maximum_length as int);
        (t, v + 1)
    } else {
        (s1, 0)
    };
    let (s3, child_count) = if depth == 0 {
        (s2, remaining)
    } else {
        let (t, non_empty) = non_empty_draw(s2, cfg.maximum_tree_depth as int, depth);
        if non_empty {
            number_draw(
                t,
                trunc_div(cfg.maximum_tree_width * depth, cfg.maximum_tree_depth as int),
            )
        } else {
            (t, 0)
        }
    };
    (s3, should_repeat, run_length, child_count)
}

/// The state after filling the subtree of `parent` at `depth`: the rolls, then the
/// children.
#[verifier::opaque]
pub open spec fn grow(cfg: Config, g: Growth, parent: int, depth: int) -> Growth
    decreases g.remaining, 2int, 0int,
{
    if g.remaining <= 0 {
        g
    } else {
        let (s3, should_repeat, run_length, child_count) = children_roll(
            cfg,
            g.rng,
            g.remaining,
            depth,
        );
        grow_children(
            cfg,
            Growth { rng: s3, ..g },
            parent,
            depth,
            should_repeat,
            run_length,
            child_count,
            0,
            Seq::empty(),
            0,
        )
    }
}

/// The children of `parent` from the `it`-th on: once the run of the first `run_length`
/// children is complete and smaller than what remains, each further child is a copy of
/// the whole run; otherwise a new element with its own subtree, which joins the run while
/// it is short. Placing stops when no node remains (each step places at least one).
#[verifier::opaque]
pub open spec fn grow_children(
    cfg: Config,
    g: Growth,
    parent: int,
    depth: int,
    should_repeat: bool,
    run_length: int,
    child_count: int,
    it: int,
    run: Seq<int>,
    run_size: int,
) -> Growth
    decreases g.remaining, 1int, child_count - it,
{
    if it >= child_count || g.remaining <= 0 {
        g
    } else if should_repeat && run.len() == run_length && run_size < g.remaining {
        let (ns2, left) = clone_run(g.nodes, g.remaining, run, parent, 0);
        let g2 = Growth { nodes: ns2, remaining: left, ..g };
        if g2.remaining <= 0 || g2.remaining >= g.remaining {
            g2
        } else {
            grow_children(
                cfg,
                g2,
                parent,
                depth,
                should_repeat,
                run_length,
                child_count,
                it + 1,
                run,
                run_size,
            )
        }
    } else {
        let (s1, el, ids) = element_draw(cfg, g.rng, g.id_count);
        let child = g.nodes.len() as int;
        let g1 = Growth {
            rng: s1,
            nodes: g.nodes.push(NodeModel { parent, ..el }),
            remaining: g.remaining - 1,
            id_count: ids,
        };
        if g1.remaining <= 0 {
            g1
        } else {
            let g3 = grow(cfg, g1, child, depth + 1);
            if g3.remaining <= 0 || g3.remaining >= g.remaining {
                g3
            } else {
                let grows = should_repeat && run.len() < run_length;
                grow_children(
                    cfg,
                    g3,
                    parent,
                    depth,
                    should_repeat,
                    run_length,
                    child_count,
                    it + 1,
                    if grows {
                        run.push(child)
                    } else {
                        run
                    },
                    if grows {
                        run_size + size(parents_of(g3.nodes), child)
                    } else {
                        run_size
                    },
                )
            }
        }
    }
}

/// What cloning keeps: the old nodes unchanged, every appended node after its parent,
/// below `anchor`, and attached either to another appended node or to `anchor`.
pub open spec fn grown_from(old: Seq<NodeModel>, new: Seq<NodeModel>, anchor: int) -> bool {
    &&& old.len() <= new.len()
    &&& forall|k: int| 0 <= k < old.len() ==> #[trigger] new[k] == old[k]
    &&& forall|k: int|
        old.len() <= k < new.len() ==> #[trigger] new[k].parent < k && (new[k].parent
            >= old.len() || new[k].parent == anchor) && desc(parents_of(new), k, anchor)
}

/// Copies the subtree of `src` under `new_parent` and returns the number of nodes copied.
fn clone_subtree(nodes: &mut Vec<Node>, src: usize, new_parent: i32, Ghost(fuel): Ghost<nat>) -> (added: i32)
    requires
        fuel >= size(parents_of(nodes_view(old(nodes)@)), src as int),
        parents_wf(parents_of(nodes_view(old(nodes)@))),
        src < old(nodes)@.len(),
        0 <= new_parent < old(nodes)@.len(),
        !desc(parents_of(nodes_view(old(nodes)@)), new_parent as int, src as int),
        old(nodes)@.len() + size(parents_of(nodes_view(old(nodes)@)), src as int) <= i32::MAX,
    ensures
        added as int == size(parents_of(nodes_view(old(nodes)@)), src as int),
        final(nodes)@.len() == old(nodes)@.len() + added,
        parents_wf(parents_of(nodes_view(final(nodes)@))),
        words_ok(nodes_view(old(nodes)@)) ==> words_ok(nodes_view(final(nodes)@)),
        grown_from(nodes_view(old(nodes)@), nodes_view(final(nodes)@), new_parent as int),
        max_id_number(nodes_view(final(nodes)@)) == max_id_number(nodes_view(old(nodes)@)),
        nodes_view(final(nodes)@) == clone_spec(nodes_view(old(nodes)@), src as int, new_parent as int, fuel),
    decreases size(parents_of(nodes_view(old(nodes)@)), src as int),
{
    let ghost n0 = nodes_view(nodes@);
    let ghost ps0 = parents_of(n0);
    let ghost len0 = nodes@.len() as int;
    let new_idx = nodes.len();
    let mut copy = copy_node(&nodes[src]);
    copy.parent = new_parent;
    nodes.push(copy);
    proof {
        lemma_size_bound(ps0, src as int);
        let n1 = nodes_view(nodes@);
        let ps1 = parents_of(n1);
        assert(n1 =~= n0.push(nodes@[new_idx as int]@));
        assert(nodes@[new_idx as int]@ == NodeModel { parent: new_parent as int, ..n0[src as int] });
        assert(clone_spec(n0, src as int, new_parent as int, fuel) == clone_kids(n1, src as int, len0, 0, fuel));
        lemma_max_id_push(n0, nodes@[new_idx as int]@);
        lemma_max_id_ge(n0, src as int);
        assert(n1 =~= n0.push(nodes@[new_idx as int]@));
        assert forall|k: int| 0 <= k < len0 implies #[trigger] ps1[k] == ps0[k] by {
            assert(n1[k] == n0[k]);
        }
        assert(parents_wf(ps1));
        assert(desc(ps1, new_idx as int, new_parent as int)) by {
            assert(desc(ps1, new_parent as int, new_parent as int));
        }
        assert(words_ok(n0) ==> words_ok(n1)) by {
            assert forall|i: int| 0 <= i < n1.len() && words_ok(n0) implies node_ok(#[trigger] n1[i]) by {
                if i < len0 {
                    assert(n1[i] == n0[i]);
                } else {
                    assert(n1[i] == NodeModel { parent: new_parent as int, ..n0[src as int] });
                    assert(node_ok(n0[src as int]));
                }
            }
        }
    }
    let mut added: i32 = 1;
    let mut i: usize = 0;
    while i < new_idx
        invariant
            new_idx as int == len0,
            n0 == nodes_view(old(nodes)@),
            n0.len() == len0,
            ps0 == parents_of(n0),
            parents_wf(ps0),
            src < len0,
            0 <= new_parent < len0,
            !desc(ps0, new_parent as int, src as int),
            len0 + size(ps0, src as int) <= i32::MAX,
            i <= new_idx,
            added >= 1,
            added + kids(ps0, src as int, i as int) == size(ps0, src as int),
            nodes@.len() == len0 + added,
            parents_wf(parents_of(nodes_view(nodes@))),
            words_ok(n0) ==> words_ok(nodes_view(nodes@)),
            grown_from(n0, nodes_view(nodes@), new_parent as int),
            nodes_view(nodes@)[len0].parent == new_parent,
            forall|k: int|
                len0 < k < nodes@.len() ==> #[trigger] nodes_view(nodes@)[k].parent >= len0,
            max_id_number(nodes_view(nodes@)) == max_id_number(n0),
            fuel >= size(ps0, src as int),
            clone_kids(nodes_view(nodes@), src as int, len0, i as int, fuel) == clone_spec(
                n0,
                src as int,
                new_parent as int,
                fuel,
            ),
        decreases new_idx - i,
    {
        let ghost cur = nodes_view(nodes@);
        let ghost pc = parents_of(cur);
        proof {
            assert(cur[i as int] == n0[i as int]);
            assert(pc[i as int] == ps0[i as int]);
        }
        if nodes[i].parent == src as i32 {
            let c = i;
            proof {
                assert(ps0[c as int] == src);
                assert(ps0[c as int] < c);
                assert(desc(ps0, c as int, src as int)) by {
                    assert(desc(ps0, src as int, src as int));
                }
                // the anchor of this copy is not below `c`
                assert(appended_outside(ps0, pc, c as int)) by {
                    assert forall|k: int| 0 <= k < ps0.len() implies #[trigger] pc[k] == ps0[k] by {
                        assert(cur[k] == n0[k]);
                    }
                    assert forall|k: int| ps0.len() <= k < pc.len() implies #[trigger] pc[k] < k
                        && (pc[k] >= ps0.len() || !desc(ps0, pc[k], c as int)) by {
                        assert(cur[k].parent < k);
                        if pc[k] < ps0.len() {
                            assert(pc[k] == new_parent);
                            if desc(ps0, new_parent as int, c as int) {
                                lemma_desc_trans(ps0, new_parent as int, c as int, src as int);
                            }
                        }
                    }
                }
                lemma_desc_stable(ps0, pc, c as int, len0);
                lemma_size_stable(ps0, pc, c as int);
                assert(kids(ps0, src as int, i as int) == size(ps0, c as int) + kids(
                    ps0,
                    src as int,
                    i + 1,
                ));
            }
            let s = clone_subtree(nodes, c, new_idx as i32, Ghost((fuel - 1) as nat));
            added = added + s;
            proof {
                let nw = nodes_view(nodes@);
                let pn = parents_of(nw);
                assert forall|k: int| 0 <= k < cur.len() implies #[trigger] pn[k] == pc[k] by {
                    assert(nw[k] == cur[k]);
                }
                assert(grown_from(n0, nw, new_parent as int)) by {
                    assert forall|k: int| 0 <= k < n0.len() implies #[trigger] nw[k] == n0[k] by {
                        assert(nw[k] == cur[k]);
                    }
                    assert forall|k: int| n0.len() <= k < nw.len() implies #[trigger] nw[k].parent
                        < k && (nw[k].parent >= n0.len() || nw[k].parent == new_parent) && desc(
                        parents_of(nw),
                        k,
                        new_parent as int,
                    ) by {
                        if k < cur.len() {
                            assert(nw[k] == cur[k]);
                            lemma_desc_prefix(pc, pn, k, new_parent as int);
                        } else {
                            // below the copy at `len0`, which hangs from `new_parent`
                            assert(desc(pn, k, len0));
                            assert(desc(pn, len0, new_parent as int)) by {
                                assert(nw[len0] == cur[len0]);
                                assert(pn[len0] == new_parent);
                                assert(desc(pn, new_parent as int, new_parent as int));
                            }
                            lemma_desc_trans(pn, k, len0, new_parent as int);
                        }
                    }
                }
                assert forall|k: int| len0 < k < nodes@.len() implies #[trigger] nodes_view(
                    nodes@,
                )[k].parent >= len0 by {
                    if k < cur.len() {
                        assert(nw[k] == cur[k]);
                    }
                }
                assert(nw[len0] == cur[len0]);
            }
        }
        i = i + 1;
    }
    added
}

/// The summed sizes of the subtrees of `srcs`.
pub open spec fn sum_sizes(ps: Seq<int>, srcs: Seq<int>) -> nat
    decreases srcs.len(),
{
    if srcs.len() == 0 {
        0
    } else {
        sum_sizes(ps, srcs.drop_last()) + size(ps, srcs.last())
    }
}

/// The indices of a list.
pub open spec fn indices(v: Seq<usize>) -> Seq<int> {
    Seq::new(v.len(), |i: int| v[i] as int)
}

/// Growing a tree under `anchor` leaves the subtrees of later nodes as they were.
proof fn lemma_grown_size(old: Seq<NodeModel>, new: Seq<NodeModel>, anchor: int, src: int)
    requires
        parents_wf(parents_of(old)),
        parents_wf(parents_of(new)),
        grown_from(old, new, anchor),
        0 <= anchor < src < old.len(),
    ensures
        size(parents_of(new), src) == size(parents_of(old), src),
{
    let po = parents_of(old);
    let pn = parents_of(new);
    assert(appended_outside(po, pn, src)) by {
        assert forall|k: int| 0 <= k < po.len() implies #[trigger] pn[k] == po[k] by {
            assert(new[k] == old[k]);
        }
        assert forall|k: int| po.len() <= k < pn.len() implies #[trigger] pn[k] < k && (pn[k]
            >= po.len() || !desc(po, pn[k], src)) by {
            assert(new[k].parent < k);
            if pn[k] < po.len() && desc(po, pn[k], src) {
                lemma_desc_above(po, anchor, src);
            }
        }
    }
    lemma_size_stable(po, pn, src);
}

proof fn lemma_grown_sum(old: Seq<NodeModel>, new: Seq<NodeModel>, anchor: int, srcs: Seq<int>)
    requires
        parents_wf(parents_of(old)),
        parents_wf(parents_of(new)),
        grown_from(old, new, anchor),
        0 <= anchor,
        forall|t: int| 0 <= t < srcs.len() ==> anchor < #[trigger] srcs[t] < old.len(),
    ensures
        sum_sizes(parents_of(new), srcs) == sum_sizes(parents_of(old), srcs),
    decreases srcs.len(),
{
    if srcs.len() > 0 {
        let init = srcs.drop_last();
        assert forall|t: int| 0 <= t < init.len() implies anchor < #[trigger] init[t] < old.len() by {
            assert(init[t] == srcs[t]);
        }
        lemma_grown_sum(old, new, anchor, init);
        assert(anchor < srcs[srcs.len() - 1] < old.len());
        lemma_grown_size(old, new, anchor, srcs.last());
    }
}

/// Growth in two steps, the second under a node of the first (or the same anchor).
proof fn lemma_grown_trans(
    a: Seq<NodeModel>,
    b: Seq<NodeModel>,
    c: Seq<NodeModel>,
    anchor: int,
    x: int,
)
    requires
        grown_from(a, b, anchor),
        grown_from(b, c, x),
        x == anchor || (a.len() <= x < b.len()),
        desc(parents_of(b), x, anchor),
    ensures
        grown_from(a, c, anchor),
{
    let pb = parents_of(b);
    let pc = parents_of(c);
    assert forall|k: int| 0 <= k < a.len() implies #[trigger] c[k] == a[k] by {
        assert(c[k] == b[k]);
    }
    assert forall|k: int| 0 <= k < b.len() implies #[trigger] pc[k] == pb[k] by {
        assert(c[k] == b[k]);
    }
    assert forall|k: int| a.len() <= k < c.len() implies #[trigger] c[k].parent < k && (c[k].parent
        >= a.len() || c[k].parent == anchor) && desc(pc, k, anchor) by {
        if k < b.len() {
            assert(c[k] == b[k]);
            lemma_desc_prefix(pb, pc, k, anchor);
        } else {
            assert(desc(pc, k, x));
            if x != anchor {
                lemma_desc_prefix(pb, pc, x, anchor);
                lemma_desc_trans(pc, k, x, anchor);
            }
        }
    }
}

/// Whether a subtree may have children at depth `depth`: true with probability
/// `(maximum_depth - depth) / maximum_depth`, drawn as StyleBench draws it.
fn non_empty_chance(rng: &mut Random, maximum_depth: i32, depth: i32) -> (b: bool)
    requires
        depth >= 1,
    ensures
        (final(rng)@, b) == non_empty_draw(old(rng)@, maximum_depth as int, depth as int),
        b ==> maximum_depth < 0 || (maximum_depth > 0 && depth < maximum_depth),
{
    proof {
        let k = fraction_of(lcg_step(rng@));
        assert(k >= 0);
        if maximum_depth > 0 && depth >= maximum_depth {
            assert(!draw_below(k, maximum_depth - depth, maximum_depth as int)) by (nonlinear_arith)
                requires
                    k >= 0,
                    maximum_depth > 0,
                    maximum_depth - depth <= 0,
            ;
        }
    }
    if maximum_depth > 0 {
        rng.chance_fraction(maximum_depth as i64 - depth as i64, maximum_depth as i64)
    } else if maximum_depth < 0 {
        rng.chance_fraction(depth as i64 - maximum_depth as i64, -(maximum_depth as i64))
    } else {
        rng.chance_fraction(-1, 1)
    }
}

/// `a / b` rounded toward zero, as Rust's `/` divides.
fn truncated_quotient(a: i32, b: i32) -> (r: i32)
    requires
        b != 0,
        a > i32::MIN,
    ensures
        r == trunc_div(a as int, b as int),
{
    let ua: i64 = if a < 0 {
        -(a as i64)
    } else {
        a as i64
    };
    let ub: i64 = if b < 0 {
        -(b as i64)
    } else {
        b as i64
    };
    let q: i64 = ua / ub;
    proof {
        assert(q <= ua) by (nonlinear_arith)
            requires
                q == ua / ub,
                ua >= 0,
                ub >= 1,
        ;
    }
    if (a < 0) != (b < 0) {
        (-q) as i32
    } else {
        q as i32
    }
}

/// The rolls before a subtree's children: whether a leading run of children repeats, the
/// run's length, and the number of children (all remaining nodes at the top).
fn roll_children(cfg: &Config, rng: &mut Random, remaining: i32, depth: i32) -> (r: (bool, i32, i32))
    requires
        remaining > 0,
        depth >= 0,
        width_fits(*cfg, depth as int),
    ensures
        (final(rng)@, r.0, r.1 as int, r.2 as int) == children_roll(
            *cfg,
            old(rng)@,
            remaining as int,
            depth as int,
        ),
        r.0 ==> r.1 >= 1,
        !r.0 ==> r.1 == 0,
        depth == 0 ==> r.2 == remaining,
        r.2 >= 0,
{
    let ghost s0 = rng@;
    let maximum_depth = cfg.maximum_tree_depth;
    let maximum_width = cfg.maximum_tree_width;
    let should_repeat = rng.chance(cfg.repeating_sequence_chance);
    let ghost s1 = rng@;
    let repeating_sequence_length = if should_repeat {
        rng.number(cfg.repeating_sequence_maximum_length) + 1
    } else {
        0
    };
    let ghost s2 = rng@;
    let ghost mut s2b = s2;
    let ghost mut non_empty = false;
    let child_count: i32 = if depth == 0 {
        remaining
    } else if non_empty_chance(rng, maximum_depth, depth) {
        proof {
            s2b = rng@;
            non_empty = true;
            assert(abs(maximum_width as int) * depth <= i32::MAX);
            assert(-i32::MAX <= maximum_width * depth <= i32::MAX) by (nonlinear_arith)
                requires
                    abs(maximum_width as int) * depth <= i32::MAX,
                    depth >= 0,
                    abs(maximum_width as int) == if maximum_width < 0 {
                        -maximum_width
                    } else {
                        maximum_width as int
                    },
            ;
        }
        let cc = rng.number(truncated_quotient(maximum_width * depth, maximum_depth));
        proof {
            assert(number_draw(s2b, trunc_div(maximum_width * depth, maximum_depth as int)) == (
            rng@, cc as int));
        }
        cc
    } else {
        proof {
            s2b = rng@;
        }
        0
    };
    proof {
        reveal(children_roll);
        assert(chance_draw(s0, cfg.repeating_sequence_chance as int) == (s1, should_repeat));
        if should_repeat {
            assert(number_draw(s1, cfg.repeating_sequence_maximum_length as int) == (
            s2, repeating_sequence_length - 1));
        }
        if depth != 0 {
            assert(non_empty_draw(s2, cfg.maximum_tree_depth as int, depth as int) == (s2b, non_empty));
            if !non_empty {
                assert(rng@ == s2b && child_count == 0);
            }
        }
    }
    (should_repeat, repeating_sequence_length, child_count)
}

/// Copies the subtrees of `run`, one after the other, under `parent`, until no node
/// remains to place.
fn copy_run(nodes: &mut Vec<Node>, remaining: &mut i32, run: &Vec<usize>, parent: usize)
    requires
        parents_wf(parents_of(nodes_view(old(nodes)@))),
        run@.len() >= 1,
        forall|u: int| 0 <= u < run@.len() ==> parent < #[trigger] run@[u] < old(nodes)@.len(),
        sum_sizes(parents_of(nodes_view(old(nodes)@)), indices(run@)) < *old(remaining),
        old(nodes)@.len() + *old(remaining) <= i32::MAX,
    ensures
        (nodes_view(final(nodes)@), *final(remaining) as int) == clone_run(
            nodes_view(old(nodes)@),
            *old(remaining) as int,
            indices(run@),
            parent as int,
            0,
        ),
        final(nodes)@.len() + *final(remaining) == old(nodes)@.len() + *old(remaining),
        0 < *final(remaining) < *old(remaining),
        parents_wf(parents_of(nodes_view(final(nodes)@))),
        words_ok(nodes_view(old(nodes)@)) ==> words_ok(nodes_view(final(nodes)@)),
        grown_from(nodes_view(old(nodes)@), nodes_view(final(nodes)@), parent as int),
        max_id_number(nodes_view(final(nodes)@)) == max_id_number(nodes_view(old(nodes)@)),
{
    let ghost start = nodes_view(nodes@);
    let ghost rem_start = *remaining as int;
    let ghost srcs = indices(run@);
    let ghost goal = clone_run(start, rem_start, srcs, parent as int, 0);
    proof {
        assert(grown_from(start, start, parent as int));
    }
    let mut t: usize = 0;
    while t < run.len()
        invariant
            parent < start.len(),
            start.len() + rem_start <= i32::MAX,
            nodes@.len() + *remaining == start.len() + rem_start,
            t <= run@.len(),
            srcs == indices(run@),
            forall|u: int| 0 <= u < run@.len() ==> parent < #[trigger] run@[u] < start.len(),
            parents_wf(parents_of(start)),
            parents_wf(parents_of(nodes_view(nodes@))),
            words_ok(start) ==> words_ok(nodes_view(nodes@)),
            grown_from(start, nodes_view(nodes@), parent as int),
            sum_sizes(parents_of(start), srcs) < rem_start,
            *remaining == rem_start - sum_sizes(parents_of(start), srcs.take(t as int)),
            sum_sizes(parents_of(start), srcs.take(t as int)) <= sum_sizes(parents_of(start), srcs),
            max_id_number(nodes_view(nodes@)) == max_id_number(start),
            start.len() <= nodes@.len(),
            clone_run(nodes_view(nodes@), *remaining as int, srcs, parent as int, t as int) == goal,
            t > 0 ==> *remaining < rem_start,
            *remaining > 0,
        decreases run@.len() - t,
    {
        let src = run[t];
        let ghost cur = nodes_view(nodes@);
        let ghost rb = *remaining as int;
        proof {
            assert(srcs[t as int] == src);
            lemma_grown_size(start, cur, parent as int, src as int);
            lemma_sum_take(parents_of(start), srcs, t as int);
            lemma_sum_prefix_le(parents_of(start), srcs, t as int + 1);
            lemma_desc_above_nodes(cur, parent as int, src as int);
            lemma_size_bound(parents_of(cur), src as int);
        }
        let added = clone_subtree(nodes, src, parent as i32, Ghost(nodes@.len() as nat));
        *remaining = *remaining - added;
        proof {
            let nw = nodes_view(nodes@);
            lemma_grown_trans(start, cur, nw, parent as int, parent as int);
            assert(clone_run(cur, rb, srcs, parent as int, t as int) == if *remaining <= 0 {
                (nw, *remaining as int)
            } else {
                clone_run(nw, *remaining as int, srcs, parent as int, t + 1)
            });
        }
        if *remaining <= 0 {
            return ;
        }
        t = t + 1;
    }
    proof {
        assert(clone_run(nodes_view(nodes@), *remaining as int, srcs, parent as int, t as int) == (
        nodes_view(nodes@), *remaining as int));
    }
}

/// The absolute value of `x`.
pub open spec fn abs(x: int) -> int {
    if x < 0 {
        -x
    } else {
        x
    }
}

/// The generator state held by the tree builder's variables.
#[verifier::opaque]
pub open spec fn growth_of(rng: int, nodes: Seq<Node>, remaining: i32, id_count: i32) -> Growth {
    Growth { rng, nodes: nodes_view(nodes), remaining: remaining as int, id_count: id_count as int }
}

/// Fills the subtree of `parent` at `depth`: its children, their subtrees, and repeated
/// copies of a leading run of children, until `remaining` nodes are placed.
#[verifier::rlimit(100)]
pub fn make_tree_with_depth(
    cfg: &Config,
    rng: &mut Random,
    nodes: &mut Vec<Node>,
    parent: usize,
    remaining: &mut i32,
    depth: i32,
    id_count: &mut i32,
)
    requires
        parents_wf(parents_of(nodes_view(old(nodes)@))),
        parent < old(nodes)@.len(),
        depth >= 0,
        *old(remaining) > 0 ==> old(nodes)@.len() + *old(remaining) <= i32::MAX,
        *old(remaining) > 0 ==> depth + *old(remaining) <= i32::MAX,
        *old(remaining) > 0 ==> widths_fit(*cfg, depth as int, *old(remaining) as int),
        *old(remaining) > 0 ==> *old(id_count) + *old(remaining) <= i32::MAX,
    ensures
        *old(remaining) <= 0 ==> final(nodes)@ == old(nodes)@ && *final(remaining) == *old(
            remaining,
        ) && *final(id_count) == *old(id_count),
        *old(remaining) > 0 ==> 0 <= *final(remaining) <= *old(remaining),
        *old(remaining) > 0 ==> final(nodes)@.len() + *final(remaining) == old(nodes)@.len()
            + *old(remaining),
        depth == 0 && *old(remaining) > 0 ==> *final(remaining) == 0,
        parents_wf(parents_of(nodes_view(final(nodes)@))),
        words_ok(nodes_view(old(nodes)@)) && *old(id_count) >= 0 ==> words_ok(
            nodes_view(final(nodes)@),
        ),
        grown_from(nodes_view(old(nodes)@), nodes_view(final(nodes)@), parent as int),
        *old(id_count) <= *final(id_count) <= *old(id_count) + final(nodes)@.len() - old(
            nodes,
        )@.len(),
        max_id_number(nodes_view(old(nodes)@)) < *old(id_count) ==> max_id_number(
            nodes_view(final(nodes)@),
        ) < *final(id_count),
        growth_of(final(rng)@, final(nodes)@, *final(remaining), *final(id_count)) == grow(
            *cfg,
            growth_of(old(rng)@, old(nodes)@, *old(remaining), *old(id_count)),
            parent as int,
            depth as int,
        ),
    decreases *old(remaining),
{
    let ghost n0 = nodes_view(nodes@);
    let ghost len0 = nodes@.len() as int;
    let ghost rem0 = *remaining as int;
    let ghost id0 = *id_count as int;
    let ghost words0 = words_ok(n0) && id0 >= 0;
    let ghost max0 = max_id_number(n0) < id0;
    let ghost target = grow(*cfg, growth_of(rng@, nodes@, *remaining, *id_count), parent as int, depth as int);
    if *remaining <= 0 {
        proof {
            assert(target == growth_of(rng@, nodes@, *remaining, *id_count)) by {
                reveal(grow);
                reveal(grow_children);
                reveal(growth_of);
                reveal(growth_of);
            }
        }
        return ;
    }
    let ghost g0 = growth_of(rng@, nodes@, *remaining, *id_count);
    let ghost s0 = rng@;
    let (should_repeat, repeating_sequence_length, child_count) = roll_children(
        cfg,
        rng,
        *remaining,
        depth,
    );
    proof {
        assert(grown_from(n0, n0, parent as int));
        assert(indices(Seq::<usize>::empty()) =~= Seq::<int>::empty());
        assert(target == grow(*cfg, g0, parent as int, depth as int));
        assert(g0.remaining == *remaining && g0.rng == s0 && g0.remaining > 0) by {
            reveal(growth_of);
        }
        assert(children_roll(*cfg, g0.rng, g0.remaining, depth as int) == (
            rng@,
            should_repeat,
            repeating_sequence_length as int,
            child_count as int,
        ));
        assert(grow(*cfg, g0, parent as int, depth as int) == grow_children(
            *cfg,
            Growth { rng: rng@, ..g0 },
            parent as int,
            depth as int,
            should_repeat,
            repeating_sequence_length as int,
            child_count as int,
            0,
            Seq::empty(),
            0,
        )) by {
            reveal(grow);
            reveal(grow_children);
        }
        assert(Growth { rng: rng@, ..g0 } == growth_of(rng@, nodes@, *remaining, *id_count)) by {
            reveal(growth_of);
        }
        assert(target == grow_children(
            *cfg,
            growth_of(rng@, nodes@, *remaining, *id_count),
            parent as int,
            depth as int,
            should_repeat,
            repeating_sequence_length as int,
            child_count as int,
            0,
            Seq::empty(),
            0,
        )) by {
            reveal(grow);
                reveal(grow_children);
                reveal(growth_of);
            reveal(growth_of);
        }
    }
    let mut repeating_sequence: Vec<usize> = Vec::new();
    let mut repeating_sequence_size: i32 = 0;
    let ghost mut last_end: int = len0;
    let mut it: i32 = 0;
    while it < child_count
        invariant
            n0 == nodes_view(old(nodes)@),
            len0 == old(nodes)@.len(),
            n0.len() == len0,
            rem0 == *old(remaining),
            rem0 > 0,
            len0 + rem0 <= i32::MAX,
            widths_fit(*cfg, depth as int, rem0),
            depth + rem0 <= i32::MAX,
            id0 + rem0 <= i32::MAX,
            id0 == *old(id_count),
            words0 == (words_ok(n0) && id0 >= 0),
            max0 == (max_id_number(n0) < id0),
            parent < len0,
            depth >= 0,
            0 <= it <= child_count,
            depth == 0 ==> child_count == rem0,
            nodes@.len() + *remaining == len0 + rem0,
            1 <= *remaining <= rem0 - it,
            parents_wf(parents_of(nodes_view(nodes@))),
            words0 ==> words_ok(nodes_view(nodes@)),
            grown_from(n0, nodes_view(nodes@), parent as int),
            id0 <= *id_count <= id0 + nodes@.len() - len0,
            max0 ==> max_id_number(nodes_view(nodes@)) < *id_count,
            should_repeat ==> repeating_sequence_length >= 1,
            !should_repeat ==> repeating_sequence@.len() == 0,
            repeating_sequence@.len() <= repeating_sequence_length || !should_repeat,
            forall|t: int|
                0 <= t < repeating_sequence@.len() ==> len0 <= #[trigger] repeating_sequence@[t]
                    < nodes@.len(),
            repeating_sequence_size == sum_sizes(
                parents_of(nodes_view(nodes@)),
                indices(repeating_sequence@),
            ),
            repeating_sequence_size >= repeating_sequence@.len(),
            len0 <= last_end <= nodes@.len(),
            repeating_sequence_size <= last_end - len0,
            target == grow_children(
                *cfg,
                growth_of(rng@, nodes@, *remaining, *id_count),
                parent as int,
                depth as int,
                should_repeat,
                repeating_sequence_length as int,
                child_count as int,
                it as int,
                indices(repeating_sequence@),
                repeating_sequence_size as int,
            ),
            target == grow(*cfg, g0, parent as int, depth as int),
            g0 == growth_of(old(rng)@, old(nodes)@, *old(remaining), *old(id_count)),
        decreases child_count - it,
    {
        let ghost before = nodes_view(nodes@);
        let ghost rem_before = *remaining as int;
        let ghost gcur = growth_of(rng@, nodes@, *remaining, *id_count);
        if should_repeat && repeating_sequence.len() == repeating_sequence_length as usize
            && repeating_sequence_size < *remaining {
            let ghost start = nodes_view(nodes@);
            let ghost srcs = indices(repeating_sequence@);
            proof {
                assert forall|u: int| 0 <= u < repeating_sequence@.len() implies parent
                    < #[trigger] repeating_sequence@[u] < nodes@.len() by {
                    assert(len0 <= repeating_sequence@[u]);
                }
            }
            copy_run(nodes, remaining, &repeating_sequence, parent);
            let ghost g2 = growth_of(rng@, nodes@, *remaining, *id_count);
            proof {
                assert(g2.remaining > 0) by {
                    reveal(growth_of);
                }
                let nw = nodes_view(nodes@);
                lemma_grown_trans(n0, start, nw, parent as int, parent as int);
                lemma_grown_sum(start, nw, parent as int, srcs);
                assert(g2 == Growth {
                    nodes: clone_run(gcur.nodes, gcur.remaining, srcs, parent as int, 0).0,
                    remaining: clone_run(gcur.nodes, gcur.remaining, srcs, parent as int, 0).1,
                    ..gcur
                }) by {
                    reveal(growth_of);
                }
                assert(g2.remaining < gcur.remaining) by {
                    reveal(growth_of);
                }
                assert(target == if g2.remaining <= 0 {
                    g2
                } else {
                    grow_children(
                        *cfg,
                        g2,
                        parent as int,
                        depth as int,
                        should_repeat,
                        repeating_sequence_length as int,
                        child_count as int,
                        it + 1,
                        srcs,
                        repeating_sequence_size as int,
                    )
                }) by {
                    reveal(grow);
                    reveal(grow_children);
                    reveal(growth_of);
                    reveal(growth_of);
                }
            }
            if *remaining <= 0 {
                return ;
            }
            it = it + 1;
            continue ;
        }
        let ghost id_before = *id_count;
        let mut el = make_element(cfg, rng, id_count);
        let ghost e0 = el@;
        el.parent = parent as i32;
        proof {
            assert(el@ == NodeModel { parent: parent as int, ..e0 });
            lemma_max_id_floor(before);
            if el.dom_id is Some && id_before >= 0 {
                lemma_id_number_of(id_before as int);
            }
        }
        nodes.push(el);
        proof {
            assert(nodes_view(nodes@) =~= before.push(el@));
            lemma_max_id_push(before, el@);
        }
        *remaining = *remaining - 1;
        let ghost after_push = nodes_view(nodes@);
        let ghost g1 = growth_of(rng@, nodes@, *remaining, *id_count);
        proof {
            assert(g1 == Growth {
                rng: element_draw(*cfg, gcur.rng, gcur.id_count).0,
                nodes: gcur.nodes.push(
                    NodeModel { parent: parent as int, ..element_draw(*cfg, gcur.rng, gcur.id_count).1 },
                ),
                remaining: gcur.remaining - 1,
                id_count: element_draw(*cfg, gcur.rng, gcur.id_count).2,
            }) by {
                reveal(growth_of);
            }
        }
        proof {
            lemma_push_grown(before, after_push, parent as int);
            lemma_grown_trans(n0, before, after_push, parent as int, parent as int);
        }
        if *remaining <= 0 {
            proof {
                assert(target == g1) by {
                    reveal(grow);
                    reveal(grow_children);
                    reveal(growth_of);
                }
            }
            return ;
        }
        let child = nodes.len() - 1;
        proof {
            assert forall|d: int| depth + 1 <= d < depth + 1 + *remaining implies #[trigger] width_fits(*cfg, d) by {
                assert(depth <= d < depth + rem0);
            }
        }
        make_tree_with_depth(cfg, rng, nodes, child, remaining, depth + 1, id_count);
        let ghost after_rec = nodes_view(nodes@);
        proof {
            assert(desc(parents_of(after_push), child as int, parent as int)) by {
                assert(after_push[child as int].parent == parent);
                assert(desc(parents_of(after_push), parent as int, parent as int));
            }
            lemma_grown_trans(n0, after_push, after_rec, parent as int, child as int);
            lemma_block(after_push, after_rec, child as int);
            lemma_grown_sum(before, after_rec, parent as int, indices(repeating_sequence@));
        }
        if *remaining <= 0 {
            proof {
                assert(child as int == gcur.nodes.len()) by {
                    reveal(growth_of);
                }
                assert(target == growth_of(rng@, nodes@, *remaining, *id_count)) by {
                    reveal(grow);
                    reveal(grow_children);
                    reveal(growth_of);
                }
            }
            return ;
        }
        let ghost g3 = growth_of(rng@, nodes@, *remaining, *id_count);
        let ghost grows = should_repeat && repeating_sequence@.len() < repeating_sequence_length;
        proof {
            assert(g3 == grow(*cfg, g1, child as int, depth + 1));
            assert(child as int == gcur.nodes.len() && g3.remaining < gcur.remaining && g3.nodes
                == nodes_view(nodes@)) by {
                reveal(growth_of);
            }
            assert(target == grow_children(
                *cfg,
                g3,
                parent as int,
                depth as int,
                should_repeat,
                repeating_sequence_length as int,
                child_count as int,
                it + 1,
                if grows {
                    indices(repeating_sequence@).push(child as int)
                } else {
                    indices(repeating_sequence@)
                },
                if grows {
                    repeating_sequence_size + size(parents_of(g3.nodes), child as int)
                } else {
                    repeating_sequence_size as int
                },
            )) by {
                reveal(grow);
                    reveal(grow_children);
                    reveal(growth_of);
            }
        }
        if should_repeat && (repeating_sequence.len() as i32) < repeating_sequence_length {
            let ghost old_seq = indices(repeating_sequence@);
            let s = subtree_size(nodes.as_slice(), child);
            repeating_sequence.push(child);
            repeating_sequence_size = repeating_sequence_size + s;
            proof {
                let ns = indices(repeating_sequence@);
                assert(ns.drop_last() =~= old_seq);
                assert(ns.last() == child);
                lemma_size_bound(parents_of(after_rec), child as int);
                last_end = nodes@.len() as int;
                assert(ns =~= old_seq.push(child as int));
            }
        }
        it = it + 1;
    }
    proof {
        assert(target == growth_of(rng@, nodes@, *remaining, *id_count)) by {
            reveal(grow);
                    reveal(grow_children);
                    reveal(growth_of);
        }
    }
}

proof fn lemma_desc_above_nodes(ns: Seq<NodeModel>, anchor: int, src: int)
    requires
        0 <= anchor < src,
    ensures
        !desc(parents_of(ns), anchor, src),
{
    if desc(parents_of(ns), anchor, src) {
        lemma_desc_above(parents_of(ns), anchor, src);
    }
}

proof fn lemma_sum_take(ps: Seq<int>, srcs: Seq<int>, t: int)
    requires
        0 <= t < srcs.len(),
    ensures
        sum_sizes(ps, srcs.take(t + 1)) == sum_sizes(ps, srcs.take(t)) + size(ps, srcs[t]),
{
    assert(srcs.take(t + 1).drop_last() =~= srcs.take(t));
}

proof fn lemma_sum_prefix_le(ps: Seq<int>, srcs: Seq<int>, t: int)
    requires
        0 <= t <= srcs.len(),
    ensures
        sum_sizes(ps, srcs.take(t)) <= sum_sizes(ps, srcs),
    decreases srcs.len() - t,
{
    if t < srcs.len() {
        lemma_sum_prefix_le(ps, srcs, t + 1);
        lemma_sum_take(ps, srcs, t);
    } else {
        assert(srcs.take(t) =~= srcs);
    }
}

/// Pushing a node under `anchor` grows the tree under `anchor`.
proof fn lemma_push_grown(old: Seq<NodeModel>, new: Seq<NodeModel>, anchor: int)
    requires
        parents_wf(parents_of(old)),
        new.len() == old.len() + 1,
        forall|k: int| 0 <= k < old.len() ==> #[trigger] new[k] == old[k],
        new[old.len() as int].parent == anchor,
        0 <= anchor < old.len(),
    ensures
        parents_wf(parents_of(new)),
        words_ok(old) && node_ok(new[old.len() as int]) ==> words_ok(new),
        grown_from(old, new, anchor),
{
    let po = parents_of(old);
    let pn = parents_of(new);
    assert forall|k: int| 0 <= k < old.len() implies #[trigger] pn[k] == po[k] by {
        assert(new[k] == old[k]);
    }
    assert(parents_wf(pn)) by {
        assert forall|i: int| 0 <= i < pn.len() implies #[trigger] pn[i] < i by {
            if i < old.len() {
                assert(po[i] < i);
            }
        }
    }
    assert forall|i: int| 0 <= i < new.len() && words_ok(old) && node_ok(new[old.len() as int]) implies node_ok(#[trigger] new[i]) by {
        if i < old.len() {
            assert(new[i] == old[i]);
        }
    }
    assert(desc(pn, old.len() as int, anchor)) by {
        assert(desc(pn, anchor, anchor));
    }
}

/// Everything grown under a fresh node at the end of the tree is its subtree.
proof fn lemma_block(before: Seq<NodeModel>, after: Seq<NodeModel>, child: int)
    requires
        parents_wf(parents_of(before)),
        parents_wf(parents_of(after)),
        child == before.len() - 1,
        0 <= child,
        grown_from(before, after, child),
    ensures
        size(parents_of(after), child) == after.len() - child,
{
    let pa = parents_of(after);
    assert forall|j: int| child <= j < pa.len() implies desc(pa, j, child) by {
        if j == child {
        } else {
            assert(desc(pa, j, child));
        }
    }
    lemma_size_block(pa, child);
}

/// Two configurations agree on every knob that the tree and the mutation script read:
/// they may differ in the sheet's knobs (name, selector chances and lists, selector
/// length, rule count, style seed) only.
pub open spec fn dom_knobs_agree(a: Config, b: Config) -> bool {
    &&& a.element_type_count == b.element_type_count
    &&& a.class_count == b.class_count
    &&& a.id_chance == b.id_chance
    &&& a.attribute_count == b.attribute_count
    &&& a.attribute_value_count == b.attribute_value_count
    &&& a.element_class_chance == b.element_class_chance
    &&& a.element_maximum_classes == b.element_maximum_classes
    &&& a.element_attribute_chance == b.element_attribute_chance
    &&& a.element_maximum_attributes == b.element_maximum_attributes
    &&& a.element_count == b.element_count
    &&& a.maximum_tree_depth == b.maximum_tree_depth
    &&& a.maximum_tree_width == b.maximum_tree_width
    &&& a.repeating_sequence_chance == b.repeating_sequence_chance
    &&& a.repeating_sequence_maximum_length == b.repeating_sequence_maximum_length
    &&& a.dom_seed == b.dom_seed
    &&& a.leaf_mutation_chance == b.leaf_mutation_chance
    &&& a.step_count == b.step_count
    &&& a.mutations_per_step == b.mutations_per_step
}

proof fn lemma_classes_draw_agree(a: Config, b: Config, s: int, count: int)
    requires
        dom_knobs_agree(a, b),
    ensures
        classes_draw(a, s, count) == classes_draw(b, s, count),
    decreases count,
{
    if count > 0 {
        lemma_classes_draw_agree(a, b, s, count - 1);
    }
}

proof fn lemma_attrs_draw_agree(a: Config, b: Config, s: int, count: int)
    requires
        dom_knobs_agree(a, b),
    ensures
        attrs_draw(a, s, count) == attrs_draw(b, s, count),
    decreases count,
{
    if count > 0 {
        lemma_attrs_draw_agree(a, b, s, count - 1);
    }
}

/// An element is drawn alike under configurations with the same tree knobs.
pub proof fn lemma_element_draw_agree(a: Config, b: Config, s: int, id_count: int)
    requires
        dom_knobs_agree(a, b),
    ensures
        element_draw(a, s, id_count) == element_draw(b, s, id_count),
{
    reveal(element_draw);
    assert forall|t: int, c: int| classes_draw(a, t, c) == classes_draw(b, t, c) by {
        lemma_classes_draw_agree(a, b, t, c);
    }
    assert forall|t: int, c: int| attrs_draw(a, t, c) == attrs_draw(b, t, c) by {
        lemma_attrs_draw_agree(a, b, t, c);
    }
}

proof fn lemma_grow_agree(a: Config, b: Config, g: Growth, parent: int, depth: int)
    requires
        dom_knobs_agree(a, b),
    ensures
        grow(a, g, parent, depth) == grow(b, g, parent, depth),
    decreases g.remaining, 2int, 0int,
{
    reveal(grow);
    reveal(grow_children);
    if g.remaining > 0 {
        assert(children_roll(a, g.rng, g.remaining, depth) == children_roll(b, g.rng, g.remaining, depth))
            by {
            reveal(children_roll);
        }
        let (s3, should_repeat, run_length, child_count) = children_roll(a, g.rng, g.remaining, depth);
        lemma_grow_children_agree(
            a,
            b,
            Growth { rng: s3, ..g },
            parent,
            depth,
            should_repeat,
            run_length,
            child_count,
            0,
            Seq::empty(),
            0,
        );
    }
}

proof fn lemma_grow_children_agree(
    a: Config,
    b: Config,
    g: Growth,
    parent: int,
    depth: int,
    should_repeat: bool,
    run_length: int,
    child_count: int,
    it: int,
    run: Seq<int>,
    run_size: int,
)
    requires
        dom_knobs_agree(a, b),
    ensures
        grow_children(a, g, parent, depth, should_repeat, run_length, child_count, it, run, run_size)
            == grow_children(b, g, parent, depth, should_repeat, run_length, child_count, it, run, run_size),
    decreases g.remaining, 1int, child_count - it,
{
    reveal(grow);
    reveal(grow_children);
    if it >= child_count || g.remaining <= 0 {
    } else if should_repeat && run.len() == run_length && run_size < g.remaining {
        let (ns2, left) = clone_run(g.nodes, g.remaining, run, parent, 0);
        let g2 = Growth { nodes: ns2, remaining: left, ..g };
        if !(g2.remaining <= 0 || g2.remaining >= g.remaining) {
            lemma_grow_children_agree(
                a,
                b,
                g2,
                parent,
                depth,
                should_repeat,
                run_length,
                child_count,
                it + 1,
                run,
                run_size,
            );
        }
    } else {
        lemma_element_draw_agree(a, b, g.rng, g.id_count);
        let (s1, el, ids) = element_draw(a, g.rng, g.id_count);
        let child = g.nodes.len() as int;
        let g1 = Growth {
            rng: s1,
            nodes: g.nodes.push(NodeModel { parent, ..el }),
            remaining: g.remaining - 1,
            id_count: ids,
        };
        if g1.remaining > 0 {
            lemma_grow_agree(a, b, g1, child, depth + 1);
            let g3 = grow(a, g1, child, depth + 1);
            if !(g3.remaining <= 0 || g3.remaining >= g.remaining) {
                let grows = should_repeat && run.len() < run_length;
                lemma_grow_children_agree(
                    a,
                    b,
                    g3,
                    parent,
                    depth,
                    should_repeat,
                    run_length,
                    child_count,
                    it + 1,
                    if grows {
                        run.push(child)
                    } else {
                        run
                    },
                    if grows {
                        run_size + size(parents_of(g3.nodes), child)
                    } else {
                        run_size
                    },
                );
            }
        }
    }
}

/// The tree does not depend on the sheet's knobs: configurations that agree on the
/// tree and script knobs draw the same tree from the same state.
pub proof fn lemma_tree_draw_agree(a: Config, b: Config, s: int)
    requires
        dom_knobs_agree(a, b),
    ensures
        tree_draw(a, s) == tree_draw(b, s),
{
    lemma_grow_agree(
        a,
        b,
        Growth { rng: s, nodes: seq![test_root()], remaining: a.element_count as int, id_count: 0 },
        0,
        0,
    );
}

/// The number of parent hops from node `j` up to a node without a parent.
pub open spec fn hops(ps: Seq<int>, j: int) -> nat
    decreases j,
{
    if 0 <= j < ps.len() && 0 <= ps[j] < j {
        1 + hops(ps, ps[j])
    } else {
        0
    }
}

/// The deepest level that a tree of the configuration reaches when its depth is not
/// negative: `maximum_tree_depth`, and at least the first level.
pub open spec fn depth_cap(cfg: Config) -> int {
    if cfg.maximum_tree_depth > 1 {
        cfg.maximum_tree_depth as int
    } else {
        1
    }
}

/// Every node lies within `cap` hops of a node without a parent.
pub open spec fn within_hops(ns: Seq<NodeModel>, cap: int) -> bool {
    forall|k: int| 0 <= k < ns.len() ==> #[trigger] hops(parents_of(ns), k) <= cap
}

/// `new` starts with `old`.
pub open spec fn extends(old: Seq<NodeModel>, new: Seq<NodeModel>) -> bool {
    &&& old.len() <= new.len()
    &&& forall|k: int| 0 <= k < old.len() ==> #[trigger] new[k] == old[k]
}

proof fn lemma_hops_extend(old: Seq<NodeModel>, new: Seq<NodeModel>, k: int)
    requires
        extends(old, new),
        0 <= k < old.len(),
    ensures
        hops(parents_of(new), k) == hops(parents_of(old), k),
    decreases k,
{
    let po = parents_of(old);
    let pn = parents_of(new);
    assert(new[k] == old[k]);
    assert(pn[k] == po[k]);
    if 0 <= po[k] < k {
        lemma_hops_extend(old, new, po[k]);
    }
}

proof fn lemma_extends_trans(a: Seq<NodeModel>, b: Seq<NodeModel>, c: Seq<NodeModel>)
    requires
        extends(a, b),
        extends(b, c),
    ensures
        extends(a, c),
{
    assert forall|k: int| 0 <= k < a.len() implies #[trigger] c[k] == a[k] by {
        assert(c[k] == b[k]);
    }
}

/// Pushing a node below `parent` keeps the hops of the others and puts it one below.
proof fn lemma_push_hops(ns: Seq<NodeModel>, n: NodeModel, cap: int)
    requires
        parents_wf(parents_of(ns)),
        within_hops(ns, cap),
        0 <= n.parent < ns.len(),
        hops(parents_of(ns), n.parent) + 1 <= cap,
    ensures
        extends(ns, ns.push(n)),
        parents_wf(parents_of(ns.push(n))),
        within_hops(ns.push(n), cap),
        hops(parents_of(ns.push(n)), ns.len() as int) == hops(parents_of(ns), n.parent) + 1,
{
    let m = ns.push(n);
    assert(extends(ns, m));
    let pm = parents_of(m);
    assert forall|k: int| 0 <= k < pm.len() implies #[trigger] pm[k] < k by {
        if k < ns.len() {
            assert(m[k] == ns[k]);
            assert(parents_of(ns)[k] < k);
        }
    }
    lemma_hops_extend(ns, m, n.parent);
    assert forall|k: int| 0 <= k < m.len() implies #[trigger] hops(parents_of(m), k) <= cap by {
        if k < ns.len() {
            lemma_hops_extend(ns, m, k);
        }
    }
}

proof fn lemma_clone_within(ns: Seq<NodeModel>, src: int, np: int, fuel: nat, cap: int)
    requires
        parents_wf(parents_of(ns)),
        within_hops(ns, cap),
        0 <= src < ns.len(),
        0 <= np < ns.len(),
        hops(parents_of(ns), np) + 1 <= hops(parents_of(ns), src),
    ensures
        extends(ns, clone_spec(ns, src, np, fuel)),
        parents_wf(parents_of(clone_spec(ns, src, np, fuel))),
        within_hops(clone_spec(ns, src, np, fuel), cap),
    decreases fuel, 1int, 0int,
{
    if fuel > 0 {
        let n = NodeModel { parent: np, ..ns[src] };
        let m = ns.push(n);
        assert(hops(parents_of(ns), src) <= cap);
        lemma_push_hops(ns, n, cap);
        lemma_hops_extend(ns, m, src);
        lemma_clone_kids_within(m, src, ns.len() as int, 0, fuel, cap);
        lemma_extends_trans(ns, m, clone_spec(ns, src, np, fuel));
    } else {
        assert(extends(ns, ns));
    }
}

proof fn lemma_clone_kids_within(ns: Seq<NodeModel>, src: int, copy: int, i: int, fuel: nat, cap: int)
    requires
        parents_wf(parents_of(ns)),
        within_hops(ns, cap),
        0 <= src < copy < ns.len(),
        0 <= i,
        hops(parents_of(ns), copy) <= hops(parents_of(ns), src),
    ensures
        extends(ns, clone_kids(ns, src, copy, i, fuel)),
        parents_wf(parents_of(clone_kids(ns, src, copy, i, fuel))),
        within_hops(clone_kids(ns, src, copy, i, fuel), cap),
    decreases fuel, 0int, copy - i,
{
    if i >= copy || fuel == 0 {
        assert(extends(ns, ns));
    } else {
        let next = if ns[i].parent == src {
            clone_spec(ns, i, copy, (fuel - 1) as nat)
        } else {
            ns
        };
        if ns[i].parent == src {
            assert(parents_of(ns)[i] == src);
            assert(0 <= src < i);
            assert(hops(parents_of(ns), i) == 1 + hops(parents_of(ns), src));
            lemma_clone_within(ns, i, copy, (fuel - 1) as nat, cap);
            lemma_hops_extend(ns, next, copy);
            lemma_hops_extend(ns, next, src);
        } else {
            assert(extends(ns, ns));
        }
        lemma_clone_kids_within(next, src, copy, i + 1, fuel, cap);
        lemma_extends_trans(ns, next, clone_kids(next, src, copy, i + 1, fuel));
    }
}

proof fn lemma_clone_run_within(ns: Seq<NodeModel>, remaining: int, run: Seq<int>, parent: int, t: int, cap: int)
    requires
        parents_wf(parents_of(ns)),
        within_hops(ns, cap),
        0 <= parent < ns.len(),
        forall|u: int| 0 <= u < run.len() ==> 0 <= #[trigger] run[u] < ns.len() && ns[run[u]].parent == parent,
    ensures
        extends(ns, clone_run(ns, remaining, run, parent, t).0),
        parents_wf(parents_of(clone_run(ns, remaining, run, parent, t).0)),
        within_hops(clone_run(ns, remaining, run, parent, t).0, cap),
    decreases run.len() - t,
{
    if t >= run.len() || t < 0 {
        assert(extends(ns, ns));
    } else {
        let src = run[t];
        let next = clone_spec(ns, src, parent, ns.len());
        assert(parents_of(ns)[src] == parent);
        assert(0 <= parent < src);
        lemma_clone_within(ns, src, parent, ns.len(), cap);
        let left = remaining - (next.len() - ns.len());
        if left > 0 {
            assert forall|u: int| 0 <= u < run.len() implies 0 <= #[trigger] run[u] < next.len()
                && next[run[u]].parent == parent by {
                assert(next[run[u]] == ns[run[u]]);
            }
            lemma_clone_run_within(next, left, run, parent, t + 1, cap);
            lemma_extends_trans(ns, next, clone_run(next, left, run, parent, t + 1).0);
        }
    }
}

/// A non-empty subtree is drawn only where a child count is drawn.
proof fn lemma_non_empty_drawn(cfg: Config, s: int, depth: int)
    requires
        depth >= 1,
        non_empty_draw(s, cfg.maximum_tree_depth as int, depth).1,
    ensures
        count_drawn_at(cfg, depth),
{
    let maximum_depth = cfg.maximum_tree_depth as int;
    let k = fraction_of(lcg_step(s));
    assert(k >= 0);
    if maximum_depth > 0 && depth >= maximum_depth {
        assert(!draw_below(k, maximum_depth - depth, maximum_depth)) by (nonlinear_arith)
            requires
                k >= 0,
                maximum_depth > 0,
                maximum_depth - depth <= 0,
        ;
    }
}

proof fn lemma_grow_within(cfg: Config, g: Growth, parent: int, depth: int)
    requires
        cfg.maximum_tree_depth >= 0,
        parents_wf(parents_of(g.nodes)),
        within_hops(g.nodes, depth_cap(cfg)),
        0 <= parent < g.nodes.len(),
        hops(parents_of(g.nodes), parent) == depth,
    ensures
        extends(g.nodes, grow(cfg, g, parent, depth).nodes),
        parents_wf(parents_of(grow(cfg, g, parent, depth).nodes)),
        within_hops(grow(cfg, g, parent, depth).nodes, depth_cap(cfg)),
    decreases g.remaining, 2int, 0int,
{
    reveal(grow);
    reveal(grow_children);
    if g.remaining <= 0 {
        assert(extends(g.nodes, g.nodes));
    } else {
        let (s3, should_repeat, run_length, child_count) = children_roll(cfg, g.rng, g.remaining, depth);
        assert(child_count > 0 ==> depth + 1 <= depth_cap(cfg)) by {
            reveal(children_roll);
            if depth != 0 && child_count > 0 {
                let (s1, sr) = chance_draw(g.rng, cfg.repeating_sequence_chance as int);
                let (s2, rl) = if sr {
                    let (t, v) = number_draw(s1, cfg.repeating_sequence_maximum_length as int);
                    (t, v + 1)
                } else {
                    (s1, 0)
                };
                let (t, ne) = non_empty_draw(s2, cfg.maximum_tree_depth as int, depth);
                assert(ne);
                lemma_non_empty_drawn(cfg, s2, depth);
            }
        }
        lemma_grow_children_within(
            cfg,
            Growth { rng: s3, ..g },
            parent,
            depth,
            should_repeat,
            run_length,
            child_count,
            0,
            Seq::empty(),
            0,
        );
    }
}

proof fn lemma_grow_children_within(
    cfg: Config,
    g: Growth,
    parent: int,
    depth: int,
    should_repeat: bool,
    run_length: int,
    child_count: int,
    it: int,
    run: Seq<int>,
    run_size: int,
)
    requires
        cfg.maximum_tree_depth >= 0,
        parents_wf(parents_of(g.nodes)),
        within_hops(g.nodes, depth_cap(cfg)),
        0 <= parent < g.nodes.len(),
        hops(parents_of(g.nodes), parent) == depth,
        0 <= it,
        child_count > 0 ==> depth + 1 <= depth_cap(cfg),
        forall|u: int|
            0 <= u < run.len() ==> 0 <= #[trigger] run[u] < g.nodes.len() && g.nodes[run[u]].parent
                == parent,
    ensures
        extends(
            g.nodes,
            grow_children(cfg, g, parent, depth, should_repeat, run_length, child_count, it, run, run_size).nodes,
        ),
        parents_wf(
            parents_of(
                grow_children(cfg, g, parent, depth, should_repeat, run_length, child_count, it, run, run_size).nodes,
            ),
        ),
        within_hops(
            grow_children(cfg, g, parent, depth, should_repeat, run_length, child_count, it, run, run_size).nodes,
            depth_cap(cfg),
        ),
    decreases g.remaining, 1int, child_count - it,
{
    reveal(grow);
    reveal(grow_children);
    let cap = depth_cap(cfg);
    if it >= child_count || g.remaining <= 0 {
        assert(extends(g.nodes, g.nodes));
    } else if should_repeat && run.len() == run_length && run_size < g.remaining {
        let (ns2, left) = clone_run(g.nodes, g.remaining, run, parent, 0);
        lemma_clone_run_within(g.nodes, g.remaining, run, parent, 0, cap);
        let g2 = Growth { nodes: ns2, remaining: left, ..g };
        if !(g2.remaining <= 0 || g2.remaining >= g.remaining) {
            lemma_hops_extend(g.nodes, ns2, parent);
            assert forall|u: int| 0 <= u < run.len() implies 0 <= #[trigger] run[u] < ns2.len()
                && ns2[run[u]].parent == parent by {
                assert(ns2[run[u]] == g.nodes[run[u]]);
            }
            lemma_grow_children_within(
                cfg,
                g2,
                parent,
                depth,
                should_repeat,
                run_length,
                child_count,
                it + 1,
                run,
                run_size,
            );
            lemma_extends_trans(
                g.nodes,
                ns2,
                grow_children(cfg, g2, parent, depth, should_repeat, run_length, child_count, it + 1, run, run_size).nodes,
            );
        }
    } else {
        let (s1, el, ids) = element_draw(cfg, g.rng, g.id_count);
        let child = g.nodes.len() as int;
        let n = NodeModel { parent, ..el };
        let g1 = Growth {
            rng: s1,
            nodes: g.nodes.push(n),
            remaining: g.remaining - 1,
            id_count: ids,
        };
        lemma_push_hops(g.nodes, n, cap);
        if g1.remaining > 0 {
            lemma_grow_within(cfg, g1, child, depth + 1);
            let g3 = grow(cfg, g1, child, depth + 1);
            lemma_extends_trans(g.nodes, g1.nodes, g3.nodes);
            if !(g3.remaining <= 0 || g3.remaining >= g.remaining) {
                let grows = should_repeat && run.len() < run_length;
                let run2 = if grows {
                    run.push(child)
                } else {
                    run
                };
                lemma_hops_extend(g.nodes, g3.nodes, parent);
                assert forall|u: int| 0 <= u < run2.len() implies 0 <= #[trigger] run2[u] < g3.nodes.len()
                    && g3.nodes[run2[u]].parent == parent by {
                    if u < run.len() {
                        assert(run2[u] == run[u]);
                        assert(g3.nodes[run[u]] == g.nodes[run[u]]);
                    } else {
                        assert(g3.nodes[child] == g1.nodes[child]);
                    }
                }
                lemma_grow_children_within(
                    cfg,
                    g3,
                    parent,
                    depth,
                    should_repeat,
                    run_length,
                    child_count,
                    it + 1,
                    run2,
                    if grows {
                        run_size + size(parents_of(g3.nodes), child)
                    } else {
                        run_size
                    },
                );
                lemma_extends_trans(
                    g.nodes,
                    g3.nodes,
                    grow_children(
                        cfg,
                        g3,
                        parent,
                        depth,
                        should_repeat,
                        run_length,
                        child_count,
                        it + 1,
                        run2,
                        if grows {
                            run_size + size(parents_of(g3.nodes), child)
                        } else {
                            run_size
                        },
                    ).nodes,
                );
            }
        }
    }
}

/// A tree drawn with a depth that is not negative lies within `depth_cap` hops of
/// `#testroot`: children are counted only above `maximum_tree_depth`, and copied runs
/// keep the levels of what they copy.
pub proof fn lemma_tree_draw_depth(cfg: Config, s: int)
    requires
        cfg.maximum_tree_depth >= 0,
    ensures
        within_hops(tree_draw(cfg, s).nodes, depth_cap(cfg)),
{
    let ns = seq![test_root()];
    assert(parents_of(ns)[0] == -1);
    assert(hops(parents_of(ns), 0) == 0);
    lemma_grow_within(
        cfg,
        Growth { rng: s, nodes: ns, remaining: cfg.element_count as int, id_count: 0 },
        0,
        0,
    );
}

/// The tree's root: the `#testroot` div.
pub open spec fn is_test_root(n: NodeModel) -> bool {
    &&& n.parent == -1
    &&& n.tag == "div"@
    &&& n.dom_id == Some("testroot"@)
    &&& n.classes.len() == 0
    &&& n.attrs.len() == 0
}

/// The deepest level at which a tree of the configuration can draw a child count, which
/// multiplies the width by the depth: below `maximum_tree_depth` when that is positive,
/// any level a chain of `element_count` elements reaches when it is negative.
pub open spec fn deepest_count(cfg: Config) -> int {
    if cfg.maximum_tree_depth > 0 {
        if cfg.maximum_tree_depth - 1 < cfg.element_count - 1 {
            cfg.maximum_tree_depth - 1
        } else {
            cfg.element_count - 1
        }
    } else if cfg.maximum_tree_depth < 0 {
        cfg.element_count - 1
    } else {
        0
    }
}

/// The sizes of the configuration keep the tree arithmetic within `i32`: the element
/// count, and the width times the deepest level that draws a child count.
pub open spec fn tree_config_ok(cfg: Config) -> bool {
    &&& cfg.element_count < i32::MAX
    &&& deepest_count(cfg) <= 0 || abs(cfg.maximum_tree_width as int) * deepest_count(cfg) <= i32::MAX
}

/// A configuration that keeps the tree arithmetic within `i32` does so at every level
/// that the tree of `element_count` elements can reach.
proof fn lemma_tree_widths(cfg: Config)
    requires
        tree_config_ok(cfg),
        cfg.element_count > 0,
    ensures
        widths_fit(cfg, 0, cfg.element_count as int),
{
    let w = abs(cfg.maximum_tree_width as int);
    let top = deepest_count(cfg);
    assert forall|d: int| 0 <= d < 0 + cfg.element_count implies #[trigger] width_fits(cfg, d) by {
        if count_drawn_at(cfg, d) {
            assert(d <= top);
            assert(w * d <= w * top) by (nonlinear_arith)
                requires
                    0 <= d <= top,
                    w >= 0,
            ;
        }
    }
}

/// The `#testroot` div that every tree starts from.
pub open spec fn test_root() -> NodeModel {
    NodeModel {
        parent: -1,
        tag: "div"@,
        dom_id: Some("testroot"@),
        classes: Seq::empty(),
        attrs: Seq::empty(),
    }
}

/// The generator's state after drawing the tree from state `s`: `#testroot`, then its
/// subtree of `element_count` elements.
pub open spec fn tree_draw(cfg: Config, s: int) -> Growth {
    grow(
        cfg,
        Growth { rng: s, nodes: seq![test_root()], remaining: cfg.element_count as int, id_count: 0 },
        0,
        0,
    )
}

/// The StyleBench tree: `#testroot` and `element_count` generated elements below it.
pub fn make_tree(cfg: &Config, rng: &mut Random) -> (nodes: Vec<Node>)
    requires
        tree_config_ok(*cfg),
    ensures
        tree_ok(nodes_view(nodes@)),
        nodes@.len() == 1 + if cfg.element_count > 0 {
            cfg.element_count as int
        } else {
            0
        },
        is_test_root(nodes@[0]@),
        forall|k: int| 1 <= k < nodes@.len() ==> desc(parents_of(nodes_view(nodes@)), k, 0),
        max_id_number(nodes_view(nodes@)) < nodes@.len(),
        nodes_view(nodes@) == tree_draw(*cfg, old(rng)@).nodes,
        final(rng)@ == tree_draw(*cfg, old(rng)@).rng,
        cfg.maximum_tree_depth >= 0 ==> within_hops(nodes_view(nodes@), depth_cap(*cfg)),
{
    let ghost s0 = rng@;
    let root = Node {
        parent: -1,
        tag: String::from_str("div"),
        dom_id: Some(String::from_str("testroot")),
        classes: Vec::new(),
        attrs: Vec::new(),
    };
    let mut nodes: Vec<Node> = Vec::new();
    nodes.push(root);
    proof {
        reveal_strlit("div");
        reveal_strlit("testroot");
        reveal_strlit("id");
        let n = nodes_view(nodes@);
        assert(n[0] == nodes@[0]@);
        assert(is_word("div"@));
        assert(is_word("testroot"@));
        assert(!has_prefix("testroot"@, "id"@)) by {
            assert("testroot"@.take(2)[0] == 't');
        }
        assert(node_ok(n[0]));
        assert(parents_wf(parents_of(n)));
        assert(n =~= Seq::<NodeModel>::empty().push(n[0]));
        lemma_max_id_push(Seq::<NodeModel>::empty(), n[0]);
        assert(id_number(n[0].dom_id) is None);
    }
    let mut id_count: i32 = 0;
    let mut remaining = cfg.element_count;
    proof {
        assert(nodes@[0]@.classes =~= Seq::<Seq<char>>::empty());
        assert(nodes@[0]@.attrs =~= Seq::<(Seq<char>, Seq<char>)>::empty());
        assert(nodes@[0]@ == test_root());
        assert(nodes_view(nodes@) =~= seq![test_root()]);
        assert(growth_of(s0, nodes@, remaining, id_count) == Growth {
            rng: s0,
            nodes: seq![test_root()],
            remaining: cfg.element_count as int,
            id_count: 0,
        }) by {
            reveal(growth_of);
        }
    }
    proof {
        if remaining > 0 {
            lemma_tree_widths(*cfg);
        }
    }
    make_tree_with_depth(cfg, rng, &mut nodes, 0, &mut remaining, 0, &mut id_count);
    proof {
        assert(nodes_view(nodes@)[0] == nodes@[0]@);
        assert(growth_of(rng@, nodes@, remaining, id_count).nodes == nodes_view(nodes@)
            && growth_of(rng@, nodes@, remaining, id_count).rng == rng@) by {
            reveal(growth_of);
        }
        if cfg.maximum_tree_depth >= 0 {
            lemma_tree_draw_depth(*cfg, s0);
        }
    }
    nodes
}

} // verus!
