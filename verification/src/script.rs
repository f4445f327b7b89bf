//! What the mutation generator draws: the tree it edits, batch by batch, and the script.
use vstd::prelude::*;
use crate::model::{Config, MutModel, NodeModel};
use crate::names::{numbered, value_text};
use crate::random::{chance_draw, number_draw, weighted_draw};
use crate::tree::{dom_knobs_agree, element_draw, lemma_element_draw_agree};
use crate::walk::{has_live_child, max_id_number, walk_spec};

verus! {

/// The entries of a child list that are not removed, in order.
pub open spec fn live_of(kids: Seq<usize>, dead: Seq<bool>) -> Seq<usize>
    decreases kids.len(),
{
    if kids.len() == 0 {
        Seq::empty()
    } else {
        let r = live_of(kids.drop_last(), dead);
        if !dead[kids.last() as int] {
            r.push(kids.last())
        } else {
            r
        }
    }
}

/// The list without any entry `x`.
pub open spec fn without_entry(kids: Seq<usize>, x: usize) -> Seq<usize>
    decreases kids.len(),
{
    if kids.len() == 0 {
        Seq::empty()
    } else {
        let r = without_entry(kids.drop_last(), x);
        if kids.last() != x {
            r.push(kids.last())
        } else {
            r
        }
    }
}

/// Where `x` first stands in the list, at `k` or after.
pub open spec fn first_of(kids: Seq<usize>, x: usize, k: int) -> Option<int>
    decreases kids.len() - k,
{
    if k < 0 || k >= kids.len() {
        None
    } else if kids[k] == x {
        Some(k)
    } else {
        first_of(kids, x, k + 1)
    }
}

/// The children of node `q` among the first `n` nodes, in index order.
pub open spec fn kids_upto(ns: Seq<NodeModel>, q: int, n: int) -> Seq<usize>
    decreases n,
{
    if n <= 0 {
        Seq::empty()
    } else {
        let r = kids_upto(ns, q, n - 1);
        if ns[n - 1].parent == q {
            r.push((n - 1) as usize)
        } else {
            r
        }
    }
}

/// Each node's children, in index order.
pub open spec fn child_lists(ns: Seq<NodeModel>) -> Seq<Seq<usize>> {
    Seq::new(ns.len(), |q: int| kids_upto(ns, q, ns.len() as int))
}

/// The attributes without those named `name`.
pub open spec fn attrs_dropping(attrs: Seq<(Seq<char>, Seq<char>)>, name: Seq<char>) -> Seq<
    (Seq<char>, Seq<char>),
>
    decreases attrs.len(),
{
    if attrs.len() == 0 {
        Seq::empty()
    } else {
        let r = attrs_dropping(attrs.drop_last(), name);
        if attrs.last().0 != name {
            r.push(attrs.last())
        } else {
            r
        }
    }
}

/// Where the first attribute named `name` stands, at `k` or after.
pub open spec fn named_at(attrs: Seq<(Seq<char>, Seq<char>)>, name: Seq<char>, k: int) -> Option<int>
    decreases attrs.len() - k,
{
    if k < 0 || k >= attrs.len() {
        None
    } else if attrs[k].0 == name {
        Some(k)
    } else {
        named_at(attrs, name, k + 1)
    }
}

/// The attributes with the first one named `name`, if any, given the value `value`; with
/// `add`, the attribute is appended when there is none of that name.
pub open spec fn attrs_setting(
    attrs: Seq<(Seq<char>, Seq<char>)>,
    name: Seq<char>,
    value: Seq<char>,
    add: bool,
) -> Seq<(Seq<char>, Seq<char>)> {
    match named_at(attrs, name, 0) {
        Some(k) => attrs.update(k, (attrs[k].0, value)),
        None => if add {
            attrs.push((name, value))
        } else {
            attrs
        },
    }
}

/// The names the attribute batch looks at on a node: `class` when it has classes, each
/// attribute's name, `id` when it has an id.
pub open spec fn attr_names_of(n: NodeModel) -> Seq<Seq<char>> {
    (if n.classes.len() > 0 {
        seq!["class"@]
    } else {
        Seq::empty()
    }) + Seq::new(n.attrs.len(), |k: int| n.attrs[k].0) + (if n.dom_id is Some {
        seq!["id"@]
    } else {
        Seq::empty()
    })
}

/// The tree as the mutation generator edits it: the generator's state, the nodes, which
/// are removed, the child lists, the live nodes in tree order as last computed, the next
/// `id<n>` number, and the script so far.
pub struct Draft {
    pub rng: int,
    pub nodes: Seq<NodeModel>,
    pub dead: Seq<bool>,
    pub children: Seq<Seq<usize>>,
    pub live: Seq<usize>,
    pub id_count: int,
    pub out: Seq<MutModel>,
}

/// The state after, and the node of, a uniform draw among the live nodes; no draw and no
/// node when none is live.
pub open spec fn pick_draw(s: int, live: Seq<usize>) -> (int, Option<usize>) {
    if live.len() == 0 {
        (s, None)
    } else {
        let (t, k) = number_draw(s, (live.len() as i32) as int);
        (t, Some(live[k]))
    }
}

/// The state after, and the outcome of, the leaf rule for node `i`: a node without live
/// children is skipped unless the leaf mutation chance hits.
pub open spec fn leaf_skip(cfg: Config, s: int, d: Draft, i: int) -> (int, bool) {
    if has_live_child(d.children, d.dead, i) {
        (s, false)
    } else {
        let (t, hit) = chance_draw(s, cfg.leaf_mutation_chance as int);
        (t, !hit)
    }
}

/// The draft with a mutation appended.
pub open spec fn emitted(d: Draft, m: MutModel) -> Draft {
    Draft { out: d.out.push(m), ..d }
}

/// The draft with node `i` replaced.
pub open spec fn with_node(d: Draft, i: int, n: NodeModel) -> Draft {
    Draft { nodes: d.nodes.update(i, n), ..d }
}

/// The class batch, from its `n`-th edit on, with `budget` draws left.
#[verifier::opaque]
pub open spec fn add_classes_from(cfg: Config, d: Draft, n: int, budget: int) -> Draft
    decreases budget,
{
    if n >= cfg.mutations_per_step || budget <= 0 {
        d
    } else {
        let (s1, pick) = pick_draw(d.rng, d.live);
        match pick {
            None => d,
            Some(i) => {
                let (s2, skip) = leaf_skip(cfg, s1, d, i as int);
                if skip {
                    add_classes_from(cfg, Draft { rng: s2, ..d }, n, budget - 1)
                } else {
                    let (s3, v) = weighted_draw(s2, cfg.class_count as int);
                    let class = numbered("class"@, v);
                    let node = d.nodes[i as int];
                    let node2 = if node.classes.contains(class) {
                        node
                    } else {
                        NodeModel { classes: node.classes.push(class), ..node }
                    };
                    add_classes_from(
                        cfg,
                        emitted(
                            with_node(Draft { rng: s3, ..d }, i as int, node2),
                            MutModel::AddClass { id: i as int, class },
                        ),
                        n + 1,
                        budget - 1,
                    )
                }
            },
        }
    }
}

/// The class removal batch, from its `n`-th edit on, with `budget` draws left.
#[verifier::opaque]
pub open spec fn remove_classes_from(cfg: Config, d: Draft, n: int, budget: int) -> Draft
    decreases budget,
{
    if n >= cfg.mutations_per_step || budget <= 0 {
        d
    } else {
        let (s1, pick) = pick_draw(d.rng, d.live);
        match pick {
            None => d,
            Some(i) => {
                let (s2, skip) = leaf_skip(cfg, s1, d, i as int);
                let node = d.nodes[i as int];
                if skip || node.classes.len() == 0 {
                    remove_classes_from(cfg, Draft { rng: s2, ..d }, n, budget - 1)
                } else {
                    remove_classes_from(
                        cfg,
                        emitted(
                            with_node(
                                Draft { rng: s2, ..d },
                                i as int,
                                NodeModel { classes: node.classes.skip(1), ..node },
                            ),
                            MutModel::RemoveClass { id: i as int },
                        ),
                        n + 1,
                        budget - 1,
                    )
                }
            },
        }
    }
}

/// The attribute edits on node `i` for `names[j..]`: each attribute name (not `class` or
/// `id`) is dropped or re-valued, a coin flip each. Also says whether any was touched.
pub open spec fn revise_from(
    cfg: Config,
    d: Draft,
    i: int,
    names: Seq<Seq<char>>,
    j: int,
    mutated: bool,
) -> (Draft, bool)
    decreases names.len() - j,
{
    if j < 0 || j >= names.len() {
        (d, mutated)
    } else {
        let name = names[j];
        if name == "class"@ || name == "id"@ {
            revise_from(cfg, d, i, names, j + 1, mutated)
        } else {
            let (s1, coin) = chance_draw(d.rng, 500000);
            let node = d.nodes[i];
            if coin {
                let d2 = emitted(
                    with_node(
                        Draft { rng: s1, ..d },
                        i,
                        NodeModel { attrs: attrs_dropping(node.attrs, name), ..node },
                    ),
                    MutModel::RemoveAttr { id: i, name },
                );
                revise_from(cfg, d2, i, names, j + 1, true)
            } else {
                let (s2, v) = weighted_draw(s1, cfg.attribute_value_count as int);
                let value = value_text(v);
                let d2 = emitted(
                    with_node(
                        Draft { rng: s2, ..d },
                        i,
                        NodeModel { attrs: attrs_setting(node.attrs, name, value, false), ..node },
                    ),
                    MutModel::SetAttr { id: i, name, value },
                );
                revise_from(cfg, d2, i, names, j + 1, true)
            }
        }
    }
}

/// The random attributes set on node `i`, from the `c`-th of `count` on.
pub open spec fn add_random_from(cfg: Config, d: Draft, i: int, c: int, count: int) -> Draft
    decreases count - c,
{
    if c >= count {
        d
    } else {
        let (s1, nv) = weighted_draw(d.rng, cfg.attribute_count as int);
        let name = numbered("attr"@, nv);
        let (s2, vv) = weighted_draw(s1, cfg.attribute_value_count as int);
        let value = value_text(vv);
        let node = d.nodes[i];
        let d2 = emitted(
            with_node(
                Draft { rng: s2, ..d },
                i,
                NodeModel { attrs: attrs_setting(node.attrs, name, value, true), ..node },
            ),
            MutModel::SetAttr { id: i, name, value },
        );
        add_random_from(cfg, d2, i, c + 1, count)
    }
}

/// The attribute batch, from its `n`-th edit on, with `budget` draws left.
#[verifier::opaque]
pub open spec fn attributes_from(cfg: Config, d: Draft, n: int, budget: int) -> Draft
    decreases budget,
{
    if n >= cfg.mutations_per_step || budget <= 0 {
        d
    } else {
        let (s1, pick) = pick_draw(d.rng, d.live);
        match pick {
            None => d,
            Some(i) => {
                let (s2, skip) = leaf_skip(cfg, s1, d, i as int);
                if skip {
                    attributes_from(cfg, Draft { rng: s2, ..d }, n, budget - 1)
                } else {
                    let (d2, mutated) = revise_from(
                        cfg,
                        Draft { rng: s2, ..d },
                        i as int,
                        attr_names_of(d.nodes[i as int]),
                        0,
                        false,
                    );
                    let d3 = if mutated {
                        d2
                    } else {
                        let (t, c) = number_draw(d2.rng, cfg.element_maximum_attributes as int);
                        add_random_from(cfg, Draft { rng: t, ..d2 }, i as int, 0, c + 1)
                    };
                    attributes_from(cfg, d3, n + 1, budget - 1)
                }
            },
        }
    }
}

/// The child list of `p` with the new node `id` placed before the live child at
/// position `at` among the live children, or after them all.
pub open spec fn hung(kids: Seq<usize>, dead: Seq<bool>, id: usize, at: int) -> Seq<usize> {
    let live_kids = live_of(kids, dead);
    if at >= live_kids.len() {
        kids.push(id)
    } else {
        kids.insert(first_of(kids, live_kids[at], 0).unwrap(), id)
    }
}

/// The leaf batch, from its `n`-th edit on, with `budget` draws left: below a drawn node
/// with a live child, a new element at a drawn place among the live children.
#[verifier::opaque]
pub open spec fn leaves_from(cfg: Config, d: Draft, n: int, budget: int) -> Draft
    decreases budget,
{
    if n >= cfg.mutations_per_step || budget <= 0 {
        d
    } else {
        let (s1, pick) = pick_draw(d.rng, d.live);
        match pick {
            None => d,
            Some(p) => {
                if !has_live_child(d.children, d.dead, p as int) {
                    leaves_from(cfg, Draft { rng: s1, ..d }, n, budget - 1)
                } else {
                    let count = live_of(d.children[p as int], d.dead).len();
                    let (s2, at) = number_draw(s1, count + 1int);
                    let (s3, el, ids) = element_draw(cfg, s2, d.id_count);
                    let id = d.nodes.len();
                    let dead2 = d.dead.push(false);
                    let kids2 = hung(d.children[p as int], dead2, id as usize, at);
                    let d2 = Draft {
                        rng: s3,
                        nodes: d.nodes.push(NodeModel { parent: p as int, ..el }),
                        dead: dead2,
                        children: d.children.update(p as int, kids2).push(Seq::empty()),
                        live: d.live,
                        id_count: ids,
                        out: d.out.push(
                            MutModel::AddLeaf {
                                id: id as int,
                                parent: p as int,
                                at,
                                tag: el.tag,
                                dom_id: el.dom_id,
                                classes: el.classes,
                                attrs: el.attrs,
                            },
                        ),
                    };
                    leaves_from(cfg, d2, n + 1, budget - 1)
                }
            },
        }
    }
}

/// The leaf removal batch, from its `n`-th edit on, with `budget` draws left: a drawn
/// node without live children is unlinked from its parent and marked removed.
#[verifier::opaque]
pub open spec fn remove_leaves_from(cfg: Config, d: Draft, n: int, budget: int) -> Draft
    decreases budget,
{
    if n >= cfg.mutations_per_step || budget <= 0 {
        d
    } else {
        let (s1, pick) = pick_draw(d.rng, d.live);
        match pick {
            None => d,
            Some(i) => {
                let p = d.nodes[i as int].parent;
                if has_live_child(d.children, d.dead, i as int) || p < 0 {
                    remove_leaves_from(cfg, Draft { rng: s1, ..d }, n, budget - 1)
                } else {
                    let d2 = emitted(
                        Draft {
                            rng: s1,
                            children: d.children.update(p, without_entry(d.children[p], i)),
                            dead: d.dead.update(i as int, true),
                            ..d
                        },
                        MutModel::RemoveLeaf { id: i as int },
                    );
                    remove_leaves_from(cfg, d2, n + 1, budget - 1)
                }
            },
        }
    }
}

/// The draft with the live nodes computed afresh.
pub open spec fn relived(d: Draft) -> Draft {
    Draft { live: walk_spec(d.children, d.dead, 0), ..d }
}

/// One StyleBench step: the five batches, each closed by a restyle.
pub open spec fn step_draw(cfg: Config, d: Draft) -> Draft {
    let d1 = emitted(add_classes_from(cfg, d, 0, u64::MAX as int), MutModel::Restyle);
    let d2 = emitted(remove_classes_from(cfg, d1, 0, u64::MAX as int), MutModel::Restyle);
    let d3 = emitted(attributes_from(cfg, d2, 0, u64::MAX as int), MutModel::Restyle);
    let d4 = emitted(relived(leaves_from(cfg, d3, 0, u64::MAX as int)), MutModel::Restyle);
    emitted(relived(remove_leaves_from(cfg, d4, 0, u64::MAX as int)), MutModel::Restyle)
}

/// The first `k` steps.
pub open spec fn steps_draw(cfg: Config, d: Draft, k: int) -> Draft
    decreases k,
{
    if k <= 0 {
        d
    } else {
        step_draw(cfg, steps_draw(cfg, d, k - 1))
    }
}

/// The draft the mutation generator starts from, on the tree `ns` with the generator at `s`.
pub open spec fn script_start(ns: Seq<NodeModel>, s: int) -> Draft {
    let dead = Seq::new(ns.len(), |i: int| false);
    Draft {
        rng: s,
        nodes: ns,
        dead,
        children: child_lists(ns),
        live: walk_spec(child_lists(ns), dead, 0),
        id_count: max_id_number(ns) + 1,
        out: Seq::empty(),
    }
}

/// The draft after the mutation generator's `step_count` steps on the tree `ns`, from `s`.
pub open spec fn mutations_draw(cfg: Config, s: int, ns: Seq<NodeModel>) -> Draft {
    steps_draw(cfg, script_start(ns, s), cfg.step_count as int)
}

proof fn lemma_add_classes_agree(a: Config, b: Config, d: Draft, n: int, budget: int)
    requires
        dom_knobs_agree(a, b),
    ensures
        add_classes_from(a, d, n, budget) == add_classes_from(b, d, n, budget),
    decreases budget,
{
    reveal(add_classes_from);
    if !(n >= a.mutations_per_step || budget <= 0) {
        let (s1, pick) = pick_draw(d.rng, d.live);
        if let Some(i) = pick {
            let (s2, skip) = leaf_skip(a, s1, d, i as int);
            if skip {
                lemma_add_classes_agree(a, b, Draft { rng: s2, ..d }, n, budget - 1);
            } else {
                let (s3, v) = weighted_draw(s2, a.class_count as int);
                let class = numbered("class"@, v);
                let node = d.nodes[i as int];
                let node2 = if node.classes.contains(class) {
                    node
                } else {
                    NodeModel { classes: node.classes.push(class), ..node }
                };
                lemma_add_classes_agree(
                    a,
                    b,
                    emitted(
                        with_node(Draft { rng: s3, ..d }, i as int, node2),
                        MutModel::AddClass { id: i as int, class },
                    ),
                    n + 1,
                    budget - 1,
                );
            }
        }
    }
}

proof fn lemma_remove_classes_agree(a: Config, b: Config, d: Draft, n: int, budget: int)
    requires
        dom_knobs_agree(a, b),
    ensures
        remove_classes_from(a, d, n, budget) == remove_classes_from(b, d, n, budget),
    decreases budget,
{
    reveal(remove_classes_from);
    if !(n >= a.mutations_per_step || budget <= 0) {
        let (s1, pick) = pick_draw(d.rng, d.live);
        if let Some(i) = pick {
            let (s2, skip) = leaf_skip(a, s1, d, i as int);
            let node = d.nodes[i as int];
            if skip || node.classes.len() == 0 {
                lemma_remove_classes_agree(a, b, Draft { rng: s2, ..d }, n, budget - 1);
            } else {
                lemma_remove_classes_agree(
                    a,
                    b,
                    emitted(
                        with_node(
                            Draft { rng: s2, ..d },
                            i as int,
                            NodeModel { classes: node.classes.skip(1), ..node },
                        ),
                        MutModel::RemoveClass { id: i as int },
                    ),
                    n + 1,
                    budget - 1,
                );
            }
        }
    }
}

proof fn lemma_revise_agree(
    a: Config,
    b: Config,
    d: Draft,
    i: int,
    names: Seq<Seq<char>>,
    j: int,
    mutated: bool,
)
    requires
        dom_knobs_agree(a, b),
    ensures
        revise_from(a, d, i, names, j, mutated) == revise_from(b, d, i, names, j, mutated),
    decreases names.len() - j,
{
    if !(j < 0 || j >= names.len()) {
        let name = names[j];
        if name == "class"@ || name == "id"@ {
            lemma_revise_agree(a, b, d, i, names, j + 1, mutated);
        } else {
            let (s1, coin) = chance_draw(d.rng, 500000);
            let node = d.nodes[i];
            if coin {
                let d2 = emitted(
                    with_node(
                        Draft { rng: s1, ..d },
                        i,
                        NodeModel { attrs: attrs_dropping(node.attrs, name), ..node },
                    ),
                    MutModel::RemoveAttr { id: i, name },
                );
                lemma_revise_agree(a, b, d2, i, names, j + 1, true);
            } else {
                let (s2, v) = weighted_draw(s1, a.attribute_value_count as int);
                let value = value_text(v);
                let d2 = emitted(
                    with_node(
                        Draft { rng: s2, ..d },
                        i,
                        NodeModel { attrs: attrs_setting(node.attrs, name, value, false), ..node },
                    ),
                    MutModel::SetAttr { id: i, name, value },
                );
                lemma_revise_agree(a, b, d2, i, names, j + 1, true);
            }
        }
    }
}

proof fn lemma_add_random_agree(a: Config, b: Config, d: Draft, i: int, c: int, count: int)
    requires
        dom_knobs_agree(a, b),
    ensures
        add_random_from(a, d, i, c, count) == add_random_from(b, d, i, c, count),
    decreases count - c,
{
    if c < count {
        let (s1, nv) = weighted_draw(d.rng, a.attribute_count as int);
        let name = numbered("attr"@, nv);
        let (s2, vv) = weighted_draw(s1, a.attribute_value_count as int);
        let value = value_text(vv);
        let node = d.nodes[i];
        let d2 = emitted(
            with_node(
                Draft { rng: s2, ..d },
                i,
                NodeModel { attrs: attrs_setting(node.attrs, name, value, true), ..node },
            ),
            MutModel::SetAttr { id: i, name, value },
        );
        lemma_add_random_agree(a, b, d2, i, c + 1, count);
    }
}

proof fn lemma_attributes_agree(a: Config, b: Config, d: Draft, n: int, budget: int)
    requires
        dom_knobs_agree(a, b),
    ensures
        attributes_from(a, d, n, budget) == attributes_from(b, d, n, budget),
    decreases budget,
{
    reveal(attributes_from);
    if !(n >= a.mutations_per_step || budget <= 0) {
        let (s1, pick) = pick_draw(d.rng, d.live);
        if let Some(i) = pick {
            let (s2, skip) = leaf_skip(a, s1, d, i as int);
            if skip {
                lemma_attributes_agree(a, b, Draft { rng: s2, ..d }, n, budget - 1);
            } else {
                let names = attr_names_of(d.nodes[i as int]);
                lemma_revise_agree(a, b, Draft { rng: s2, ..d }, i as int, names, 0, false);
                let (d2, mutated) = revise_from(a, Draft { rng: s2, ..d }, i as int, names, 0, false);
                let (t, c) = number_draw(d2.rng, a.element_maximum_attributes as int);
                lemma_add_random_agree(a, b, Draft { rng: t, ..d2 }, i as int, 0, c + 1);
                let d3 = if mutated {
                    d2
                } else {
                    add_random_from(a, Draft { rng: t, ..d2 }, i as int, 0, c + 1)
                };
                lemma_attributes_agree(a, b, d3, n + 1, budget - 1);
            }
        }
    }
}

proof fn lemma_leaves_agree(a: Config, b: Config, d: Draft, n: int, budget: int)
    requires
        dom_knobs_agree(a, b),
    ensures
        leaves_from(a, d, n, budget) == leaves_from(b, d, n, budget),
    decreases budget,
{
    reveal(leaves_from);
    if !(n >= a.mutations_per_step || budget <= 0) {
        let (s1, pick) = pick_draw(d.rng, d.live);
        if let Some(p) = pick {
            if !has_live_child(d.children, d.dead, p as int) {
                lemma_leaves_agree(a, b, Draft { rng: s1, ..d }, n, budget - 1);
            } else {
                let count = live_of(d.children[p as int], d.dead).len();
                let (s2, at) = number_draw(s1, count + 1int);
                lemma_element_draw_agree(a, b, s2, d.id_count);
                let (s3, el, ids) = element_draw(a, s2, d.id_count);
                let id = d.nodes.len();
                let dead2 = d.dead.push(false);
                let kids2 = hung(d.children[p as int], dead2, id as usize, at);
                let d2 = Draft {
                    rng: s3,
                    nodes: d.nodes.push(NodeModel { parent: p as int, ..el }),
                    dead: dead2,
                    children: d.children.update(p as int, kids2).push(Seq::empty()),
                    live: d.live,
                    id_count: ids,
                    out: d.out.push(
                        MutModel::AddLeaf {
                            id: id as int,
                            parent: p as int,
                            at,
                            tag: el.tag,
                            dom_id: el.dom_id,
                            classes: el.classes,
                            attrs: el.attrs,
                        },
                    ),
                };
                lemma_leaves_agree(a, b, d2, n + 1, budget - 1);
            }
        }
    }
}

proof fn lemma_remove_leaves_agree(a: Config, b: Config, d: Draft, n: int, budget: int)
    requires
        dom_knobs_agree(a, b),
    ensures
        remove_leaves_from(a, d, n, budget) == remove_leaves_from(b, d, n, budget),
    decreases budget,
{
    reveal(remove_leaves_from);
    if !(n >= a.mutations_per_step || budget <= 0) {
        let (s1, pick) = pick_draw(d.rng, d.live);
        if let Some(i) = pick {
            let p = d.nodes[i as int].parent;
            if has_live_child(d.children, d.dead, i as int) || p < 0 {
                lemma_remove_leaves_agree(a, b, Draft { rng: s1, ..d }, n, budget - 1);
            } else {
                let d2 = emitted(
                    Draft {
                        rng: s1,
                        children: d.children.update(p, without_entry(d.children[p], i)),
                        dead: d.dead.update(i as int, true),
                        ..d
                    },
                    MutModel::RemoveLeaf { id: i as int },
                );
                lemma_remove_leaves_agree(a, b, d2, n + 1, budget - 1);
            }
        }
    }
}

proof fn lemma_steps_agree(a: Config, b: Config, d: Draft, k: int)
    requires
        dom_knobs_agree(a, b),
    ensures
        steps_draw(a, d, k) == steps_draw(b, d, k),
    decreases k,
{
    if k > 0 {
        lemma_steps_agree(a, b, d, k - 1);
        let d0 = steps_draw(a, d, k - 1);
        let m = u64::MAX as int;
        lemma_add_classes_agree(a, b, d0, 0, m);
        let d1 = emitted(add_classes_from(a, d0, 0, m), MutModel::Restyle);
        lemma_remove_classes_agree(a, b, d1, 0, m);
        let d2 = emitted(remove_classes_from(a, d1, 0, m), MutModel::Restyle);
        lemma_attributes_agree(a, b, d2, 0, m);
        let d3 = emitted(attributes_from(a, d2, 0, m), MutModel::Restyle);
        lemma_leaves_agree(a, b, d3, 0, m);
        let d4 = emitted(relived(leaves_from(a, d3, 0, m)), MutModel::Restyle);
        lemma_remove_leaves_agree(a, b, d4, 0, m);
    }
}

/// The mutation script does not depend on the sheet's knobs: configurations that agree
/// on the tree and script knobs draw the same script on the same tree from the same state.
pub proof fn lemma_mutations_draw_agree(a: Config, b: Config, s: int, ns: Seq<NodeModel>)
    requires
        dom_knobs_agree(a, b),
    ensures
        mutations_draw(a, s, ns) == mutations_draw(b, s, ns),
{
    lemma_steps_agree(a, b, script_start(ns, s), a.step_count as int);
}

/// The class batch keeps the script so far and appends at most `mutations_per_step`
/// class additions, from its `n`-th on; with no live node it draws and appends nothing.
#[verifier::rlimit(40)]
pub proof fn lemma_add_classes_count(cfg: Config, d: Draft, n: int, budget: int)
    requires
        0 <= n,
    ensures
        add_classes_from(cfg, d, n, budget).out.len() >= d.out.len(),
        add_classes_from(cfg, d, n, budget).out.take(d.out.len() as int) == d.out,
        add_classes_from(cfg, d, n, budget).out.len() - d.out.len() <= if cfg.mutations_per_step > n {
            cfg.mutations_per_step - n
        } else {
            0
        },
        forall|i: int|
            d.out.len() <= i < add_classes_from(cfg, d, n, budget).out.len() ==> #[trigger] add_classes_from(
                cfg,
                d,
                n,
                budget,
            ).out[i] is AddClass,
        d.live.len() == 0 ==> add_classes_from(cfg, d, n, budget) == d,
    decreases budget,
{
    reveal(add_classes_from);
    let r = add_classes_from(cfg, d, n, budget);
    if !(n >= cfg.mutations_per_step || budget <= 0) {
        let (s1, pick) = pick_draw(d.rng, d.live);
        if let Some(i) = pick {
            let (s2, skip) = leaf_skip(cfg, s1, d, i as int);
            if skip {
                lemma_add_classes_count(cfg, Draft { rng: s2, ..d }, n, budget - 1);
            } else {
                let (s3, v) = weighted_draw(s2, cfg.class_count as int);
                let class = numbered("class"@, v);
                let node = d.nodes[i as int];
                let node2 = if node.classes.contains(class) {
                    node
                } else {
                    NodeModel { classes: node.classes.push(class), ..node }
                };
                let d2 = emitted(
                    with_node(Draft { rng: s3, ..d }, i as int, node2),
                    MutModel::AddClass { id: i as int, class },
                );
                lemma_add_classes_count(cfg, d2, n + 1, budget - 1);
                assert(d2.out.take(d.out.len() as int) =~= d.out);
                lemma_prefix_step(d.out, d2.out, r.out);
            }
        }
    }
    if r == d {
        assert(d.out.take(d.out.len() as int) =~= d.out);
    }
}

/// The class removal batch keeps the script so far and appends at most `mutations_per_step`
/// class removals, from its `n`-th on; with no live node it draws and appends nothing.
pub proof fn lemma_remove_classes_count(cfg: Config, d: Draft, n: int, budget: int)
    requires
        0 <= n,
    ensures
        remove_classes_from(cfg, d, n, budget).out.len() >= d.out.len(),
        remove_classes_from(cfg, d, n, budget).out.take(d.out.len() as int) == d.out,
        remove_classes_from(cfg, d, n, budget).out.len() - d.out.len() <= if cfg.mutations_per_step > n {
            cfg.mutations_per_step - n
        } else {
            0
        },
        forall|i: int|
            d.out.len() <= i < remove_classes_from(cfg, d, n, budget).out.len() ==> #[trigger] remove_classes_from(
                cfg,
                d,
                n,
                budget,
            ).out[i] is RemoveClass,
        d.live.len() == 0 ==> remove_classes_from(cfg, d, n, budget) == d,
    decreases budget,
{
    reveal(remove_classes_from);
    let r = remove_classes_from(cfg, d, n, budget);
    if !(n >= cfg.mutations_per_step || budget <= 0) {
        let (s1, pick) = pick_draw(d.rng, d.live);
        if let Some(i) = pick {
            let (s2, skip) = leaf_skip(cfg, s1, d, i as int);
            let node = d.nodes[i as int];
            if skip || node.classes.len() == 0 {
                lemma_remove_classes_count(cfg, Draft { rng: s2, ..d }, n, budget - 1);
            } else {
                let d2 = emitted(
                    with_node(
                        Draft { rng: s2, ..d },
                        i as int,
                        NodeModel { classes: node.classes.skip(1), ..node },
                    ),
                    MutModel::RemoveClass { id: i as int },
                );
                lemma_remove_classes_count(cfg, d2, n + 1, budget - 1);
                assert(d2.out.take(d.out.len() as int) =~= d.out);
                lemma_prefix_step(d.out, d2.out, r.out);
            }
        }
    }
    if r == d {
        assert(d.out.take(d.out.len() as int) =~= d.out);
    }
}

/// The leaf removal batch keeps the script so far and appends at most `mutations_per_step`
/// leaf removals, from its `n`-th on; with no live node it draws and appends nothing.
pub proof fn lemma_remove_leaves_count(cfg: Config, d: Draft, n: int, budget: int)
    requires
        0 <= n,
    ensures
        remove_leaves_from(cfg, d, n, budget).out.len() >= d.out.len(),
        remove_leaves_from(cfg, d, n, budget).out.take(d.out.len() as int) == d.out,
        remove_leaves_from(cfg, d, n, budget).out.len() - d.out.len() <= if cfg.mutations_per_step > n {
            cfg.mutations_per_step - n
        } else {
            0
        },
        forall|i: int|
            d.out.len() <= i < remove_leaves_from(cfg, d, n, budget).out.len() ==> #[trigger] remove_leaves_from(
                cfg,
                d,
                n,
                budget,
            ).out[i] is RemoveLeaf,
        d.live.len() == 0 ==> remove_leaves_from(cfg, d, n, budget) == d,
    decreases budget,
{
    reveal(remove_leaves_from);
    let r = remove_leaves_from(cfg, d, n, budget);
    if !(n >= cfg.mutations_per_step || budget <= 0) {
        let (s1, pick) = pick_draw(d.rng, d.live);
        if let Some(i) = pick {
            let p = d.nodes[i as int].parent;
            if has_live_child(d.children, d.dead, i as int) || p < 0 {
                lemma_remove_leaves_count(cfg, Draft { rng: s1, ..d }, n, budget - 1);
            } else {
                let d2 = emitted(
                    Draft {
                        rng: s1,
                        children: d.children.update(p, without_entry(d.children[p], i)),
                        dead: d.dead.update(i as int, true),
                        ..d
                    },
                    MutModel::RemoveLeaf { id: i as int },
                );
                lemma_remove_leaves_count(cfg, d2, n + 1, budget - 1);
                assert(d2.out.take(d.out.len() as int) =~= d.out);
                lemma_prefix_step(d.out, d2.out, r.out);
            }
        }
    }
    if r == d {
        assert(d.out.take(d.out.len() as int) =~= d.out);
    }
}

/// The leaf batch keeps the script so far and appends at most `mutations_per_step` added
/// leaves, from its `n`-th on; with no live node it draws and appends nothing.
#[verifier::rlimit(40)]
pub proof fn lemma_leaves_count(cfg: Config, d: Draft, n: int, budget: int)
    requires
        0 <= n,
    ensures
        leaves_from(cfg, d, n, budget).out.len() >= d.out.len(),
        leaves_from(cfg, d, n, budget).out.take(d.out.len() as int) == d.out,
        leaves_from(cfg, d, n, budget).out.len() - d.out.len() <= if cfg.mutations_per_step > n {
            cfg.mutations_per_step - n
        } else {
            0
        },
        forall|i: int|
            d.out.len() <= i < leaves_from(cfg, d, n, budget).out.len() ==> #[trigger] leaves_from(
                cfg,
                d,
                n,
                budget,
            ).out[i] is AddLeaf,
        d.live.len() == 0 ==> leaves_from(cfg, d, n, budget) == d,
    decreases budget,
{
    reveal(leaves_from);
    let r = leaves_from(cfg, d, n, budget);
    if !(n >= cfg.mutations_per_step || budget <= 0) {
        let (s1, pick) = pick_draw(d.rng, d.live);
        if let Some(p) = pick {
            if !has_live_child(d.children, d.dead, p as int) {
                lemma_leaves_count(cfg, Draft { rng: s1, ..d }, n, budget - 1);
            } else {
                let count = live_of(d.children[p as int], d.dead).len();
                let (s2, at) = number_draw(s1, count + 1int);
                let (s3, el, ids) = element_draw(cfg, s2, d.id_count);
                let id = d.nodes.len();
                let dead2 = d.dead.push(false);
                let kids2 = hung(d.children[p as int], dead2, id as usize, at);
                let d2 = Draft {
                    rng: s3,
                    nodes: d.nodes.push(NodeModel { parent: p as int, ..el }),
                    dead: dead2,
                    children: d.children.update(p as int, kids2).push(Seq::empty()),
                    live: d.live,
                    id_count: ids,
                    out: d.out.push(
                        MutModel::AddLeaf {
                            id: id as int,
                            parent: p as int,
                            at,
                            tag: el.tag,
                            dom_id: el.dom_id,
                            classes: el.classes,
                            attrs: el.attrs,
                        },
                    ),
                };
                lemma_leaves_count(cfg, d2, n + 1, budget - 1);
                assert(d2.out.take(d.out.len() as int) =~= d.out);
                lemma_prefix_step(d.out, d2.out, r.out);
            }
        }
    }
    if r == d {
        assert(d.out.take(d.out.len() as int) =~= d.out);
    }
}

/// A script that extends by one mutation what in turn extends it keeps the first.
proof fn lemma_prefix_step(a: Seq<MutModel>, b: Seq<MutModel>, c: Seq<MutModel>)
    requires
        b.len() == a.len() + 1,
        b.take(a.len() as int) == a,
        c.len() >= b.len(),
        c.take(b.len() as int) == b,
    ensures
        c.take(a.len() as int) == a,
        c[a.len() as int] == b[a.len() as int],
{
    assert forall|i: int| 0 <= i < a.len() implies c.take(a.len() as int)[i] == a[i] by {
        assert(c[i] == c.take(b.len() as int)[i]);
        assert(b[i] == b.take(a.len() as int)[i]);
    }
    assert(c.take(a.len() as int) =~= a);
    assert(c[a.len() as int] == c.take(b.len() as int)[a.len() as int]);
}

/// The attribute edits of one node keep the script so far.
proof fn lemma_revise_prefix(
    cfg: Config,
    d: Draft,
    i: int,
    names: Seq<Seq<char>>,
    j: int,
    mutated: bool,
)
    ensures
        revise_from(cfg, d, i, names, j, mutated).0.out.len() >= d.out.len(),
        revise_from(cfg, d, i, names, j, mutated).0.out.take(d.out.len() as int) == d.out,
    decreases names.len() - j,
{
    let r = revise_from(cfg, d, i, names, j, mutated).0;
    if j < 0 || j >= names.len() {
        assert(d.out.take(d.out.len() as int) =~= d.out);
    } else {
        let name = names[j];
        if name == "class"@ || name == "id"@ {
            lemma_revise_prefix(cfg, d, i, names, j + 1, mutated);
        } else {
            let (s1, coin) = chance_draw(d.rng, 500000);
            let node = d.nodes[i];
            let d2 = if coin {
                emitted(
                    with_node(
                        Draft { rng: s1, ..d },
                        i,
                        NodeModel { attrs: attrs_dropping(node.attrs, name), ..node },
                    ),
                    MutModel::RemoveAttr { id: i, name },
                )
            } else {
                let (s2, v) = weighted_draw(s1, cfg.attribute_value_count as int);
                let value = value_text(v);
                emitted(
                    with_node(
                        Draft { rng: s2, ..d },
                        i,
                        NodeModel { attrs: attrs_setting(node.attrs, name, value, false), ..node },
                    ),
                    MutModel::SetAttr { id: i, name, value },
                )
            };
            lemma_revise_prefix(cfg, d2, i, names, j + 1, true);
            assert(d2.out.take(d.out.len() as int) =~= d.out);
            lemma_prefix_step(d.out, d2.out, r.out);
        }
    }
}

/// Each attribute name of the attribute batch (but `class` and `id`) gets one edit, the
/// first appended for it: when the coin drawn for it hits, the removal of that attribute
/// of the node; else setting it to the value drawn right after the coin.
pub proof fn lemma_revise_edit(
    cfg: Config,
    d: Draft,
    i: int,
    names: Seq<Seq<char>>,
    j: int,
    mutated: bool,
)
    requires
        0 <= j < names.len(),
        names[j] != "class"@,
        names[j] != "id"@,
    ensures
        revise_from(cfg, d, i, names, j, mutated).0.out.len() > d.out.len(),
        revise_from(cfg, d, i, names, j, mutated).1,
        chance_draw(d.rng, 500000).1 ==> revise_from(cfg, d, i, names, j, mutated).0.out[d.out.len() as int]
            == (MutModel::RemoveAttr { id: i, name: names[j] }),
        !chance_draw(d.rng, 500000).1 ==> revise_from(cfg, d, i, names, j, mutated).0.out[d.out.len() as int]
            == (MutModel::SetAttr {
                id: i,
                name: names[j],
                value: value_text(
                    weighted_draw(chance_draw(d.rng, 500000).0, cfg.attribute_value_count as int).1,
                ),
            }),
{
    let name = names[j];
    let (s1, coin) = chance_draw(d.rng, 500000);
    let node = d.nodes[i];
    let m = if coin {
        MutModel::RemoveAttr { id: i, name }
    } else {
        MutModel::SetAttr {
            id: i,
            name,
            value: value_text(weighted_draw(s1, cfg.attribute_value_count as int).1),
        }
    };
    let d2 = if coin {
        emitted(
            with_node(
                Draft { rng: s1, ..d },
                i,
                NodeModel { attrs: attrs_dropping(node.attrs, name), ..node },
            ),
            MutModel::RemoveAttr { id: i, name },
        )
    } else {
        let (s2, v) = weighted_draw(s1, cfg.attribute_value_count as int);
        let value = value_text(v);
        emitted(
            with_node(
                Draft { rng: s2, ..d },
                i,
                NodeModel { attrs: attrs_setting(node.attrs, name, value, false), ..node },
            ),
            MutModel::SetAttr { id: i, name, value },
        )
    };
    assert(d2.out == d.out.push(m));
    lemma_revise_prefix(cfg, d2, i, names, j + 1, true);
    lemma_revise_mutated(cfg, d2, i, names, j + 1);
    let r = revise_from(cfg, d2, i, names, j + 1, true).0;
    assert(d2.out.take(d.out.len() as int) =~= d.out);
    lemma_prefix_step(d.out, d2.out, r.out);
}

proof fn lemma_revise_mutated(cfg: Config, d: Draft, i: int, names: Seq<Seq<char>>, j: int)
    ensures
        revise_from(cfg, d, i, names, j, true).1,
    decreases names.len() - j,
{
    if 0 <= j < names.len() {
        let name = names[j];
        if name == "class"@ || name == "id"@ {
            lemma_revise_mutated(cfg, d, i, names, j + 1);
        } else {
            let (s1, coin) = chance_draw(d.rng, 500000);
            let node = d.nodes[i];
            if coin {
                lemma_revise_mutated(
                    cfg,
                    emitted(
                        with_node(
                            Draft { rng: s1, ..d },
                            i,
                            NodeModel { attrs: attrs_dropping(node.attrs, name), ..node },
                        ),
                        MutModel::RemoveAttr { id: i, name },
                    ),
                    i,
                    names,
                    j + 1,
                );
            } else {
                let (s2, v) = weighted_draw(s1, cfg.attribute_value_count as int);
                let value = value_text(v);
                lemma_revise_mutated(
                    cfg,
                    emitted(
                        with_node(
                            Draft { rng: s2, ..d },
                            i,
                            NodeModel { attrs: attrs_setting(node.attrs, name, value, false), ..node },
                        ),
                        MutModel::SetAttr { id: i, name, value },
                    ),
                    i,
                    names,
                    j + 1,
                );
            }
        }
    }
}

} // verus!
