//! The mutation script: StyleBench's five edit batches per step, drawn on the tree.
use vstd::prelude::*;
use crate::model::{attrs_view, strings_view, copy_node, muts_view, nodes_view, Attr, Config, Mut, MutModel, Node, NodeModel};
use crate::names::{
    is_word, lemma_name_literals, random_attribute_name, random_attribute_value, random_class_name,
};
use crate::text::{chars_of, eq_str};
use crate::random::{number_draw, Random};
use crate::script::{add_classes_from, add_random_from, attr_names_of, attributes_from, attrs_dropping, attrs_setting, child_lists, emitted, first_of, hung, kids_upto, leaf_skip, leaves_from, live_of, mutations_draw, named_at, pick_draw, relived, remove_classes_from, remove_leaves_from, revise_from, script_start, step_draw, steps_draw, with_node, without_entry, Draft};
use crate::subtree::parents_wf;
use crate::tree::{gen_word, make_element, node_ok, parents_of, words_ok};
use crate::walk::{
    children_ok, has_live_child, id_number, ids_below, live_child, max_id_number, next_dom_id_count,
    tree_order, walk_entries_ok, walk_spec, lists_view, lemma_forward_acyclic, lemma_max_id_ge,
};

verus! {

/// The number of nodes once the script's leaves are added to a tree of `n0` nodes.
pub open spec fn script_count(n0: int, ms: Seq<MutModel>) -> int
    decreases ms.len(),
{
    if ms.len() == 0 {
        n0
    } else {
        script_count(n0, ms.drop_last()) + if ms.last() is AddLeaf {
            1int
        } else {
            0int
        }
    }
}

/// The number of restyles in the script.
pub open spec fn restyle_count(ms: Seq<MutModel>) -> int
    decreases ms.len(),
{
    if ms.len() == 0 {
        0
    } else {
        restyle_count(ms.drop_last()) + if ms.last() is Restyle {
            1int
        } else {
            0int
        }
    }
}

/// A mutation that may follow `restyles` restyles on a tree of `count` nodes: it belongs
/// to the batch that the restyle count names (add classes, remove classes, attributes,
/// add leaves, remove leaves, in turn) and names an existing node other than the root.
/// What the generator draws is a word: an added class, a set value, an added leaf. An
/// added leaf takes the next index and hangs below an existing node.
pub open spec fn mut_fits(count: int, restyles: int, m: MutModel) -> bool {
    match m {
        MutModel::AddClass { id, class } => restyles % 5 == 0 && 1 <= id < count && gen_word(
            class,
        ),
        MutModel::RemoveClass { id } => restyles % 5 == 1 && 1 <= id < count,
        MutModel::SetAttr { id, name, value } => restyles % 5 == 2 && 1 <= id < count && is_word(value),
        MutModel::RemoveAttr { id, .. } => restyles % 5 == 2 && 1 <= id < count,
        MutModel::AddLeaf { id, parent, at, tag, dom_id, classes, attrs } => {
            &&& restyles % 5 == 3
            &&& id == count
            &&& 1 <= parent < count
            &&& at >= 0
            &&& node_ok(NodeModel { parent, tag, dom_id, classes, attrs })
        },
        MutModel::RemoveLeaf { id } => restyles % 5 == 4 && 1 <= id < count,
        MutModel::Restyle => true,
    }
}

/// The attribute name of a mutation is a word, where it has one.
pub open spec fn name_word(m: MutModel) -> bool {
    match m {
        MutModel::SetAttr { name, .. } => gen_word(name),
        MutModel::RemoveAttr { name, .. } => gen_word(name),
        _ => true,
    }
}

/// Every attribute name that the script sets or removes is a word.
pub open spec fn names_words(ms: Seq<MutModel>) -> bool {
    forall|i: int| 0 <= i < ms.len() ==> name_word(#[trigger] ms[i])
}

/// A script for a tree of `n0` nodes whose every mutation fits where it stands.
pub open spec fn script_ok(n0: int, ms: Seq<MutModel>) -> bool
    decreases ms.len(),
{
    ms.len() == 0 || (script_ok(n0, ms.drop_last()) && mut_fits(
        script_count(n0, ms.drop_last()),
        restyle_count(ms.drop_last()),
        ms.last(),
    ))
}

proof fn lemma_script_push(n0: int, ms: Seq<MutModel>, m: MutModel)
    ensures
        script_count(n0, ms.push(m)) == script_count(n0, ms) + if m is AddLeaf {
            1int
        } else {
            0int
        },
        restyle_count(ms.push(m)) == restyle_count(ms) + if m is Restyle {
            1int
        } else {
            0int
        },
        script_ok(n0, ms.push(m)) == (script_ok(n0, ms) && mut_fits(
            script_count(n0, ms),
            restyle_count(ms),
            m,
        )),
{
    assert(ms.push(m).drop_last() =~= ms);
}

/// Appends a mutation that fits where it stands.
fn emit(out: &mut Vec<Mut>, m: Mut, n0: usize)
    requires
        script_ok(n0 as int, muts_view(old(out)@)),
        mut_fits(script_count(n0 as int, muts_view(old(out)@)), restyle_count(muts_view(old(out)@)), m@),
    ensures
        final(out)@ == old(out)@.push(m),
        muts_view(final(out)@) == muts_view(old(out)@).push(m@),
        script_ok(n0 as int, muts_view(final(out)@)),
        names_words(muts_view(final(out)@)) == (names_words(muts_view(old(out)@)) && name_word(m@)),
        script_count(n0 as int, muts_view(final(out)@)) == script_count(n0 as int, muts_view(old(out)@))
            + if m is AddLeaf {
            1int
        } else {
            0int
        },
        restyle_count(muts_view(final(out)@)) == restyle_count(muts_view(old(out)@)) + if m is Restyle {
            1int
        } else {
            0int
        },
{
    let ghost ms = muts_view(out@);
    let ghost mm = m@;
    out.push(m);
    proof {
        assert(muts_view(out@) =~= ms.push(mm));
        lemma_script_push(n0 as int, ms, mm);
        let ns = ms.push(mm);
        if names_words(ms) && name_word(mm) {
            assert forall|i: int| 0 <= i < ns.len() implies name_word(#[trigger] ns[i]) by {
                if i < ms.len() {
                    assert(ns[i] == ms[i]);
                }
            }
        }
        if names_words(ns) {
            assert(name_word(ns[ms.len() as int]));
            assert forall|i: int| 0 <= i < ms.len() implies name_word(#[trigger] ms[i]) by {
                assert(ns[i] == ms[i]);
            }
        }
    }
}

/// A length as the `i32` bound of a draw: the length itself when it fits, and never
/// more than the length when positive.
fn len_bound(n: usize) -> (r: i32)
    ensures
        r == n as i32,
        n <= i32::MAX ==> r == n,
        r > 0 ==> r <= n,
{
    let r = n as i32;
    assert(n <= i32::MAX ==> r == n) by (bit_vector)
        requires
            r == n as i32,
    ;
    assert(r > 0 ==> r as usize <= n) by (bit_vector)
        requires
            r == n as i32,
    ;
    r
}

/// A live node drawn uniformly, or nothing (and no draw) when none is live.
fn pick(rng: &mut Random, live: &Vec<usize>) -> (r: Option<usize>)
    ensures
        (final(rng)@, r) == pick_draw(old(rng)@, live@),
        r is None <==> live@.len() == 0,
        r matches Some(i) ==> live@.contains(i),
{
    if live.len() == 0 {
        return None;
    }
    let b = len_bound(live.len());
    let k = rng.number(b);
    proof {
        assert(b as int == (live@.len() as i32) as int);
    }
    Some(live[k as usize])
}

/// The tree as the script edits it: the nodes, which are removed, each node's child
/// list in document order, the live nodes in tree order as last computed, the next
/// free `id<n>` number, and whether the tree started out made of words.
struct Edit {
    nodes: Vec<Node>,
    dead: Vec<bool>,
    children: Vec<Vec<usize>>,
    live: Vec<usize>,
    id_count: i32,
    words: Ghost<bool>,
}

/// The draft that the generator's state, the edited tree and the script so far hold.
spec fn draft_of(rng: int, e: Edit, out: Seq<Mut>) -> Draft {
    Draft {
        rng,
        nodes: nodes_view(e.nodes@),
        dead: e.dead@,
        children: lists_view(e.children@),
        live: e.live@,
        id_count: e.id_count as int,
        out: muts_view(out),
    }
}

/// A draft keeps its shape: one entry per node everywhere, child lists after their
/// parents and no longer than the tree, parents before children, and live entries that
/// name nodes other than the root.
pub open spec fn draft_ok(d: Draft) -> bool {
    let n = d.nodes.len();
    &&& 1 <= n < i32::MAX
    &&& d.dead.len() == n
    &&& d.children.len() == n
    &&& children_ok(d.children)
    &&& forall|q: int| 0 <= q < n ==> (#[trigger] d.children[q]).len() <= n
    &&& parents_wf(parents_of(d.nodes))
    &&& walk_entries_ok(d.live, 0, n as int)
}

/// The edited tree keeps the shape of a draft.
spec fn edit_ok(e: Edit) -> bool {
    &&& e.nodes@.len() == e.dead@.len()
    &&& e.nodes@.len() == e.children@.len()
    &&& draft_ok(draft_of(0, e, Seq::empty()))
    &&& e.words@ ==> words_ok(nodes_view(e.nodes@))
}

/// When the tree started out made of words, the script names only words.
spec fn words_held(e: Edit, out: Seq<Mut>) -> bool {
    e.words@ ==> names_words(muts_view(out))
}

/// The child lists of a tree whose parents come first: each node's children in index order.
fn build_children(nodes: &Vec<Node>) -> (children: Vec<Vec<usize>>)
    requires
        parents_wf(parents_of(nodes_view(nodes@))),
    ensures
        children@.len() == nodes@.len(),
        lists_view(children@) == child_lists(nodes_view(nodes@)),
        children_ok(lists_view(children@)),
        forall|q: int| 0 <= q < children@.len() ==> (#[trigger] children@[q])@.len() <= nodes@.len(),
{
    let ghost ns = nodes_view(nodes@);
    let mut children: Vec<Vec<usize>> = Vec::new();
    let mut i: usize = 0;
    while i < nodes.len()
        invariant
            i <= nodes@.len(),
            children@.len() == i,
            forall|q: int| 0 <= q < i ==> (#[trigger] children@[q])@.len() == 0,
        decreases nodes@.len() - i,
    {
        children.push(Vec::new());
        i = i + 1;
    }
    i = 0;
    while i < nodes.len()
        invariant
            i <= nodes@.len(),
            ns == nodes_view(nodes@),
            parents_wf(parents_of(ns)),
            children@.len() == nodes@.len(),
            forall|q: int| 0 <= q < children@.len() ==> (#[trigger] children@[q])@ == kids_upto(ns, q, i as int),
        decreases nodes@.len() - i,
    {
        proof {
            assert(ns[i as int] == nodes@[i as int]@);
            assert(parents_of(ns)[i as int] == nodes@[i as int].parent);
        }
        let ghost before = children@;
        if nodes[i].parent >= 0 {
            let p = nodes[i].parent as usize;
            children[p].push(i);
            proof {
                assert forall|q: int| 0 <= q < children@.len() implies (#[trigger] children@[q])@
                    == kids_upto(ns, q, i + 1) by {
                    if q != p {
                        assert(children@[q] == before[q]);
                    }
                }
            }
        } else {
            proof {
                assert forall|q: int| 0 <= q < children@.len() implies (#[trigger] children@[q])@
                    == kids_upto(ns, q, i + 1) by {
                    assert(children@[q] == before[q]);
                }
            }
        }
        i = i + 1;
    }
    proof {
        assert(lists_view(children@) =~= child_lists(ns));
        lemma_child_lists_ok(ns);
        assert forall|q: int| 0 <= q < children@.len() implies (#[trigger] children@[q])@.len() <= nodes@.len() by {
            assert(lists_view(children@)[q] == children@[q]@);
        }
    }
    children
}

proof fn lemma_kids_upto(ns: Seq<NodeModel>, q: int, n: int)
    requires
        0 <= n <= ns.len(),
        ns.len() <= usize::MAX,
    ensures
        kids_upto(ns, q, n).len() <= n,
        forall|k: int| 0 <= k < kids_upto(ns, q, n).len() ==> {
            let c = #[trigger] kids_upto(ns, q, n)[k];
            c < n && ns[c as int].parent == q
        },
    decreases n,
{
    if n > 0 {
        lemma_kids_upto(ns, q, n - 1);
        let r = kids_upto(ns, q, n - 1);
        assert forall|k: int| 0 <= k < kids_upto(ns, q, n).len() implies {
            let c = #[trigger] kids_upto(ns, q, n)[k];
            c < n && ns[c as int].parent == q
        } by {
            if k < r.len() {
                assert(kids_upto(ns, q, n)[k] == r[k]);
            }
        }
    }
}

proof fn lemma_child_lists_ok(ns: Seq<NodeModel>)
    requires
        parents_wf(parents_of(ns)),
        ns.len() <= usize::MAX,
    ensures
        children_ok(child_lists(ns)),
        forall|q: int| 0 <= q < ns.len() ==> (#[trigger] child_lists(ns)[q]).len() <= ns.len(),
{
    let ch = child_lists(ns);
    assert forall|p: int, k: int| 0 <= p < ch.len() && 0 <= k < ch[p].len() implies p < #[trigger] ch[p][k]
        < ch.len() by {
        lemma_kids_upto(ns, p, ns.len() as int);
        let c = ch[p][k];
        assert(parents_of(ns)[c as int] == ns[c as int].parent);
    }
    assert forall|q: int| 0 <= q < ns.len() implies (#[trigger] child_lists(ns)[q]).len() <= ns.len() by {
        lemma_kids_upto(ns, q, ns.len() as int);
    }
}

/// The entries of a child list that are not removed, in order.
fn live_entries(kids: &Vec<usize>, dead: &Vec<bool>) -> (r: Vec<usize>)
    requires
        forall|k: int| 0 <= k < kids@.len() ==> #[trigger] kids@[k] < dead@.len(),
    ensures
        r@ == live_of(kids@, dead@),
{
    let mut r: Vec<usize> = Vec::new();
    let mut k: usize = 0;
    while k < kids.len()
        invariant
            k <= kids@.len(),
            forall|k: int| 0 <= k < kids@.len() ==> #[trigger] kids@[k] < dead@.len(),
            r@ == live_of(kids@.take(k as int), dead@),
        decreases kids@.len() - k,
    {
        proof {
            assert(kids@.take(k + 1).drop_last() =~= kids@.take(k as int));
        }
        if !dead[kids[k]] {
            r.push(kids[k]);
        }
        k = k + 1;
    }
    proof {
        assert(kids@.take(k as int) =~= kids@);
    }
    r
}

proof fn lemma_live_of(kids: Seq<usize>, dead: Seq<bool>)
    ensures
        live_of(kids, dead).len() <= kids.len(),
        forall|j: int| 0 <= j < live_of(kids, dead).len() ==> kids.contains(#[trigger] live_of(kids, dead)[j]),
    decreases kids.len(),
{
    if kids.len() > 0 {
        lemma_live_of(kids.drop_last(), dead);
        let r = live_of(kids.drop_last(), dead);
        assert forall|j: int| 0 <= j < live_of(kids, dead).len() implies kids.contains(
            #[trigger] live_of(kids, dead)[j],
        ) by {
            if j < r.len() {
                assert(live_of(kids, dead)[j] == r[j]);
                let t = choose|t: int| 0 <= t < kids.drop_last().len() && kids.drop_last()[t] == r[j];
                assert(kids[t] == r[j]);
            } else {
                assert(kids[kids.len() - 1] == kids.last());
            }
        }
    }
}

/// Where `x` first stands in the list, if it does.
fn position_of(kids: &Vec<usize>, x: usize) -> (r: Option<usize>)
    ensures
        r matches Some(k) ==> first_of(kids@, x, 0) == Some(k as int) && k < kids@.len(),
        r is None ==> first_of(kids@, x, 0) is None && !kids@.contains(x),
{
    let mut k: usize = 0;
    while k < kids.len()
        invariant
            k <= kids@.len(),
            forall|j: int| 0 <= j < k ==> #[trigger] kids@[j] != x,
            first_of(kids@, x, 0) == first_of(kids@, x, k as int),
        decreases kids@.len() - k,
    {
        if kids[k] == x {
            return Some(k);
        }
        k = k + 1;
    }
    None
}

/// The list without any entry `x`.
fn without(kids: &Vec<usize>, x: usize) -> (r: Vec<usize>)
    ensures
        r@ == without_entry(kids@, x),
{
    let mut r: Vec<usize> = Vec::new();
    let mut k: usize = 0;
    while k < kids.len()
        invariant
            k <= kids@.len(),
            r@ == without_entry(kids@.take(k as int), x),
        decreases kids@.len() - k,
    {
        proof {
            assert(kids@.take(k + 1).drop_last() =~= kids@.take(k as int));
        }
        if kids[k] != x {
            r.push(kids[k]);
        }
        k = k + 1;
    }
    proof {
        assert(kids@.take(k as int) =~= kids@);
    }
    r
}

proof fn lemma_without_entry(kids: Seq<usize>, x: usize)
    ensures
        without_entry(kids, x).len() <= kids.len(),
        forall|j: int| 0 <= j < without_entry(kids, x).len() ==> kids.contains(#[trigger] without_entry(kids, x)[j]),
    decreases kids.len(),
{
    if kids.len() > 0 {
        lemma_without_entry(kids.drop_last(), x);
        let r = without_entry(kids.drop_last(), x);
        assert forall|j: int| 0 <= j < without_entry(kids, x).len() implies kids.contains(
            #[trigger] without_entry(kids, x)[j],
        ) by {
            if j < r.len() {
                assert(without_entry(kids, x)[j] == r[j]);
                let t = choose|t: int| 0 <= t < kids.drop_last().len() && kids.drop_last()[t] == r[j];
                assert(kids[t] == r[j]);
            } else {
                assert(kids[kids.len() - 1] == kids.last());
            }
        }
    }
}

/// Whether the list holds the class.
fn has_class(classes: &Vec<String>, class: &String) -> (b: bool)
    ensures
        b == strings_view(classes@).contains(class@),
{
    let mut k: usize = 0;
    while k < classes.len()
        invariant
            k <= classes@.len(),
            forall|j: int| 0 <= j < k ==> (#[trigger] classes@[j])@ != class@,
        decreases classes@.len() - k,
    {
        if classes[k] == *class {
            proof {
                assert(strings_view(classes@)[k as int] == class@);
            }
            return true;
        }
        k = k + 1;
    }
    proof {
        if strings_view(classes@).contains(class@) {
            let j = choose|j: int| 0 <= j < strings_view(classes@).len() && strings_view(classes@)[j] == class@;
            assert(classes@[j]@ == class@);
        }
    }
    false
}

/// The attributes without those named `name`.
fn attrs_without(attrs: &Vec<Attr>, name: &String) -> (r: Vec<Attr>)
    ensures
        attrs_view(r@) == attrs_dropping(attrs_view(attrs@), name@),
{
    let ghost av = attrs_view(attrs@);
    let mut r: Vec<Attr> = Vec::new();
    let mut k: usize = 0;
    while k < attrs.len()
        invariant
            k <= attrs@.len(),
            av == attrs_view(attrs@),
            attrs_view(r@) == attrs_dropping(av.take(k as int), name@),
        decreases attrs@.len() - k,
    {
        proof {
            assert(av.take(k + 1).drop_last() =~= av.take(k as int));
            assert(av.take(k + 1).last() == attrs@[k as int]@);
        }
        let ghost before = attrs_view(r@);
        if attrs[k].name != *name {
            let a = Attr { name: attrs[k].name.clone(), value: attrs[k].value.clone() };
            r.push(a);
            proof {
                assert(attrs_view(r@) =~= before.push(a@));
            }
        }
        k = k + 1;
    }
    proof {
        assert(av.take(k as int) =~= av);
    }
    r
}

proof fn lemma_attrs_dropping(attrs: Seq<(Seq<char>, Seq<char>)>, name: Seq<char>)
    ensures
        forall|j: int| 0 <= j < attrs_dropping(attrs, name).len() ==> attrs.contains(
            #[trigger] attrs_dropping(attrs, name)[j],
        ),
    decreases attrs.len(),
{
    if attrs.len() > 0 {
        lemma_attrs_dropping(attrs.drop_last(), name);
        let r = attrs_dropping(attrs.drop_last(), name);
        assert forall|j: int| 0 <= j < attrs_dropping(attrs, name).len() implies attrs.contains(
            #[trigger] attrs_dropping(attrs, name)[j],
        ) by {
            if j < r.len() {
                assert(attrs_dropping(attrs, name)[j] == r[j]);
                let t = choose|t: int| 0 <= t < attrs.drop_last().len() && attrs.drop_last()[t] == r[j];
                assert(attrs[t] == r[j]);
            } else {
                assert(attrs[attrs.len() - 1] == attrs.last());
            }
        }
    }
}

/// Gives the first attribute named `name`, if any, the value `value`; says whether there
/// was one.
fn set_first_value(attrs: &mut Vec<Attr>, name: &String, value: &String) -> (found: bool)
    ensures
        attrs_view(final(attrs)@) == attrs_setting(attrs_view(old(attrs)@), name@, value@, false),
        found == named_at(attrs_view(old(attrs)@), name@, 0) is Some,
{
    let ghost av = attrs_view(attrs@);
    let mut k: usize = 0;
    while k < attrs.len()
        invariant
            k <= attrs@.len(),
            attrs@ == old(attrs)@,
            av == attrs_view(attrs@),
            named_at(av, name@, 0) == named_at(av, name@, k as int),
        decreases attrs@.len() - k,
    {
        proof {
            assert(av[k as int] == attrs@[k as int]@);
        }
        if attrs[k].name == *name {
            attrs[k].value = value.clone();
            proof {
                assert(attrs_view(attrs@) =~= av.update(k as int, (av[k as int].0, value@)));
            }
            return true;
        }
        k = k + 1;
    }
    false
}

/// The script so far fits, its leaves are the nodes added to the tree, and its restyles
/// stand at the batch `batch` of a step.
pub open spec fn script_at(d: Draft, n0: int, batch: int) -> bool {
    &&& script_ok(n0, d.out)
    &&& script_count(n0, d.out) == d.nodes.len()
    &&& restyle_count(d.out) % 5 == batch
}

proof fn lemma_replace_node(ns: Seq<Node>, i: int, m: Node)
    requires
        parents_wf(parents_of(nodes_view(ns))),
        0 <= i < ns.len(),
        m.parent == ns[i].parent,
    ensures
        parents_wf(parents_of(nodes_view(ns.update(i, m)))),
        words_ok(nodes_view(ns)) && node_ok(m@) ==> words_ok(nodes_view(ns.update(i, m))),
        nodes_view(ns.update(i, m)) == nodes_view(ns).update(i, m@),
{
    let a = nodes_view(ns);
    let b = nodes_view(ns.update(i, m));
    assert(b =~= a.update(i, m@));
    assert(parents_of(b) =~= parents_of(a));
    assert forall|k: int| 0 <= k < b.len() && words_ok(a) && node_ok(m@) implies node_ok(#[trigger] b[k]) by {
        if k != i {
            assert(b[k] == a[k]);
        }
    }
}

/// The drawn node's index is one of the live nodes: not the root, within the tree.
proof fn lemma_picked(d: Draft, i: usize)
    requires
        draft_ok(d),
        d.live.contains(i),
    ensures
        1 <= i < d.nodes.len(),
{
    let k = choose|k: int| 0 <= k < d.live.len() && d.live[k] == i;
    assert(1 <= d.live[k] < d.nodes.len());
}

/// The first batch: add a class to `mutations_per_step` drawn nodes. A node without
/// live children is taken only with the leaf mutation chance.
fn add_classes(cfg: &Config, rng: &mut Random, e: &mut Edit, out: &mut Vec<Mut>, n0: usize)
    requires
        edit_ok(*old(e)),
        words_held(*old(e), old(out)@),
        script_at(draft_of(old(rng)@, *old(e), old(out)@), n0 as int, 0),
    ensures
        edit_ok(*final(e)),
        final(e).nodes@.len() == old(e).nodes@.len(),
        final(e).id_count == old(e).id_count,
        words_held(*final(e), final(out)@),
        final(e).words == old(e).words,
        script_at(draft_of(final(rng)@, *final(e), final(out)@), n0 as int, 0),
        restyle_count(muts_view(final(out)@)) == restyle_count(muts_view(old(out)@)),
        draft_of(final(rng)@, *final(e), final(out)@) == add_classes_from(
            *cfg,
            draft_of(old(rng)@, *old(e), old(out)@),
            0,
            u64::MAX as int,
        ),
{
    let ghost len0 = e.nodes@.len();
    let ghost r0 = restyle_count(muts_view(out@));
    let ghost goal = add_classes_from(*cfg, draft_of(rng@, *e, out@), 0, u64::MAX as int);
    let mut n: i32 = 0;
    let mut budget: u64 = u64::MAX;
    proof {
        if !(n < cfg.mutations_per_step) {
            assert(goal == draft_of(rng@, *e, out@)) by {
                reveal(add_classes_from);
            }
        }
    }
    while n < cfg.mutations_per_step && budget > 0
        invariant
            edit_ok(*e),
            e.nodes@.len() == len0,
            e.id_count == old(e).id_count,
            words_held(*e, out@),
            e.words == old(e).words,
            script_at(draft_of(rng@, *e, out@), n0 as int, 0),
            restyle_count(muts_view(out@)) == r0,
            add_classes_from(*cfg, draft_of(rng@, *e, out@), n as int, budget as int) == goal,
            !(n < cfg.mutations_per_step && budget > 0) ==> goal == draft_of(rng@, *e, out@),
        ensures
            goal == draft_of(rng@, *e, out@),
        decreases budget,
    {
        let ghost d = draft_of(rng@, *e, out@);
        let i = match pick(rng, &e.live) {
            Some(i) => i,
            None => {
                proof {
                    assert(goal == d) by {
                        reveal(add_classes_from);
                    }
                }
                break ;
            },
        };
        let ghost s1 = rng@;
        proof {
            lemma_picked(d, i);
        }
        budget = budget - 1;
        let has_kid = live_child(&e.children, &e.dead, i);
        let skip = !has_kid && !rng.chance(cfg.leaf_mutation_chance);
        let ghost s2 = rng@;
        proof {
            assert(leaf_skip(*cfg, s1, d, i as int) == (s2, skip));
        }
        if skip {
            proof {
                assert(add_classes_from(*cfg, d, n as int, budget + 1) == add_classes_from(
                    *cfg,
                    draft_of(rng@, *e, out@),
                    n as int,
                    budget as int,
                )) by {
                    reveal(add_classes_from);
                }
                if !(n < cfg.mutations_per_step && budget > 0) {
                    assert(goal == draft_of(rng@, *e, out@)) by {
                        reveal(add_classes_from);
                    }
                }
            }
            continue ;
        }
        let class = random_class_name(cfg, rng);
        let ghost before = e.nodes@;
        proof {
            assert(nodes_view(before)[i as int] == before[i as int]@);
        }
        if !has_class(&e.nodes[i].classes, &class) {
            e.nodes[i].classes.push(class.clone());
            proof {
                let m = e.nodes@[i as int];
                assert(m@.classes =~= before[i as int]@.classes.push(class@));
                if e.words@ {
                    assert(node_ok(m@)) by {
                    assert(nodes_view(before)[i as int] == before[i as int]@);
                    assert(node_ok(before[i as int]@));
                    assert(m.attrs == before[i as int].attrs && m.tag == before[i as int].tag && m.dom_id
                        == before[i as int].dom_id);
                    assert(gen_word(m@.tag));
                    assert(m@.attrs == before[i as int]@.attrs);
                    assert forall|j: int| 0 <= j < m@.classes.len() implies gen_word(
                        #[trigger] m@.classes[j],
                    ) by {
                        if j < before[i as int]@.classes.len() {
                            assert(m@.classes[j] == before[i as int]@.classes[j]);
                        }
                    }
                    }
                }
                lemma_replace_node(before, i as int, m);
                assert(e.nodes@ == before.update(i as int, m));
                assert(m@ == NodeModel { classes: before[i as int]@.classes.push(class@), ..before[i as int]@ });
            }
        }
        let ghost s3 = rng@;
        let ghost node = d.nodes[i as int];
        let ghost node2 = if node.classes.contains(class@) {
            node
        } else {
            NodeModel { classes: node.classes.push(class@), ..node }
        };
        proof {
            assert(nodes_view(e.nodes@) == d.nodes.update(i as int, node2));
        }
        let ghost cv = class@;
        emit(out, Mut::AddClass { id: i as i32, class }, n0);
        proof {
            assert(draft_of(rng@, *e, out@) == emitted(
                with_node(Draft { rng: s3, ..d }, i as int, node2),
                MutModel::AddClass { id: i as int, class: cv },
            ));
            assert(add_classes_from(*cfg, d, n as int, budget + 1) == add_classes_from(
                *cfg,
                draft_of(rng@, *e, out@),
                n + 1,
                budget as int,
            )) by {
                reveal(add_classes_from);
            }
        }
        n = n + 1;
        proof {
            if !(n < cfg.mutations_per_step && budget > 0) {
                assert(goal == draft_of(rng@, *e, out@)) by {
                    reveal(add_classes_from);
                }
            }
        }
    }
}

/// The second batch: take the first class off `mutations_per_step` drawn nodes that
/// have one; the leaf rule as in the first batch.
fn remove_classes(cfg: &Config, rng: &mut Random, e: &mut Edit, out: &mut Vec<Mut>, n0: usize)
    requires
        edit_ok(*old(e)),
        words_held(*old(e), old(out)@),
        script_at(draft_of(old(rng)@, *old(e), old(out)@), n0 as int, 1),
    ensures
        edit_ok(*final(e)),
        final(e).nodes@.len() == old(e).nodes@.len(),
        final(e).id_count == old(e).id_count,
        words_held(*final(e), final(out)@),
        final(e).words == old(e).words,
        script_at(draft_of(final(rng)@, *final(e), final(out)@), n0 as int, 1),
        restyle_count(muts_view(final(out)@)) == restyle_count(muts_view(old(out)@)),
        draft_of(final(rng)@, *final(e), final(out)@) == remove_classes_from(
            *cfg,
            draft_of(old(rng)@, *old(e), old(out)@),
            0,
            u64::MAX as int,
        ),
{
    let ghost len0 = e.nodes@.len();
    let ghost r0 = restyle_count(muts_view(out@));
    let ghost goal = remove_classes_from(*cfg, draft_of(rng@, *e, out@), 0, u64::MAX as int);
    let mut n: i32 = 0;
    let mut budget: u64 = u64::MAX;
    proof {
        if !(n < cfg.mutations_per_step) {
            assert(goal == draft_of(rng@, *e, out@)) by {
                reveal(remove_classes_from);
            }
        }
    }
    while n < cfg.mutations_per_step && budget > 0
        invariant
            edit_ok(*e),
            e.nodes@.len() == len0,
            e.id_count == old(e).id_count,
            words_held(*e, out@),
            e.words == old(e).words,
            script_at(draft_of(rng@, *e, out@), n0 as int, 1),
            restyle_count(muts_view(out@)) == r0,
            remove_classes_from(*cfg, draft_of(rng@, *e, out@), n as int, budget as int) == goal,
            !(n < cfg.mutations_per_step && budget > 0) ==> goal == draft_of(rng@, *e, out@),
        ensures
            goal == draft_of(rng@, *e, out@),
        decreases budget,
    {
        let ghost d = draft_of(rng@, *e, out@);
        let i = match pick(rng, &e.live) {
            Some(i) => i,
            None => {
                proof {
                    assert(goal == d) by {
                        reveal(remove_classes_from);
                    }
                }
                break ;
            },
        };
        let ghost s1 = rng@;
        proof {
            lemma_picked(d, i);
            assert(nodes_view(e.nodes@)[i as int] == e.nodes@[i as int]@);
        }
        budget = budget - 1;
        let has_kid = live_child(&e.children, &e.dead, i);
        let skip = !has_kid && !rng.chance(cfg.leaf_mutation_chance);
        let ghost s2 = rng@;
        proof {
            assert(leaf_skip(*cfg, s1, d, i as int) == (s2, skip));
        }
        if skip || e.nodes[i].classes.len() == 0 {
            proof {
                assert(remove_classes_from(*cfg, d, n as int, budget + 1) == remove_classes_from(
                    *cfg,
                    draft_of(rng@, *e, out@),
                    n as int,
                    budget as int,
                )) by {
                    reveal(remove_classes_from);
                }
                if !(n < cfg.mutations_per_step && budget > 0) {
                    assert(goal == draft_of(rng@, *e, out@)) by {
                        reveal(remove_classes_from);
                    }
                }
            }
            continue ;
        }
        let ghost before = e.nodes@;
        e.nodes[i].classes.remove(0);
        proof {
            let m = e.nodes@[i as int];
            assert(m@.classes =~= before[i as int]@.classes.skip(1));
            if e.words@ {
                assert(node_ok(m@)) by {
                assert(nodes_view(before)[i as int] == before[i as int]@);
                assert(node_ok(before[i as int]@));
                assert(m.attrs == before[i as int].attrs && m.tag == before[i as int].tag && m.dom_id
                    == before[i as int].dom_id);
                assert(gen_word(m@.tag));
                assert(m@.attrs == before[i as int]@.attrs);
                assert forall|j: int| 0 <= j < m@.classes.len() implies gen_word(
                    #[trigger] m@.classes[j],
                ) by {
                    assert(m@.classes[j] == before[i as int]@.classes[j + 1]);
                }
                }
            }
            lemma_replace_node(before, i as int, m);
            assert(e.nodes@ == before.update(i as int, m));
            assert(m@ == NodeModel { classes: d.nodes[i as int].classes.skip(1), ..d.nodes[i as int] });
        }
        emit(out, Mut::RemoveClass { id: i as i32 }, n0);
        proof {
            assert(draft_of(rng@, *e, out@) == emitted(
                with_node(
                    Draft { rng: s2, ..d },
                    i as int,
                    NodeModel { classes: d.nodes[i as int].classes.skip(1), ..d.nodes[i as int] },
                ),
                MutModel::RemoveClass { id: i as int },
            ));
            assert(remove_classes_from(*cfg, d, n as int, budget + 1) == remove_classes_from(
                *cfg,
                draft_of(rng@, *e, out@),
                n + 1,
                budget as int,
            )) by {
                reveal(remove_classes_from);
            }
        }
        n = n + 1;
        proof {
            if !(n < cfg.mutations_per_step && budget > 0) {
                assert(goal == draft_of(rng@, *e, out@)) by {
                    reveal(remove_classes_from);
                }
            }
        }
    }
}

/// Attribute names that are words and values that are words or empty.
spec fn attrs_words(v: Seq<Attr>) -> bool {
    forall|k: int| 0 <= k < v.len() ==> gen_word((#[trigger] v[k])@.0) && is_word(v[k]@.1)
}

proof fn lemma_other_attrs(a: Node, b: Node)
    requires
        node_ok(a@),
        b.tag == a.tag,
        b.dom_id == a.dom_id,
        b.classes == a.classes,
        attrs_words(b.attrs@),
    ensures
        node_ok(b@),
{
    assert(b@.classes == a@.classes);
    assert forall|k: int| 0 <= k < b@.attrs.len() implies gen_word((#[trigger] b@.attrs[k]).0)
        && is_word(b@.attrs[k].1) by {
        assert(b@.attrs[k] == b.attrs@[k]@);
    }
}

proof fn lemma_attrs_words_of(n: Node)
    requires
        node_ok(n@),
    ensures
        attrs_words(n.attrs@),
{
    assert forall|k: int| 0 <= k < n.attrs@.len() implies gen_word((#[trigger] n.attrs@[k])@.0)
        && is_word(n.attrs@[k]@.1) by {
        assert(n@.attrs[k] == n.attrs@[k]@);
    }
}

/// Whether the string is the literal.
fn is_named(name: &String, lit: &str) -> (b: bool)
    ensures
        b == (name@ == lit@),
{
    let cs = chars_of(name.as_str());
    eq_str(cs.as_slice(), lit)
}

/// The edits of one node's attributes keep the state's shape and touch nothing else.
spec fn node_edited(a: Edit, b: Edit) -> bool {
    &&& edit_ok(b)
    &&& b.nodes@.len() == a.nodes@.len()
    &&& b.id_count == a.id_count
    &&& b.dead == a.dead
    &&& b.children == a.children
    &&& b.live == a.live
    &&& b.words == a.words
}

/// Drops the attributes named `name` from node `i`.
fn drop_attr(e: &mut Edit, i: usize, name: &String)
    requires
        edit_ok(*old(e)),
        i < old(e).nodes@.len(),
    ensures
        node_edited(*old(e), *final(e)),
        nodes_view(final(e).nodes@) == nodes_view(old(e).nodes@).update(
            i as int,
            NodeModel {
                attrs: attrs_dropping(nodes_view(old(e).nodes@)[i as int].attrs, name@),
                ..nodes_view(old(e).nodes@)[i as int]
            },
        ),
{
    let ghost before = e.nodes@;
    proof {
        assert(nodes_view(before)[i as int] == before[i as int]@);
        if e.words@ {
            lemma_attrs_words_of(before[i as int]);
        }
    }
    let kept = attrs_without(&e.nodes[i].attrs, name);
    proof {
        lemma_attrs_dropping(attrs_view(before[i as int].attrs@), name@);
        assert forall|k: int| 0 <= k < kept@.len() && e.words@ implies gen_word((#[trigger] kept@[k])@.0)
            && is_word(kept@[k]@.1) by {
            assert(attrs_view(kept@)[k] == kept@[k]@);
            let av = attrs_view(before[i as int].attrs@);
            assert(av.contains(kept@[k]@));
            let t = choose|t: int| 0 <= t < av.len() && av[t] == kept@[k]@;
            assert(av[t] == before[i as int].attrs@[t]@);
            assert(gen_word(before[i as int].attrs@[t]@.0));
        }
    }
    e.nodes[i].attrs = kept;
    proof {
        if e.words@ {
            lemma_other_attrs(before[i as int], e.nodes@[i as int]);
        }
        lemma_replace_node(before, i as int, e.nodes@[i as int]);
        assert(e.nodes@ == before.update(i as int, e.nodes@[i as int]));
    }
}

/// Gives node `i`'s first attribute named `name` the value `value`; with `add`, appends
/// the attribute when the node has none of that name.
fn put_attr(e: &mut Edit, i: usize, name: &String, value: &String, add: bool)
    requires
        edit_ok(*old(e)),
        i < old(e).nodes@.len(),
        old(e).words@ ==> gen_word(name@),
        is_word(value@),
    ensures
        node_edited(*old(e), *final(e)),
        nodes_view(final(e).nodes@) == nodes_view(old(e).nodes@).update(
            i as int,
            NodeModel {
                attrs: attrs_setting(nodes_view(old(e).nodes@)[i as int].attrs, name@, value@, add),
                ..nodes_view(old(e).nodes@)[i as int]
            },
        ),
{
    let ghost before = e.nodes@;
    proof {
        assert(nodes_view(before)[i as int] == before[i as int]@);
        if e.words@ {
            lemma_attrs_words_of(before[i as int]);
        }
    }
    let ghost av = attrs_view(before[i as int].attrs@);
    if !set_first_value(&mut e.nodes[i].attrs, name, value) && add {
        let ghost mid = attrs_view(e.nodes@[i as int].attrs@);
        e.nodes[i].attrs.push(Attr { name: name.clone(), value: value.clone() });
        proof {
            assert(attrs_view(e.nodes@[i as int].attrs@) =~= mid.push((name@, value@)));
        }
    }
    proof {
        let m = e.nodes@[i as int];
        assert(attrs_view(m.attrs@) == attrs_setting(av, name@, value@, add));
        assert forall|k: int| 0 <= k < m.attrs@.len() && e.words@ implies gen_word((#[trigger] m.attrs@[k])@.0)
            && is_word(m.attrs@[k]@.1) by {
            assert(attrs_view(m.attrs@)[k] == m.attrs@[k]@);
            match named_at(av, name@, 0) {
                Some(t) => {
                    lemma_named_at(av, name@, 0);
                    if k != t {
                        assert(av[k] == before[i as int].attrs@[k]@);
                    } else {
                        assert(av[k] == before[i as int].attrs@[k]@);
                    }
                },
                None => {
                    if k < av.len() {
                        assert(av[k] == before[i as int].attrs@[k]@);
                    }
                },
            }
        }
        if e.words@ {
            lemma_other_attrs(before[i as int], m);
        }
        lemma_replace_node(before, i as int, m);
        assert(e.nodes@ == before.update(i as int, m));
    }
}

proof fn lemma_named_at(attrs: Seq<(Seq<char>, Seq<char>)>, name: Seq<char>, k: int)
    ensures
        named_at(attrs, name, k) matches Some(t) ==> k <= t < attrs.len() && attrs[t].0 == name,
    decreases attrs.len() - k,
{
    if 0 <= k < attrs.len() && attrs[k].0 != name {
        lemma_named_at(attrs, name, k + 1);
    }
}

/// Drops or re-values, a coin flip each, every attribute of node `i` that `names` lists
/// (the `class` and `id` entries stand for no attribute); says whether any was touched.
fn revise_attrs(
    cfg: &Config,
    rng: &mut Random,
    e: &mut Edit,
    out: &mut Vec<Mut>,
    n0: usize,
    i: usize,
    names: &Vec<String>,
) -> (mutated: bool)
    requires
        edit_ok(*old(e)),
        1 <= i < old(e).nodes@.len(),
        words_held(*old(e), old(out)@),
        script_at(draft_of(old(rng)@, *old(e), old(out)@), n0 as int, 2),
        old(e).words@ ==> forall|j: int| 0 <= j < names@.len() ==> gen_word(#[trigger] names@[j]@),
    ensures
        node_edited(*old(e), *final(e)),
        words_held(*final(e), final(out)@),
        final(e).words == old(e).words,
        script_at(draft_of(final(rng)@, *final(e), final(out)@), n0 as int, 2),
        restyle_count(muts_view(final(out)@)) == restyle_count(muts_view(old(out)@)),
        (draft_of(final(rng)@, *final(e), final(out)@), mutated) == revise_from(
            *cfg,
            draft_of(old(rng)@, *old(e), old(out)@),
            i as int,
            strings_view(names@),
            0,
            false,
        ),
{
    let ghost r0 = restyle_count(muts_view(out@));
    let ghost nv = strings_view(names@);
    let ghost goal = revise_from(*cfg, draft_of(rng@, *e, out@), i as int, nv, 0, false);
    let mut mutated = false;
    let mut j: usize = 0;
    while j < names.len()
        invariant
            node_edited(*old(e), *e),
            1 <= i < e.nodes@.len(),
            words_held(*e, out@),
            e.words == old(e).words,
            script_at(draft_of(rng@, *e, out@), n0 as int, 2),
            restyle_count(muts_view(out@)) == r0,
            j <= names@.len(),
            nv == strings_view(names@),
            old(e).words@ ==> forall|j: int| 0 <= j < names@.len() ==> gen_word(#[trigger] names@[j]@),
            revise_from(*cfg, draft_of(rng@, *e, out@), i as int, nv, j as int, mutated) == goal,
        decreases names@.len() - j,
    {
        let ghost d = draft_of(rng@, *e, out@);
        let name = names[j].clone();
        proof {
            assert(nv[j as int] == name@);
        }
        j = j + 1;
        if is_named(&name, "class") || is_named(&name, "id") {
            continue;
        }
        let coin = rng.chance(500000);
        let ghost s1 = rng@;
        if coin {
            drop_attr(e, i, &name);
            let ghost nm = name@;
            emit(out, Mut::RemoveAttr { id: i as i32, name }, n0);
            proof {
                assert(draft_of(rng@, *e, out@) == emitted(
                    with_node(
                        Draft { rng: s1, ..d },
                        i as int,
                        NodeModel { attrs: attrs_dropping(d.nodes[i as int].attrs, nm), ..d.nodes[i as int] },
                    ),
                    MutModel::RemoveAttr { id: i as int, name: nm },
                ));
            }
        } else {
            let value = random_attribute_value(cfg, rng);
            put_attr(e, i, &name, &value, false);
            let ghost nm = name@;
            let ghost vv = value@;
            emit(out, Mut::SetAttr { id: i as i32, name, value }, n0);
            proof {
                assert(draft_of(rng@, *e, out@) == emitted(
                    with_node(
                        Draft { rng: rng@, ..d },
                        i as int,
                        NodeModel {
                            attrs: attrs_setting(d.nodes[i as int].attrs, nm, vv, false),
                            ..d.nodes[i as int]
                        },
                    ),
                    MutModel::SetAttr { id: i as int, name: nm, value: vv },
                ));
            }
        }
        mutated = true;
    }
    mutated
}

/// Sets between one and `element_maximum_attributes` random attributes on node `i`.
fn add_random_attrs(cfg: &Config, rng: &mut Random, e: &mut Edit, out: &mut Vec<Mut>, n0: usize, i: usize)
    requires
        edit_ok(*old(e)),
        1 <= i < old(e).nodes@.len(),
        words_held(*old(e), old(out)@),
        script_at(draft_of(old(rng)@, *old(e), old(out)@), n0 as int, 2),
    ensures
        node_edited(*old(e), *final(e)),
        words_held(*final(e), final(out)@),
        final(e).words == old(e).words,
        script_at(draft_of(final(rng)@, *final(e), final(out)@), n0 as int, 2),
        restyle_count(muts_view(final(out)@)) == restyle_count(muts_view(old(out)@)),
        draft_of(final(rng)@, *final(e), final(out)@) == ({
            let (t, c) = number_draw(old(rng)@, cfg.element_maximum_attributes as int);
            add_random_from(*cfg, draft_of(t, *old(e), old(out)@), i as int, 0, c + 1)
        }),
{
    let ghost r0 = restyle_count(muts_view(out@));
    let count = rng.number(cfg.element_maximum_attributes) + 1;
    let ghost goal = add_random_from(*cfg, draft_of(rng@, *e, out@), i as int, 0, count as int);
    let mut c: i32 = 0;
    while c < count
        invariant
            node_edited(*old(e), *e),
            1 <= i < e.nodes@.len(),
            words_held(*e, out@),
            e.words == old(e).words,
            script_at(draft_of(rng@, *e, out@), n0 as int, 2),
            restyle_count(muts_view(out@)) == r0,
            0 <= c <= count,
            add_random_from(*cfg, draft_of(rng@, *e, out@), i as int, c as int, count as int) == goal,
        decreases count - c,
    {
        let ghost d = draft_of(rng@, *e, out@);
        let name = random_attribute_name(cfg, rng);
        let value = random_attribute_value(cfg, rng);
        put_attr(e, i, &name, &value, true);
        let ghost nm = name@;
        let ghost vv = value@;
        emit(out, Mut::SetAttr { id: i as i32, name, value }, n0);
        proof {
            assert(draft_of(rng@, *e, out@) == emitted(
                with_node(
                    Draft { rng: rng@, ..d },
                    i as int,
                    NodeModel { attrs: attrs_setting(d.nodes[i as int].attrs, nm, vv, true), ..d.nodes[i as int] },
                ),
                MutModel::SetAttr { id: i as int, name: nm, value: vv },
            ));
        }
        c = c + 1;
    }
}

/// The names whose attributes the third batch may touch on node `i`: `class` when it has
/// classes, each attribute's name, `id` when it has an id.
fn attr_names(e: &Edit, i: usize) -> (names: Vec<String>)
    requires
        edit_ok(*e),
        i < e.nodes@.len(),
    ensures
        e.words@ ==> forall|j: int| 0 <= j < names@.len() ==> gen_word(#[trigger] names@[j]@),
        strings_view(names@) == attr_names_of(nodes_view(e.nodes@)[i as int]),
{
    let ghost node = nodes_view(e.nodes@)[i as int];
    proof {
        lemma_name_literals();
        reveal_strlit("class");
        reveal_strlit("id");
        assert(node == e.nodes@[i as int]@);
        if e.words@ {
            lemma_attrs_words_of(e.nodes@[i as int]);
        }
    }
    let mut names: Vec<String> = Vec::new();
    if e.nodes[i].classes.len() > 0 {
        names.push(String::from_str("class"));
    }
    let ghost first = strings_view(names@);
    proof {
        assert(first =~= if node.classes.len() > 0 {
            seq!["class"@]
        } else {
            Seq::<Seq<char>>::empty()
        });
    }
    let mut k: usize = 0;
    while k < e.nodes[i].attrs.len()
        invariant
            i < e.nodes@.len(),
            node == e.nodes@[i as int]@,
            k <= e.nodes@[i as int].attrs@.len(),
            e.words@ ==> attrs_words(e.nodes@[i as int].attrs@),
            is_word("class"@) && "class"@.len() == 5,
            e.words@ ==> forall|j: int| 0 <= j < names@.len() ==> gen_word(#[trigger] names@[j]@),
            strings_view(names@) == first + Seq::new(k as nat, |t: int| node.attrs[t].0),
        decreases e.nodes@[i as int].attrs@.len() - k,
    {
        let ghost before = strings_view(names@);
        let nm = e.nodes[i].attrs[k].name.clone();
        let ghost nmv = nm@;
        names.push(nm);
        proof {
            assert(node.attrs[k as int] == e.nodes@[i as int].attrs@[k as int]@);
            assert(nmv == node.attrs[k as int].0);
            assert(strings_view(names@) =~= before.push(nmv));
            assert(strings_view(names@) =~= first + Seq::new((k + 1) as nat, |t: int| node.attrs[t].0));
        }
        k = k + 1;
    }
    let ghost mid = strings_view(names@);
    if e.nodes[i].dom_id.is_some() {
        names.push(String::from_str("id"));
        proof {
            assert(strings_view(names@) =~= mid.push("id"@));
        }
    }
    proof {
        assert(Seq::new(k as nat, |t: int| node.attrs[t].0) =~= Seq::new(node.attrs.len(), |t: int| node.attrs[t].0));
        assert(strings_view(names@) =~= attr_names_of(node));
    }
    names
}

/// The third batch: on `mutations_per_step` drawn nodes (the leaf rule as before), drop
/// or re-value each attribute, a coin flip each; a node with no attribute to touch gets
/// between one and `element_maximum_attributes` random ones instead.
fn mutate_attributes(cfg: &Config, rng: &mut Random, e: &mut Edit, out: &mut Vec<Mut>, n0: usize)
    requires
        edit_ok(*old(e)),
        words_held(*old(e), old(out)@),
        script_at(draft_of(old(rng)@, *old(e), old(out)@), n0 as int, 2),
    ensures
        node_edited(*old(e), *final(e)),
        words_held(*final(e), final(out)@),
        final(e).words == old(e).words,
        script_at(draft_of(final(rng)@, *final(e), final(out)@), n0 as int, 2),
        restyle_count(muts_view(final(out)@)) == restyle_count(muts_view(old(out)@)),
        draft_of(final(rng)@, *final(e), final(out)@) == attributes_from(
            *cfg,
            draft_of(old(rng)@, *old(e), old(out)@),
            0,
            u64::MAX as int,
        ),
{
    let ghost r0 = restyle_count(muts_view(out@));
    let ghost goal = attributes_from(*cfg, draft_of(rng@, *e, out@), 0, u64::MAX as int);
    let mut n: i32 = 0;
    let mut budget: u64 = u64::MAX;
    proof {
        if !(n < cfg.mutations_per_step) {
            assert(goal == draft_of(rng@, *e, out@)) by {
                reveal(attributes_from);
            }
        }
    }
    while n < cfg.mutations_per_step && budget > 0
        invariant
            node_edited(*old(e), *e),
            words_held(*e, out@),
            e.words == old(e).words,
            script_at(draft_of(rng@, *e, out@), n0 as int, 2),
            restyle_count(muts_view(out@)) == r0,
            attributes_from(*cfg, draft_of(rng@, *e, out@), n as int, budget as int) == goal,
            !(n < cfg.mutations_per_step && budget > 0) ==> goal == draft_of(rng@, *e, out@),
        ensures
            goal == draft_of(rng@, *e, out@),
        decreases budget,
    {
        let ghost d = draft_of(rng@, *e, out@);
        let i = match pick(rng, &e.live) {
            Some(i) => i,
            None => {
                proof {
                    assert(goal == d) by {
                        reveal(attributes_from);
                    }
                }
                break ;
            },
        };
        let ghost s1 = rng@;
        proof {
            lemma_picked(d, i);
        }
        budget = budget - 1;
        let has_kid = live_child(&e.children, &e.dead, i);
        let skip = !has_kid && !rng.chance(cfg.leaf_mutation_chance);
        let ghost s2 = rng@;
        proof {
            assert(leaf_skip(*cfg, s1, d, i as int) == (s2, skip));
        }
        if skip {
            proof {
                assert(attributes_from(*cfg, d, n as int, budget + 1) == attributes_from(
                    *cfg,
                    draft_of(rng@, *e, out@),
                    n as int,
                    budget as int,
                )) by {
                    reveal(attributes_from);
                }
                if !(n < cfg.mutations_per_step && budget > 0) {
                    assert(goal == draft_of(rng@, *e, out@)) by {
                        reveal(attributes_from);
                    }
                }
            }
            continue ;
        }
        let names = attr_names(e, i);
        let mutated = revise_attrs(cfg, rng, e, out, n0, i, &names);
        let ghost d2 = draft_of(rng@, *e, out@);
        if !mutated {
            add_random_attrs(cfg, rng, e, out, n0, i);
        }
        proof {
            assert(attributes_from(*cfg, d, n as int, budget + 1) == attributes_from(
                *cfg,
                draft_of(rng@, *e, out@),
                n + 1,
                budget as int,
            )) by {
                reveal(attributes_from);
            }
        }
        n = n + 1;
        proof {
            if !(n < cfg.mutations_per_step && budget > 0) {
                assert(goal == draft_of(rng@, *e, out@)) by {
                    reveal(attributes_from);
                }
            }
        }
    }
}

/// Hangs the new node `id` below `p`, before the live child at position `at` among the
/// live children, or after them all when there are not that many.
fn hang_leaf(e: &mut Edit, p: usize, id: usize, at: i32)
    requires
        old(e).children@.len() == old(e).dead@.len(),
        children_ok(lists_view(old(e).children@)),
        p < id,
        id + 1 == old(e).children@.len(),
        at >= 0,
        old(e).children@[p as int]@.len() <= id,
    ensures
        final(e).nodes == old(e).nodes,
        final(e).dead == old(e).dead,
        final(e).live == old(e).live,
        final(e).id_count == old(e).id_count,
        final(e).words == old(e).words,
        lists_view(final(e).children@) == lists_view(old(e).children@).update(
            p as int,
            hung(old(e).children@[p as int]@, old(e).dead@, id, at as int),
        ),
        children_ok(lists_view(final(e).children@)),
        final(e).children@[p as int]@.len() == old(e).children@[p as int]@.len() + 1,
{
    let ghost before = e.children@;
    let ghost lb = lists_view(before);
    proof {
        assert(lb[p as int] == before[p as int]@);
        assert forall|k: int| 0 <= k < e.children@[p as int]@.len() implies #[trigger] e.children@[p as int]@[k]
            < e.dead@.len() by {
            assert(p < lb[p as int][k]);
        }
    }
    let live_kids = live_entries(&e.children[p], &e.dead);
    let insert_at = at as usize;
    let ghost mut j: int = before[p as int]@.len() as int;
    if insert_at >= live_kids.len() {
        e.children[p].push(id);
        proof {
            assert(e.children@[p as int]@ =~= before[p as int]@.insert(j, id));
        }
    } else {
        let first = live_kids[insert_at];
        proof {
            lemma_live_of(before[p as int]@, e.dead@);
            assert(before[p as int]@.contains(live_kids@[insert_at as int]));
        }
        let pos = position_of(&e.children[p], first).unwrap();
        e.children[p].insert(pos, id);
        proof {
            j = pos as int;
        }
    }
    proof {
        let kids = e.children@[p as int]@;
        let b = before[p as int]@;
        assert(0 <= j <= b.len() && kids == b.insert(j, id));
        assert(kids == hung(before[p as int]@, e.dead@, id, at as int));
        assert(lists_view(e.children@) =~= lb.update(p as int, kids));
        let ch = lists_view(e.children@);
        assert forall|q: int, k: int| 0 <= q < ch.len() && 0 <= k < ch[q].len() implies q < #[trigger] ch[q][k]
            < ch.len() by {
            if q != p {
                assert(ch[q] == lb[q]);
            } else if kids[k] != id {
                let t: int = if k < j {
                    k
                } else {
                    k - 1
                };
                assert(b[t] == kids[k]);
                assert(p < lb[p as int][t]);
            }
        }
    }
}

/// The fourth batch: on `mutations_per_step` drawn nodes that have a live child, add a
/// random element as a new leaf at a drawn place among the live children.
#[verifier::rlimit(60)]
fn add_leaves(cfg: &Config, rng: &mut Random, e: &mut Edit, out: &mut Vec<Mut>, n0: usize)
    requires
        edit_ok(*old(e)),
        words_held(*old(e), old(out)@),
        script_at(draft_of(old(rng)@, *old(e), old(out)@), n0 as int, 3),
        old(e).nodes@.len() + cfg.mutations_per_step < i32::MAX,
        0 <= old(e).id_count,
        old(e).id_count + cfg.mutations_per_step <= i32::MAX,
    ensures
        edit_ok(*final(e)),
        old(e).nodes@.len() <= final(e).nodes@.len() <= old(e).nodes@.len() + if cfg.mutations_per_step
            > 0 {
            cfg.mutations_per_step as int
        } else {
            0
        },
        old(e).id_count <= final(e).id_count,
        final(e).id_count - old(e).id_count <= final(e).nodes@.len() - old(e).nodes@.len(),
        words_held(*final(e), final(out)@),
        final(e).words == old(e).words,
        script_at(draft_of(final(rng)@, *final(e), final(out)@), n0 as int, 3),
        restyle_count(muts_view(final(out)@)) == restyle_count(muts_view(old(out)@)),
        final(e).live == old(e).live,
        draft_of(final(rng)@, *final(e), final(out)@) == leaves_from(
            *cfg,
            draft_of(old(rng)@, *old(e), old(out)@),
            0,
            u64::MAX as int,
        ),
{
    let ghost r0 = restyle_count(muts_view(out@));
    let ghost len0 = e.nodes@.len();
    let ghost id0 = e.id_count;
    let ghost goal = leaves_from(*cfg, draft_of(rng@, *e, out@), 0, u64::MAX as int);
    let mut n: i32 = 0;
    let mut budget: u64 = u64::MAX;
    proof {
        if !(n < cfg.mutations_per_step) {
            assert(goal == draft_of(rng@, *e, out@)) by {
                reveal(leaves_from);
            }
        }
    }
    while n < cfg.mutations_per_step && budget > 0
        invariant
            edit_ok(*e),
            0 <= n,
            n <= cfg.mutations_per_step || n == 0,
            e.nodes@.len() == len0 + n,
            len0 + cfg.mutations_per_step < i32::MAX,
            id0 <= e.id_count <= id0 + n,
            id0 + cfg.mutations_per_step <= i32::MAX,
            0 <= id0,
            e.live == old(e).live,
            walk_entries_ok(e.live@, 0, len0 as int),
            words_held(*e, out@),
            e.words == old(e).words,
            script_at(draft_of(rng@, *e, out@), n0 as int, 3),
            restyle_count(muts_view(out@)) == r0,
            leaves_from(*cfg, draft_of(rng@, *e, out@), n as int, budget as int) == goal,
            !(n < cfg.mutations_per_step && budget > 0) ==> goal == draft_of(rng@, *e, out@),
        ensures
            goal == draft_of(rng@, *e, out@),
        decreases budget,
    {
        let ghost d = draft_of(rng@, *e, out@);
        let p = match pick(rng, &e.live) {
            Some(p) => p,
            None => {
                proof {
                    assert(goal == d) by {
                        reveal(leaves_from);
                    }
                }
                break ;
            },
        };
        let ghost s1 = rng@;
        proof {
            let k = choose|k: int| 0 <= k < e.live@.len() && e.live@[k] == p;
            assert(1 <= e.live@[k] < len0);
            assert(d.children[p as int] == e.children@[p as int]@);
            assert forall|k: int| 0 <= k < e.children@[p as int]@.len() implies #[trigger] e.children@[p as int]@[k]
                < e.dead@.len() by {
                assert(p < d.children[p as int][k]);
            }
        }
        budget = budget - 1;
        if !live_child(&e.children, &e.dead, p) {
            proof {
                assert(leaves_from(*cfg, d, n as int, budget + 1) == leaves_from(
                    *cfg,
                    draft_of(rng@, *e, out@),
                    n as int,
                    budget as int,
                )) by {
                    reveal(leaves_from);
                }
                if !(n < cfg.mutations_per_step && budget > 0) {
                    assert(goal == draft_of(rng@, *e, out@)) by {
                        reveal(leaves_from);
                    }
                }
            }
            continue ;
        }
        let count = live_entries(&e.children[p], &e.dead).len();
        proof {
            lemma_live_of(e.children@[p as int]@, e.dead@);
        }
        let at = rng.number(count as i32 + 1);
        let ghost s2 = rng@;
        let mut el = make_element(cfg, rng, &mut e.id_count);
        let ghost el0 = el;
        el.parent = p as i32;
        proof {
            assert(el@.classes == el0@.classes && el@.attrs == el0@.attrs && el@.tag == el0@.tag
                && el@.dom_id == el0@.dom_id);
            assert(node_ok(el@));
            assert(el@ == NodeModel { parent: p as int, ..el0@ });
        }
        let id = e.nodes.len();
        let ghost before = *e;
        e.nodes.push(copy_node(&el));
        e.dead.push(false);
        e.children.push(Vec::new());
        proof {
            let lv = lists_view(e.children@);
            let lb = lists_view(before.children@);
            assert(lv =~= lb.push(Seq::<usize>::empty()));
            assert(children_ok(lv)) by {
                assert forall|q: int, k: int| 0 <= q < lv.len() && 0 <= k < lv[q].len() implies q < #[trigger] lv[q][k]
                    < lv.len() by {
                    assert(q < lb.len());
                    assert(lv[q] == lb[q]);
                }
            }
            assert(e.children@[p as int] == before.children@[p as int]);
        }
        let ghost mid = lists_view(e.children@);
        hang_leaf(e, p, id, at);
        proof {
            let a = nodes_view(before.nodes@);
            let b = nodes_view(e.nodes@);
            assert(b =~= a.push(el@));
            assert(parents_of(b) =~= parents_of(a).push(p as int));
            assert forall|k: int| 0 <= k < b.len() && e.words@ implies node_ok(#[trigger] b[k]) by {
                if k < a.len() {
                    assert(b[k] == a[k]);
                }
            }
            assert forall|q: int| 0 <= q < e.nodes@.len() implies (#[trigger] lists_view(e.children@)[q]).len()
                <= e.nodes@.len() by {
                if q < before.nodes@.len() && q != p {
                    assert(lists_view(e.children@)[q] == lists_view(before.children@)[q]);
                } else if q == p {
                    assert(lists_view(before.children@)[q].len() <= before.nodes@.len());
                    assert(mid[q] == lists_view(before.children@)[q]);
                    assert(mid.len() == e.nodes@.len());
                    assert(lists_view(e.children@).len() == e.children@.len());
                    assert(lists_view(e.children@)[q] == e.children@[q]@);
                } else {
                    assert(q == id);
                    assert(lists_view(e.children@)[q] == mid[q]);
                    assert(mid[q].len() == 0);
                }
            }
            assert(e.dead@ == d.dead.push(false));
            assert(lists_view(e.children@) =~= d.children.update(
                p as int,
                hung(d.children[p as int], d.dead.push(false), id, at as int),
            ).push(Seq::empty()));
        }
        let ghost el_m = el@;
        emit(
            out,
            Mut::AddLeaf {
                id: id as i32,
                parent: p as i32,
                at,
                tag: el.tag,
                dom_id: el.dom_id,
                classes: el.classes,
                attrs: el.attrs,
            },
            n0,
        );
        proof {
            assert(draft_of(rng@, *e, out@) == Draft {
                rng: rng@,
                nodes: d.nodes.push(NodeModel { parent: p as int, ..el0@ }),
                dead: d.dead.push(false),
                children: d.children.update(
                    p as int,
                    hung(d.children[p as int], d.dead.push(false), id, at as int),
                ).push(Seq::empty()),
                live: d.live,
                id_count: e.id_count as int,
                out: d.out.push(
                    MutModel::AddLeaf {
                        id: id as int,
                        parent: p as int,
                        at: at as int,
                        tag: el0@.tag,
                        dom_id: el0@.dom_id,
                        classes: el0@.classes,
                        attrs: el0@.attrs,
                    },
                ),
            });
            assert(leaves_from(*cfg, d, n as int, budget + 1) == leaves_from(
                *cfg,
                draft_of(rng@, *e, out@),
                n + 1,
                budget as int,
            )) by {
                reveal(leaves_from);
            }
        }
        n = n + 1;
        proof {
            if !(n < cfg.mutations_per_step && budget > 0) {
                assert(goal == draft_of(rng@, *e, out@)) by {
                    reveal(leaves_from);
                }
            }
        }
    }
}

/// The fifth batch: remove `mutations_per_step` drawn nodes that have no live child. The
/// drawing list is the one from before the batch, so a node removed in this batch can be
/// drawn and removed again.
fn remove_leaves(cfg: &Config, rng: &mut Random, e: &mut Edit, out: &mut Vec<Mut>, n0: usize)
    requires
        edit_ok(*old(e)),
        words_held(*old(e), old(out)@),
        script_at(draft_of(old(rng)@, *old(e), old(out)@), n0 as int, 4),
    ensures
        edit_ok(*final(e)),
        final(e).nodes == old(e).nodes,
        final(e).id_count == old(e).id_count,
        final(e).live == old(e).live,
        words_held(*final(e), final(out)@),
        final(e).words == old(e).words,
        script_at(draft_of(final(rng)@, *final(e), final(out)@), n0 as int, 4),
        restyle_count(muts_view(final(out)@)) == restyle_count(muts_view(old(out)@)),
        draft_of(final(rng)@, *final(e), final(out)@) == remove_leaves_from(
            *cfg,
            draft_of(old(rng)@, *old(e), old(out)@),
            0,
            u64::MAX as int,
        ),
{
    let ghost r0 = restyle_count(muts_view(out@));
    let ghost goal = remove_leaves_from(*cfg, draft_of(rng@, *e, out@), 0, u64::MAX as int);
    let mut n: i32 = 0;
    let mut budget: u64 = u64::MAX;
    proof {
        if !(n < cfg.mutations_per_step) {
            assert(goal == draft_of(rng@, *e, out@)) by {
                reveal(remove_leaves_from);
            }
        }
    }
    while n < cfg.mutations_per_step && budget > 0
        invariant
            edit_ok(*e),
            e.nodes == old(e).nodes,
            e.id_count == old(e).id_count,
            e.live == old(e).live,
            words_held(*e, out@),
            e.words == old(e).words,
            script_at(draft_of(rng@, *e, out@), n0 as int, 4),
            restyle_count(muts_view(out@)) == r0,
            remove_leaves_from(*cfg, draft_of(rng@, *e, out@), n as int, budget as int) == goal,
            !(n < cfg.mutations_per_step && budget > 0) ==> goal == draft_of(rng@, *e, out@),
        ensures
            goal == draft_of(rng@, *e, out@),
        decreases budget,
    {
        let ghost d = draft_of(rng@, *e, out@);
        let i = match pick(rng, &e.live) {
            Some(i) => i,
            None => {
                proof {
                    assert(goal == d) by {
                        reveal(remove_leaves_from);
                    }
                }
                break ;
            },
        };
        proof {
            lemma_picked(d, i);
            assert(d.nodes[i as int] == e.nodes@[i as int]@);
            assert(parents_of(d.nodes)[i as int] == e.nodes@[i as int].parent);
        }
        budget = budget - 1;
        if live_child(&e.children, &e.dead, i) || e.nodes[i].parent < 0 {
            proof {
                assert(remove_leaves_from(*cfg, d, n as int, budget + 1) == remove_leaves_from(
                    *cfg,
                    draft_of(rng@, *e, out@),
                    n as int,
                    budget as int,
                )) by {
                    reveal(remove_leaves_from);
                }
                if !(n < cfg.mutations_per_step && budget > 0) {
                    assert(goal == draft_of(rng@, *e, out@)) by {
                        reveal(remove_leaves_from);
                    }
                }
            }
            continue ;
        }
        let p = e.nodes[i].parent as usize;
        let ghost before = e.children@;
        let ghost lb = lists_view(before);
        let kept = without(&e.children[p], i);
        e.children[p] = kept;
        e.dead[i] = true;
        proof {
            assert(lb[p as int] == before[p as int]@);
            lemma_without_entry(before[p as int]@, i);
            let ch = lists_view(e.children@);
            assert(ch =~= lb.update(p as int, without_entry(lb[p as int], i)));
            assert forall|q: int, k: int| 0 <= q < ch.len() && 0 <= k < ch[q].len() implies q < #[trigger] ch[q][k]
                < ch.len() by {
                if q != p {
                    assert(ch[q] == lb[q]);
                } else {
                    assert(lb[p as int].contains(ch[q][k]));
                    let t = choose|t: int| 0 <= t < lb[p as int].len() && lb[p as int][t] == ch[q][k];
                    assert(p < lb[p as int][t]);
                }
            }
            assert forall|q: int| 0 <= q < e.nodes@.len() implies (#[trigger] ch[q]).len() <= e.nodes@.len() by {
                if q != p {
                    assert(ch[q] == lb[q]);
                }
            }
        }
        emit(out, Mut::RemoveLeaf { id: i as i32 }, n0);
        proof {
            assert(draft_of(rng@, *e, out@) == emitted(
                Draft {
                    rng: rng@,
                    children: d.children.update(
                        d.nodes[i as int].parent,
                        without_entry(d.children[d.nodes[i as int].parent], i),
                    ),
                    dead: d.dead.update(i as int, true),
                    ..d
                },
                MutModel::RemoveLeaf { id: i as int },
            ));
            assert(remove_leaves_from(*cfg, d, n as int, budget + 1) == remove_leaves_from(
                *cfg,
                draft_of(rng@, *e, out@),
                n + 1,
                budget as int,
            )) by {
                reveal(remove_leaves_from);
            }
        }
        n = n + 1;
        proof {
            if !(n < cfg.mutations_per_step && budget > 0) {
                assert(goal == draft_of(rng@, *e, out@)) by {
                    reveal(remove_leaves_from);
                }
            }
        }
    }
}

/// Every `id<n>` number is below `i32::MAX` when the greatest one is.
proof fn lemma_ids_below_max(ns: Seq<NodeModel>)
    requires
        max_id_number(ns) < i32::MAX,
    ensures
        ids_below(ns, i32::MAX as int),
{
    assert forall|i: int| 0 <= i < ns.len() implies (#[trigger] id_number(ns[i].dom_id) matches Some(
        v,
    ) ==> v < i32::MAX) by {
        lemma_max_id_ge(ns, i);
    }
}

/// The number of steps times the edits per batch, negatives counting as none.
pub open spec fn edit_budget(cfg: Config) -> int {
    let steps = if cfg.step_count > 0 {
        cfg.step_count as int
    } else {
        0
    };
    let per = if cfg.mutations_per_step > 0 {
        cfg.mutations_per_step as int
    } else {
        0
    };
    steps * per
}

/// StyleBench's mutation steps on the tree `initial`: per step, a batch of class
/// additions, of class removals, of attribute edits, of leaf additions and of leaf
/// removals, each closed by a restyle. Nodes are drawn from the live nodes in tree
/// order, as computed before the batch (after the leaf batches, afresh).
pub fn generate_mutations(cfg: &Config, rng: &mut Random, initial: &[Node]) -> (out: Vec<Mut>)
    requires
        parents_wf(parents_of(nodes_view(initial@))),
        initial@.len() >= 1,
        initial@.len() + edit_budget(*cfg) < i32::MAX,
        max_id_number(nodes_view(initial@)) + 1 + edit_budget(*cfg) <= i32::MAX,
    ensures
        muts_view(out@) == mutations_draw(*cfg, old(rng)@, nodes_view(initial@)).out,
        final(rng)@ == mutations_draw(*cfg, old(rng)@, nodes_view(initial@)).rng,
        script_ok(initial@.len() as int, muts_view(out@)),
        words_ok(nodes_view(initial@)) ==> names_words(muts_view(out@)),
        restyle_count(muts_view(out@)) == 5 * if cfg.step_count > 0 {
            cfg.step_count as int
        } else {
            0
        },
        initial@.len() <= script_count(initial@.len() as int, muts_view(out@)) <= initial@.len()
            + edit_budget(*cfg),
{
    let ghost n0 = initial@.len() as int;
    let ghost s0 = rng@;
    let ghost per: int = if cfg.mutations_per_step > 0 {
        cfg.mutations_per_step as int
    } else {
        0
    };
    let mut nodes: Vec<Node> = Vec::new();
    let mut dead: Vec<bool> = Vec::new();
    let mut k: usize = 0;
    while k < initial.len()
        invariant
            k <= initial@.len(),
            nodes@.len() == k,
            dead@.len() == k,
            forall|j: int| 0 <= j < k ==> #[trigger] nodes@[j]@ == initial@[j]@,
            forall|j: int| 0 <= j < k ==> !(#[trigger] dead@[j]),
        decreases initial@.len() - k,
    {
        nodes.push(copy_node(&initial[k]));
        dead.push(false);
        k = k + 1;
    }
    proof {
        assert(nodes_view(nodes@) =~= nodes_view(initial@));
        lemma_ids_below_max(nodes_view(nodes@));
    }
    let children = build_children(&nodes);
    let id_count = next_dom_id_count(nodes.as_slice());
    proof {
        lemma_forward_acyclic(lists_view(children@));
    }
    let live = tree_order(&children, &dead);
    let n0_exec = initial.len();
    let mut e = Edit { nodes, dead, children, live, id_count, words: Ghost(words_ok(nodes_view(initial@))) };
    let mut out: Vec<Mut> = Vec::new();
    let ghost start = script_start(nodes_view(initial@), s0);
    proof {
        assert(muts_view(out@) =~= Seq::<MutModel>::empty());
        assert(e.dead@ =~= Seq::new(nodes_view(initial@).len(), |i: int| false));
        assert(draft_of(rng@, e, out@) == start);
    }
    let ghost id0 = e.id_count as int;
    let mut s: i32 = 0;
    while s < cfg.step_count
        invariant
            edit_ok(e),
            words_held(e, out@),
            e.words@ == words_ok(nodes_view(initial@)),
            0 <= s,
            s <= cfg.step_count || s == 0,
            n0 == n0_exec,
            n0 <= e.nodes@.len() <= n0 + s * per,
            0 <= id0 <= e.id_count,
            e.id_count - id0 <= e.nodes@.len() - n0,
            n0 + edit_budget(*cfg) < i32::MAX,
            id0 + edit_budget(*cfg) <= i32::MAX,
            per == (if cfg.mutations_per_step > 0 {
                cfg.mutations_per_step as int
            } else {
                0
            }),
            script_at(draft_of(rng@, e, out@), n0, 0),
            restyle_count(muts_view(out@)) == 5 * s,
            draft_of(rng@, e, out@) == steps_draw(*cfg, start, s as int),
        decreases cfg.step_count - s,
    {
        proof {
            assert(s * per + per <= edit_budget(*cfg)) by (nonlinear_arith)
                requires
                    0 <= s < cfg.step_count,
                    per >= 0,
                    edit_budget(*cfg) == cfg.step_count * per,
            ;
        }
        let ghost d = draft_of(rng@, e, out@);
        add_classes(cfg, rng, &mut e, &mut out, n0_exec);
        emit(&mut out, Mut::Restyle, n0_exec);
        let ghost d1 = draft_of(rng@, e, out@);
        remove_classes(cfg, rng, &mut e, &mut out, n0_exec);
        emit(&mut out, Mut::Restyle, n0_exec);
        let ghost d2 = draft_of(rng@, e, out@);
        mutate_attributes(cfg, rng, &mut e, &mut out, n0_exec);
        emit(&mut out, Mut::Restyle, n0_exec);
        let ghost d3 = draft_of(rng@, e, out@);
        add_leaves(cfg, rng, &mut e, &mut out, n0_exec);
        let ghost d4a = draft_of(rng@, e, out@);
        proof {
            lemma_forward_acyclic(lists_view(e.children@));
        }
        e.live = tree_order(&e.children, &e.dead);
        proof {
            assert(draft_of(rng@, e, out@) == relived(d4a));
        }
        emit(&mut out, Mut::Restyle, n0_exec);
        let ghost d4 = draft_of(rng@, e, out@);
        remove_leaves(cfg, rng, &mut e, &mut out, n0_exec);
        let ghost d5a = draft_of(rng@, e, out@);
        proof {
            lemma_forward_acyclic(lists_view(e.children@));
        }
        e.live = tree_order(&e.children, &e.dead);
        proof {
            assert(draft_of(rng@, e, out@) == relived(d5a));
        }
        emit(&mut out, Mut::Restyle, n0_exec);
        proof {
            assert(d1 == emitted(add_classes_from(*cfg, d, 0, u64::MAX as int), MutModel::Restyle));
            assert(d2 == emitted(remove_classes_from(*cfg, d1, 0, u64::MAX as int), MutModel::Restyle));
            assert(d3 == emitted(attributes_from(*cfg, d2, 0, u64::MAX as int), MutModel::Restyle));
            assert(d4 == emitted(relived(leaves_from(*cfg, d3, 0, u64::MAX as int)), MutModel::Restyle));
            assert(draft_of(rng@, e, out@) == step_draw(*cfg, d));
            assert((s + 1) * per == s * per + per) by (nonlinear_arith);
        }
        s = s + 1;
    }
    proof {
        assert(cfg.step_count <= 0 ==> s == 0);
        assert(draft_of(rng@, e, out@) == mutations_draw(*cfg, s0, nodes_view(initial@))) by {
            if cfg.step_count <= 0 {
                assert(steps_draw(*cfg, start, cfg.step_count as int) == start);
            }
        }
    }
    out
}

} // verus!
