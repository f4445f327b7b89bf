//! The workload's data: configuration, tree nodes, mutations and the fixture.
use vstd::prelude::*;
use vstd::string::*;

verus! {

/// The knobs of a StyleBench workload. Probabilities are in parts per million.
#[derive(Clone, Debug)]
pub struct Config {
    pub name: String,
    pub element_type_count: i32,
    pub id_chance: i32,
    pub element_chance: i32,
    pub class_count: i32,
    pub class_chance: i32,
    pub star_chance: i32,
    pub attribute_chance: i32,
    pub attribute_count: i32,
    pub attribute_value_count: i32,
    pub attribute_operators: Vec<String>,
    pub element_class_chance: i32,
    pub element_maximum_classes: i32,
    pub element_attribute_chance: i32,
    pub element_maximum_attributes: i32,
    pub combinators: Vec<String>,
    pub pseudo_classes: Vec<String>,
    pub pseudo_class_chance: i32,
    pub maximum_selector_length: i32,
    pub rule_count: i32,
    pub element_count: i32,
    pub maximum_tree_depth: i32,
    pub maximum_tree_width: i32,
    pub repeating_sequence_chance: i32,
    pub repeating_sequence_maximum_length: i32,
    pub style_seed: i32,
    pub dom_seed: i32,
    pub leaf_mutation_chance: i32,
    pub step_count: i32,
    pub mutations_per_step: i32,
}

/// The characters of each string of a list.
pub open spec fn strings_view(v: Seq<String>) -> Seq<Seq<char>> {
    Seq::new(v.len(), |i: int| v[i]@)
}

/// An attribute of a tree node.
#[derive(Clone, Debug)]
pub struct Attr {
    pub name: String,
    pub value: String,
}

impl View for Attr {
    type V = (Seq<char>, Seq<char>);

    open spec fn view(&self) -> (Seq<char>, Seq<char>) {
        (self.name@, self.value@)
    }
}

/// The name and value of each attribute of a list.
pub open spec fn attrs_view(v: Seq<Attr>) -> Seq<(Seq<char>, Seq<char>)> {
    Seq::new(v.len(), |i: int| v[i]@)
}

/// The characters of an optional string.
pub open spec fn opt_view(o: Option<String>) -> Option<Seq<char>> {
    match o {
        Some(s) => Some(s@),
        None => None,
    }
}

/// A tree node: its parent's index (`-1` for the root), tag, id, classes, attributes.
#[derive(Clone, Debug)]
pub struct Node {
    pub parent: i32,
    pub tag: String,
    pub dom_id: Option<String>,
    pub classes: Vec<String>,
    pub attrs: Vec<Attr>,
}

/// What a tree node holds, as plain values.
pub struct NodeModel {
    pub parent: int,
    pub tag: Seq<char>,
    pub dom_id: Option<Seq<char>>,
    pub classes: Seq<Seq<char>>,
    pub attrs: Seq<(Seq<char>, Seq<char>)>,
}

impl View for Node {
    type V = NodeModel;

    open spec fn view(&self) -> NodeModel {
        NodeModel {
            parent: self.parent as int,
            tag: self.tag@,
            dom_id: opt_view(self.dom_id),
            classes: strings_view(self.classes@),
            attrs: attrs_view(self.attrs@),
        }
    }
}

/// The models of each node of a list.
pub open spec fn nodes_view(v: Seq<Node>) -> Seq<NodeModel> {
    Seq::new(v.len(), |i: int| v[i]@)
}

/// One DOM edit of the mutation script, or the restyle that closes a batch.
#[derive(Clone, Debug)]
pub enum Mut {
    AddClass { id: i32, class: String },
    RemoveClass { id: i32 },
    SetAttr { id: i32, name: String, value: String },
    RemoveAttr { id: i32, name: String },
    AddLeaf {
        id: i32,
        parent: i32,
        at: i32,
        tag: String,
        dom_id: Option<String>,
        classes: Vec<String>,
        attrs: Vec<Attr>,
    },
    RemoveLeaf { id: i32 },
    Restyle,
}

/// What a mutation holds, as plain values.
pub enum MutModel {
    AddClass { id: int, class: Seq<char> },
    RemoveClass { id: int },
    SetAttr { id: int, name: Seq<char>, value: Seq<char> },
    RemoveAttr { id: int, name: Seq<char> },
    AddLeaf {
        id: int,
        parent: int,
        at: int,
        tag: Seq<char>,
        dom_id: Option<Seq<char>>,
        classes: Seq<Seq<char>>,
        attrs: Seq<(Seq<char>, Seq<char>)>,
    },
    RemoveLeaf { id: int },
    Restyle,
}

impl View for Mut {
    type V = MutModel;

    open spec fn view(&self) -> MutModel {
        match self {
            Mut::AddClass { id, class } => MutModel::AddClass { id: *id as int, class: class@ },
            Mut::RemoveClass { id } => MutModel::RemoveClass { id: *id as int },
            Mut::SetAttr { id, name, value } => MutModel::SetAttr {
                id: *id as int,
                name: name@,
                value: value@,
            },
            Mut::RemoveAttr { id, name } => MutModel::RemoveAttr { id: *id as int, name: name@ },
            Mut::AddLeaf { id, parent, at, tag, dom_id, classes, attrs } => MutModel::AddLeaf {
                id: *id as int,
                parent: *parent as int,
                at: *at as int,
                tag: tag@,
                dom_id: opt_view(*dom_id),
                classes: strings_view(classes@),
                attrs: attrs_view(attrs@),
            },
            Mut::RemoveLeaf { id } => MutModel::RemoveLeaf { id: *id as int },
            Mut::Restyle => MutModel::Restyle,
        }
    }
}

/// The models of each mutation of a list.
pub open spec fn muts_view(v: Seq<Mut>) -> Seq<MutModel> {
    Seq::new(v.len(), |i: int| v[i]@)
}

/// A generated (or parsed) workload: the sheets, the tree and the mutation script.
#[derive(Clone, Debug)]
pub struct Fixture {
    pub config: Config,
    pub base_css: String,
    pub css: String,
    pub nodes: Vec<Node>,
    pub mutations: Vec<Mut>,
}

/// The style sheet that every fixture carries before the generated rules.
pub const BASE_CSS: &'static str = "#testroot {\n  font-size: 10px;\n  line-height: 10px;\n}\n#testroot * {\n  display: inline-block;\n  height:10px;\n  min-width:10px;\n}\n";

/// A copy of a list of strings.
pub fn copy_strings(v: &Vec<String>) -> (r: Vec<String>)
    ensures
        strings_view(r@) == strings_view(v@),
{
    let mut out: Vec<String> = Vec::new();
    let mut i: usize = 0;
    while i < v.len()
        invariant
            i <= v.len(),
            out@.len() == i,
            forall|k: int| 0 <= k < i ==> #[trigger] out@[k]@ == v@[k]@,
        decreases v.len() - i,
    {
        out.push(v[i].clone());
        i = i + 1;
    }
    proof {
        assert(strings_view(out@) =~= strings_view(v@));
    }
    out
}

/// A copy of an attribute.
pub fn copy_attr(a: &Attr) -> (r: Attr)
    ensures
        r@ == a@,
{
    Attr { name: a.name.clone(), value: a.value.clone() }
}

/// A copy of a list of attributes.
pub fn copy_attrs(v: &Vec<Attr>) -> (r: Vec<Attr>)
    ensures
        attrs_view(r@) == attrs_view(v@),
{
    let mut out: Vec<Attr> = Vec::new();
    let mut i: usize = 0;
    while i < v.len()
        invariant
            i <= v.len(),
            out@.len() == i,
            forall|k: int| 0 <= k < i ==> #[trigger] out@[k]@ == v@[k]@,
        decreases v.len() - i,
    {
        out.push(copy_attr(&v[i]));
        i = i + 1;
    }
    proof {
        assert(attrs_view(out@) =~= attrs_view(v@));
    }
    out
}

/// A copy of an optional string.
pub fn copy_opt(o: &Option<String>) -> (r: Option<String>)
    ensures
        opt_view(r) == opt_view(*o),
{
    match o {
        Some(s) => Some(s.clone()),
        None => None,
    }
}

/// A copy of a tree node.
pub fn copy_node(n: &Node) -> (r: Node)
    ensures
        r@ == n@,
{
    Node {
        parent: n.parent,
        tag: n.tag.clone(),
        dom_id: copy_opt(&n.dom_id),
        classes: copy_strings(&n.classes),
        attrs: copy_attrs(&n.attrs),
    }
}

/// A list of strings from string slices.
fn strings_from(lits: Vec<&str>) -> (r: Vec<String>)
    ensures
        r@.len() == lits@.len(),
        forall|k: int| 0 <= k < lits@.len() ==> #[trigger] r@[k]@ == lits@[k]@,
{
    let mut out: Vec<String> = Vec::new();
    let mut i: usize = 0;
    while i < lits.len()
        invariant
            i <= lits.len(),
            out@.len() == i,
            forall|k: int| 0 <= k < i ==> #[trigger] out@[k]@ == lits@[k]@,
        decreases lits.len() - i,
    {
        out.push(String::from_str(lits[i]));
        i = i + 1;
    }
    out
}

/// The knobs that every preset shares with StyleBench's `defaultConfiguration`, all but
/// the name, the sizes and the selector mix.
pub open spec fn default_knobs(c: Config) -> bool {
    &&& c.id_chance == 50000
    &&& c.element_chance == 500000
    &&& c.class_chance == 300000
    &&& c.star_chance == 50000
    &&& c.attribute_chance == 20000
    &&& strings_view(c.attribute_operators@) == seq![Seq::<char>::empty(), seq!['=']]
    &&& c.element_class_chance == 500000
    &&& c.element_maximum_classes == 3
    &&& c.element_attribute_chance == 200000
    &&& c.element_maximum_attributes == 3
    &&& c.maximum_selector_length == 6
    &&& c.repeating_sequence_chance == 200000
    &&& c.repeating_sequence_maximum_length == 3
    &&& c.style_seed == 1
    &&& c.dom_seed == 2
    &&& c.leaf_mutation_chance == 100000
}

/// The default sizes: 20 000 elements, 5 000 rules, five mutation steps of 100.
pub open spec fn default_sizes(c: Config) -> bool {
    &&& c.element_type_count == 10
    &&& c.class_count == 200
    &&& c.attribute_count == 10
    &&& c.attribute_value_count == 20
    &&& c.rule_count == 5000
    &&& c.element_count == 20000
    &&& c.maximum_tree_depth == 6
    &&& c.maximum_tree_width == 50
    &&& c.step_count == 5
    &&& c.mutations_per_step == 100
}

/// The tiny sizes: 80 elements, 40 rules, one mutation step of 8.
pub open spec fn tiny_sizes(c: Config) -> bool {
    &&& c.element_type_count == 6
    &&& c.class_count == 20
    &&& c.attribute_count == 6
    &&& c.attribute_value_count == 8
    &&& c.rule_count == 40
    &&& c.element_count == 80
    &&& c.maximum_tree_depth == 4
    &&& c.maximum_tree_width == 8
    &&& c.step_count == 1
    &&& c.mutations_per_step == 8
}

/// Descendant and child combinators only, and no pseudo-classes.
pub open spec fn default_selectors(c: Config) -> bool {
    &&& strings_view(c.combinators@) == seq![seq![' '], seq!['>']]
    &&& c.pseudo_classes@.len() == 0
    &&& c.pseudo_class_chance == 0
}

/// StyleBench's sibling combinator mix.
pub open spec fn sibling_selectors(c: Config) -> bool {
    &&& strings_view(c.combinators@) == seq![
        seq![' '],
        seq![' '],
        seq!['>'],
        seq!['>'],
        seq!['~'],
        seq!['+'],
    ]
    &&& c.pseudo_classes@.len() == 0
    &&& c.pseudo_class_chance == 0
}

/// StyleBench's structural pseudo-class mix.
pub open spec fn structural_selectors(c: Config) -> bool {
    &&& strings_view(c.combinators@) == seq![seq![' '], seq!['>']]
    &&& strings_view(c.pseudo_classes@) == seq![
        "first-child"@,
        "last-child"@,
        "first-of-type"@,
        "last-of-type"@,
        "only-of-type"@,
        "empty"@,
    ]
    &&& c.pseudo_class_chance == 100000
}

fn structural_pseudos() -> (r: Vec<String>)
    ensures
        strings_view(r@) == seq![
            "first-child"@,
            "last-child"@,
            "first-of-type"@,
            "last-of-type"@,
            "only-of-type"@,
            "empty"@,
        ],
{
    let mut lits: Vec<&str> = Vec::new();
    lits.push("first-child");
    lits.push("last-child");
    lits.push("first-of-type");
    lits.push("last-of-type");
    lits.push("only-of-type");
    lits.push("empty");
    let r = strings_from(lits);
    proof {
        assert(strings_view(r@) =~= seq![
            "first-child"@,
            "last-child"@,
            "first-of-type"@,
            "last-of-type"@,
            "only-of-type"@,
            "empty"@,
        ]);
    }
    r
}

fn sibling_combinators() -> (r: Vec<String>)
    ensures
        strings_view(r@) == seq![
            seq![' '],
            seq![' '],
            seq!['>'],
            seq!['>'],
            seq!['~'],
            seq!['+'],
        ],
{
    let mut lits: Vec<&str> = Vec::new();
    lits.push(" ");
    lits.push(" ");
    lits.push(">");
    lits.push(">");
    lits.push("~");
    lits.push("+");
    let r = strings_from(lits);
    proof {
        reveal_strlit(" ");
        reveal_strlit(">");
        reveal_strlit("~");
        reveal_strlit("+");
        assert(" "@ =~= seq![' ']);
        assert(">"@ =~= seq!['>']);
        assert("~"@ =~= seq!['~']);
        assert("+"@ =~= seq!['+']);
        assert(strings_view(r@) =~= seq![
            seq![' '],
            seq![' '],
            seq!['>'],
            seq!['>'],
            seq!['~'],
            seq!['+'],
        ]);
    }
    r
}

impl Config {
    /// StyleBench `defaultConfiguration` (20k elements, 5k rules).
    pub fn default_suite() -> (c: Self)
        ensures
            c.name@ == "Default"@,
            default_knobs(c),
            default_sizes(c),
            default_selectors(c),
    {
        let mut op_lits: Vec<&str> = Vec::new();
        op_lits.push("");
        op_lits.push("=");
        let ops = strings_from(op_lits);
        let mut comb_lits: Vec<&str> = Vec::new();
        comb_lits.push(" ");
        comb_lits.push(">");
        let combinators = strings_from(comb_lits);
        proof {
            reveal_strlit("");
            reveal_strlit("=");
            reveal_strlit(" ");
            reveal_strlit(">");
            assert(""@ =~= Seq::<char>::empty());
            assert("="@ =~= seq!['=']);
            assert(" "@ =~= seq![' ']);
            assert(">"@ =~= seq!['>']);
            assert(strings_view(ops@) =~= seq![Seq::<char>::empty(), seq!['=']]);
            assert(strings_view(combinators@) =~= seq![seq![' '], seq!['>']]);
        }
        Config {
            name: String::from_str("Default"),
            element_type_count: 10,
            id_chance: 50000,
            element_chance: 500000,
            class_count: 200,
            class_chance: 300000,
            star_chance: 50000,
            attribute_chance: 20000,
            attribute_count: 10,
            attribute_value_count: 20,
            attribute_operators: ops,
            element_class_chance: 500000,
            element_maximum_classes: 3,
            element_attribute_chance: 200000,
            element_maximum_attributes: 3,
            combinators,
            pseudo_classes: Vec::new(),
            pseudo_class_chance: 0,
            maximum_selector_length: 6,
            rule_count: 5000,
            element_count: 20000,
            maximum_tree_depth: 6,
            maximum_tree_width: 50,
            repeating_sequence_chance: 200000,
            repeating_sequence_maximum_length: 3,
            style_seed: 1,
            dom_seed: 2,
            leaf_mutation_chance: 100000,
            step_count: 5,
            mutations_per_step: 100,
        }
    }

    /// The default knobs, small enough for a compile and compare loop.
    pub fn tiny() -> (c: Self)
        ensures
            c.name@ == "Tiny"@,
            default_knobs(c),
            tiny_sizes(c),
            default_selectors(c),
    {
        let mut c = Self::default_suite();
        c.name = String::from_str("Tiny");
        c.element_type_count = 6;
        c.class_count = 20;
        c.attribute_count = 6;
        c.attribute_value_count = 8;
        c.rule_count = 40;
        c.element_count = 80;
        c.maximum_tree_depth = 4;
        c.maximum_tree_width = 8;
        c.step_count = 1;
        c.mutations_per_step = 8;
        c
    }

    /// StyleBench `siblingCombinatorConfiguration`, with the default seeds.
    pub fn sibling_suite() -> (c: Self)
        ensures
            c.name@ == "Sibling"@,
            default_knobs(c),
            default_sizes(c),
            sibling_selectors(c),
    {
        let mut c = Self::default_suite();
        c.name = String::from_str("Sibling");
        c.combinators = sibling_combinators();
        c
    }

    /// StyleBench `structuralPseudoClassConfiguration`, with the default seeds.
    pub fn structural_suite() -> (c: Self)
        ensures
            c.name@ == "Structural"@,
            default_knobs(c),
            default_sizes(c),
            structural_selectors(c),
    {
        let mut c = Self::default_suite();
        c.name = String::from_str("Structural");
        c.pseudo_class_chance = 100000;
        c.pseudo_classes = structural_pseudos();
        c
    }

    /// The tiny tree and sheet with the structural pseudo-class mix.
    pub fn tiny_structural() -> (c: Self)
        ensures
            c.name@ == "TinyStructural"@,
            default_knobs(c),
            tiny_sizes(c),
            structural_selectors(c),
    {
        let mut c = Self::tiny();
        c.name = String::from_str("TinyStructural");
        c.pseudo_class_chance = 100000;
        c.pseudo_classes = structural_pseudos();
        c
    }

    /// The tiny tree and sheet with the sibling combinator mix.
    pub fn tiny_sibling() -> (c: Self)
        ensures
            c.name@ == "TinySibling"@,
            default_knobs(c),
            tiny_sizes(c),
            sibling_selectors(c),
    {
        let mut c = Self::tiny();
        c.name = String::from_str("TinySibling");
        c.combinators = sibling_combinators();
        c
    }
}

} // verus!
