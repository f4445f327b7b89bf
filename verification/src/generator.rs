//! The whole workload: the sheet from the style seed, the tree and its mutation script
//! from the DOM seed.
use vstd::prelude::*;
use vstd::string::*;
use crate::format::with_final_newline;
use crate::model::{muts_view, nodes_view, Config, Fixture, BASE_CSS};
use crate::mutations::{edit_budget, generate_mutations, restyle_count, script_count, script_ok};
use crate::random::{seed_state, Random};
use crate::script::{lemma_mutations_draw_agree, mutations_draw};
use crate::sheet::rules_draw;
use crate::tree::{depth_cap, dom_knobs_agree, lemma_tree_draw_agree, tree_draw, within_hops};
use crate::roundtrip::sheet_safe;
use crate::sheet::{
    compound_config_ok, config_plain, is_rule_line, lemma_sheet_draw_ok, make_stylesheet, selector_start,
    sheet_draw_ok,
};
use crate::subtree::desc;
use crate::names::line_text;
use crate::text::{has_prefix, lemma_lines_unlines, lines_of, plain_line, plain_text, unlines};
use crate::roundtrip::{
    attrs_safe, body_line, cell_safe, classes_safe, fixture_safe, id_safe, is_i32, item_safe,
    lemma_write_then_parse, mut_safe, name_safe, node_safe,
};
use crate::format::fixture_text;
use crate::parse::{parse_spec, ParseState, Section};
use crate::names::{is_word, word_char};
use crate::model::{MutModel, NodeModel};
use crate::mutations::{mut_fits, name_word, names_words};
use crate::tree::{gen_word, node_ok};
use crate::tree::{deepest_count, is_test_root, make_tree, parents_of, tree_config_ok, tree_ok};

verus! {

/// `x`, or 0 when it is negative.
pub open spec fn at_least_zero(x: int) -> int {
    if x > 0 {
        x
    } else {
        0
    }
}

/// A sheet of `count` generated rules, one per line.
pub open spec fn generated_sheet(css: Seq<char>, count: int, plain: bool) -> bool {
    exists|rules: Seq<Seq<char>>|
        {
            &&& #[trigger] unlines(rules) == css
            &&& rules.len() == count
            &&& forall|i: int|
                0 <= i < rules.len() ==> is_rule_line(#[trigger] rules[i]) && selector_start(
                    rules[i],
                ) && (plain ==> line_text(rules[i]))
        }
}

/// The sizes of the configuration keep every index and id number within `i32`.
pub open spec fn workload_fits(cfg: Config) -> bool {
    1 + at_least_zero(cfg.element_count as int) + edit_budget(cfg) < i32::MAX
}

/// The StyleBench workload of a configuration: `rule_count` rules drawn from the style
/// seed; from the DOM seed, `#testroot` with `element_count` elements below it and then
/// the mutation script on that tree.
pub fn generate(config: Config) -> (f: Fixture)
    requires
        compound_config_ok(config),
        sheet_draw_ok(config, seed_state(config.style_seed as int), config.rule_count as int),
        tree_config_ok(config),
        workload_fits(config),
    ensures
        f.config == config,
        f.base_css@ == BASE_CSS@,
        generated_sheet(f.css@, at_least_zero(config.rule_count as int), config_plain(config)),
        config_plain(config) ==> sheet_safe(with_final_newline(f.css@)),
        config_plain(config) ==> lines_of(f.css@).len() == at_least_zero(config.rule_count as int),
        tree_ok(nodes_view(f.nodes@)),
        f.nodes@.len() == 1 + at_least_zero(config.element_count as int),
        is_test_root(f.nodes@[0]@),
        forall|k: int| 1 <= k < f.nodes@.len() ==> desc(parents_of(nodes_view(f.nodes@)), k, 0),
        script_ok(f.nodes@.len() as int, muts_view(f.mutations@)),
        restyle_count(muts_view(f.mutations@)) == 5 * at_least_zero(config.step_count as int),
        script_count(f.nodes@.len() as int, muts_view(f.mutations@)) <= f.nodes@.len() + edit_budget(
            config,
        ),
        config_plain(config) ==> generated_shape(f),
        f.css@ == unlines(
            rules_draw(config, seed_state(config.style_seed as int), config.rule_count as int).1,
        ),
        nodes_view(f.nodes@) == tree_draw(config, seed_state(config.dom_seed as int)).nodes,
        config.maximum_tree_depth >= 0 ==> within_hops(nodes_view(f.nodes@), depth_cap(config)),
        muts_view(f.mutations@) == mutations_draw(
            config,
            tree_draw(config, seed_state(config.dom_seed as int)).rng,
            tree_draw(config, seed_state(config.dom_seed as int)).nodes,
        ).out,
{
    let mut style_rng = Random::new(config.style_seed);
    let css = make_stylesheet(&config, &mut style_rng, config.rule_count);
    let mut rng = Random::new(config.dom_seed);
    let nodes = make_tree(&config, &mut rng);
    let mutations = generate_mutations(&config, &mut rng, nodes.as_slice());
    Fixture { config, base_css: String::from_str(BASE_CSS), css, nodes, mutations }
}

/// Whether `generate` can draw the workload of `config`: the lists it indexes into are
/// there when needed (a combinator whenever selectors of several compounds can be drawn),
/// and every count, index and id number fits in `i32`.
pub fn workload_ok(config: &Config) -> (b: bool)
    ensures
        b == (compound_config_ok(*config) && (config.combinators@.len() > 0
            || config.maximum_selector_length <= 1 || config.rule_count <= 0) && tree_config_ok(*config)
            && workload_fits(*config)),
        b ==> sheet_draw_ok(*config, seed_state(config.style_seed as int), config.rule_count as int),
{
    proof {
        if config.combinators@.len() > 0 || config.maximum_selector_length <= 1 {
            lemma_sheet_draw_ok(*config, seed_state(config.style_seed as int), config.rule_count as int);
        }
    }
    let sheet_ok = (config.attribute_chance == 0 || config.attribute_operators.len() > 0)
        && (config.maximum_selector_length <= 1 || config.combinators.len() > 0 || config.rule_count <= 0)
        && config.attribute_operators.len() <= 2147483647usize
        && config.combinators.len() <= 2147483647usize
        && config.pseudo_classes.len() <= 2147483647usize;
    let width: i64 = if config.maximum_tree_width < 0 {
        -(config.maximum_tree_width as i64)
    } else {
        config.maximum_tree_width as i64
    };
    let count = config.element_count as i64;
    let maximum_depth = config.maximum_tree_depth as i64;
    let deepest: i64 = if maximum_depth > 0 {
        if maximum_depth - 1 < count - 1 {
            maximum_depth - 1
        } else {
            count - 1
        }
    } else if maximum_depth < 0 {
        count - 1
    } else {
        0
    };
    assert(deepest == deepest_count(*config));
    proof {
        if deepest > 0 {
            assert(0 <= width * deepest <= 2147483648 * 2147483647) by (nonlinear_arith)
                requires
                    0 <= width <= 2147483648,
                    0 < deepest <= 2147483647,
            ;
        }
    }
    let tree_ok = config.element_count < 2147483647 && (deepest <= 0 || width * deepest <= 2147483647);
    let steps: i64 = if config.step_count > 0 {
        config.step_count as i64
    } else {
        0
    };
    let per: i64 = if config.mutations_per_step > 0 {
        config.mutations_per_step as i64
    } else {
        0
    };
    let elements: i64 = if config.element_count > 0 {
        config.element_count as i64
    } else {
        0
    };
    proof {
        assert(steps * per <= 2147483647 * 2147483647) by (nonlinear_arith)
            requires
                0 <= steps <= 2147483647,
                0 <= per <= 2147483647,
        ;
        assert(steps * per >= 0) by (nonlinear_arith)
            requires
                0 <= steps,
                0 <= per,
        ;
    }
    let fits = 1 + elements + steps * per < 2147483647;
    sheet_ok && tree_ok && fits
}

/// The tree and the mutation script do not depend on the sheet's knobs: two
/// configurations that agree on the tree and script knobs (the DOM seed among them)
/// draw the same tree and the same script, whatever their sheets.
pub proof fn lemma_dom_ignores_sheet(a: Config, b: Config)
    requires
        dom_knobs_agree(a, b),
    ensures
        tree_draw(a, seed_state(a.dom_seed as int)) == tree_draw(b, seed_state(b.dom_seed as int)),
        mutations_draw(
            a,
            tree_draw(a, seed_state(a.dom_seed as int)).rng,
            tree_draw(a, seed_state(a.dom_seed as int)).nodes,
        ) == mutations_draw(
            b,
            tree_draw(b, seed_state(b.dom_seed as int)).rng,
            tree_draw(b, seed_state(b.dom_seed as int)).nodes,
        ),
{
    let s = seed_state(a.dom_seed as int);
    lemma_tree_draw_agree(a, b, s);
    lemma_mutations_draw_agree(a, b, tree_draw(a, s).rng, tree_draw(a, s).nodes);
}

/// No character of `s` is `c`.
spec fn free_of(s: Seq<char>, c: char) -> bool
    decreases s.len(),
{
    s.len() == 0 || (s[0] != c && free_of(s.drop_first(), c))
}

proof fn lemma_free_of(s: Seq<char>, c: char)
    requires
        free_of(s, c),
    ensures
        !s.contains(c),
    decreases s.len(),
{
    if s.len() > 0 {
        lemma_free_of(s.drop_first(), c);
        assert forall|i: int| 0 <= i < s.len() implies s[i] != c by {
            if i > 0 {
                assert(s[i] == s.drop_first()[i - 1]);
            }
        }
    }
}

/// A line without a line break that starts with neither `-` nor `# ` is a plain sheet line.
proof fn lemma_line_plain_body(l: Seq<char>)
    requires
        free_of(l, '\n'),
        l.len() > 0,
        l.last() != '\r',
        l[0] != '-',
        l[0] == '#' ==> l.len() > 1 && l[1] != ' ',
    ensures
        plain_line(l),
        body_line(l),
{
    reveal_strlit("# ");
    reveal_strlit("---base---");
    reveal_strlit("---css---");
    reveal_strlit("---tree---");
    reveal_strlit("---mut---");
    lemma_free_of(l, '\n');
    if has_prefix(l, "# "@) {
        assert(l.take(2)[0] == l[0]);
        assert(l.take(2)[1] == l[1]);
    }
    assert(l != "---base---"@ && l != "---css---"@ && l != "---tree---"@ && l != "---mut---"@) by {
        assert("---base---"@[0] == '-');
        assert("---css---"@[0] == '-');
        assert("---tree---"@[0] == '-');
        assert("---mut---"@[0] == '-');
    }
}

/// The lines of the base sheet.
spec fn base_lines() -> Seq<Seq<char>> {
    seq![
        "#testroot {"@,
        "  font-size: 10px;"@,
        "  line-height: 10px;"@,
        "}"@,
        "#testroot * {"@,
        "  display: inline-block;"@,
        "  height:10px;"@,
        "  min-width:10px;"@,
        "}"@,
    ]
}

/// The base sheet reads back line by line: no line is a comment or a section marker.
#[verifier::rlimit(40)]
pub proof fn lemma_base_sheet_safe()
    ensures
        sheet_safe(with_final_newline(BASE_CSS@)),
        with_final_newline(BASE_CSS@) == BASE_CSS@,
{
    reveal_strlit("#testroot {\n  font-size: 10px;\n  line-height: 10px;\n}\n#testroot * {\n  display: inline-block;\n  height:10px;\n  min-width:10px;\n}\n");
    reveal_strlit("#testroot {");
    reveal_strlit("  font-size: 10px;");
    reveal_strlit("  line-height: 10px;");
    reveal_strlit("}");
    reveal_strlit("#testroot * {");
    reveal_strlit("  display: inline-block;");
    reveal_strlit("  height:10px;");
    reveal_strlit("  min-width:10px;");
    reveal_strlit("# ");
    reveal_strlit("---base---");
    reveal_strlit("---css---");
    reveal_strlit("---tree---");
    reveal_strlit("---mut---");
    let ls = base_lines();
    reveal_with_fuel(unlines, 10);
    assert(BASE_CSS@ =~= unlines(ls));
    reveal_with_fuel(free_of, 30);
    assert(free_of(ls[0], '\n'));
    assert(free_of(ls[1], '\n'));
    assert(free_of(ls[2], '\n'));
    assert(free_of(ls[3], '\n'));
    assert(free_of(ls[4], '\n'));
    assert(free_of(ls[5], '\n'));
    assert(free_of(ls[6], '\n'));
    assert(free_of(ls[7], '\n'));
    assert(free_of(ls[8], '\n'));
    assert forall|i: int| 0 <= i < ls.len() implies plain_line(#[trigger] ls[i]) && body_line(ls[i]) by {
        lemma_line_plain_body(ls[i]);
    }
    lemma_lines_unlines(ls);
}

/// A word can stand in a cell, in a list within a cell, as an attribute name, and as an id.
proof fn lemma_word_safe(s: Seq<char>)
    requires
        is_word(s),
    ensures
        item_safe(s),
        !s.contains('='),
        s != seq!['-'],
{
    assert forall|c: char| #[trigger] s.contains(c) implies word_char(c) by {
        let i = choose|i: int| 0 <= i < s.len() && s[i] == c;
        assert(word_char(s[i]));
    }
    if s == seq!['-'] {
        assert(s.contains('-')) by {
            assert(s[0] == '-');
        }
    }
}

/// A generated node's tree line reads back as the node.
proof fn lemma_node_safe(n: NodeModel)
    requires
        node_ok(n),
        is_i32(n.parent),
    ensures
        node_safe(n),
{
    lemma_word_safe(n.tag);
    if n.dom_id is Some {
        lemma_word_safe(n.dom_id->0);
    }
    assert forall|i: int| 0 <= i < n.classes.len() implies item_safe(#[trigger] n.classes[i]) by {
        lemma_word_safe(n.classes[i]);
    }
    assert forall|i: int| 0 <= i < n.attrs.len() implies {
        let a = #[trigger] n.attrs[i];
        item_safe(a.0) && !a.0.contains('=') && item_safe(a.1)
    } by {
        lemma_word_safe(n.attrs[i].0);
        lemma_word_safe(n.attrs[i].1);
    }
}

/// What a mutation carries is made of words: classes, attribute names and values, and
/// an added leaf as the generator makes nodes.
pub open spec fn mut_words(m: MutModel) -> bool {
    match m {
        MutModel::AddClass { class, .. } => gen_word(class),
        MutModel::SetAttr { name, value, .. } => gen_word(name) && is_word(value),
        MutModel::RemoveAttr { name, .. } => gen_word(name),
        MutModel::AddLeaf { parent, tag, dom_id, classes, attrs, .. } => node_ok(
            NodeModel { parent, tag, dom_id, classes, attrs },
        ),
        _ => true,
    }
}

proof fn lemma_script_words(n0: int, ms: Seq<MutModel>)
    requires
        script_ok(n0, ms),
        names_words(ms),
    ensures
        forall|i: int| 0 <= i < ms.len() ==> mut_words(#[trigger] ms[i]),
    decreases ms.len(),
{
    if ms.len() > 0 {
        let init = ms.drop_last();
        assert(mut_fits(script_count(n0, init), restyle_count(init), ms.last()));
        assert(names_words(init)) by {
            assert forall|i: int| 0 <= i < init.len() implies name_word(#[trigger] init[i]) by {
                assert(init[i] == ms[i]);
            }
        }
        lemma_script_words(n0, init);
        assert(name_word(ms[ms.len() - 1]));
        assert forall|i: int| 0 <= i < ms.len() implies mut_words(#[trigger] ms[i]) by {
            if i < init.len() {
                assert(ms[i] == init[i]);
            }
        }
    }
}

/// A mutation made of words, with numbers that fit in `i32`, reads back as itself.
proof fn lemma_mut_safe(m: MutModel)
    requires
        mut_words(m),
        match m {
            MutModel::AddClass { id, .. } => is_i32(id),
            MutModel::RemoveClass { id } => is_i32(id),
            MutModel::SetAttr { id, .. } => is_i32(id),
            MutModel::RemoveAttr { id, .. } => is_i32(id),
            MutModel::AddLeaf { id, parent, at, .. } => is_i32(id) && is_i32(parent) && is_i32(at),
            MutModel::RemoveLeaf { id } => is_i32(id),
            MutModel::Restyle => true,
        },
    ensures
        mut_safe(m),
{
    match m {
        MutModel::AddClass { class, .. } => lemma_word_safe(class),
        MutModel::SetAttr { name, value, .. } => {
            lemma_word_safe(name);
            lemma_word_safe(value);
        },
        MutModel::RemoveAttr { name, .. } => lemma_word_safe(name),
        MutModel::AddLeaf { parent, tag, dom_id, classes, attrs, .. } => {
            lemma_node_safe(NodeModel { parent, tag, dom_id, classes, attrs });
        },
        _ => {},
    }
}

/// What the generator guarantees of a fixture: the base sheet, a generated sheet that
/// reads back line by line, a generated tree, and a script that fits it.
pub open spec fn generated_shape(f: Fixture) -> bool {
    &&& f.base_css@ == BASE_CSS@
    &&& sheet_safe(with_final_newline(f.css@))
    &&& tree_ok(nodes_view(f.nodes@))
    &&& f.nodes@.len() >= 1
    &&& script_ok(f.nodes@.len() as int, muts_view(f.mutations@))
    &&& names_words(muts_view(f.mutations@))
}

/// A generated fixture, written and read back, gives its own name, sheets, tree and
/// script: both runners see the workload the generator drew.
pub proof fn lemma_generated_reads_back(f: Fixture)
    requires
        generated_shape(f),
        name_safe(f.config.name@),
    ensures
        parse_spec(
            fixture_text(
                f.config.name@,
                f.config.rule_count as int,
                f.base_css@,
                f.css@,
                nodes_view(f.nodes@),
                muts_view(f.mutations@),
            ),
        ) == Ok::<ParseState, Seq<char>>(
            ParseState {
                section: Section::Muts,
                name: f.config.name@,
                base: f.base_css@,
                css: with_final_newline(f.css@),
                nodes: nodes_view(f.nodes@),
                muts: muts_view(f.mutations@),
            },
        ),
{
    let nodes = nodes_view(f.nodes@);
    let muts = muts_view(f.mutations@);
    lemma_base_sheet_safe();
    assert forall|i: int| 0 <= i < nodes.len() implies node_safe(#[trigger] nodes[i]) by {
        assert(nodes[i] == f.nodes@[i]@);
        lemma_node_safe(nodes[i]);
    }
    lemma_script_words(f.nodes@.len() as int, muts);
    assert forall|i: int| 0 <= i < muts.len() implies mut_safe(#[trigger] muts[i]) by {
        assert(muts[i] == f.mutations@[i]@);
        lemma_mut_safe(muts[i]);
    }
    assert(fixture_safe(f.config.name@, f.base_css@, f.css@, nodes, muts));
    lemma_write_then_parse(f.config.name@, f.config.rule_count, f.base_css@, f.css@, nodes, muts);
}

} // verus!
