use stylebench_fixture::generator::{generate, workload_ok};
use stylebench_fixture::model::{Attr, Config, Fixture, Mut, Node};
use stylebench_fixture::mutations::generate_mutations;
use stylebench_fixture::random::Random;
use stylebench_fixture::sheet::{make_declaration, make_stylesheet};
use stylebench_fixture::tree::{make_element, make_tree, subtree_size};
use stylebench_fixture::walk::{live_child, next_dom_id_count, tree_order};

fn restyles(ms: &[Mut]) -> usize {
    ms.iter().filter(|m| matches!(m, Mut::Restyle)).count()
}

fn is_word(s: &str) -> bool {
    !s.is_empty() && s.chars().all(|c| c.is_ascii_alphanumeric())
}

/// Checks what the script promises: batches in order, ids of existing non-root nodes,
/// added leaves numbered in turn, and words everywhere.
fn check_script(n0: usize, ms: &[Mut]) {
    let mut count = n0 as i32;
    let mut r = 0usize;
    for m in ms {
        match m {
            Mut::AddClass { id, class } => {
                assert_eq!(r % 5, 0);
                assert!(1 <= *id && *id < count);
                assert!(is_word(class));
            }
            Mut::RemoveClass { id } => {
                assert_eq!(r % 5, 1);
                assert!(1 <= *id && *id < count);
            }
            Mut::SetAttr { id, name, value } => {
                assert_eq!(r % 5, 2);
                assert!(1 <= *id && *id < count);
                assert!(is_word(name));
                assert!(value.is_empty() || is_word(value));
            }
            Mut::RemoveAttr { id, name } => {
                assert_eq!(r % 5, 2);
                assert!(1 <= *id && *id < count);
                assert!(is_word(name));
            }
            Mut::AddLeaf { id, parent, at, tag, .. } => {
                assert_eq!(r % 5, 3);
                assert_eq!(*id, count);
                assert!(1 <= *parent && *parent < count);
                assert!(*at >= 0);
                assert!(is_word(tag));
                count += 1;
            }
            Mut::RemoveLeaf { id } => {
                assert_eq!(r % 5, 4);
                assert!(1 <= *id && *id < count);
            }
            Mut::Restyle => r += 1,
        }
    }
}

/// Checks the script's shape only: batches in order, ids of existing non-root nodes,
/// added leaves numbered in turn.
fn check_script_shape(n0: usize, ms: &[Mut]) {
    let mut count = n0 as i32;
    let mut r = 0usize;
    for m in ms {
        match m {
            Mut::AddClass { id, .. } => {
                assert_eq!(r % 5, 0);
                assert!(1 <= *id && *id < count);
            }
            Mut::RemoveClass { id } => {
                assert_eq!(r % 5, 1);
                assert!(1 <= *id && *id < count);
            }
            Mut::SetAttr { id, .. } | Mut::RemoveAttr { id, .. } => {
                assert_eq!(r % 5, 2);
                assert!(1 <= *id && *id < count);
            }
            Mut::AddLeaf { id, parent, .. } => {
                assert_eq!(r % 5, 3);
                assert_eq!(*id, count);
                assert!(1 <= *parent && *parent < count);
                count += 1;
            }
            Mut::RemoveLeaf { id } => {
                assert_eq!(r % 5, 4);
                assert!(1 <= *id && *id < count);
            }
            Mut::Restyle => r += 1,
        }
    }
}

fn check_tree(nodes: &[Node]) {
    assert_eq!(nodes[0].parent, -1);
    assert_eq!(nodes[0].tag, "div");
    assert_eq!(nodes[0].dom_id.as_deref(), Some("testroot"));
    for (i, n) in nodes.iter().enumerate().skip(1) {
        assert!(0 <= n.parent && (n.parent as usize) < i);
        assert!(is_word(&n.tag));
        assert!(n.classes.iter().all(|c| is_word(c)));
        assert!(n.attrs.iter().all(|a| is_word(&a.name) && (a.value.is_empty() || is_word(&a.value))));
    }
}

#[test]
fn tiny_workload_has_81_nodes_and_5_restyles() {
    let f = generate(Config::tiny());
    assert_eq!(f.nodes.len(), 81);
    assert_eq!(restyles(&f.mutations), 5);
    assert!(f.leaf_adds() <= 8);
    check_tree(&f.nodes);
    check_script(f.nodes.len(), &f.mutations);
    assert_eq!(f.css.lines().count(), 40);
    assert!(f.base_css.starts_with("#testroot {\n"));
}

#[test]
fn tiny_sibling_and_structural_workloads() {
    for cfg in [Config::tiny_sibling(), Config::tiny_structural()] {
        let f = generate(cfg);
        assert_eq!(f.nodes.len(), 81);
        assert_eq!(restyles(&f.mutations), 5);
        check_tree(&f.nodes);
        check_script(f.nodes.len(), &f.mutations);
        assert_eq!(f.css.lines().count(), 40);
    }
}

#[test]
fn generation_is_deterministic() {
    let a = generate(Config::tiny()).write();
    let b = generate(Config::tiny()).write();
    assert_eq!(a, b);
}

#[test]
fn generated_fixture_reads_back() {
    let f = generate(Config::tiny_sibling());
    let text = f.write();
    let g = Fixture::parse(&text).unwrap();
    assert_eq!(g.config.name, "TinySibling");
    assert_eq!(g.base_css, f.base_css);
    assert_eq!(g.css, f.css);
    assert_eq!(g.nodes.len(), f.nodes.len());
    assert_eq!(g.mutations.len(), f.mutations.len());
    assert_eq!(g.write(), text);
}

#[test]
fn default_steps_give_25_restyles() {
    // The default suite's five steps of 100 edits, drawn on the tiny tree.
    let tiny = Config::tiny();
    let mut rng = Random::new(tiny.dom_seed);
    let nodes = make_tree(&tiny, &mut rng);
    let ms = generate_mutations(&Config::default_suite(), &mut rng, &nodes);
    assert_eq!(restyles(&ms), 25);
    check_script(nodes.len(), &ms);
}

#[test]
fn default_tree_has_20001_nodes() {
    let cfg = Config::default_suite();
    let mut rng = Random::new(cfg.dom_seed);
    let nodes = make_tree(&cfg, &mut rng);
    assert_eq!(nodes.len(), 20001);
    check_tree(&nodes);
}

#[test]
fn sheet_rules_are_one_per_line() {
    let cfg = Config::tiny();
    let mut rng = Random::new(cfg.style_seed);
    let css = make_stylesheet(&cfg, &mut rng, 12);
    assert_eq!(css.lines().count(), 12);
    for line in css.lines() {
        assert!(line.ends_with(" }"));
        assert!(line.contains(" { background-color: rgb("));
    }
    let mut rng = Random::new(1);
    assert!(make_stylesheet(&cfg, &mut rng, 0).is_empty());
    assert!(make_stylesheet(&cfg, &mut rng, -3).is_empty());
}

#[test]
fn declaration_uses_three_draws() {
    let mut rng = Random::new(1);
    // 16807, 282475249, 1622650073 modulo 256
    assert_eq!(make_declaration(&mut rng), "background-color: rgb(167, 241, 217);");
}

#[test]
fn element_ids_count_up() {
    let mut cfg = Config::tiny();
    cfg.id_chance = 1000000;
    let mut rng = Random::new(2);
    let mut id_count = 4;
    let a = make_element(&cfg, &mut rng, &mut id_count);
    let b = make_element(&cfg, &mut rng, &mut id_count);
    assert_eq!(a.dom_id.as_deref(), Some("id4"));
    assert_eq!(b.dom_id.as_deref(), Some("id5"));
    assert_eq!(id_count, 6);
    assert_eq!(a.parent, -1);
    cfg.id_chance = 0;
    let c = make_element(&cfg, &mut rng, &mut id_count);
    assert_eq!(c.dom_id, None);
    assert_eq!(id_count, 6);
}

fn node(parent: i32, dom_id: Option<&str>) -> Node {
    Node {
        parent,
        tag: "e".to_string(),
        dom_id: dom_id.map(|s| s.to_string()),
        classes: vec![],
        attrs: vec![],
    }
}

#[test]
fn subtree_sizes() {
    // 0 -> 1 -> 2, 0 -> 3
    let nodes = vec![node(-1, None), node(0, None), node(1, None), node(0, None)];
    assert_eq!(subtree_size(&nodes, 0), 4);
    assert_eq!(subtree_size(&nodes, 1), 2);
    assert_eq!(subtree_size(&nodes, 2), 1);
    assert_eq!(subtree_size(&nodes, 3), 1);
}

#[test]
fn next_id_number_after_the_largest() {
    let nodes = vec![
        node(-1, Some("testroot")),
        node(0, Some("id3")),
        node(0, Some("id10")),
        node(0, Some("idx")),
        node(0, None),
    ];
    assert_eq!(next_dom_id_count(&nodes), 11);
    assert_eq!(next_dom_id_count(&[node(-1, Some("testroot"))]), 0);
    assert_eq!(next_dom_id_count(&[node(-1, Some("id-4"))]), 0);
}

#[test]
fn tree_order_skips_the_root_and_removed_subtrees() {
    // 0: [1, 4], 1: [2, 3]
    let children = vec![vec![1, 4], vec![2, 3], vec![], vec![], vec![]];
    let mut dead = vec![false; 5];
    assert_eq!(tree_order(&children, &dead), vec![1, 2, 3, 4]);
    assert!(live_child(&children, &dead, 1));
    assert!(!live_child(&children, &dead, 2));
    dead[1] = true;
    assert_eq!(tree_order(&children, &dead), vec![4]);
    dead[2] = true;
    dead[3] = true;
    assert!(!live_child(&children, &dead, 1));
    assert!(live_child(&children, &dead, 0));
}

#[test]
fn no_steps_no_script() {
    let mut cfg = Config::tiny();
    cfg.step_count = 0;
    let mut rng = Random::new(2);
    let nodes = make_tree(&Config::tiny(), &mut rng);
    assert!(generate_mutations(&cfg, &mut rng, &nodes).is_empty());
    cfg.step_count = 2;
    cfg.mutations_per_step = 0;
    let ms = generate_mutations(&cfg, &mut rng, &nodes);
    assert_eq!(ms.len(), 10);
    assert!(ms.iter().all(|m| matches!(m, Mut::Restyle)));
}

#[test]
fn a_lone_root_gets_only_restyles() {
    let nodes = vec![node(-1, Some("testroot"))];
    let mut rng = Random::new(2);
    let ms = generate_mutations(&Config::tiny(), &mut rng, &nodes);
    assert_eq!(ms.len(), 5);
    assert!(ms.iter().all(|m| matches!(m, Mut::Restyle)));
}

#[test]
fn presets_can_be_generated() {
    for cfg in [
        Config::default_suite(),
        Config::tiny(),
        Config::sibling_suite(),
        Config::structural_suite(),
        Config::tiny_sibling(),
        Config::tiny_structural(),
    ] {
        assert!(workload_ok(&cfg));
    }
}

#[test]
fn workloads_that_cannot_be_drawn() {
    let mut cfg = Config::tiny();
    cfg.attribute_operators.clear();
    assert!(!workload_ok(&cfg));
    cfg.attribute_chance = 0;
    assert!(workload_ok(&cfg));
    let mut cfg = Config::tiny();
    cfg.combinators.clear();
    assert!(!workload_ok(&cfg));
    cfg.maximum_selector_length = 1;
    assert!(workload_ok(&cfg));
    let mut cfg = Config::tiny();
    cfg.step_count = 100_000;
    cfg.mutations_per_step = 100_000;
    assert!(!workload_ok(&cfg));
    let mut cfg = Config::tiny();
    cfg.element_count = i32::MAX;
    assert!(!workload_ok(&cfg));
}

#[test]
fn default_script_leaves_20002_live_nodes() {
    let f = generate(Config::default_suite());
    let mut removed = std::collections::HashSet::new();
    let mut added = 0usize;
    for m in &f.mutations {
        match m {
            Mut::AddLeaf { .. } => added += 1,
            Mut::RemoveLeaf { id } => {
                removed.insert(*id);
            }
            _ => {}
        }
    }
    assert_eq!(f.nodes.len() + added - removed.len(), 20002);
}

#[test]
fn tree_order_walks_any_acyclic_table() {
    // 0: [3], 3: [1, 2], 1: [4]
    let children = vec![vec![3], vec![4], vec![], vec![1, 2], vec![]];
    let mut dead = vec![false; 5];
    assert_eq!(tree_order(&children, &dead), vec![3, 1, 4, 2]);
    dead[1] = true;
    assert_eq!(tree_order(&children, &dead), vec![3, 2]);
    assert!(live_child(&children, &dead, 3));
    dead[2] = true;
    assert!(!live_child(&children, &dead, 3));
}

#[test]
fn script_on_a_tree_of_other_strings() {
    let mut nodes = vec![node(-1, Some("root node"))];
    for i in 1..30 {
        let mut n = node(((i - 1) / 3) as i32, Some("an id"));
        n.tag = "a tag".to_string();
        n.classes = vec!["one class".to_string()];
        n.attrs = vec![Attr { name: "a name".to_string(), value: "x, y".to_string() }];
        nodes.push(n);
    }
    let mut rng = Random::new(2);
    let ms = generate_mutations(&Config::tiny(), &mut rng, &nodes);
    assert_eq!(restyles(&ms), 5);
    check_script_shape(nodes.len(), &ms);
}

#[test]
fn sheet_knobs_leave_tree_and_script_alone() {
    let a = generate(Config::tiny());
    let mut cfg = Config::tiny_sibling();
    cfg.rule_count = 3;
    cfg.style_seed = 77;
    cfg.star_chance = 900000;
    let b = generate(cfg);
    let mut ta = a.clone();
    ta.css = String::new();
    let mut tb = b.clone();
    tb.css = String::new();
    tb.config = ta.config.clone();
    assert_eq!(ta.write(), tb.write());
    assert_ne!(a.css, b.css);
}

#[test]
fn trees_stay_within_the_maximum_depth() {
    for cfg in [Config::tiny(), Config::default_suite()] {
        let cap = cfg.maximum_tree_depth.max(1) as usize;
        let f = generate(cfg);
        let mut depth = vec![0usize; f.nodes.len()];
        for i in 1..f.nodes.len() {
            depth[i] = depth[f.nodes[i].parent as usize] + 1;
            assert!(depth[i] <= cap);
        }
    }
}

#[test]
fn dom_knobs_leave_the_sheet_alone() {
    let a = generate(Config::tiny());
    let mut cfg = Config::tiny();
    cfg.dom_seed = 99;
    cfg.element_count = 30;
    cfg.step_count = 2;
    let b = generate(cfg);
    assert_eq!(a.css, b.css);
    assert_ne!(a.nodes.len(), b.nodes.len());
}

#[test]
fn carriage_returns_in_combinators_keep_one_rule_per_line() {
    let mut cfg = Config::tiny();
    cfg.combinators = vec!["\r+".to_string(), "~\r".to_string()];
    cfg.pseudo_classes = vec!["x\r".to_string()];
    cfg.pseudo_class_chance = 500000;
    let f = generate(cfg);
    assert_eq!(f.css.lines().count(), 40);
    assert!(f.css.contains('\r'));
}
