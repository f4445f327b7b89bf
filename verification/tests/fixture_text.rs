use stylebench_fixture::format::{fmt_attrs, fmt_classes};
use stylebench_fixture::model::{Attr, Config, Fixture, Mut, Node};
use stylebench_fixture::parse::{parse_attrs, parse_classes, parse_mut_line};

fn attr(name: &str, value: &str) -> Attr {
    Attr { name: name.to_string(), value: value.to_string() }
}

fn small_fixture() -> Fixture {
    let nodes = vec![
        Node {
            parent: -1,
            tag: "div".to_string(),
            dom_id: Some("testroot".to_string()),
            classes: vec![],
            attrs: vec![],
        },
        Node {
            parent: 0,
            tag: "elem1".to_string(),
            dom_id: None,
            classes: vec!["class1".to_string(), "class2".to_string()],
            attrs: vec![attr("attr1", "v")],
        },
    ];
    let mutations = vec![
        Mut::AddClass { id: 1, class: "class3".to_string() },
        Mut::SetAttr { id: 1, name: "attr1".to_string(), value: "val".to_string() },
        Mut::AddLeaf {
            id: 2,
            parent: 1,
            at: 0,
            tag: "elem0".to_string(),
            dom_id: Some("id0".to_string()),
            classes: vec![],
            attrs: vec![],
        },
        Mut::RemoveLeaf { id: 2 },
        Mut::Restyle,
    ];
    Fixture {
        config: Config::tiny(),
        base_css: "x {}\n".to_string(),
        css: "a { }".to_string(),
        nodes,
        mutations,
    }
}

const SMALL_TEXT: &str = "# stylebench-fixture 1\n# name=Tiny elements=2 rules=40\n---base---\nx {}\n---css---\na { }\n---tree---\n0\t-1\tdiv\ttestroot\t\t\n1\t0\telem1\t-\tclass1,class2\tattr1=v\n---mut---\n+class\t1\tclass3\n+attr\t1\tattr1=val\n+leaf\t2\t1\t0\telem0\tid0\t\t\n-leaf\t2\nrestyle\n";

#[test]
fn write_gives_the_fixture_text() {
    assert_eq!(small_fixture().write(), SMALL_TEXT);
}

#[test]
fn parse_reads_back_what_write_wrote() {
    let f = small_fixture();
    let g = Fixture::parse(&f.write()).unwrap();
    assert_eq!(g.config.name, "Tiny");
    assert_eq!(g.config.element_count, 2);
    assert_eq!(g.base_css, "x {}\n");
    assert_eq!(g.css, "a { }\n");
    assert_eq!(g.nodes.len(), 2);
    assert_eq!(g.nodes[0].parent, -1);
    assert_eq!(g.nodes[0].tag, "div");
    assert_eq!(g.nodes[0].dom_id.as_deref(), Some("testroot"));
    assert!(g.nodes[0].classes.is_empty());
    assert!(g.nodes[0].attrs.is_empty());
    assert_eq!(g.nodes[1].parent, 0);
    assert_eq!(g.nodes[1].dom_id, None);
    assert_eq!(g.nodes[1].classes, vec!["class1".to_string(), "class2".to_string()]);
    assert_eq!(g.nodes[1].attrs.len(), 1);
    assert_eq!(g.nodes[1].attrs[0].name, "attr1");
    assert_eq!(g.nodes[1].attrs[0].value, "v");
    assert_eq!(g.mutations.len(), 5);
    assert!(matches!(&g.mutations[0], Mut::AddClass { id: 1, class } if class == "class3"));
    assert!(
        matches!(&g.mutations[1], Mut::SetAttr { id: 1, name, value } if name == "attr1" && value == "val")
    );
    assert!(matches!(
        &g.mutations[2],
        Mut::AddLeaf { id: 2, parent: 1, at: 0, tag, dom_id: Some(d), classes, attrs }
            if tag == "elem0" && d == "id0" && classes.is_empty() && attrs.is_empty()
    ));
    assert!(matches!(&g.mutations[3], Mut::RemoveLeaf { id: 2 }));
    assert!(matches!(&g.mutations[4], Mut::Restyle));
    // and a second round gives the same text again
    assert_eq!(g.write(), f.write());
}

#[test]
fn parsed_configuration_is_tiny_with_the_name_and_size() {
    let g = Fixture::parse(SMALL_TEXT).unwrap();
    let t = Config::tiny();
    assert_eq!(g.config.rule_count, t.rule_count);
    assert_eq!(g.config.step_count, 1);
    assert_eq!(g.config.mutations_per_step, 8);
    assert_eq!(g.config.class_count, 20);
}

#[test]
fn leaf_adds_counts_added_leaves() {
    assert_eq!(small_fixture().leaf_adds(), 1);
    let mut f = small_fixture();
    f.mutations.clear();
    assert_eq!(f.leaf_adds(), 0);
}

#[test]
fn fmt_classes_joins_with_commas() {
    assert_eq!(fmt_classes(&[]), "");
    assert_eq!(fmt_classes(&["a".to_string()]), "a");
    assert_eq!(fmt_classes(&["a".to_string(), "b".to_string(), "c".to_string()]), "a,b,c");
}

#[test]
fn fmt_attrs_writes_name_equals_value() {
    assert_eq!(fmt_attrs(&[]), "");
    assert_eq!(fmt_attrs(&[attr("a", "1")]), "a=1");
    assert_eq!(fmt_attrs(&[attr("a", "1"), attr("b", "")]), "a=1,b=");
}

#[test]
fn parse_classes_splits_at_commas() {
    assert!(parse_classes("").is_empty());
    assert_eq!(parse_classes("a"), vec!["a".to_string()]);
    assert_eq!(
        parse_classes("a,,b"),
        vec!["a".to_string(), "".to_string(), "b".to_string()]
    );
    assert_eq!(parse_classes(","), vec!["".to_string(), "".to_string()]);
}

#[test]
fn parse_attrs_splits_at_the_first_equals() {
    assert!(parse_attrs("").is_empty());
    let a = parse_attrs("a=1,b,c=x=y");
    assert_eq!(a.len(), 3);
    assert_eq!((a[0].name.as_str(), a[0].value.as_str()), ("a", "1"));
    assert_eq!((a[1].name.as_str(), a[1].value.as_str()), ("b", ""));
    assert_eq!((a[2].name.as_str(), a[2].value.as_str()), ("c", "x=y"));
}

#[test]
fn parse_mut_line_reads_every_kind() {
    assert!(matches!(parse_mut_line("restyle"), Ok(Mut::Restyle)));
    assert!(matches!(parse_mut_line("+class\t3\tc"), Ok(Mut::AddClass { id: 3, class }) if class == "c"));
    assert!(matches!(parse_mut_line("-class\t-4"), Ok(Mut::RemoveClass { id: -4 })));
    assert!(
        matches!(parse_mut_line("+attr\t4\tname"), Ok(Mut::SetAttr { id: 4, name, value }) if name == "name" && value.is_empty())
    );
    assert!(
        matches!(parse_mut_line("+attr\t4\ta=b=c"), Ok(Mut::SetAttr { id: 4, name, value }) if name == "a" && value == "b=c")
    );
    assert!(matches!(parse_mut_line("-attr\t5\tn\textra"), Ok(Mut::RemoveAttr { id: 5, name }) if name == "n"));
    assert!(matches!(
        parse_mut_line("+leaf\t9\t1\t2\tdiv\t-"),
        Ok(Mut::AddLeaf { id: 9, parent: 1, at: 2, tag, dom_id: None, classes, attrs })
            if tag == "div" && classes.is_empty() && attrs.is_empty()
    ));
    assert!(matches!(
        parse_mut_line("+leaf\t9\t1\t2\tdiv\tx\tc1,c2\tk=v"),
        Ok(Mut::AddLeaf { id: 9, dom_id: Some(d), classes, attrs, .. })
            if d == "x" && classes.len() == 2 && attrs.len() == 1 && attrs[0].value == "v"
    ));
    assert!(matches!(parse_mut_line("-leaf\t7"), Ok(Mut::RemoveLeaf { id: 7 })));
}

#[test]
fn parse_mut_line_errors() {
    assert_eq!(parse_mut_line("+class\t1").unwrap_err(), "bad mut line: +class\t1");
    assert_eq!(parse_mut_line("").unwrap_err(), "bad mut line: ");
    assert_eq!(parse_mut_line("restyle\t").unwrap_err(), "bad mut line: restyle\t");
    assert_eq!(parse_mut_line("+class\tx\tc").unwrap_err(), "id");
    assert_eq!(parse_mut_line("-leaf\t99999999999").unwrap_err(), "id");
    assert_eq!(parse_mut_line("+leaf\t1\tp\t0\tdiv\t-").unwrap_err(), "parent");
    assert_eq!(parse_mut_line("+leaf\t1\t0\t+\tdiv\t-").unwrap_err(), "at");
    assert_eq!(parse_mut_line("+leaf\t1\t0\t0\tdiv").unwrap_err(), "bad mut line: +leaf\t1\t0\t0\tdiv");
}

#[test]
fn parse_errors() {
    assert_eq!(Fixture::parse("").unwrap_err(), "no tree");
    assert_eq!(Fixture::parse("---tree---\n").unwrap_err(), "no tree");
    assert_eq!(
        Fixture::parse("---tree---\n0\t-1\tdiv\n").unwrap_err(),
        "bad tree line: 0\t-1\tdiv"
    );
    assert_eq!(Fixture::parse("---tree---\n0\tx\tdiv\t-\n").unwrap_err(), "parent");
    assert_eq!(
        Fixture::parse("---tree---\n0\t-1\tdiv\t-\n---mut---\nbogus\n").unwrap_err(),
        "bad mut line: bogus"
    );
}

#[test]
fn parse_comments_names_and_line_ends() {
    let text = "# name=Foo bar\r\n---base---\r\n#testroot {}\r\n# a comment\r\n---tree---\r\n0\t-1\tdiv\t-\r\n---mut---\r\n\r\nrestyle\r\n";
    let f = Fixture::parse(text).unwrap();
    assert_eq!(f.config.name, "Foo");
    assert_eq!(f.base_css, "#testroot {}\n");
    assert_eq!(f.css, "");
    assert_eq!(f.nodes.len(), 1);
    assert_eq!(f.nodes[0].tag, "div");
    assert_eq!(f.nodes[0].dom_id, None);
    assert_eq!(f.mutations.len(), 1);
    let g = Fixture::parse("# name=\n---tree---\n0\t-1\tdiv\t-\n").unwrap();
    assert_eq!(g.config.name, "parsed");
    let h = Fixture::parse("---tree---\n0\t-1\tdiv\t-\tc\n").unwrap();
    assert_eq!(h.nodes[0].classes, vec!["c".to_string()]);
    assert!(h.nodes[0].attrs.is_empty());
}

#[test]
fn lines_before_any_section_are_ignored() {
    let f = Fixture::parse("hello\n---tree---\n0\t-1\tdiv\t-\n").unwrap();
    assert_eq!(f.nodes.len(), 1);
    assert_eq!(f.base_css, "");
}

#[test]
fn carriage_returns_inside_cells_read_back() {
    let mut f = small_fixture();
    f.nodes[1].tag = "el\rem".to_string();
    f.nodes[1].classes = vec!["a\rb".to_string()];
    f.nodes[1].attrs = vec![attr("x\ry", "v\rw")];
    f.mutations[0] = Mut::AddClass { id: 1, class: "c\rd".to_string() };
    let g = Fixture::parse(&f.write()).unwrap();
    assert_eq!(g.nodes[1].tag, "el\rem");
    assert_eq!(g.nodes[1].classes, vec!["a\rb".to_string()]);
    assert_eq!(g.nodes[1].attrs[0].name, "x\ry");
    assert_eq!(g.nodes[1].attrs[0].value, "v\rw");
    match &g.mutations[0] {
        Mut::AddClass { id, class } => {
            assert_eq!(*id, 1);
            assert_eq!(class, "c\rd");
        }
        _ => panic!("expected an added class"),
    }
}

#[test]
fn carriage_return_ending_a_line_is_dropped() {
    let mut f = small_fixture();
    f.nodes[1].attrs = vec![attr("x", "v\r")];
    let g = Fixture::parse(&f.write()).unwrap();
    assert_eq!(g.nodes[1].attrs[0].value, "v");
}

#[test]
fn mutation_line_keeps_a_final_carriage_return() {
    match parse_mut_line("+class\t1\tc\r").unwrap() {
        Mut::AddClass { id, class } => {
            assert_eq!(id, 1);
            assert_eq!(class, "c\r");
        }
        _ => panic!("expected an added class"),
    }
}
