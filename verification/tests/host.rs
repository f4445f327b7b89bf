use stylebench_fixture::batches::{batch_step, replayed_restyles, Step};
use stylebench_fixture::model::{Mut, Node};
use stylebench_fixture::slots::{slot_links, NoShadow};

fn node(parent: i32) -> Node {
    Node { parent, tag: "e".to_string(), dom_id: None, classes: vec![], attrs: vec![] }
}

#[test]
fn slot_links_of_a_small_tree() {
    // node 0 is the root; 1 and 3 hang below it, 2 below 1
    let nodes = vec![node(-1), node(0), node(1), node(0)];
    let k = slot_links(&nodes);
    assert_eq!(k.parent, vec![None, Some(0), Some(1), Some(2), Some(1)]);
    assert_eq!(k.first_child, vec![Some(1), Some(2), Some(3), None, None]);
    assert_eq!(k.last_child, vec![Some(1), Some(4), Some(3), None, None]);
    assert_eq!(k.next, vec![None, None, Some(4), None, None]);
    assert_eq!(k.prev, vec![None, None, None, None, Some(2)]);
}

#[test]
fn slot_links_of_an_empty_fixture() {
    let k = slot_links(&[]);
    assert_eq!(k.parent, vec![None]);
    assert_eq!(k.first_child, vec![None]);
    assert_eq!(k.last_child, vec![None]);
}

#[test]
fn siblings_are_linked_in_index_order() {
    let nodes = vec![node(-1), node(0), node(0), node(0), node(1)];
    let k = slot_links(&nodes);
    assert_eq!(k.first_child[1], Some(2));
    assert_eq!(k.last_child[1], Some(4));
    assert_eq!(k.next[2], Some(3));
    assert_eq!(k.next[3], Some(4));
    assert_eq!(k.prev[4], Some(3));
    assert_eq!(k.prev[3], Some(2));
    assert_eq!(k.first_child[2], Some(5));
}

#[test]
fn batch_steps() {
    let edit = Mut::RemoveClass { id: 1 };
    assert!(matches!(batch_step(false, &edit), (Step::Apply, true)));
    assert!(matches!(batch_step(true, &edit), (Step::Apply, true)));
    assert!(matches!(batch_step(true, &Mut::Restyle), (Step::Restyle, false)));
    assert!(matches!(batch_step(false, &Mut::Restyle), (Step::Skip, false)));
}

#[test]
fn replay_restyles_only_after_edits() {
    let script = vec![
        Mut::Restyle,
        Mut::RemoveClass { id: 1 },
        Mut::RemoveLeaf { id: 2 },
        Mut::Restyle,
        Mut::Restyle,
        Mut::RemoveClass { id: 3 },
    ];
    assert_eq!(replayed_restyles(&script), 1);
    assert_eq!(replayed_restyles(&[]), 0);
}

#[test]
fn no_shadow_is_one_value() {
    assert_eq!(NoShadow, NoShadow.clone());
}
