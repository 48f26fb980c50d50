//! The boundary walked end to end on a small fixture hierarchy: root,
//! `/obj` and `/obj/item` plus a second top-level type, each node carrying
//! declared variables, one overridden in the child.

use dmtree::HandleLedger;
use dmtree::Node;
use dmtree::ProcedureEntry;
use dmtree::Tree;
use dmtree::TreeError;
use dmtree::VariableEntry;
use dmtree::NO_PARENT;

fn var(name: &str, value: Option<&str>, decl: Option<&str>) -> VariableEntry {
    VariableEntry {
        name: name.as_bytes().to_vec(),
        value: value.map(|v| v.as_bytes().to_vec()),
        declaration: decl.map(|d| d.as_bytes().to_vec()),
    }
}

fn proc_entry(name: &str, values: Vec<&str>, decl: Option<&str>) -> ProcedureEntry {
    ProcedureEntry {
        name: name.as_bytes().to_vec(),
        values: values.iter().map(|v| v.as_bytes().to_vec()).collect(),
        declaration: decl.map(|d| d.as_bytes().to_vec()),
    }
}

fn node(path: &str, index: u32, parent: u32, vars: Vec<VariableEntry>) -> Node {
    Node {
        path: path.as_bytes().to_vec(),
        index,
        parent_index: parent,
        vars,
        procs: vec![],
    }
}

/// Root with two top-level types; `/obj/item` overrides one of `/obj`'s two
/// declared variables.
fn fixture_nodes() -> Vec<Node> {
    vec![
        node("", 0, NO_PARENT, vec![]),
        node(
            "/obj",
            1,
            0,
            vec![
                var("density", Some("0"), Some("var/density")),
                var("name", Some("\"obj\""), Some("var/name")),
            ],
        ),
        node(
            "/obj/item",
            2,
            1,
            vec![var("density", Some("1"), None), var("weight", None, Some("var/weight"))],
        ),
        node("/mob", 3, 0, vec![var("sight", Some("0"), Some("var/sight"))]),
    ]
}

fn fixture() -> Tree {
    Tree::from_nodes(fixture_nodes()).unwrap()
}

#[test]
fn root_is_distinguished() {
    let tree = fixture();
    let mut ledger = HandleLedger::new();
    let root = tree.root(&mut ledger);
    assert!(root.is_root());
    assert_eq!(root.get_index(), 0);
    assert_eq!(root.get_parent_index(), NO_PARENT);
    let all = tree.for_each_node(&mut ledger);
    let count = tree.node_count();
    for h in &all {
        if h.get_index() != 0 {
            assert!(!h.is_root());
            assert!(h.get_parent_index() < count);
        }
    }
    dmtree::handle::node_free(&mut ledger, root);
    for h in all {
        dmtree::handle::node_free(&mut ledger, h);
    }
    assert!(ledger.is_balanced());
}

#[test]
fn parent_links_are_acyclic() {
    let tree = fixture();
    let mut ledger = HandleLedger::new();
    let all = tree.for_each_node(&mut ledger);
    for h in &all {
        if !h.is_root() {
            assert_ne!(h.get_parent_index(), h.get_index());
            // climb to the root: each step goes strictly downward in index
            let mut at = h.get_parent_index();
            let mut steps = 0;
            while at != 0 {
                assert!(at < tree.node_count());
                let parents: Vec<u32> =
                    all.iter().map(|n| n.get_parent_index()).collect();
                let next = parents[at as usize];
                assert!(next < at);
                at = next;
                steps += 1;
                assert!(steps < 100);
            }
        }
    }
    for h in all {
        dmtree::handle::node_free(&mut ledger, h);
    }
    assert!(ledger.is_balanced());
}

#[test]
fn all_nodes_traversal_is_stable() {
    let tree = fixture();
    let mut ledger = HandleLedger::new();
    let first = tree.for_each_node(&mut ledger);
    let second = tree.for_each_node(&mut ledger);
    assert_eq!(first.len(), 4);
    assert_eq!(second.len(), 4);
    let digest = |hs: &Vec<dmtree::NodeHandle>, ledger: &mut HandleLedger| -> Vec<(u32, Vec<u8>)> {
        let mut out = Vec::new();
        for h in hs {
            let p = h.path(ledger);
            out.push((h.get_index(), p.bytes().clone()));
            dmtree::handle::string_free(ledger, p);
        }
        out
    };
    let d1 = digest(&first, &mut ledger);
    let d2 = digest(&second, &mut ledger);
    assert_eq!(d1, d2);
    // each node appears exactly once
    for i in 0..d1.len() {
        for j in (i + 1)..d1.len() {
            assert_ne!(d1[i].0, d1[j].0);
        }
    }
    for h in first {
        dmtree::handle::node_free(&mut ledger, h);
    }
    for h in second {
        dmtree::handle::node_free(&mut ledger, h);
    }
    assert!(ledger.is_balanced());
}

#[test]
fn children_are_exactly_the_nodes_with_that_parent() {
    let tree = fixture();
    let mut ledger = HandleLedger::new();
    let root = tree.root(&mut ledger);
    let top = tree.for_each_child(&root, &mut ledger);
    let paths: Vec<Vec<u8>> = top
        .iter()
        .map(|h| {
            let p = h.path(&mut ledger);
            let b = p.bytes().clone();
            dmtree::handle::string_free(&mut ledger, p);
            b
        })
        .collect();
    assert_eq!(paths, vec![b"/obj".to_vec(), b"/mob".to_vec()]);
    for h in &top {
        assert_eq!(h.get_parent_index(), 0);
    }
    let obj = &top[0];
    let under_obj = tree.for_each_child(obj, &mut ledger);
    assert_eq!(under_obj.len(), 1);
    assert_eq!(under_obj[0].get_index(), 2);
    let leaf_children = tree.for_each_child(&under_obj[0], &mut ledger);
    assert_eq!(leaf_children.len(), 0);
    dmtree::handle::node_free(&mut ledger, root);
    for h in top {
        dmtree::handle::node_free(&mut ledger, h);
    }
    for h in under_obj {
        dmtree::handle::node_free(&mut ledger, h);
    }
    assert!(ledger.is_balanced());
}

#[test]
fn variable_traversal_never_yields_an_empty_entry() {
    let tree = fixture();
    let mut ledger = HandleLedger::new();
    let all = tree.for_each_node(&mut ledger);
    let mut seen = 0;
    for h in &all {
        let vars = h.for_each_variable(&mut ledger);
        for v in vars {
            let entry = v.entry();
            assert!(entry.value.is_some() || entry.declaration.is_some());
            seen += 1;
            dmtree::handle::var_free(&mut ledger, v);
        }
    }
    assert_eq!(seen, 5);
    for h in all {
        dmtree::handle::node_free(&mut ledger, h);
    }
    assert!(ledger.is_balanced());
}

#[test]
fn variable_traversal_keeps_declaration_order() {
    let tree = fixture();
    let mut ledger = HandleLedger::new();
    let all = tree.for_each_node(&mut ledger);
    let item = &all[2];
    let vars = item.for_each_variable(&mut ledger);
    let names: Vec<Vec<u8>> = vars.iter().map(|v| v.entry().name.clone()).collect();
    assert_eq!(names, vec![b"density".to_vec(), b"weight".to_vec()]);
    assert_eq!(vars[0].entry().value, Some(b"1".to_vec()));
    assert_eq!(vars[0].entry().declaration, None);
    assert_eq!(vars[1].entry().value, None);
    assert_eq!(vars[1].entry().declaration, Some(b"var/weight".to_vec()));
    for v in vars {
        dmtree::handle::var_free(&mut ledger, v);
    }
    for h in all {
        dmtree::handle::node_free(&mut ledger, h);
    }
    assert!(ledger.is_balanced());
}

#[test]
fn every_handle_released_once_balances_the_ledger() {
    let tree = fixture();
    let mut ledger = HandleLedger::new();
    let root = tree.root(&mut ledger);
    let all = tree.for_each_node(&mut ledger);
    let kids = tree.for_each_child(&root, &mut ledger);
    let mut strs = Vec::new();
    let mut bufs = Vec::new();
    let mut vars = Vec::new();
    for h in &all {
        strs.push(h.path(&mut ledger));
        bufs.push(h.encode_variables(&mut ledger));
        bufs.push(h.encode_procedures(&mut ledger));
        for v in h.for_each_variable(&mut ledger) {
            vars.push(v);
        }
    }
    // 1 root + 4 nodes + 2 children + 4 paths + 8 buffers + 5 vars
    assert_eq!(ledger.allocated_count(), 24);
    assert_eq!(ledger.released_count(), 0);
    assert!(!ledger.is_balanced());
    dmtree::handle::node_free(&mut ledger, root);
    for h in all {
        dmtree::handle::node_free(&mut ledger, h);
    }
    for h in kids {
        dmtree::handle::node_free(&mut ledger, h);
    }
    for s in strs {
        dmtree::handle::string_free(&mut ledger, s);
    }
    for b in bufs {
        dmtree::handle::buffer_free(&mut ledger, b);
    }
    for v in vars {
        dmtree::handle::var_free(&mut ledger, v);
    }
    assert_eq!(ledger.allocated_count(), 24);
    assert_eq!(ledger.released_count(), 24);
    assert!(ledger.is_balanced());
}

#[test]
fn load_of_valid_fixture_has_empty_root_path_and_right_top_level_count() {
    let tree = fixture();
    let mut ledger = HandleLedger::new();
    let root = tree.root(&mut ledger);
    let path = root.path(&mut ledger);
    assert_eq!(path.bytes().len(), 0);
    let top = tree.for_each_child(&root, &mut ledger);
    assert_eq!(top.len(), 2);
    dmtree::handle::string_free(&mut ledger, path);
    dmtree::handle::node_free(&mut ledger, root);
    for h in top {
        dmtree::handle::node_free(&mut ledger, h);
    }
    assert!(ledger.is_balanced());
}

#[test]
fn unload_consumes_tree_and_context() {
    let tree = fixture();
    let context = dmtree::CompilationContext::new(vec![b"warning: unused var".to_vec()]);
    assert_eq!(context.diagnostic_count(), 1);
    assert_eq!(context.diagnostic(0), &b"warning: unused var".to_vec());
    tree.unload(context);
}

#[test]
fn empty_node_list_is_refused() {
    assert_eq!(Tree::from_nodes(vec![]).unwrap_err(), TreeError::EmptyTree);
}

#[test]
fn index_mismatch_is_refused() {
    let mut nodes = fixture_nodes();
    nodes[2].index = 7;
    assert_eq!(Tree::from_nodes(nodes).unwrap_err(), TreeError::IndexMismatch);
}

#[test]
fn root_with_a_parent_is_refused() {
    let mut nodes = fixture_nodes();
    nodes[0].parent_index = 3;
    assert_eq!(Tree::from_nodes(nodes).unwrap_err(), TreeError::RootHasParent);
}

#[test]
fn forward_parent_reference_is_refused() {
    let mut nodes = fixture_nodes();
    nodes[1].parent_index = 2;
    assert_eq!(Tree::from_nodes(nodes).unwrap_err(), TreeError::BadParentIndex);
}

#[test]
fn self_parent_is_refused() {
    let mut nodes = fixture_nodes();
    nodes[3].parent_index = 3;
    assert_eq!(Tree::from_nodes(nodes).unwrap_err(), TreeError::BadParentIndex);
}

#[test]
fn entry_without_value_or_declaration_is_refused() {
    let mut nodes = fixture_nodes();
    nodes[1].vars.push(var("ghostly", None, None));
    assert_eq!(Tree::from_nodes(nodes).unwrap_err(), TreeError::EmptyEntry);
}

#[test]
fn procedure_entry_without_override_or_declaration_is_refused() {
    let mut nodes = fixture_nodes();
    nodes[1].procs.push(proc_entry("attack", vec![], None));
    assert_eq!(Tree::from_nodes(nodes).unwrap_err(), TreeError::EmptyEntry);
}

#[test]
fn duplicated_variable_name_is_refused() {
    let mut nodes = fixture_nodes();
    nodes[1].vars.push(var("density", Some("2"), None));
    assert_eq!(Tree::from_nodes(nodes).unwrap_err(), TreeError::DuplicateName);
}

#[test]
fn duplicated_procedure_name_is_refused() {
    let mut nodes = fixture_nodes();
    nodes[2].procs.push(proc_entry("use", vec!["return"], Some("proc/use")));
    nodes[2].procs.push(proc_entry("use", vec!["return 1"], None));
    assert_eq!(Tree::from_nodes(nodes).unwrap_err(), TreeError::DuplicateName);
}

#[test]
fn root_with_nonempty_path_is_refused() {
    let mut nodes = fixture_nodes();
    nodes[0].path = b"/".to_vec();
    assert_eq!(Tree::from_nodes(nodes).unwrap_err(), TreeError::RootPathNotEmpty);
}

#[test]
fn duplicated_path_is_refused() {
    let mut nodes = fixture_nodes();
    nodes[3].path = b"/obj".to_vec();
    assert_eq!(Tree::from_nodes(nodes).unwrap_err(), TreeError::DuplicatePath);
}

#[test]
fn paths_identify_nodes() {
    let tree = fixture();
    let mut ledger = HandleLedger::new();
    let all = tree.for_each_node(&mut ledger);
    let mut paths = Vec::new();
    for h in &all {
        let p = h.path(&mut ledger);
        paths.push((h.get_index(), p.bytes().clone()));
        dmtree::handle::string_free(&mut ledger, p);
    }
    for i in 0..paths.len() {
        for j in 0..paths.len() {
            assert_eq!(paths[i].1 == paths[j].1, paths[i].0 == paths[j].0);
        }
    }
    for h in all {
        dmtree::handle::node_free(&mut ledger, h);
    }
    assert!(ledger.is_balanced());
}
