use swede::ast::{File, Recipe};
use swede::model::{build, NodeKind};
use swede::parse::parse;
use swede::validate::validate_source;

fn recipe(src: &str) -> Recipe {
    match parse(src).file {
        Some(File::Recipe(r)) => r,
        _ => panic!("expected a recipe"),
    }
}

const SPLIT: &str = "recipe r\nsoaked = soak(peas[225g]) ~10m\nwhites, greens = slice(scallions[2])\nbase = whisk(soaked, whites, oil[1T])\nplate = fold(base, greens)\n";

#[test]
fn inputs_come_first_and_lie_shallower() {
    let r = recipe(SPLIT);
    let g = build(&r);
    for n in &g.nodes {
        for &i in &n.inputs {
            assert!(i < n.id);
            assert!(g.depth(n.id) > g.depth(i));
        }
    }
    assert_eq!(g.nodes[g.terminal].name.as_deref(), Some("plate"));
    assert!(g.nodes[g.terminal].is_terminal);
}

#[test]
fn split_products_project_from_one_op() {
    let r = recipe(SPLIT);
    let g = build(&r);
    let products: Vec<&str> = g
        .nodes
        .iter()
        .filter(|n| n.kind == NodeKind::Product)
        .map(|n| n.label.as_str())
        .collect();
    assert_eq!(products, vec!["whites", "greens"]);
    let whites = g.nodes.iter().find(|n| n.label == "whites").unwrap();
    let op = &g.nodes[whites.inputs[0]];
    assert_eq!(op.kind, NodeKind::Op);
    assert_eq!(op.label, "slice");
    assert!(op.name.is_none());
}

#[test]
fn subtree_leaves_are_ingredient_leaves() {
    let r = recipe(SPLIT);
    let g = build(&r);
    let leaves = g.subtree_leaves(g.terminal);
    let names: Vec<&str> = leaves.iter().map(|&i| g.nodes[i].label.as_str()).collect();
    assert_eq!(names, vec!["peas", "scallions", "oil", "scallions"]);
    for &i in &leaves {
        assert!(g.nodes[i].inputs.is_empty());
        assert!(matches!(g.nodes[i].kind, NodeKind::Ingredient | NodeKind::SubRecipe));
    }
    assert_eq!(g.max_depth(), 4);
}

#[test]
fn diagnostics_come_out_in_source_order() {
    let src = "recipe r\nb = mix(zz, y[1g])\na = mix(qq)\nc = mix(a, b, missing)\n";
    let ds = validate_source(src);
    assert!(ds.len() >= 3);
    for w in ds.windows(2) {
        assert!(w[0].span.start_byte <= w[1].span.start_byte, "{:?} before {:?}", w[0].code, w[1].code);
    }
}
