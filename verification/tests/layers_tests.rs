use old_gods::geom::GlobalTileIndex;
use old_gods::layers::{flatten_layer_tree, FlatLayer};
use old_gods::tiled::{Layer, TileLayer};
use old_gods::world::Diagnostic;

fn tiles(width: usize, raws: Vec<u32>) -> Layer {
    Layer::Tiles(TileLayer {
        width,
        cells: raws.into_iter().map(GlobalTileIndex::new).collect(),
    })
}

#[test]
fn flattening_groups_yields_leaves_depth_first() {
    // two groups nesting three leaf layers in total
    let tree = vec![
        Layer::Group(vec![tiles(1, vec![1]), Layer::Objects(vec![])]),
        Layer::Group(vec![tiles(2, vec![2, 3])]),
    ];
    let (flat, diags) = flatten_layer_tree(tree);
    assert_eq!(flat.len(), 3);
    assert!(diags.is_empty());
    match &flat[0] {
        FlatLayer::Tiles(t) => assert_eq!(t.cells[0].raw, 1),
        _ => panic!("expected the first group's tile layer first"),
    }
    assert!(matches!(&flat[1], FlatLayer::Objects(os) if os.is_empty()));
    match &flat[2] {
        FlatLayer::Tiles(t) => assert_eq!(t.width, 2),
        _ => panic!("expected the second group's tile layer last"),
    }
}

#[test]
fn unsupported_layers_are_skipped_with_a_diagnostic() {
    let tree = vec![
        Layer::Unsupported("wind".to_string()),
        tiles(1, vec![9]),
        Layer::Image("backdrop.png".to_string()),
    ];
    let (flat, diags) = flatten_layer_tree(tree);
    assert_eq!(flat.len(), 1);
    assert_eq!(diags.len(), 1);
    assert!(matches!(&diags[0], Diagnostic::UnsupportedLayerKind(k) if k == "wind"));
}

#[test]
fn empty_tree_flattens_to_nothing() {
    let (flat, diags) = flatten_layer_tree(vec![]);
    assert!(flat.is_empty());
    assert!(diags.is_empty());
}
