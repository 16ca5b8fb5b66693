use treedraw::connector::{anchor, bind, bind_edges, isqrt, ArrowRecord, Binding, BoxSide, ShapeRecord};
use treedraw::document::{
    generate_index, rand_element_id, simple_drawing, updated_timestamp, Element, ExcalidrawFile,
    Generator,
};
use treedraw::layout::{layout, LayoutConfig, LayoutError};
use treedraw::parser::parse_tree;

fn shape(id: &str, x: i64, y: i64, w: i64, h: i64) -> ShapeRecord {
    ShapeRecord {
        id: id.to_string(),
        x,
        y,
        width: w,
        height: h,
        index: "b01".to_string(),
        bound_element_ids: Vec::new(),
    }
}

#[test]
fn test_index_gen() {
    let exp1 = "b00";
    let exp2 = "b01";
    let exp3 = "b11";
    let exp4 = "bzz";
    let res1 = generate_index(0);
    let res2 = generate_index(1);
    let res3 = generate_index(37);
    let res4 = generate_index(36 * 36 - 1);

    assert_eq!(exp1, res1);
    assert_eq!(exp2, res2);
    assert_eq!(exp3, res3);
    assert_eq!(exp4, res4);
}

#[test]
fn anchors_are_edge_midpoints() {
    let s = shape("s", 10, 20, 100, 40);
    assert_eq!(anchor(&s, BoxSide::Top), (60, 20));
    assert_eq!(anchor(&s, BoxSide::Bottom), (60, 60));
    assert_eq!(anchor(&s, BoxSide::Left), (10, 40));
    assert_eq!(anchor(&s, BoxSide::Right), (110, 40));
}

#[test]
fn isqrt_rounds_down() {
    assert_eq!(isqrt(0), 0);
    assert_eq!(isqrt(1), 1);
    assert_eq!(isqrt(99), 9);
    assert_eq!(isqrt(100), 10);
    assert_eq!(isqrt(101), 10);
}

#[test]
fn bind_right_to_left_between_two_boxes() {
    let mut a = shape("a", 0, 0, 100, 100);
    let mut b = shape("b", 200, 0, 100, 100);
    let arrow = bind(&mut a, &mut b, BoxSide::Right, BoxSide::Left, 10, "arrow1".to_string());
    assert_eq!((arrow.x, arrow.y), (100, 50));
    assert_eq!(arrow.points, vec![(0, 0), (100, 0)]);
    assert_eq!(arrow.height, 100);
    assert_eq!(arrow.width, 100);
    assert_eq!(
        arrow.start_binding,
        Some(Binding { element_id: "a".to_string(), focus: 0, gap: 10 })
    );
    assert_eq!(
        arrow.end_binding,
        Some(Binding { element_id: "b".to_string(), focus: 0, gap: 10 })
    );
    assert_eq!(a.bound_element_ids, vec!["arrow1".to_string()]);
    assert_eq!(b.bound_element_ids, vec!["arrow1".to_string()]);
}

#[test]
fn bind_supports_diagonal_vectors() {
    let mut a = shape("a", 0, 0, 100, 100);
    let mut b = shape("b", 0, 200, 100, 100);
    // bottom of a is (50, 100); right of b is (100, 250): vector (50, 150)
    let arrow = bind(&mut a, &mut b, BoxSide::Bottom, BoxSide::Right, 5, "d".to_string());
    assert_eq!((arrow.x, arrow.y), (50, 100));
    assert_eq!(arrow.points, vec![(0, 0), (50, 150)]);
    assert_eq!(arrow.width, 50);
    // floor of sqrt(50*50 + 150*150) = floor(158.1..)
    assert_eq!(arrow.height, 158);
}

#[test]
fn binding_twice_appends_two_entries() {
    let mut a = shape("a", 0, 0, 100, 100);
    let mut b = shape("b", 200, 0, 100, 100);
    bind(&mut a, &mut b, BoxSide::Right, BoxSide::Left, 10, "one".to_string());
    bind(&mut a, &mut b, BoxSide::Right, BoxSide::Left, 10, "two".to_string());
    assert_eq!(a.bound_element_ids, vec!["one".to_string(), "two".to_string()]);
    assert_eq!(b.bound_element_ids, vec!["one".to_string(), "two".to_string()]);
}

#[test]
fn binder_touches_two_shapes_per_edge() {
    let mut shapes = vec![
        shape("r", 0, 0, 100, 100),
        shape("a", 0, 200, 100, 100),
        shape("b", 200, 200, 100, 100),
    ];
    let edges: Vec<(usize, usize)> = vec![(0, 1), (0, 2)];
    let ids = vec!["e1".to_string(), "e2".to_string()];
    let arrows = bind_edges(&mut shapes, &edges, BoxSide::Bottom, BoxSide::Top, 10, &ids);
    assert_eq!(arrows.len(), 2);
    let total: usize = shapes.iter().map(|s| s.bound_element_ids.len()).sum();
    assert_eq!(total, 2 * edges.len());
    assert_eq!(shapes[0].bound_element_ids, vec!["e1".to_string(), "e2".to_string()]);
    assert_eq!(shapes[1].bound_element_ids, vec!["e1".to_string()]);
    assert_eq!(shapes[2].bound_element_ids, vec!["e2".to_string()]);
}

#[test]
fn layout_assigns_depths_and_rows() {
    let tree = parse_tree(":start-tree:\nroot;\na(root);b(root)\nc(a)\n:end-tree:").unwrap();
    let cfg = LayoutConfig::default();
    let rows = layout(&tree, &cfg).unwrap();
    assert_eq!(rows.len(), 4);
    let find = |name: &str| rows.iter().find(|p| p.name == name).unwrap();
    let root = find("root");
    let a = find("a");
    let b = find("b");
    let c = find("c");
    assert_eq!((root.depth, root.x, root.y), (0, 0, 0));
    assert_eq!((a.depth, a.x, a.y), (1, 0, 160));
    assert_eq!((b.depth, b.x, b.y), (1, 160, 160));
    assert_eq!((c.depth, c.x, c.y), (2, 0, 320));
    for p in rows.iter() {
        assert_eq!((p.width, p.height), (100, 100));
        assert_eq!(p.y, (p.depth as i64) * 160);
    }
    // no two nodes of one depth overlap horizontally
    for p in rows.iter() {
        for q in rows.iter() {
            if p.name != q.name && p.depth == q.depth {
                assert!(p.x + p.width <= q.x || q.x + q.width <= p.x);
            }
        }
    }
}

#[test]
fn layout_rejects_a_parent_cycle() {
    let tree = parse_tree(":start-tree:\na(b);b(a)\n:end-tree:").unwrap();
    let cfg = LayoutConfig::default();
    let res = layout(&tree, &cfg);
    assert_eq!(res, Err(LayoutError::CyclicTree("a".to_string())));
}

#[test]
fn generator_counts_and_sizes_rectangles() {
    let mut g = Generator::default();
    let small = g.small_rectangle(5, 6);
    assert_eq!(g.index, 1);
    assert_eq!((small.x, small.y, small.width, small.height), (5, 6, 0, 0));
    assert_eq!(small.index, "b01");
    assert_eq!(small.id.len(), 22);
    assert!(small.bound_element_ids.is_empty());
    let big = g.big_rectangle(-100, 100);
    assert_eq!(g.index, 2);
    assert_eq!((big.x, big.y, big.width, big.height), (-100, 100, 100, 100));
    assert_eq!(big.index, "b02");
}

#[test]
fn element_ids_are_fresh_and_well_formed() {
    let id = rand_element_id();
    assert_eq!(id.chars().count(), 22);
    for c in id.chars() {
        assert!(c.is_ascii_alphanumeric() || c == '-' || c == '_');
    }
}

#[test]
fn timestamps_are_after_the_epoch() {
    let ms = updated_timestamp();
    assert!(ms > 0);
}

#[test]
fn documents_carry_their_elements() {
    let mut g = Generator::default();
    let r = g.big_rectangle(0, 0);
    let f = simple_drawing(vec![Element::Rectangle(r.clone())]);
    assert_eq!(f.kind, "excalidraw");
    assert_eq!(f.version, 2);
    assert_eq!(f.source, "https://excalidraw.com");
    assert_eq!(f.elements.len(), 1);
    let named = ExcalidrawFile::new("local".to_string(), Vec::new());
    assert_eq!(named.source, "local");
    assert!(named.elements.is_empty());
    let empty = ExcalidrawFile::default();
    assert!(empty.elements.is_empty());
    let _arrow_holder: Option<ArrowRecord> = None;
}
