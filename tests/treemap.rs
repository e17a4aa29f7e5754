use squarified_treemap_rs::hue::branch_hues;
use squarified_treemap_rs::label::{fit_labels, LabelFit};
use squarified_treemap_rs::{layout, normalize, squarified_treemap, Cell, LayoutError, Rect, Tree};

fn leaf(name: &str, value: u32) -> Tree {
    Tree { name: name.to_string(), value, children: vec![] }
}

fn node(name: &str, value: u32, children: Vec<Tree>) -> Tree {
    Tree { name: name.to_string(), value, children }
}

fn area(r: &Rect) -> u64 {
    r.w as u64 * r.h as u64
}

fn disjoint(a: &Rect, b: &Rect) -> bool {
    a.x + a.w <= b.x || b.x + b.w <= a.x || a.y + a.h <= b.y || b.y + b.h <= a.y
}

fn inside(c: &Rect, a: &Rect) -> bool {
    a.x <= c.x && a.y <= c.y && c.x + c.w <= a.x + a.w && c.y + c.h <= a.y + a.h
}

fn random_tree() -> Tree {
    let mut tree = node("root", 0, vec![]);
    for _ in 0..10 {
        let mut group = node("foo", 0, vec![]);
        let mut sum = 0;
        for _ in 0..10 {
            let value = rand::random::<u32>() % 100 + 10;
            sum += value;
            group.children.push(leaf("bar", value));
        }
        group.value = sum;
        tree.children.push(group);
    }
    tree
}

fn check_tiling(cells: &[Cell], viewport: &Rect) {
    for (i, a) in cells.iter().enumerate() {
        assert!(inside(&a.rect, viewport));
        for b in cells.iter().skip(i + 1) {
            assert!(disjoint(&a.rect, &b.rect));
        }
    }
}

#[test]
fn todo() {
    let tree = random_tree();
    let viewport = Rect::new(0, 0, 1000, 600);
    let cells = squarified_treemap(&tree, viewport).unwrap();
    assert_eq!(cells.len(), 100);
    let total: u64 = cells.iter().map(|c| area(&c.rect)).sum();
    assert_eq!(total, 600_000);
    check_tiling(&cells, &viewport);
}

#[test]
fn two_children_in_a_square() {
    let tree = node("root", 0, vec![leaf("A", 6), leaf("B", 4)]);
    let cells = squarified_treemap(&tree, Rect::new(0, 0, 10, 10)).unwrap();
    assert_eq!(
        cells,
        vec![
            Cell { path: vec![0], name: "A".to_string(), value: 6, rect: Rect::new(0, 0, 10, 6) },
            Cell { path: vec![1], name: "B".to_string(), value: 4, rect: Rect::new(0, 6, 10, 4) },
        ]
    );
}

#[test]
fn single_child_takes_the_viewport() {
    for viewport in [Rect::new(0, 0, 10, 10), Rect::new(3, 7, 100, 1), Rect::new(5, 0, 2, 90), Rect::new(0, 0, 0, 0)] {
        let tree = node("root", 10, vec![leaf("only", 10)]);
        let cells = squarified_treemap(&tree, viewport).unwrap();
        assert_eq!(cells.len(), 1);
        assert_eq!(cells[0].rect, viewport);
        assert_eq!(cells[0].path, vec![0]);
    }
}

#[test]
fn wide_viewport_slices_across_the_width() {
    let tree = node("root", 12, vec![leaf("big", 10), leaf("x", 1), leaf("y", 1)]);
    let cells = squarified_treemap(&tree, Rect::new(0, 0, 100, 1)).unwrap();
    let rects: Vec<Rect> = cells.iter().map(|c| c.rect).collect();
    assert_eq!(rects, vec![Rect::new(0, 0, 83, 1), Rect::new(83, 0, 8, 1), Rect::new(91, 0, 9, 1)]);
    assert!(rects.iter().all(|r| area(r) > 0));
}

#[test]
fn tall_viewport_slices_across_the_height() {
    let tree = node("root", 12, vec![leaf("big", 10), leaf("x", 1), leaf("y", 1)]);
    let cells = squarified_treemap(&tree, Rect::new(0, 0, 1, 100)).unwrap();
    let rects: Vec<Rect> = cells.iter().map(|c| c.rect).collect();
    assert_eq!(rects, vec![Rect::new(0, 0, 1, 83), Rect::new(0, 83, 1, 8), Rect::new(0, 91, 1, 9)]);
}

#[test]
fn layout_keeps_the_given_order() {
    let tree = node("root", 10, vec![leaf("B", 4), leaf("A", 6)]);
    let cells = layout(&tree, Rect::new(0, 0, 10, 10)).unwrap();
    let rects: Vec<Rect> = cells.iter().map(|c| c.rect).collect();
    assert_eq!(rects, vec![Rect::new(0, 0, 4, 10), Rect::new(4, 0, 6, 10)]);
    assert_eq!(cells[0].name, "B");
}

#[test]
fn nested_groups_are_laid_out_inside_their_parent() {
    let tree = node(
        "root",
        10,
        vec![node("g", 6, vec![leaf("a", 3), leaf("b", 3)]), leaf("c", 4)],
    );
    let viewport = Rect::new(0, 0, 10, 10);
    let cells = squarified_treemap(&tree, viewport).unwrap();
    let paths: Vec<Vec<usize>> = cells.iter().map(|c| c.path.clone()).collect();
    assert_eq!(paths, vec![vec![0, 0], vec![0, 1], vec![1]]);
    assert_eq!(cells[0].rect, Rect::new(0, 0, 5, 6));
    assert_eq!(cells[1].rect, Rect::new(5, 0, 5, 6));
    assert_eq!(cells[2].rect, Rect::new(0, 6, 10, 4));
    let total: u64 = cells.iter().map(|c| area(&c.rect)).sum();
    assert_eq!(total, 100);
    check_tiling(&cells, &viewport);
}

#[test]
fn normalize_sorts_every_level_stably() {
    let tree = node(
        "root",
        0,
        vec![
            leaf("p", 1),
            node("q", 5, vec![leaf("q1", 1), leaf("q2", 4)]),
            leaf("r", 5),
            leaf("s", 0),
            leaf("t", 3),
        ],
    );
    let sorted = normalize(&tree);
    let names: Vec<&str> = sorted.children.iter().map(|c| c.name.as_str()).collect();
    assert_eq!(names, vec!["q", "r", "t", "p", "s"]);
    let inner: Vec<u32> = sorted.children[0].children.iter().map(|c| c.value).collect();
    assert_eq!(inner, vec![4, 1]);
    for w in sorted.children.windows(2) {
        assert!(w[0].value >= w[1].value);
    }
    assert_eq!(sorted.name, "root");
    assert_eq!(tree.children[0].name, "p");
}

#[test]
fn zero_weight_child_leaves_no_cell_and_no_trace() {
    let with_zero = node("root", 8, vec![leaf("a", 5), leaf("z", 0), leaf("b", 3)]);
    let without = node("root", 8, vec![leaf("a", 5), leaf("b", 3)]);
    let viewport = Rect::new(0, 0, 40, 30);
    let cells = squarified_treemap(&with_zero, viewport).unwrap();
    assert!(cells.iter().all(|c| c.value > 0));
    assert_eq!(cells, squarified_treemap(&without, viewport).unwrap());
}

#[test]
fn all_zero_children_give_no_cells() {
    let tree = node("root", 0, vec![leaf("a", 0), leaf("b", 0)]);
    assert_eq!(squarified_treemap(&tree, Rect::new(0, 0, 10, 10)).unwrap(), vec![]);
}

#[test]
fn childless_root_takes_the_viewport() {
    let tree = leaf("root", 0);
    let cells = squarified_treemap(&tree, Rect::new(1, 2, 3, 4)).unwrap();
    assert_eq!(
        cells,
        vec![Cell { path: vec![], name: "root".to_string(), value: 0, rect: Rect::new(1, 2, 3, 4) }]
    );
}

#[test]
fn same_input_same_layout() {
    let tree = random_tree();
    let viewport = Rect::new(0, 0, 1000, 600);
    assert_eq!(squarified_treemap(&tree, viewport).unwrap(), squarified_treemap(&tree, viewport).unwrap());
}

#[test]
fn viewport_past_the_coordinate_range_is_refused() {
    let tree = node("root", 1, vec![leaf("a", 1)]);
    assert_eq!(squarified_treemap(&tree, Rect::new(u32::MAX, 0, 1, 1)), Err(LayoutError::ViewportOverflow));
    assert_eq!(layout(&tree, Rect::new(0, 5, 1, u32::MAX - 4)), Err(LayoutError::ViewportOverflow));
    assert!(layout(&tree, Rect::new(0, 5, 1, u32::MAX - 5)).is_ok());
}

#[test]
fn heavy_sibling_group_is_refused() {
    let tree = node("root", 0, vec![leaf("a", u32::MAX), leaf("b", 1)]);
    assert_eq!(squarified_treemap(&tree, Rect::new(0, 0, 10, 10)), Err(LayoutError::WeightOverflow));
    let nested = node("root", 1, vec![node("g", 1, vec![leaf("a", u32::MAX), leaf("b", u32::MAX)])]);
    assert_eq!(layout(&nested, Rect::new(0, 0, 10, 10)), Err(LayoutError::WeightOverflow));
    let heaviest = node("root", 0, vec![leaf("a", u32::MAX - 1), leaf("b", 1)]);
    assert!(squarified_treemap(&heaviest, Rect::new(0, 0, u32::MAX, u32::MAX)).is_ok());
}

#[test]
fn large_weights_and_viewport_still_tile() {
    let tree = node("root", 0, vec![leaf("a", u32::MAX - 2), leaf("b", 1), leaf("c", 1)]);
    let viewport = Rect::new(0, 0, u32::MAX, u32::MAX);
    let cells = squarified_treemap(&tree, viewport).unwrap();
    let total: u128 = cells.iter().map(|c| c.rect.w as u128 * c.rect.h as u128).sum();
    assert_eq!(total, u32::MAX as u128 * u32::MAX as u128);
    check_tiling(&cells, &viewport);
}

#[test]
fn label_fit_cases() {
    assert_eq!(fit_labels(100, 70, 30, 4, 2), LabelFit::Both);
    assert_eq!(fit_labels(100, 60, 30, 4, 2), LabelFit::First);
    assert_eq!(fit_labels(50, 40, 30, 4, 3), LabelFit::Second);
    assert_eq!(fit_labels(50, 40, 30, 4, 4), LabelFit::Neither);
    assert_eq!(fit_labels(100, 30, 30, 1, 1), LabelFit::Neither);
    assert_eq!(fit_labels(60, 70, 30, 4, 3), LabelFit::Second);
}

#[test]
fn hues_are_degrees() {
    let hues = branch_hues(50);
    assert_eq!(hues.len(), 50);
    assert!(hues.iter().all(|h| *h < 360));
    assert!(branch_hues(0).is_empty());
}
