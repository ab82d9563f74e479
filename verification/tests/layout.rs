use dock_workspace::dock::{DockArea, DockEvent};
use dock_workspace::panel::{Axis, Panel, ZoomMode};
use dock_workspace::tree::{LayoutError, LayoutNode, LayoutStep};

fn panel(id: u64, name: &str) -> Panel {
    Panel {
        id,
        type_id: name.to_string(),
        title: name.to_string(),
        closable: true,
        zoom: None,
    }
}

fn fixed(id: u64, name: &str) -> Panel {
    Panel { closable: false, ..panel(id, name) }
}

fn tabs(panels: Vec<Panel>, active: usize) -> LayoutNode {
    LayoutNode::Tabs { panels, active }
}

fn split(axis: Axis, children: Vec<LayoutNode>, weights: Vec<u32>) -> LayoutNode {
    LayoutNode::Split { axis, children, weights }
}

fn ids(node: &LayoutNode, out: &mut Vec<u64>) {
    match node {
        LayoutNode::Split { children, .. } => children.iter().for_each(|c| ids(c, out)),
        LayoutNode::Tabs { panels, .. } => out.extend(panels.iter().map(|p| p.id)),
    }
}

fn sorted_ids(node: &LayoutNode) -> Vec<u64> {
    let mut out = Vec::new();
    ids(node, &mut out);
    out.sort();
    out
}

fn valid(node: &LayoutNode) -> bool {
    match node {
        LayoutNode::Split { children, weights, .. } => {
            children.len() >= 2
                && weights.len() == children.len()
                && weights.iter().map(|w| *w as u64).sum::<u64>() == 1_000_000
                && children.iter().all(valid)
        }
        LayoutNode::Tabs { panels, active } => !panels.is_empty() && *active < panels.len(),
    }
}

fn two_groups() -> LayoutNode {
    split(
        Axis::Horizontal,
        vec![tabs(vec![panel(1, "A"), panel(2, "B")], 1), tabs(vec![panel(3, "C")], 0)],
        vec![250_000, 750_000],
    )
}

fn nested() -> LayoutNode {
    split(
        Axis::Vertical,
        vec![
            tabs(vec![panel(1, "A")], 0),
            split(
                Axis::Horizontal,
                vec![tabs(vec![panel(2, "B")], 0), tabs(vec![panel(3, "C"), panel(4, "D")], 0)],
                vec![400_000, 600_000],
            ),
            tabs(vec![fixed(5, "E")], 0),
        ],
        vec![200_000, 300_000, 500_000],
    )
}

#[test]
fn split_then_close_then_move_collapses_to_one_group() {
    let mut area =
        DockArea::new("main".to_string(), 1, tabs(vec![panel(1, "A"), panel(2, "B")], 0)).unwrap();

    assert_eq!(
        area.split(&vec![], Axis::Vertical, panel(3, "C"), Some((1, 1))),
        Ok(DockEvent::LayoutChanged)
    );
    assert_eq!(
        *area.root(),
        split(
            Axis::Vertical,
            vec![tabs(vec![panel(1, "A"), panel(2, "B")], 0), tabs(vec![panel(3, "C")], 0)],
            vec![500_000, 500_000],
        )
    );

    assert_eq!(area.close_panel(1), Ok(DockEvent::LayoutChanged));
    assert_eq!(
        *area.root(),
        split(
            Axis::Vertical,
            vec![tabs(vec![panel(2, "B")], 0), tabs(vec![panel(3, "C")], 0)],
            vec![500_000, 500_000],
        )
    );

    assert_eq!(area.move_panel(2, &vec![0], &vec![1]), Ok(DockEvent::LayoutChanged));
    assert_eq!(*area.root(), tabs(vec![panel(3, "C"), panel(2, "B")], 1));
}

#[test]
fn split_without_ratio_is_even() {
    let tree = tabs(vec![panel(1, "A")], 0);
    let after = tree.split(&vec![], Axis::Horizontal, panel(2, "B"), None).unwrap();
    assert_eq!(
        after,
        split(
            Axis::Horizontal,
            vec![tabs(vec![panel(1, "A")], 0), tabs(vec![panel(2, "B")], 0)],
            vec![500_000, 500_000],
        )
    );
}

#[test]
fn split_with_ratio_one_to_three() {
    let tree = tabs(vec![panel(1, "A")], 0);
    let after = tree.split(&vec![], Axis::Horizontal, panel(2, "B"), Some((1, 3))).unwrap();
    assert_eq!(
        after,
        split(
            Axis::Horizontal,
            vec![tabs(vec![panel(1, "A")], 0), tabs(vec![panel(2, "B")], 0)],
            vec![250_000, 750_000],
        )
    );
}

#[test]
fn split_inside_a_split_keeps_the_siblings() {
    let after = nested().split(&vec![1, 0], Axis::Vertical, panel(9, "N"), None).unwrap();
    assert_eq!(
        after,
        split(
            Axis::Vertical,
            vec![
                tabs(vec![panel(1, "A")], 0),
                split(
                    Axis::Horizontal,
                    vec![
                        split(
                            Axis::Vertical,
                            vec![tabs(vec![panel(2, "B")], 0), tabs(vec![panel(9, "N")], 0)],
                            vec![500_000, 500_000],
                        ),
                        tabs(vec![panel(3, "C"), panel(4, "D")], 0),
                    ],
                    vec![400_000, 600_000],
                ),
                tabs(vec![fixed(5, "E")], 0),
            ],
            vec![200_000, 300_000, 500_000],
        )
    );
}

#[test]
fn split_at_a_position_that_does_not_exist_is_refused() {
    let tree = two_groups();
    assert_eq!(
        tree.split(&vec![2], Axis::Vertical, panel(9, "N"), None),
        Err(LayoutError::InvalidPosition)
    );
    assert_eq!(
        tree.split(&vec![0, 0], Axis::Vertical, panel(9, "N"), None),
        Err(LayoutError::InvalidPosition)
    );
}

#[test]
fn a_refused_change_leaves_the_dock_area_as_it_was() {
    let mut area = DockArea::new("main".to_string(), 1, two_groups()).unwrap();
    assert_eq!(
        area.split(&vec![5], Axis::Vertical, panel(9, "N"), None),
        Err(LayoutError::InvalidPosition)
    );
    assert_eq!(area.close_panel(77), Err(LayoutError::PanelNotFound));
    assert_eq!(area.move_panel(1, &vec![1], &vec![0]), Err(LayoutError::PanelNotFound));
    assert_eq!(area.resize(&vec![], &vec![1]), Err(LayoutError::RatioMismatch));
    assert_eq!(*area.root(), two_groups());
}

#[test]
fn resize_normalizes_the_ratios() {
    let after = two_groups().resize(&vec![], &vec![3, 1]).unwrap();
    assert_eq!(
        after,
        split(
            Axis::Horizontal,
            vec![tabs(vec![panel(1, "A"), panel(2, "B")], 1), tabs(vec![panel(3, "C")], 0)],
            vec![750_000, 250_000],
        )
    );
}

#[test]
fn resize_with_the_wrong_number_of_ratios_is_refused() {
    assert_eq!(two_groups().resize(&vec![], &vec![1, 2, 3]), Err(LayoutError::RatioMismatch));
    assert_eq!(two_groups().resize(&vec![], &vec![]), Err(LayoutError::RatioMismatch));
}

#[test]
fn resize_of_what_is_no_split_is_refused() {
    assert_eq!(two_groups().resize(&vec![0], &vec![1, 2]), Err(LayoutError::InvalidPosition));
    assert_eq!(two_groups().resize(&vec![4], &vec![1, 2]), Err(LayoutError::InvalidPosition));
}

#[test]
fn move_within_the_tree_keeps_both_groups() {
    let after = two_groups().move_panel(1, &vec![0], &vec![1]).unwrap();
    assert_eq!(
        after,
        split(
            Axis::Horizontal,
            vec![tabs(vec![panel(2, "B")], 0), tabs(vec![panel(3, "C"), panel(1, "A")], 1)],
            vec![250_000, 750_000],
        )
    );
}

#[test]
fn move_within_one_group_puts_the_panel_last() {
    let after = two_groups().move_panel(1, &vec![0], &vec![0]).unwrap();
    assert_eq!(
        after,
        split(
            Axis::Horizontal,
            vec![tabs(vec![panel(2, "B"), panel(1, "A")], 1), tabs(vec![panel(3, "C")], 0)],
            vec![250_000, 750_000],
        )
    );
}

#[test]
fn move_that_empties_a_group_of_three_renormalizes_the_weights() {
    let after = nested().move_panel(1, &vec![0], &vec![2]).unwrap();
    assert_eq!(
        after,
        split(
            Axis::Vertical,
            vec![
                split(
                    Axis::Horizontal,
                    vec![
                        tabs(vec![panel(2, "B")], 0),
                        tabs(vec![panel(3, "C"), panel(4, "D")], 0),
                    ],
                    vec![400_000, 600_000],
                ),
                tabs(vec![fixed(5, "E"), panel(1, "A")], 1),
            ],
            vec![375_000, 625_000],
        )
    );
}

#[test]
fn move_of_a_panel_that_is_not_there_is_refused() {
    assert_eq!(two_groups().move_panel(3, &vec![0], &vec![1]), Err(LayoutError::PanelNotFound));
    assert_eq!(two_groups().move_panel(1, &vec![], &vec![1]), Err(LayoutError::PanelNotFound));
    assert_eq!(two_groups().move_panel(1, &vec![7], &vec![1]), Err(LayoutError::PanelNotFound));
}

#[test]
fn move_to_what_is_no_group_is_refused() {
    assert_eq!(two_groups().move_panel(1, &vec![0], &vec![]), Err(LayoutError::InvalidPosition));
    assert_eq!(two_groups().move_panel(1, &vec![0], &vec![3]), Err(LayoutError::InvalidPosition));
}

#[test]
fn close_collapses_a_split_with_one_child_left() {
    let after = two_groups().close_panel(3).unwrap();
    assert_eq!(after, tabs(vec![panel(1, "A"), panel(2, "B")], 1));
}

#[test]
fn close_of_the_active_last_panel_activates_the_one_before() {
    let after = two_groups().close_panel(2).unwrap();
    assert_eq!(
        after,
        split(
            Axis::Horizontal,
            vec![tabs(vec![panel(1, "A")], 0), tabs(vec![panel(3, "C")], 0)],
            vec![250_000, 750_000],
        )
    );
}

#[test]
fn close_of_a_panel_before_the_active_one_keeps_it_active() {
    let after = two_groups().close_panel(1).unwrap();
    assert_eq!(
        after,
        split(
            Axis::Horizontal,
            vec![tabs(vec![panel(2, "B")], 0), tabs(vec![panel(3, "C")], 0)],
            vec![250_000, 750_000],
        )
    );
}

#[test]
fn close_in_a_nested_split_collapses_it() {
    let after = nested().close_panel(2).unwrap();
    assert_eq!(
        after,
        split(
            Axis::Vertical,
            vec![
                tabs(vec![panel(1, "A")], 0),
                tabs(vec![panel(3, "C"), panel(4, "D")], 0),
                tabs(vec![fixed(5, "E")], 0),
            ],
            vec![200_000, 300_000, 500_000],
        )
    );
}

#[test]
fn close_of_a_panel_that_may_not_be_closed_is_refused() {
    assert_eq!(nested().close_panel(5), Err(LayoutError::NotClosable));
}

#[test]
fn close_of_the_last_panel_is_refused() {
    assert_eq!(tabs(vec![panel(1, "A")], 0).close_panel(1), Err(LayoutError::NotClosable));
}

#[test]
fn close_of_a_panel_that_is_not_there_is_refused() {
    assert_eq!(nested().close_panel(42), Err(LayoutError::PanelNotFound));
}

#[test]
fn find_panel_gives_position_and_index() {
    assert_eq!(nested().find_panel(4), Some((vec![1, 1], 1)));
    assert_eq!(nested().find_panel(1), Some((vec![0], 0)));
    assert_eq!(nested().find_panel(5), Some((vec![2], 0)));
    assert_eq!(nested().find_panel(6), None);
    assert_eq!(tabs(vec![panel(1, "A")], 0).find_panel(1), Some((vec![], 0)));
}

#[test]
fn node_at_follows_the_path() {
    let tree = nested();
    assert_eq!(tree.node_at(&vec![]), Some(&nested()));
    assert_eq!(tree.node_at(&vec![1, 0]), Some(&tabs(vec![panel(2, "B")], 0)));
    assert_eq!(tree.node_at(&vec![3]), None);
    assert_eq!(tree.node_at(&vec![0, 0]), None);
}

#[test]
fn simplify_drops_empty_groups_and_collapses_splits() {
    let tree = split(
        Axis::Horizontal,
        vec![
            tabs(vec![], 0),
            split(Axis::Vertical, vec![tabs(vec![panel(1, "A")], 4)], vec![1]),
            tabs(vec![panel(2, "B")], 0),
        ],
        vec![10, 30, 10],
    );
    assert_eq!(
        tree.simplify(),
        Some(split(
            Axis::Horizontal,
            vec![tabs(vec![panel(1, "A")], 0), tabs(vec![panel(2, "B")], 0)],
            vec![750_000, 250_000],
        ))
    );
}

#[test]
fn simplify_of_a_tree_without_panels_is_none() {
    let tree = split(Axis::Horizontal, vec![tabs(vec![], 0), tabs(vec![], 0)], vec![1, 1]);
    assert_eq!(tree.simplify(), None);
    assert!(DockArea::new("main".to_string(), 1, tree).is_none());
}

#[test]
fn simplify_leaves_a_valid_tree_as_it_is() {
    assert_eq!(nested().simplify(), Some(nested()));
    assert_eq!(two_groups().simplify(), Some(two_groups()));
}

#[test]
fn a_duplicate_is_equal_to_the_tree() {
    assert_eq!(nested().duplicate(), nested());
}

#[test]
fn a_gesture_is_one_change() {
    let mut area = DockArea::new("main".to_string(), 1, two_groups()).unwrap();
    let steps = vec![
        LayoutStep::Split {
            target: vec![1],
            axis: Axis::Vertical,
            panel: panel(9, "N"),
            ratio: None,
        },
        LayoutStep::MovePanel { panel_id: 1, from: vec![0], to: vec![1, 1] },
        LayoutStep::ClosePanel { panel_id: 2 },
    ];
    assert_eq!(area.apply_gesture(&steps), Ok(DockEvent::LayoutChanged));
    assert_eq!(
        *area.root(),
        split(
            Axis::Vertical,
            vec![tabs(vec![panel(3, "C")], 0), tabs(vec![panel(9, "N"), panel(1, "A")], 1)],
            vec![500_000, 500_000],
        )
    );
}

#[test]
fn a_gesture_with_a_refused_step_changes_nothing() {
    let mut area = DockArea::new("main".to_string(), 1, two_groups()).unwrap();
    let steps = vec![
        LayoutStep::ClosePanel { panel_id: 3 },
        LayoutStep::Resize { position: vec![], ratios: vec![1, 1] },
    ];
    assert_eq!(area.apply_gesture(&steps), Err(LayoutError::InvalidPosition));
    assert_eq!(*area.root(), two_groups());
}

#[test]
fn panel_answers_what_it_is() {
    let p = Panel {
        id: 4,
        type_id: "Editor".to_string(),
        title: "main.rs".to_string(),
        closable: true,
        zoom: Some(ZoomMode::Toolbar),
    };
    assert_eq!(p.type_id(), "Editor");
    assert_eq!(p.title(), "main.rs");
    assert!(p.closable());
    assert_eq!(p.zoom_capability(), Some(ZoomMode::Toolbar));
    assert_eq!(p.duplicate(), p);
}

#[test]
fn activate_makes_the_panel_active_where_it_is() {
    let after = nested().activate_panel(4).unwrap();
    assert_eq!(
        after,
        split(
            Axis::Vertical,
            vec![
                tabs(vec![panel(1, "A")], 0),
                split(
                    Axis::Horizontal,
                    vec![
                        tabs(vec![panel(2, "B")], 0),
                        tabs(vec![panel(3, "C"), panel(4, "D")], 1),
                    ],
                    vec![400_000, 600_000],
                ),
                tabs(vec![fixed(5, "E")], 0),
            ],
            vec![200_000, 300_000, 500_000],
        )
    );
    assert_eq!(two_groups().activate_panel(1).unwrap().node_at(&vec![0]), Some(&tabs(
        vec![panel(1, "A"), panel(2, "B")],
        0,
    )));
}

#[test]
fn activate_of_a_panel_that_is_not_there_is_refused() {
    assert_eq!(nested().activate_panel(42), Err(LayoutError::PanelNotFound));
    let mut area = DockArea::new("main".to_string(), 1, two_groups()).unwrap();
    assert_eq!(area.activate_panel(42), Err(LayoutError::PanelNotFound));
    assert_eq!(area.activate_panel(1), Ok(DockEvent::LayoutChanged));
}

#[test]
fn changes_neither_lose_nor_copy_panels() {
    let tree = nested();
    assert_eq!(sorted_ids(&tree), vec![1, 2, 3, 4, 5]);
    assert_eq!(sorted_ids(&tree.move_panel(3, &vec![1, 1], &vec![0]).unwrap()), vec![1, 2, 3, 4, 5]);
    assert_eq!(sorted_ids(&tree.resize(&vec![1], &vec![9, 1]).unwrap()), vec![1, 2, 3, 4, 5]);
    assert_eq!(sorted_ids(&tree.activate_panel(4).unwrap()), vec![1, 2, 3, 4, 5]);
    assert_eq!(sorted_ids(&tree.close_panel(3).unwrap()), vec![1, 2, 4, 5]);
    assert_eq!(
        sorted_ids(&tree.split(&vec![2], Axis::Horizontal, panel(6, "F"), None).unwrap()),
        vec![1, 2, 3, 4, 5, 6]
    );
}

#[test]
fn every_change_keeps_the_invariant() {
    let mut tree = nested();
    assert!(valid(&tree));
    assert!(tree.is_valid());
    let steps = vec![
        LayoutStep::MovePanel { panel_id: 2, from: vec![1, 0], to: vec![0] },
        LayoutStep::Resize { position: vec![], ratios: vec![1, 1, 1] },
        LayoutStep::Split { target: vec![1], axis: Axis::Horizontal, panel: panel(7, "G"), ratio: Some((1, 6)) },
        LayoutStep::ClosePanel { panel_id: 3 },
        LayoutStep::ClosePanel { panel_id: 4 },
        LayoutStep::Activate { panel_id: 2 },
        LayoutStep::ClosePanel { panel_id: 7 },
        LayoutStep::MovePanel { panel_id: 1, from: vec![0], to: vec![1] },
        LayoutStep::ClosePanel { panel_id: 2 },
    ];
    for step in &steps {
        tree = tree.apply(step).unwrap();
        assert!(valid(&tree), "after {:?}: {:?}", step, tree);
        assert!(tree.is_valid());
    }
    assert_eq!(tree, tabs(vec![fixed(5, "E"), panel(1, "A")], 1));
    assert_eq!(nested().apply_all(&steps), Ok(tabs(vec![fixed(5, "E"), panel(1, "A")], 1)));
}

#[test]
fn is_valid_tells_what_breaks_the_invariant() {
    assert!(nested().is_valid());
    assert!(two_groups().is_valid());
    assert!(tabs(vec![panel(1, "A")], 0).is_valid());
    // A tab group without panels, and one with its active index out of range.
    assert!(!tabs(vec![], 0).is_valid());
    assert!(!tabs(vec![panel(1, "A")], 1).is_valid());
    // A split with one child.
    assert!(!split(Axis::Vertical, vec![tabs(vec![panel(1, "A")], 0)], vec![1_000_000]).is_valid());
    // Weights that do not add up, and a weight too few.
    let groups = || vec![tabs(vec![panel(1, "A")], 0), tabs(vec![panel(2, "B")], 0)];
    assert!(!split(Axis::Vertical, groups(), vec![500_000, 499_999]).is_valid());
    assert!(!split(Axis::Vertical, groups(), vec![1_000_000]).is_valid());
    assert!(split(Axis::Vertical, groups(), vec![0, 1_000_000]).is_valid());
    // A fault further down.
    assert!(!split(
        Axis::Vertical,
        vec![tabs(vec![panel(1, "A")], 0), split(Axis::Horizontal, groups(), vec![1, 2])],
        vec![500_000, 500_000],
    )
    .is_valid());
}

#[test]
fn a_dock_area_always_holds_a_valid_tree() {
    let broken = split(
        Axis::Horizontal,
        vec![tabs(vec![], 3), tabs(vec![panel(1, "A"), panel(2, "B")], 9), tabs(vec![panel(3, "C")], 0)],
        vec![5, 5],
    );
    assert!(!broken.is_valid());
    let area = DockArea::new("main".to_string(), 1, broken).unwrap();
    assert!(area.root().is_valid());
    assert_eq!(
        *area.root(),
        split(
            Axis::Horizontal,
            vec![tabs(vec![panel(1, "A"), panel(2, "B")], 1), tabs(vec![panel(3, "C")], 0)],
            vec![1_000_000, 0],
        )
    );
}
