use dock_workspace::codec::{
    decode, encode, unresolved_types, PersistedChild, PersistedNode, PersistedState,
};
use dock_workspace::dock::{DockArea, RestoreError};
use dock_workspace::panel::{Axis, Panel, PanelRegistry, PanelTemplate};
use dock_workspace::tree::LayoutNode;

fn template(name: &str, title: &str, closable: bool) -> PanelTemplate {
    PanelTemplate { type_id: name.to_string(), title: title.to_string(), closable, zoom: None }
}

fn registry() -> PanelRegistry {
    let mut r = PanelRegistry::new();
    assert!(r.register(template("Main", "Main", false)));
    assert!(r.register(template("Second", "Second Tab", true)));
    r
}

fn made(id: u64, name: &str, title: &str, closable: bool) -> Panel {
    Panel { id, type_id: name.to_string(), title: title.to_string(), closable, zoom: None }
}

fn stored_tabs(names: &[&str], active: usize) -> PersistedNode {
    PersistedNode::Tabs { panels: names.iter().map(|n| n.to_string()).collect(), active }
}

fn stored_split(axis: Axis, children: Vec<(PersistedNode, u32)>) -> PersistedNode {
    PersistedNode::Split {
        axis,
        children: children
            .into_iter()
            .map(|(node, weight)| PersistedChild { node, weight })
            .collect(),
    }
}

fn sample_tree() -> LayoutNode {
    LayoutNode::Split {
        axis: Axis::Vertical,
        children: vec![
            LayoutNode::Tabs {
                panels: vec![made(7, "Main", "Main", false), made(8, "Second", "Second Tab", true)],
                active: 1,
            },
            LayoutNode::Tabs { panels: vec![made(9, "Second", "Second Tab", true)], active: 0 },
        ],
        weights: vec![300_000, 700_000],
    }
}

fn sample_stored() -> PersistedNode {
    stored_split(
        Axis::Vertical,
        vec![
            (stored_tabs(&["Main", "Second"], 1), 300_000),
            (stored_tabs(&["Second"], 0), 700_000),
        ],
    )
}

#[test]
fn encode_keeps_shape_order_weights_and_types() {
    assert_eq!(encode(&sample_tree()), sample_stored());
}

#[test]
fn decode_makes_new_panels_in_order() {
    let mut r = registry();
    let tree = decode(&sample_stored(), &mut r).unwrap();
    assert_eq!(
        tree,
        LayoutNode::Split {
            axis: Axis::Vertical,
            children: vec![
                LayoutNode::Tabs {
                    panels: vec![
                        made(0, "Main", "Main", false),
                        made(1, "Second", "Second Tab", true),
                    ],
                    active: 1,
                },
                LayoutNode::Tabs { panels: vec![made(2, "Second", "Second Tab", true)], active: 0 },
            ],
            weights: vec![300_000, 700_000],
        }
    );
    assert_eq!(r.issued(), 3);
}

#[test]
fn encode_then_decode_gives_the_same_layout() {
    let mut r = registry();
    let stored = encode(&sample_tree());
    let back = decode(&stored, &mut r).unwrap();
    assert_eq!(encode(&back), stored);
    assert!(encode(&back).same_as(&stored));
}

#[test]
fn decode_passes_over_unknown_types() {
    let mut r = registry();
    let stored = stored_tabs(&["Gone", "Main", "Gone", "Second"], 3);
    assert_eq!(
        decode(&stored, &mut r),
        Some(LayoutNode::Tabs {
            panels: vec![made(0, "Main", "Main", false), made(1, "Second", "Second Tab", true)],
            active: 1,
        })
    );
}

#[test]
fn decode_prunes_what_unknown_types_leave_empty() {
    let mut r = registry();
    let stored = stored_split(
        Axis::Horizontal,
        vec![(stored_tabs(&["Gone"], 0), 500_000), (stored_tabs(&["Main"], 0), 500_000)],
    );
    assert_eq!(
        decode(&stored, &mut r),
        Some(LayoutNode::Tabs { panels: vec![made(0, "Main", "Main", false)], active: 0 })
    );
}

#[test]
fn decode_of_nothing_known_is_none() {
    let mut r = registry();
    assert_eq!(decode(&stored_tabs(&["Gone"], 0), &mut r), None);
    assert_eq!(decode(&stored_tabs(&[], 0), &mut r), None);
    assert_eq!(r.issued(), 0);
}

#[test]
fn decode_repairs_weights_and_active_index() {
    let mut r = registry();
    let stored = stored_split(
        Axis::Horizontal,
        vec![(stored_tabs(&["Main"], 5), 1), (stored_tabs(&["Second", "Second"], 2), 3)],
    );
    assert_eq!(
        decode(&stored, &mut r),
        Some(LayoutNode::Split {
            axis: Axis::Horizontal,
            children: vec![
                LayoutNode::Tabs { panels: vec![made(0, "Main", "Main", false)], active: 0 },
                LayoutNode::Tabs {
                    panels: vec![
                        made(1, "Second", "Second Tab", true),
                        made(2, "Second", "Second Tab", true),
                    ],
                    active: 1,
                },
            ],
            weights: vec![250_000, 750_000],
        })
    );
}

#[test]
fn same_as_tells_layouts_apart() {
    let a = sample_stored();
    assert!(a.same_as(&sample_stored()));
    assert!(!a.same_as(&stored_tabs(&["Main"], 0)));
    let other_weight = stored_split(
        Axis::Vertical,
        vec![
            (stored_tabs(&["Main", "Second"], 1), 300_001),
            (stored_tabs(&["Second"], 0), 700_000),
        ],
    );
    assert!(!a.same_as(&other_weight));
    let other_order = stored_split(
        Axis::Vertical,
        vec![
            (stored_tabs(&["Second", "Main"], 1), 300_000),
            (stored_tabs(&["Second"], 0), 700_000),
        ],
    );
    assert!(!a.same_as(&other_order));
    let other_active = stored_split(
        Axis::Vertical,
        vec![
            (stored_tabs(&["Main", "Second"], 0), 300_000),
            (stored_tabs(&["Second"], 0), 700_000),
        ],
    );
    assert!(!a.same_as(&other_active));
    let other_axis = stored_split(
        Axis::Horizontal,
        vec![
            (stored_tabs(&["Main", "Second"], 1), 300_000),
            (stored_tabs(&["Second"], 0), 700_000),
        ],
    );
    assert!(!a.same_as(&other_axis));
}

#[test]
fn states_differ_by_name_and_version() {
    let state = |id: &str, version: usize| PersistedState {
        id: id.to_string(),
        version,
        root: sample_stored(),
    };
    assert!(state("main", 1).same_as(&state("main", 1)));
    assert!(!state("main", 1).same_as(&state("side", 1)));
    assert!(!state("main", 1).same_as(&state("main", 2)));
}

#[test]
fn dump_is_the_durable_form_of_the_area() {
    let area = DockArea::new("main".to_string(), 3, sample_tree()).unwrap();
    let state = area.dump();
    assert_eq!(
        state,
        PersistedState { id: "main".to_string(), version: 3, root: sample_stored() }
    );
    assert!(state.same_as(&area.dump()));
}

#[test]
fn restore_takes_over_a_state_of_its_own() {
    let mut r = registry();
    let mut area = DockArea::new(
        "main".to_string(),
        3,
        LayoutNode::Tabs { panels: vec![made(100, "Main", "Main", false)], active: 0 },
    )
    .unwrap();
    let state = PersistedState { id: "main".to_string(), version: 3, root: sample_stored() };
    assert_eq!(area.restore(&state, &mut r), Ok(()));
    assert_eq!(area.dump(), state);
}

#[test]
fn restore_with_another_name_gives_the_default_layout() {
    let mut r = registry();
    let default = LayoutNode::Tabs { panels: vec![made(100, "Main", "Main", false)], active: 0 };
    let mut area = DockArea::new("main".to_string(), 3, default.duplicate()).unwrap();
    area.split(&vec![], Axis::Vertical, made(101, "Second", "Second Tab", true), None).unwrap();
    let state = PersistedState { id: "side".to_string(), version: 3, root: sample_stored() };
    assert_eq!(area.restore(&state, &mut r), Err(RestoreError::IdMismatch));
    assert_eq!(*area.root(), default);
    assert_eq!(r.issued(), 0);
}

#[test]
fn restore_with_another_version_gives_the_default_layout() {
    let mut r = registry();
    let default = LayoutNode::Tabs { panels: vec![made(100, "Main", "Main", false)], active: 0 };
    let mut area = DockArea::new("main".to_string(), 3, default.duplicate()).unwrap();
    area.split(&vec![], Axis::Vertical, made(101, "Second", "Second Tab", true), None).unwrap();
    for version in [2, 4] {
        let state = PersistedState { id: "main".to_string(), version, root: sample_stored() };
        assert_eq!(area.restore(&state, &mut r), Err(RestoreError::UnresolvableVersion));
        assert_eq!(*area.root(), default);
    }
}

#[test]
fn restore_of_a_state_with_nothing_known_gives_the_default_layout() {
    let mut r = registry();
    let default = LayoutNode::Tabs { panels: vec![made(100, "Main", "Main", false)], active: 0 };
    let mut area = DockArea::new("main".to_string(), 3, default.duplicate()).unwrap();
    area.split(&vec![], Axis::Vertical, made(101, "Second", "Second Tab", true), None).unwrap();
    let state =
        PersistedState { id: "main".to_string(), version: 3, root: stored_tabs(&["Gone"], 0) };
    assert_eq!(area.restore(&state, &mut r), Ok(()));
    assert_eq!(*area.root(), default);
}

#[test]
fn the_version_only_goes_up() {
    let mut area = DockArea::new(
        "main".to_string(),
        3,
        LayoutNode::Tabs { panels: vec![made(100, "Main", "Main", false)], active: 0 },
    )
    .unwrap();
    assert!(!area.set_version(2));
    assert_eq!(area.version(), 3);
    assert!(area.set_version(5));
    assert_eq!(area.version(), 5);
    assert_eq!(area.id(), "main");
}

#[test]
fn registry_refuses_a_type_twice_and_numbers_its_panels() {
    let mut r = registry();
    assert!(!r.register(template("Main", "Other", true)));
    assert_eq!(r.resolve(&"Second".to_string()), Some(1));
    assert_eq!(r.resolve(&"Gone".to_string()), None);
    assert_eq!(r.create(&"Second".to_string()), Some(made(0, "Second", "Second Tab", true)));
    assert_eq!(r.create(&"Gone".to_string()), None);
    assert_eq!(r.create(&"Main".to_string()), Some(made(1, "Main", "Main", false)));
    assert_eq!(r.issued(), 2);
}

#[test]
fn unresolved_types_are_listed_in_order() {
    let r = registry();
    let stored = stored_split(
        Axis::Horizontal,
        vec![
            (stored_tabs(&["Gone", "Main", "Lost"], 0), 500_000),
            (stored_tabs(&["Second", "Gone"], 0), 500_000),
        ],
    );
    assert_eq!(unresolved_types(&stored, &r), vec!["Gone", "Lost", "Gone"]);
    assert_eq!(unresolved_types(&sample_stored(), &r), Vec::<String>::new());
}

#[test]
fn a_duplicate_of_a_state_is_the_same_state() {
    let state = PersistedState { id: "main".to_string(), version: 3, root: sample_stored() };
    assert_eq!(state.duplicate(), state);
    assert!(state.duplicate().same_as(&state));
    assert_eq!(sample_stored().duplicate(), sample_stored());
}
