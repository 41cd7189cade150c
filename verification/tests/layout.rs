use niri::layout::anchors::AnchorMap;
use niri::layout::plane::navigation::{opposite, Direction};
use niri::layout::plane::placement::{group_items, ItemKey, State};
use niri::layout::plane::reflow::reflow_matches;
use niri::layout::scrolling::navigation::lowest_touching;
use niri::layout::scrolling::placement::{arrange_order, contact_component};
use niri::layout::search::{holds_id, index_of};

fn item(id: u64, app_id: Option<&str>, order: u64) -> ItemKey {
    ItemKey {
        id,
        app_id: app_id.map(|s| s.to_string()),
        order,
    }
}

#[test]
fn opposite_turns_each_direction_around() {
    assert_eq!(opposite(Direction::Left), Direction::Right);
    assert_eq!(opposite(Direction::Right), Direction::Left);
    assert_eq!(opposite(Direction::Up), Direction::Down);
    assert_eq!(opposite(Direction::Down), Direction::Up);
}

#[test]
fn opposite_twice_is_identity() {
    for d in [Direction::Left, Direction::Right, Direction::Up, Direction::Down] {
        assert_eq!(opposite(opposite(d)), d);
        assert_ne!(opposite(d), d);
    }
}

#[test]
fn anchor_map_insert_then_get() {
    let mut map: AnchorMap<(i32, i32)> = AnchorMap::new();
    assert_eq!(map.get(&"foot".to_string()), None);
    map.insert("foot".to_string(), (1, 2));
    map.insert("firefox".to_string(), (3, 4));
    assert_eq!(map.get(&"foot".to_string()), Some(&(1, 2)));
    map.insert("foot".to_string(), (5, 6));
    assert_eq!(map.get(&"foot".to_string()), Some(&(5, 6)));
    assert_eq!(map.get(&"firefox".to_string()), Some(&(3, 4)));
}

#[test]
fn anchor_map_insert_if_absent_keeps_existing() {
    let mut map: AnchorMap<u32> = AnchorMap::new();
    map.insert_if_absent("a".to_string(), 1);
    map.insert_if_absent("a".to_string(), 2);
    assert_eq!(map.get(&"a".to_string()), Some(&1));
}

#[test]
fn anchor_map_retain_live_drops_dead_apps() {
    let mut map: AnchorMap<u32> = AnchorMap::new();
    map.insert("a".to_string(), 1);
    map.insert("b".to_string(), 2);
    map.insert("c".to_string(), 3);
    map.retain_live(&["c".to_string(), "a".to_string(), "z".to_string()]);
    assert_eq!(map.get(&"a".to_string()), Some(&1));
    assert_eq!(map.get(&"b".to_string()), None);
    assert_eq!(map.get(&"c".to_string()), Some(&3));
    assert_eq!(map.get(&"z".to_string()), None);
}

#[test]
fn plane_state_needs_arrange_until_recorded() {
    let items = vec![item(1, Some("a"), 0), item(2, None, 1)];
    let mut state: State<(f64, f64)> = State::new();
    assert!(state.needs_arrange(&items));
    assert!(!state.needs_arrange(&[]));
    state.record(&items);
    assert!(!state.needs_arrange(&items));
    let reordered = vec![item(2, None, 1), item(1, Some("a"), 0)];
    assert!(!state.needs_arrange(&reordered));
    let changed_order = vec![item(1, Some("a"), 0), item(2, None, 7)];
    assert!(state.needs_arrange(&changed_order));
    assert!(state.needs_arrange(&items[..1]));
    state.invalidate();
    assert!(state.needs_arrange(&items));
    assert!(!state.needs_arrange(&[]));
}

#[test]
fn plane_state_anchors_follow_live_apps() {
    let mut state: State<(f64, f64)> = State::default();
    state.set_anchor("a".to_string(), (10., 20.));
    state.set_anchor("b".to_string(), (30., 40.));
    assert_eq!(state.anchor(&"a".to_string()), Some(&(10., 20.)));
    state.retain_live_anchors(&[item(1, Some("b"), 0), item(2, None, 1)]);
    assert_eq!(state.anchor(&"a".to_string()), None);
    assert_eq!(state.anchor(&"b".to_string()), Some(&(30., 40.)));
}

#[test]
fn group_items_groups_by_app_and_orders_groups() {
    let items = vec![
        item(10, Some("firefox"), 3),
        item(11, None, 1),
        item(12, Some("firefox"), 2),
        item(13, Some("alacritty"), 5),
        item(14, None, 1),
    ];
    let groups = group_items(&items);
    assert_eq!(groups, vec![vec![1, 4], vec![2, 0], vec![3]]);
}

#[test]
fn group_items_breaks_ties_by_key() {
    let items = vec![
        item(1, None, 4),
        item(2, Some("b"), 4),
        item(3, Some("a"), 4),
        item(4, Some("ab"), 4),
        item(5, None, 2),
    ];
    let groups = group_items(&items);
    assert_eq!(groups, vec![vec![4], vec![2], vec![3], vec![1], vec![0]]);
}

#[test]
fn group_items_of_nothing_is_empty() {
    assert!(group_items(&[]).is_empty());
}

#[test]
fn group_items_keeps_input_order_on_equal_orders() {
    let items = vec![item(1, Some("x"), 5), item(2, Some("x"), 5), item(3, Some("x"), 1)];
    assert_eq!(group_items(&items), vec![vec![2, 0, 1]]);
}

#[test]
fn contact_component_follows_chains() {
    // 0 touches 1, 1 touches 2, 3 is alone, 4 touches 0.
    let n = 5;
    let mut contacts = vec![vec![false; n]; n];
    for (a, b) in [(0, 1), (1, 2), (4, 0)] {
        contacts[a][b] = true;
        contacts[b][a] = true;
    }
    let mut component = contact_component(2, &contacts);
    assert_eq!(component[0], 2);
    component.sort();
    assert_eq!(component, vec![0, 1, 2, 4]);
    assert_eq!(contact_component(3, &contacts), vec![3]);
}

#[test]
fn contact_component_is_breadth_first() {
    let n = 4;
    let mut contacts = vec![vec![false; n]; n];
    contacts[0][2] = true;
    contacts[0][1] = true;
    contacts[1][3] = true;
    assert_eq!(contact_component(0, &contacts), vec![0, 1, 2, 3]);
}

#[test]
fn arrange_order_is_stable() {
    assert_eq!(arrange_order(&[3, 1, 3, 0, 1]), vec![3, 1, 4, 0, 2]);
    assert_eq!(arrange_order(&[]), Vec::<usize>::new());
}

#[test]
fn index_of_finds_first_occurrence() {
    assert_eq!(index_of(&[5, 7, 5], 5), Some(0));
    assert_eq!(index_of(&[5, 7, 5], 7), Some(1));
    assert_eq!(index_of(&[5, 7, 5], 9), None);
    assert!(holds_id(&[1, 2], 2));
    assert!(!holds_id(&[], 2));
}

#[test]
fn lowest_touching_picks_first_lowest_order() {
    assert_eq!(lowest_touching(&[5, 2, 2, 1], &[true, true, true, false]), Some(1));
    assert_eq!(lowest_touching(&[5, 2], &[false, false]), None);
    assert_eq!(lowest_touching(&[5, 9], &[true, true]), Some(0));
}

#[test]
fn reflow_matches_skips_new_and_added_windows() {
    let old = [1, 2, 3, 2];
    let new = [3, 4, 2, 1];
    let added = [1];
    assert_eq!(reflow_matches(&old, &new, &added), vec![(0, 2), (2, 1)]);
    assert_eq!(reflow_matches(&[], &new, &[]), vec![]);
}
