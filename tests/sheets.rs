use delver_sim::display::DisplayConstruct;
use delver_sim::entities::{Stat, Stats};

#[test]
fn example_stats_and_lookup() {
    let s = Stats::example();
    assert_eq!(s.get(Stat::Violence), 1);
    assert_eq!(s.get(Stat::Run), 7);
    assert_eq!(s.get(Stat::Maverickism), 6);
}

#[test]
fn stat_handle_writes_through() {
    let mut s = Stats::example();
    *s.get_mut(Stat::Buoyancy) = -3;
    assert_eq!(s.buoyancy, -3);
    assert_eq!(s.get(Stat::Realism), 3);
}

#[test]
fn stats_display_order_and_names() {
    let order = Stats::canonical_order();
    assert_eq!(order[0], Stat::Bloodthirst);
    assert_eq!(order[1], Stat::Violence);
    let names: Vec<&str> = order.iter().map(|s| s.name()).collect();
    assert_eq!(names, vec!["bloodthirst", "violence", "realism", "perpetuity", "buoyancy", "maverickism", "run"]);
}

#[test]
fn layout_renders_nested_children_with_bullets() {
    let layout = DisplayConstruct::ParentChildren(
        Box::new(DisplayConstruct::Single("A attacks B".to_string())),
        vec![
            DisplayConstruct::Single("B's HP decreases by 1".to_string()),
            DisplayConstruct::ParentChildren(
                Box::new(DisplayConstruct::Single("A's XP increases by 1".to_string())),
                vec![DisplayConstruct::List(vec!["x".to_string()])],
            ),
        ],
    );
    assert_eq!(layout.render(), "A attacks B\n- B's HP decreases by 1\n- A's XP increases by 1\n- - - x");
}

#[test]
fn layout_blocks_and_lists() {
    let layout = DisplayConstruct::Multi(vec![
        DisplayConstruct::Single("Crab".to_string()),
        DisplayConstruct::List(vec!["HP: oooo".to_string(), "XP: oooo".to_string()]),
    ]);
    assert_eq!(layout.render(), "Crab\n- HP: oooo\n- XP: oooo");
    assert_eq!(DisplayConstruct::Multi(vec![]).render(), "");
}

#[test]
fn every_line_of_a_child_is_indented() {
    let layout = DisplayConstruct::ParentChildren(
        Box::new(DisplayConstruct::Single("p".to_string())),
        vec![DisplayConstruct::Single("a\nb".to_string()), DisplayConstruct::Single("c\r\nd\n".to_string())],
    );
    assert_eq!(layout.render(), "p\n- a\n- b\n- c\n- d");
}

#[test]
fn single_block_renders_its_text_unchanged() {
    assert_eq!(DisplayConstruct::Single("a\nb\n".to_string()).render(), "a\nb\n");
    let bare = DisplayConstruct::ParentChildren(Box::new(DisplayConstruct::Single("p".to_string())), vec![]);
    assert_eq!(bare.render(), "p\n");
}

#[test]
fn text_lines_follow_str_lines() {
    use_lines("");
    use_lines("a");
    use_lines("a\n");
    use_lines("\n\nb");
    use_lines("x\r\ny\rz\n");
}

fn use_lines(text: &str) {
    let expected: Vec<String> = text.lines().map(|l| l.to_string()).collect();
    assert_eq!(delver_sim::display::lines_of_text(&text.to_string()), expected);
}
