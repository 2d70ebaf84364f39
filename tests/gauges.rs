use delver_sim::progress_bars::{
    health_bar, xp_bar, Colour, ProgressBar, ProgressBarName, ProgressBarStyle, ProgressBars,
};

fn bar(max: u16, progress: u16, style: ProgressBarStyle) -> ProgressBar {
    ProgressBar { max, name: ProgressBarName::HP, progress, colour: Colour::Red, style }
}

#[test]
fn new_gauge_starts_at_zero() {
    let b = ProgressBar::new(5, ProgressBarName::XP, Colour::Green, ProgressBarStyle::Fill);
    assert_eq!(b.progress, 0);
    assert_eq!(b.max, 5);
    assert!(!b.complete());
}

#[test]
fn increment_adds_below_max() {
    let mut b = bar(4, 0, ProgressBarStyle::Fill);
    b.increment(3);
    assert_eq!(b.progress, 3);
}

#[test]
fn increment_saturates_at_max() {
    let mut b = bar(4, 0, ProgressBarStyle::Fill);
    for delta in [3u16, 3, 1, 0, 9] {
        b.increment(delta);
        assert!(b.progress <= b.max);
    }
    assert_eq!(b.progress, 4);
    assert!(b.complete());
}

#[test]
fn increment_with_largest_delta_does_not_overflow() {
    let mut b = bar(u16::MAX, u16::MAX - 1, ProgressBarStyle::Drain);
    b.increment(u16::MAX);
    assert_eq!(b.progress, u16::MAX);
}

#[test]
fn zero_sized_gauge_is_complete() {
    let b = bar(0, 0, ProgressBarStyle::Fill);
    assert!(b.complete());
    assert!(b.cells().is_empty());
}

#[test]
fn fill_cells_fill_from_the_left() {
    assert_eq!(bar(4, 1, ProgressBarStyle::Fill).cells(), vec![true, false, false, false]);
}

#[test]
fn drain_cells_fill_from_the_right() {
    assert_eq!(bar(4, 1, ProgressBarStyle::Drain).cells(), vec![false, true, true, true]);
}

#[test]
fn filled_cells_count_progress_or_remainder() {
    for max in 0u16..6 {
        for progress in 0..=max {
            let fill = bar(max, progress, ProgressBarStyle::Fill).cells();
            let drain = bar(max, progress, ProgressBarStyle::Drain).cells();
            assert_eq!(fill.iter().filter(|c| **c).count(), progress as usize);
            assert_eq!(drain.iter().filter(|c| **c).count(), (max - progress) as usize);
        }
    }
}

#[test]
fn render_cells_uses_the_given_pieces() {
    assert_eq!(bar(4, 1, ProgressBarStyle::Fill).render_cells("#", "."), "#...");
    assert_eq!(bar(4, 1, ProgressBarStyle::Drain).render_cells("#", "."), ".###");
}

#[test]
fn render_draws_one_mark_per_cell() {
    let text = bar(4, 2, ProgressBarStyle::Drain).render();
    assert_eq!(text.matches('o').count(), 4);
}

#[test]
fn standard_gauges() {
    let hp = health_bar();
    assert_eq!((hp.max, hp.progress, hp.name, hp.colour, hp.style), (4, 0, ProgressBarName::HP, Colour::Red, ProgressBarStyle::Drain));
    let xp = xp_bar();
    assert_eq!((xp.max, xp.progress, xp.name, xp.colour, xp.style), (4, 0, ProgressBarName::XP, Colour::Blue, ProgressBarStyle::Fill));
}

#[test]
fn change_verbs() {
    assert_eq!(ProgressBarStyle::Fill.change_verb(), "increase");
    assert_eq!(ProgressBarStyle::Drain.change_verb(), "decrease");
}

#[test]
fn colour_names() {
    assert_eq!(Colour::Gray.terminal_name(), "black");
    assert_eq!(Colour::Pink.terminal_name(), "magenta");
    assert_eq!(Colour::Cyan.terminal_name(), "cyan");
}

#[test]
fn gauge_slots_insert_and_increment() {
    let mut bars = ProgressBars::new();
    assert_eq!(bars.get(ProgressBarName::HP), None);
    assert_eq!(bars.insert(ProgressBarName::HP, health_bar()), None);
    let replaced = bars.insert(ProgressBarName::HP, bar(9, 0, ProgressBarStyle::Fill));
    assert_eq!(replaced.map(|b| b.max), Some(4));
    bars.increment(ProgressBarName::HP, 2);
    assert_eq!(bars.get(ProgressBarName::HP).map(|b| b.progress), Some(2));
    assert_eq!(bars.get(ProgressBarName::XP), None);
}

#[test]
fn render_paints_filled_cells_in_the_bar_colour() {
    colored::control::set_override(true);
    let text = bar(2, 1, ProgressBarStyle::Drain).render();
    colored::control::unset_override();
    assert_eq!(text, "\x1b[37mo\x1b[0m\x1b[31mo\x1b[0m");
}
