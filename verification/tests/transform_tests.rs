use fixsrt::srt::Subtitle;
use fixsrt::transform::{
    do_replacements, do_time_changes, replace_in_subtitle, replace_in_subtitles,
    should_keep_last_sub, time_changes_fit, FIVE_HOURS_MS,
};
use fixsrt::txt_rep::Rule;

fn sub(num: u32, from: i32, to: i32, texts: &[&str]) -> Subtitle {
    Subtitle {
        num,
        time_from: from,
        time_to: to,
        texts: texts.iter().map(|t| t.to_string()).collect(),
    }
}

fn at(times: &[i32]) -> Vec<Subtitle> {
    times
        .iter()
        .enumerate()
        .map(|(i, t)| sub(i as u32 + 1, *t, *t + 500, &["x"]))
        .collect()
}

fn starts(subs: &[Subtitle]) -> Vec<i32> {
    subs.iter().map(|s| s.time_from).collect()
}

fn ends(subs: &[Subtitle]) -> Vec<i32> {
    subs.iter().map(|s| s.time_to).collect()
}

#[test]
fn the_last_subtitle_is_kept_or_not() {
    assert_eq!(FIVE_HOURS_MS, 5 * 60 * 60 * 1000);
    assert!(should_keep_last_sub(&vec![]));
    assert!(should_keep_last_sub(&at(&[1])));
    assert!(!should_keep_last_sub(&at(&[0])));
    assert!(!should_keep_last_sub(&at(&[-5])));
    assert!(should_keep_last_sub(&at(&[0, 0])));
    assert!(should_keep_last_sub(&at(&[0, 10])));
    assert!(!should_keep_last_sub(&at(&[10, 9])));
    assert!(should_keep_last_sub(&at(&[10, 10 + 18_000_000])));
    assert!(!should_keep_last_sub(&at(&[10, 10 + 18_000_001])));
    assert!(should_keep_last_sub(&at(&[100, -7, -6])));
    assert!(!should_keep_last_sub(&at(&[-2_000_000_000, 2_000_000_000])));
    assert!(!should_keep_last_sub(&at(&[2_000_000_000, -2_000_000_000])));
}

#[test]
fn stretch_distribution() {
    let mut subs = at(&[1000, 2000, 3000]);
    assert_eq!(do_time_changes(&mut subs, 0, 300), Ok(()));
    assert_eq!(starts(&subs), vec![1000, 2150, 3300]);
    assert_eq!(ends(&subs), vec![1500, 2650, 3800]);
}

#[test]
fn shift_moves_every_time() {
    let mut subs = at(&[1000, 2000, 3000]);
    assert_eq!(do_time_changes(&mut subs, -1500, 0), Ok(()));
    assert_eq!(starts(&subs), vec![-500, 500, 1500]);
    assert_eq!(ends(&subs), vec![0, 1000, 2000]);
    assert_eq!(subs[1].num, 2);
    assert_eq!(subs[1].texts, vec!["x"]);
}

#[test]
fn shift_and_stretch_add_up() {
    let mut subs = at(&[0, 1000, 2000, 3000, 4000]);
    assert_eq!(do_time_changes(&mut subs, 10, 1000), Ok(()));
    assert_eq!(starts(&subs), vec![10, 1260, 2510, 3760, 5010]);
}

#[test]
fn the_share_of_the_stretch_is_rounded_down() {
    let mut subs = at(&[1000, 2000, 3000, 4000]);
    assert_eq!(do_time_changes(&mut subs, 0, 100), Ok(()));
    assert_eq!(starts(&subs), vec![1000, 2033, 3066, 4100]);
    let mut subs = at(&[1000, 2000, 3000, 4000]);
    assert_eq!(do_time_changes(&mut subs, 0, -100), Ok(()));
    assert_eq!(starts(&subs), vec![1000, 1966, 2933, 3900]);
    let mut subs = at(&[1000, 2000, 3000]);
    assert_eq!(do_time_changes(&mut subs, 0, -301), Ok(()));
    assert_eq!(starts(&subs), vec![1000, 1849, 2699]);
    let mut subs = at(&[1000, 2000, 3000]);
    assert_eq!(do_time_changes(&mut subs, 0, 301), Ok(()));
    assert_eq!(starts(&subs), vec![1000, 2150, 3301]);
}

#[test]
fn a_last_subtitle_that_does_not_count_is_only_shifted() {
    // The last one goes backward.
    let mut subs = at(&[1000, 2000, 3000, 500]);
    assert_eq!(do_time_changes(&mut subs, 7, 300), Ok(()));
    assert_eq!(starts(&subs), vec![1007, 2157, 3307, 507]);
    // The last one comes more than five hours later.
    let mut subs = at(&[1000, 2000, 20_000_000]);
    assert_eq!(do_time_changes(&mut subs, 0, 300), Ok(()));
    assert_eq!(starts(&subs), vec![1000, 2300, 20_000_000]);
}

#[test]
fn nothing_is_stretched_where_fewer_than_two_count() {
    let mut subs = at(&[1000]);
    assert_eq!(do_time_changes(&mut subs, 5, 300), Ok(()));
    assert_eq!(starts(&subs), vec![1005]);
    let mut subs = at(&[1000, 500]);
    assert_eq!(do_time_changes(&mut subs, 5, 300), Ok(()));
    assert_eq!(starts(&subs), vec![1005, 505]);
    let mut subs = at(&[0]);
    assert_eq!(do_time_changes(&mut subs, 5, 300), Ok(()));
    assert_eq!(starts(&subs), vec![5]);
    let mut subs: Vec<Subtitle> = vec![];
    assert_eq!(do_time_changes(&mut subs, 5, 300), Ok(()));
    assert!(subs.is_empty());
}

#[test]
fn zero_shift_and_zero_stretch_change_nothing() {
    let mut subs = at(&[1000, 2000, i32::MAX - 500]);
    let before = subs.clone();
    assert_eq!(do_time_changes(&mut subs, 0, 0), Ok(()));
    assert_eq!(subs, before);
}

#[test]
fn a_large_stretch_over_many_subtitles() {
    let times: Vec<i32> = (0..2001).map(|i| i * 1000).collect();
    let mut subs = at(&times);
    assert!(time_changes_fit(&subs, 0, 2_000_000_000));
    assert_eq!(do_time_changes(&mut subs, 0, 2_000_000_000), Ok(()));
    assert_eq!(subs[0].time_from, 0);
    assert_eq!(subs[1].time_from, 1000 + 1_000_000);
    assert_eq!(subs[1999].time_from, 1_999_000 + 1_999_000_000);
    assert_eq!(subs[2000].time_from, 2_000_000 + 2_000_000_000);
}

#[test]
fn time_changes_fit_tells_when_the_times_stay_in_range() {
    let subs = at(&[1000, 2000, 3000]);
    assert!(time_changes_fit(&subs, 0, 0));
    assert!(time_changes_fit(&subs, i32::MAX - 3500, 0));
    assert!(!time_changes_fit(&subs, i32::MAX - 3499, 0));
    assert!(time_changes_fit(&subs, i32::MIN, 0x7fff_ffff));
    assert!(time_changes_fit(&subs, i32::MIN, 0));
    assert!(!time_changes_fit(&at(&[-1, 5]), i32::MIN, 0));
    assert!(!time_changes_fit(&subs, 0, i32::MAX));
    assert!(time_changes_fit(&subs, 0, i32::MAX - 3500));
    assert!(!time_changes_fit(&subs, 0, i32::MAX - 3499));
    assert!(time_changes_fit(&subs, -1000, i32::MIN));
    assert!(time_changes_fit(&vec![], i32::MAX, i32::MAX));
    let mut subs = at(&[1000, 2000, 3000]);
    assert_eq!(do_time_changes(&mut subs, i32::MAX - 3500, 0), Ok(()));
    assert_eq!(ends(&subs), vec![i32::MAX - 2000, i32::MAX - 1000, i32::MAX]);
}

#[test]
fn every_line_of_text_is_rewritten() {
    let mut subs = vec![
        sub(1, 0, 1, &["Ca va?", "un coca"]),
        sub(2, 1, 2, &[]),
        sub(3, 2, 3, &["des soeurs."]),
    ];
    do_replacements(&mut subs, "FR");
    assert_eq!(
        subs,
        vec![
            sub(1, 0, 1, &["Ça va\u{a0}?", "un coca"]),
            sub(2, 1, 2, &[]),
            sub(3, 2, 3, &["des sœurs."]),
        ]
    );
    let mut subs = vec![sub(1, 0, 1, &["Ca va", "l'm here"])];
    do_replacements(&mut subs, "EN");
    assert_eq!(subs, vec![sub(1, 0, 1, &["Ca va", "I'm here"])]);
    let mut subs: Vec<Subtitle> = vec![];
    do_replacements(&mut subs, "FR");
    assert!(subs.is_empty());
}

#[test]
fn rules_of_one_s_own_can_be_given() {
    let rules = vec![Rule::new("a", "b"), Rule::new("b", "c")];
    let mut one = sub(1, 5, 6, &["a", "b a", "d"]);
    replace_in_subtitle(&mut one, &rules);
    assert_eq!(one, sub(1, 5, 6, &["c", "c c", "d"]));
    let mut subs = vec![sub(1, 0, 1, &["a"]), sub(2, 1, 2, &["x", "b"])];
    replace_in_subtitles(&mut subs, &rules);
    assert_eq!(subs, vec![sub(1, 0, 1, &["c"]), sub(2, 1, 2, &["x", "c"])]);
}
