use day_games::gamekit::{
    autosave, clear_close, close, dispose, forget_background, on_background, on_close, parse_seed, pin_seed, pref_key, trim, save_all, seed,
    set_seed_override, Seeds, Shell,
};

#[test]
fn a_pinned_seed_is_odd_and_wins_over_the_clock() {
    let mut s = Seeds::new();
    assert_eq!(seed(&s, 10), 11);
    assert_eq!(seed(&s, 7), 7);
    set_seed_override(&mut s, 42);
    assert_eq!(seed(&s, 10), 43);
    assert_eq!(seed(&s, 999), 43);
}

#[test]
fn saves_live_under_their_prefixed_key() {
    assert_eq!(pref_key("pipes.v1"), "save.pipes.v1");
}

#[test]
fn each_game_keeps_one_save_hook_and_forgetting_drops_it() {
    let mut shell: Shell<u32> = Shell::new();
    assert!(autosave(&mut shell, "a", 1));
    assert!(!autosave(&mut shell, "b", 2), "the lifecycle is hooked once");
    autosave(&mut shell, "a", 3);
    let run: Vec<u32> = save_all(&shell).into_iter().copied().collect();
    assert_eq!(run, vec![2, 3], "a replaced hook runs once, after the others");
    assert_eq!(dispose(&mut shell, "b"), Some(2), "the closing page saves once more");
    let run: Vec<u32> = save_all(&shell).into_iter().copied().collect();
    assert_eq!(run, vec![3]);
    assert_eq!(dispose(&mut shell, "b"), None, "and never again");
}

#[test]
fn a_closed_page_leaves_no_background_hook() {
    let mut shell: Shell<u32> = Shell::new();
    on_background(&mut shell, "a", 1);
    autosave(&mut shell, "a", 2);
    forget_background(&mut shell, "a");
    let run: Vec<u32> = save_all(&shell).into_iter().copied().collect();
    assert_eq!(run, vec![2]);
}

#[test]
fn background_hooks_share_the_lifecycle() {
    let mut shell: Shell<u32> = Shell::new();
    assert!(on_background(&mut shell, "music", 5));
    assert!(!autosave(&mut shell, "a", 1));
}

#[test]
fn the_close_button_runs_the_page_hook_until_cleared() {
    let mut shell: Shell<u32> = Shell::new();
    assert_eq!(close(&shell), None);
    on_close(&mut shell, 9);
    assert_eq!(close(&shell), Some(&9));
    clear_close(&mut shell);
    assert_eq!(close(&shell), None);
}

#[test]
fn a_pinned_seed_reads_as_a_decimal_number() {
    use_parse();
}

fn use_parse() {
    assert_eq!(parse_seed("15"), Some(15));
    assert_eq!(parse_seed("+15"), Some(15));
    assert_eq!(parse_seed("18446744073709551615"), Some(u64::MAX));
    assert_eq!(parse_seed("18446744073709551616"), None, "too big for 64 bits");
    assert_eq!(parse_seed(""), None);
    assert_eq!(parse_seed("+"), None);
    assert_eq!(parse_seed("-3"), None);
    assert_eq!(parse_seed("12a"), None);
    let mut s = Seeds::new();
    assert_eq!(s.pinned(), None);
    set_seed_override(&mut s, parse_seed("15").unwrap());
    assert_eq!(s.pinned(), Some(15));
    assert_eq!(seed(&s, 4), 15);
    set_seed_override(&mut s, 8);
    assert_eq!(seed(&s, 4), 9, "pinned seeds are made odd");
}

#[test]
fn a_registered_hook_is_in_the_list() {
    let mut shell: Shell<u32> = Shell::new();
    on_background(&mut shell, "a", 1);
    on_background(&mut shell, "b", 2);
    on_background(&mut shell, "a", 3);
    let run: Vec<u32> = save_all(&shell).into_iter().copied().collect();
    assert_eq!(run, vec![2, 3]);
}

#[test]
fn a_seed_setting_pins_every_later_seed() {
    let mut s = Seeds::new();
    pin_seed(&mut s, Some(" 15 "));
    assert_eq!(seed(&s, 1000), 15);
    assert_eq!(seed(&s, 7), 15);
    pin_seed(&mut s, Some("\t42\n"));
    assert_eq!(seed(&s, 1000), 43);
    pin_seed(&mut s, Some("fifteen"));
    assert_eq!(seed(&s, 1000), 43, "an unreadable setting leaves the pin");
    pin_seed(&mut s, None);
    assert_eq!(seed(&s, 1000), 43);
    let mut fresh = Seeds::new();
    pin_seed(&mut fresh, Some("  "));
    assert_eq!(fresh.pinned(), None);
}

#[test]
fn trimming_drops_white_space_at_both_ends_only() {
    assert_eq!(trim("  a b \n"), "a b");
    assert_eq!(trim("\u{3000}15\u{a0}"), "15");
    assert_eq!(trim(""), "");
    assert_eq!(trim(" \t "), "");
}
