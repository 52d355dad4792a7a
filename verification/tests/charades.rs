use day_games::charades::{key_action, may_pause, KeyAction, Mark, Motion, Phase, MOTION_QUEUE};

#[test]
fn the_clock_runs_from_ready_to_time_up() {
    assert!(!Phase::Decks.timed());
    assert!(Phase::Ready.timed());
    assert!(Phase::Countdown.timed());
    assert!(Phase::Play.timed());
    assert!(Phase::TimeUp.timed());
    assert!(!Phase::Results.timed());
}

#[test]
fn a_pause_only_in_a_live_round_with_no_card_up() {
    assert!(may_pause(Phase::Play, false));
    assert!(may_pause(Phase::Ready, false));
    assert!(!may_pause(Phase::Play, true));
    assert!(!may_pause(Phase::TimeUp, false));
    assert!(!may_pause(Phase::Decks, false));
}

#[test]
fn keys_score_pass_and_start() {
    assert_eq!(key_action(Phase::Play, false, "ArrowDown"), KeyAction::Answer(Mark::Correct));
    assert_eq!(key_action(Phase::Play, false, "Enter"), KeyAction::Answer(Mark::Correct));
    assert_eq!(key_action(Phase::Play, false, " "), KeyAction::Answer(Mark::Correct));
    assert_eq!(key_action(Phase::Play, false, "ArrowUp"), KeyAction::Answer(Mark::Pass));
    assert_eq!(key_action(Phase::Play, false, "Backspace"), KeyAction::Answer(Mark::Pass));
    assert_eq!(key_action(Phase::Ready, false, "Enter"), KeyAction::Countdown);
    assert_eq!(key_action(Phase::Ready, false, "ArrowDown"), KeyAction::Ignore);
    assert_eq!(key_action(Phase::Countdown, false, "Escape"), KeyAction::Pause);
    assert_eq!(key_action(Phase::Results, false, "Escape"), KeyAction::Ignore);
    assert_eq!(key_action(Phase::Play, true, "Enter"), KeyAction::Ignore);
}

#[test]
fn motion_samples_queue_up_to_the_cap_dropping_the_oldest() {
    let mut m: Motion<[f64; 3]> = Motion::new();
    for k in 0..(MOTION_QUEUE + 5) {
        m.push([k as f64, 0.0, 9.8]);
    }
    assert_eq!(m.queue.len(), MOTION_QUEUE);
    assert_eq!(m.queue[0][0], 5.0, "the oldest five were dropped");
    assert_eq!(m.last, Some([(MOTION_QUEUE + 4) as f64, 0.0, 9.8]));
    let taken = m.take();
    assert_eq!(taken.len(), MOTION_QUEUE);
    assert!(m.queue.is_empty());
    assert!(m.last.is_some());
}
