use day_games::solitaire::{rank_label, Stats};

#[test]
fn ranks_label_ace_to_king() {
    assert_eq!(rank_label(1), "A");
    assert_eq!(rank_label(10), "10");
    assert_eq!(rank_label(11), "J");
    assert_eq!(rank_label(13), "K");
    assert_eq!(rank_label(0), "A", "clamped up");
    assert_eq!(rank_label(40), "K", "clamped down");
}

#[test]
fn wins_extend_the_streak_and_a_loss_breaks_it() {
    let mut s = Stats::new();
    s.record_win(0, 500);
    s.record_win(0, 300);
    assert_eq!(s.played, [2, 0]);
    assert_eq!(s.won, [2, 0]);
    assert_eq!(s.best_score, [500, 0]);
    assert_eq!(s.streak, 2);
    s.record_loss(1);
    assert_eq!(s.played, [2, 1]);
    assert_eq!(s.streak, 0);
    assert_eq!(s.best_streak, 2);
    s.record_win(1, 80);
    assert_eq!(s.best_streak, 2);
    assert_eq!(s.best_score, [500, 80]);
}
