use twenty_48::stats::PastGameDatapoint;
use twenty_48::stats::Scoreboard;
use twenty_48::stats::Stats;
use twenty_48::stats::StatsHistory;

fn slots(sb: &Scoreboard) -> Vec<Option<(u64, String)>> {
    let mut out = Vec::new();
    for i in 0..5 {
        out.push(sb.slot(i));
    }
    out
}

#[test]
fn scoreboard_starts_empty() {
    let sb = Scoreboard::default();
    assert!(slots(&sb).iter().all(|s| s.is_none()));
}

#[test]
fn scoreboard_keeps_the_five_best_in_order() {
    let mut sb = Scoreboard::default();
    sb.add(100, String::from("a"));
    sb.add(300, String::from("b"));
    sb.add(200, String::from("c"));
    sb.add(50, String::from("d"));
    sb.add(250, String::from("e"));
    sb.add(10, String::from("f"));
    let s = slots(&sb);
    assert_eq!(s[0], Some((300, String::from("b"))));
    assert_eq!(s[1], Some((250, String::from("e"))));
    assert_eq!(s[2], Some((200, String::from("c"))));
    assert_eq!(s[3], Some((100, String::from("a"))));
    assert_eq!(s[4], Some((50, String::from("d"))));
}

#[test]
fn scoreboard_drops_a_score_no_better_than_all_five() {
    let mut sb = Scoreboard::default();
    for (score, d) in [(500, "a"), (400, "b"), (300, "c"), (200, "d"), (100, "e")] {
        sb.add(score, String::from(d));
    }
    sb.add(100, String::from("late"));
    let s = slots(&sb);
    assert_eq!(s[4], Some((100, String::from("e"))));
}

#[test]
fn equal_score_ranks_behind_the_sitting_one() {
    let mut sb = Scoreboard::default();
    sb.add(100, String::from("first"));
    sb.add(100, String::from("second"));
    let s = slots(&sb);
    assert_eq!(s[0], Some((100, String::from("first"))));
    assert_eq!(s[1], Some((100, String::from("second"))));
}

#[test]
fn stats_new_replays_the_history() {
    let history = StatsHistory(vec![
        PastGameDatapoint { date: String::from("mon"), score: 120 },
        PastGameDatapoint { date: String::from("tue"), score: 80 },
        PastGameDatapoint { date: String::from("wed"), score: 200 },
    ]);
    let stats = Stats::new(history);
    assert_eq!(stats.lifetime_points, 400);
    assert_eq!(stats.history.0.len(), 3);
    let s = slots(&stats.scoreboard);
    assert_eq!(s[0], Some((200, String::from("wed"))));
    assert_eq!(s[1], Some((120, String::from("mon"))));
    assert_eq!(s[2], Some((80, String::from("tue"))));
    assert_eq!(s[3], None);
}

#[test]
fn on_game_finish_accumulates() {
    let mut stats = Stats::new(StatsHistory(Vec::new()));
    stats.on_game_finish(150, String::from("thu"));
    stats.on_game_finish(90, String::from("fri"));
    assert_eq!(stats.lifetime_points, 240);
    assert_eq!(stats.history.0.len(), 2);
    assert_eq!(stats.history.0[1].score, 90);
    assert_eq!(stats.history.0[1].date, String::from("fri"));
    let s = slots(&stats.scoreboard);
    assert_eq!(s[0], Some((150, String::from("thu"))));
    assert_eq!(s[1], Some((90, String::from("fri"))));
}
