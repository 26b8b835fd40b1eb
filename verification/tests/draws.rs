use feiting::DisplayItem;
use feiting::DrawResult;
use feiting::GameType;
use feiting::MyApp;

fn draw(number: &str, time: u64, result: &str) -> DrawResult {
    DrawResult {
        drawNumber: number.to_string(),
        drawTime: time,
        result: result.to_string(),
        detail: String::new(),
    }
}

fn app_with(draws: Vec<DrawResult>) -> MyApp {
    let mut app = MyApp::new();
    app.finish_fetch(Ok(draws));
    app
}

fn numbers(group: &[&DrawResult]) -> Vec<String> {
    group.iter().map(|d| d.drawNumber.clone()).collect()
}

fn sample() -> Vec<DrawResult> {
    vec![
        draw("003", 1700000120, "7,1,2"),
        draw("001", 1700000000, "3,4,5"),
        draw("004", 1700000180, "8,9,10"),
        draw("002", 1700000060, "5,6,7"),
        draw("005", 1700000240, "2,3,4"),
    ]
}

#[test]
fn game_codes_and_names() {
    assert_eq!(GameType::SGFeiTing.to_url(), "SGFT");
    assert_eq!(GameType::XingYunFeiTing.to_url(), "XYFT");
    assert_eq!(GameType::JiSuFeiTing.to_url(), "LUCKYSB");
    assert_eq!(GameType::JiSuSaiChe.to_url(), "PK10JSC");
    assert_eq!(GameType::SGFeiTing.to_name(), "SG飛艇");
    assert_eq!(GameType::XingYunFeiTing.to_name(), "幸運飛艇");
    assert_eq!(GameType::JiSuFeiTing.to_name(), "急速飛艇");
    assert_eq!(GameType::JiSuSaiChe.to_name(), "急速賽車");
}

#[test]
fn new_viewer_state() {
    let app = MyApp::new();
    assert_eq!(app.status(), "請點擊『獲取數據』");
    assert_eq!(app.cookie(), "");
    assert_eq!(app.filter(), "");
    assert!(app.draws().is_empty());
    assert_eq!(app.current_game(), GameType::SGFeiTing);
    assert!(app.is_game_checked(GameType::SGFeiTing));
    assert!(!app.is_game_checked(GameType::XingYunFeiTing));
    assert!(!app.is_game_checked(GameType::JiSuFeiTing));
    assert!(!app.is_game_checked(GameType::JiSuSaiChe));
}

#[test]
fn selecting_a_game_marks_only_it_and_drops_draws() {
    let mut app = app_with(sample());
    app.select_game(GameType::JiSuFeiTing);
    assert_eq!(app.current_game(), GameType::JiSuFeiTing);
    assert!(app.is_game_checked(GameType::JiSuFeiTing));
    assert!(!app.is_game_checked(GameType::SGFeiTing));
    assert!(!app.is_game_checked(GameType::XingYunFeiTing));
    assert!(!app.is_game_checked(GameType::JiSuSaiChe));
    assert!(app.draws().is_empty());
}

#[test]
fn blank_cookie_is_refused() {
    let mut app = MyApp::new();
    app.set_cookie(" \t ".to_string());
    assert_eq!(app.begin_fetch(), None);
    assert_eq!(app.status(), "❌ 請先輸入Cookie後再獲取數據");
}

#[test]
fn fetch_address_follows_the_selected_game() {
    let mut app = MyApp::new();
    app.set_cookie("session=abc".to_string());
    assert_eq!(
        app.begin_fetch(),
        Some("https://www.15678.vip/member/dayResult?lottery=SGFT".to_string())
    );
    assert_eq!(app.status(), "📡 資料抓取中...");
    app.select_game(GameType::JiSuSaiChe);
    assert_eq!(
        app.begin_fetch(),
        Some("https://www.15678.vip/member/dayResult?lottery=PK10JSC".to_string())
    );
}

#[test]
fn finished_fetch_reports_count_or_error() {
    let mut app = app_with(sample());
    assert_eq!(app.status(), "✅ 共載入 5 筆資料");
    assert_eq!(app.draws().len(), 5);
    app.finish_fetch(Err("timeout".to_string()));
    assert_eq!(app.status(), "❌ 載入失敗: timeout");
    assert_eq!(app.draws().len(), 5);
    app.finish_fetch(Ok(Vec::new()));
    assert_eq!(app.status(), "✅ 共載入 0 筆資料");
}

#[test]
fn all_matches_in_draw_number_order() {
    // In draw-number order the first numbers are 3, 5, 7, 8, 2.
    let app = app_with(sample());
    let all = app.find_all_consecutive_patterns("單單");
    let groups: Vec<Vec<String>> = all.iter().map(|g| numbers(g)).collect();
    assert_eq!(groups, vec![vec!["001", "002"], vec!["002", "003"]]);
    let all = app.find_all_consecutive_patterns("大雙");
    let groups: Vec<Vec<String>> = all.iter().map(|g| numbers(g)).collect();
    assert_eq!(groups, vec![vec!["003", "004"], vec!["004", "005"]]);
    let all = app.find_all_consecutive_patterns("小小大雙");
    let groups: Vec<Vec<String>> = all.iter().map(|g| numbers(g)).collect();
    assert_eq!(groups, vec![vec!["001", "002", "003", "004"]]);
}

#[test]
fn simplified_characters_count_too() {
    let app = app_with(sample());
    let all = app.find_all_consecutive_patterns("单双");
    let groups: Vec<Vec<String>> = all.iter().map(|g| numbers(g)).collect();
    assert_eq!(groups, vec![vec!["003", "004"]]);
}

#[test]
fn first_match_is_the_earliest() {
    let app = app_with(sample());
    assert_eq!(numbers(&app.find_consecutive_patterns("單單")), vec!["001", "002"]);
    assert!(app.find_consecutive_patterns("雙雙雙").is_empty());
}

#[test]
fn no_match_for_unknown_steps_or_empty_input() {
    let app = app_with(sample());
    assert!(app.find_all_consecutive_patterns("x").is_empty());
    assert!(app.find_all_consecutive_patterns("").is_empty());
    assert!(app.find_consecutive_patterns("").is_empty());
    let empty = MyApp::new();
    assert!(empty.find_all_consecutive_patterns("單").is_empty());
}

#[test]
fn short_history_overrun_is_detected() {
    let app = app_with(vec![draw("1", 0, "3,1")]);
    assert!(app.pattern_overruns("單單"));
    assert!(!app.pattern_overruns("雙單"));
    assert!(!app.pattern_overruns("單"));
    assert!(app.find_all_consecutive_patterns("雙單").is_empty());
}

#[test]
fn draws_with_unreadable_first_number_match_nothing() {
    let app = app_with(vec![draw("1", 0, "x,1"), draw("2", 0, " 7 ,1"), draw("3", 0, "+9")]);
    let all = app.find_all_consecutive_patterns("單");
    let groups: Vec<Vec<String>> = all.iter().map(|g| numbers(g)).collect();
    assert_eq!(groups, vec![vec!["2"], vec!["3"]]);
}

#[test]
fn equal_draw_numbers_keep_arrival_order() {
    let app = app_with(vec![draw("2", 0, "1"), draw("1", 0, "3"), draw("1", 0, "5")]);
    let all = app.find_all_consecutive_patterns("單單單");
    assert_eq!(all.len(), 1);
    let results: Vec<String> = all[0].iter().map(|d| d.result.clone()).collect();
    assert_eq!(results, vec!["3", "5", "1"]);
}

#[test]
fn beijing_time_in_seconds_and_milliseconds() {
    assert_eq!(MyApp::timestamp_to_beijing_time(1700000000), "2023-11-15 06:13:20");
    assert_eq!(MyApp::timestamp_to_beijing_time(1700000000123), "2023-11-15 06:13:20.123");
    assert_eq!(MyApp::timestamp_to_beijing_time(1700000000007), "2023-11-15 06:13:20.007");
    assert_eq!(MyApp::timestamp_to_beijing_time(1700000000000), "2023-11-15 06:13:20");
    assert_eq!(MyApp::timestamp_to_beijing_time(0), "1970-01-01 08:00:00");
    assert_eq!(MyApp::timestamp_to_beijing_time(10000000000), "2286-11-21 01:46:40");
}

#[test]
fn time_out_of_range_gives_notice() {
    assert_eq!(MyApp::timestamp_to_beijing_time(u64::MAX), "時間格式錯誤");
}

#[test]
fn whole_second_millis_read_as_seconds() {
    for t in [10_000_001u64, 1_700_000_000, 10_000_000_000] {
        assert_eq!(
            MyApp::timestamp_to_beijing_time(t * 1000),
            MyApp::timestamp_to_beijing_time(t)
        );
    }
}

fn texts(items: &[DisplayItem]) -> Vec<String> {
    items
        .iter()
        .map(|i| match i {
            DisplayItem::Heading(s) => format!("H:{}", s),
            DisplayItem::Label(s) => format!("L:{}", s),
            DisplayItem::Separator => "---".to_string(),
        })
        .collect()
}

#[test]
fn result_area_lists_all_draws_without_pattern() {
    let app = app_with(vec![draw("2", 0, "4,1"), draw("1", 0, "3,2")]);
    assert_eq!(
        texts(&app.result_items()),
        vec!["H:📋 全部數據：", "L:📊 1 → 3,2（首號：3）", "L:📊 2 → 4,1（首號：4）"]
    );
}

#[test]
fn result_area_shows_groups() {
    let mut app = app_with(vec![
        draw("1", 1700000000, "3,2"),
        draw("2", 1700000060123, "5,2"),
        draw("3", 0, "6"),
    ]);
    app.set_filter("單".to_string());
    assert_eq!(
        texts(&app.result_items()),
        vec![
            "H:🎯 找到 2 組連續模式：",
            "H:🔍 匹配組 #1 (期數: 1)",
            "L:✅ [2023-11-15 06:13:20] 1 → 3,2（首號：3）",
            "---",
            "H:🔍 匹配組 #2 (期數: 1)",
            "L:✅ [2023-11-15 06:14:20.123] 2 → 5,2（首號：5）",
        ]
    );
    app.set_filter("小小小".to_string());
    assert_eq!(texts(&app.result_items()), vec!["L:❌ 沒有找到符合連續模式的結果"]);
}

#[test]
fn result_area_empty_without_draws() {
    let mut app = MyApp::new();
    app.set_filter("單".to_string());
    assert!(app.result_items().is_empty());
}

#[test]
fn later_millis_within_a_second_show_later() {
    let base = 1_700_000_000_000u64;
    let mut previous = MyApp::timestamp_to_beijing_time(base);
    for ms in [1u64, 9, 10, 99, 100, 500, 999] {
        let shown = MyApp::timestamp_to_beijing_time(base + ms);
        assert!(previous < shown, "{} !< {}", previous, shown);
        previous = shown;
    }
}

#[test]
fn arrival_order_does_not_matter_with_distinct_numbers() {
    let mut reversed = sample();
    reversed.reverse();
    let a = app_with(sample());
    let b = app_with(reversed);
    for pattern in ["單單", "大雙", "小小大雙", "雙", "x"] {
        let ga: Vec<Vec<String>> =
            a.find_all_consecutive_patterns(pattern).iter().map(|g| numbers(g)).collect();
        let gb: Vec<Vec<String>> =
            b.find_all_consecutive_patterns(pattern).iter().map(|g| numbers(g)).collect();
        assert_eq!(ga, gb);
        assert_eq!(
            numbers(&a.find_consecutive_patterns(pattern)),
            numbers(&b.find_consecutive_patterns(pattern))
        );
    }
}

#[test]
fn longer_patterns_find_prefixes_of_shorter_matches() {
    let app = app_with(sample());
    let short: Vec<Vec<String>> =
        app.find_all_consecutive_patterns("單單").iter().map(|g| numbers(g)).collect();
    let long: Vec<Vec<String>> =
        app.find_all_consecutive_patterns("單單單").iter().map(|g| numbers(g)).collect();
    assert!(long.len() <= short.len());
    for g in &long {
        assert!(short.contains(&g[..2].to_vec()));
    }
    assert_eq!(long, vec![vec!["001", "002", "003"]]);
}
