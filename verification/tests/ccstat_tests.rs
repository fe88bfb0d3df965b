use ccstat::collect::{collect_stats, dir_selected, is_jsonl_file_name, LogFile, ProjectDir};
use ccstat::display::{display_sessions, display_summary, fits_sessions, fits_summary, fmt_num};
use ccstat::json::JsonValue;
use ccstat::parser::{entries_from_records, parse_jsonl_file, SessionEntry};
use ccstat::stats::{aggregate_entries, extract_date, extract_project_name, short_session_id, Stats};
use ccstat::text::{count_lines, display_width, pad_to_width, str_contains, str_less, truncate_display};

fn lines(v: &[&str]) -> Vec<String> {
    v.iter().map(|s| s.to_string()).collect()
}

fn entry(w: usize, e: usize, t: usize, ts: Option<&str>, sid: Option<&str>, title: Option<&str>) -> SessionEntry {
    SessionEntry {
        write_lines: w,
        edit_lines: e,
        text_lines: t,
        timestamp: ts.map(String::from),
        session_id: sid.map(String::from),
        title: title.map(String::from),
    }
}

#[test]
fn fmt_num_groups_thousands() {
    assert_eq!(fmt_num(0), "0");
    assert_eq!(fmt_num(7), "7");
    assert_eq!(fmt_num(999), "999");
    assert_eq!(fmt_num(1000), "1,000");
    assert_eq!(fmt_num(5644), "5,644");
    assert_eq!(fmt_num(1234567), "1,234,567");
    assert_eq!(fmt_num(100000), "100,000");
}

#[test]
fn fmt_num_law_commas_removed() {
    for n in [0usize, 1, 12, 123, 1234, 98765, 1000000, usize::MAX] {
        let s = fmt_num(n);
        assert_eq!(s.replace(',', ""), n.to_string());
        assert!(s.len() <= 40);
    }
}

#[test]
fn display_width_counts_wide_chars() {
    assert_eq!(display_width("abc"), 3);
    assert_eq!(display_width(""), 0);
    assert_eq!(display_width("プロジェクト"), 12);
    assert_eq!(display_width("合計"), 4);
    assert_eq!(display_width("aé"), 3);
}

#[test]
fn pad_to_width_fills_with_spaces() {
    assert_eq!(pad_to_width("ab", 5), "ab   ");
    assert_eq!(pad_to_width("abcdef", 3), "abcdef");
    assert_eq!(pad_to_width("合計", 6), "合計  ");
    assert_eq!(display_width(&pad_to_width("合計", 9)), 9);
}

#[test]
fn truncate_display_keeps_short_text() {
    assert_eq!(truncate_display("hello", 20), "hello");
    assert_eq!(truncate_display("", 20), "");
    assert_eq!(truncate_display("バグ修正してほしい", 20), "バグ修正してほしい");
}

#[test]
fn truncate_display_cuts_with_ellipsis() {
    assert_eq!(truncate_display("abcdefghij", 4), "abcd...");
    let long = "あ".repeat(15);
    let t = truncate_display(&long, 20);
    assert_eq!(t, format!("{}...", "あ".repeat(10)));
    assert_eq!(truncate_display("aあ", 2), "a...");
    assert_eq!(truncate_display("Viewをクラスベースに変更してほしい", 20), "Viewをクラスベースに...");
}

#[test]
fn count_lines_cases() {
    assert_eq!(count_lines(""), 0);
    assert_eq!(count_lines("a"), 1);
    assert_eq!(count_lines("a\nb"), 2);
    assert_eq!(count_lines("a\n"), 2);
    assert_eq!(count_lines("\n\n"), 3);
}

#[test]
fn stats_totals_and_add() {
    let mut s = Stats { write_lines: 3, edit_lines: 4, text_lines: 5 };
    assert_eq!(s.code_total(), 7);
    assert_eq!(s.total(), 12);
    s.add(&Stats { write_lines: 1, edit_lines: 2, text_lines: 3 });
    assert_eq!((s.write_lines, s.edit_lines, s.text_lines), (4, 6, 8));
    let d: Stats = Default::default();
    assert_eq!(d.total(), 0);
}

#[test]
fn extract_project_name_cases() {
    assert_eq!(extract_project_name("-Users-kumitaakira-demia-works-wasurenai"), "wasurenai");
    assert_eq!(extract_project_name("-Users-kumitaakira-demia-works-my-api"), "my-api");
    assert_eq!(extract_project_name("-Users-kumitaakira-X-FOO_BAR"), "FOO_BAR");
    assert_eq!(extract_project_name("---"), "---");
    assert_eq!(extract_project_name(""), "");
    assert_eq!(extract_project_name("-home-bob--proj"), "home-bob-proj");
    assert_eq!(extract_project_name("-Users-ABC-saas-api"), "saas-api");
    assert_eq!(extract_project_name("-Users-kumitaakira-Ab1-tool"), "Ab1-tool");
    assert_eq!(extract_project_name("-Users-Ü-DIR-x"), "x");
}

#[test]
fn extract_date_cases() {
    assert_eq!(extract_date("2026-02-27T10:11:12.000Z"), "2026-02-27");
    assert_eq!(extract_date("2026-02-27"), "2026-02-27");
    assert_eq!(extract_date("2026-02"), "unknown");
    assert_eq!(extract_date(""), "unknown");
    // 10 bytes fall inside a three-byte character
    assert_eq!(extract_date("あいうえ"), "unknown");
    assert_eq!(extract_date("aあいう"), "aあいう");
}

#[test]
fn short_session_id_cases() {
    assert_eq!(short_session_id("0123456789abcdef"), "01234567");
    assert_eq!(short_session_id("abc"), "abc");
    assert_eq!(short_session_id("あいうえ"), "あいうえ");
}

#[test]
fn str_helpers() {
    assert!(str_contains("wasurenai", "sure"));
    assert!(str_contains("abc", ""));
    assert!(!str_contains("abc", "abcd"));
    assert!(!str_contains("abc", "ac"));
    assert!(str_less("2025-06-01", "2025-06-02"));
    assert!(!str_less("b", "a"));
    assert!(str_less("", "a"));
    assert!(!str_less("a", "a"));
    assert!(str_less("ab", "abc"));
}

#[test]
fn aggregate_entries_takes_earliest_and_first() {
    let es = vec![
        entry(1, 2, 3, Some("2025-06-02T00:00:00Z"), None, None),
        entry(4, 0, 1, Some("2025-06-01T00:00:00Z"), Some("s1"), Some("t1")),
        entry(0, 0, 2, None, Some("s2"), Some("t2")),
    ];
    let (stats, ts, sid, title) = aggregate_entries(&es);
    assert_eq!((stats.write_lines, stats.edit_lines, stats.text_lines), (5, 2, 6));
    assert_eq!(ts, "2025-06-01T00:00:00Z");
    assert_eq!(sid, "s1");
    assert_eq!(title.as_deref(), Some("t1"));
}

#[test]
fn aggregate_entries_empty() {
    let (stats, ts, sid, title) = aggregate_entries(&[]);
    assert_eq!(stats.total(), 0);
    assert_eq!(ts, "");
    assert_eq!(sid, "");
    assert!(title.is_none());
}

const USER: &str = r#"{"type":"user","message":{"content":[{"type":"text","text":"<ide>ctx</ide>"},{"type":"text","text":"  バグ修正してほしい\r\n詳細"}]}}"#;
const ASSIST1: &str = r#"{"type":"assistant","timestamp":"2025-06-03T10:00:00Z","sessionId":"abcdef0123","message":{"content":[{"type":"tool_use","name":"Write","input":{"content":"a\nb\nc"}},{"type":"text","text":"done\nok"}]}}"#;
const ASSIST2: &str = r#"{"type":"assistant","timestamp":"2025-06-03T09:00:00Z","sessionId":"abcdef0123","message":{"content":[{"type":"tool_use","name":"Edit","input":{"new_string":"x\ny"}},{"type":"tool_use","name":"Read","input":{"content":"ignored"}}]}}"#;
const ASSIST_EMPTY: &str = r#"{"type":"assistant","message":{"content":[{"type":"tool_use","name":"Bash","input":{"command":"ls"}}]}}"#;

#[test]
fn parse_jsonl_file_counts_and_titles() {
    let log = lines(&["", USER, "not json", ASSIST1, ASSIST_EMPTY, ASSIST2]);
    let es = parse_jsonl_file(&log).unwrap();
    assert_eq!(es.len(), 2);
    assert_eq!((es[0].write_lines, es[0].edit_lines, es[0].text_lines), (3, 0, 2));
    assert_eq!(es[0].title.as_deref(), Some("バグ修正してほしい"));
    assert_eq!(es[0].timestamp.as_deref(), Some("2025-06-03T10:00:00Z"));
    assert_eq!(es[0].session_id.as_deref(), Some("abcdef0123"));
    assert_eq!((es[1].write_lines, es[1].edit_lines, es[1].text_lines), (0, 2, 0));
    assert!(es[1].title.is_none());
}

#[test]
fn parse_jsonl_file_late_title_goes_to_first_entry() {
    let log = lines(&[ASSIST1, USER]);
    let es = parse_jsonl_file(&log).unwrap();
    assert_eq!(es.len(), 1);
    assert_eq!(es[0].title.as_deref(), Some("バグ修正してほしい"));
}

fn entry_fields(e: &SessionEntry) -> (usize, usize, usize, Option<String>, Option<String>, Option<String>) {
    (e.write_lines, e.edit_lines, e.text_lines, e.timestamp.clone(), e.session_id.clone(), e.title.clone())
}

#[test]
fn parse_jsonl_file_ignorable_lines_change_nothing() {
    let plain = parse_jsonl_file(&lines(&[USER, ASSIST1, ASSIST2])).unwrap();
    let other = r#"{"type":"summary","summary":"x","message":{"content":[{"type":"text","text":"a\nb"}]}}"#;
    let noisy = parse_jsonl_file(&lines(&["", other, USER, "not json", "", ASSIST1, other, "{", ASSIST2, ""])).unwrap();
    assert_eq!(plain.len(), 2);
    assert_eq!(plain.len(), noisy.len());
    for (a, b) in plain.iter().zip(noisy.iter()) {
        assert_eq!(entry_fields(a), entry_fields(b));
    }
}

#[test]
fn parse_jsonl_file_nothing() {
    assert!(parse_jsonl_file(&lines(&[])).unwrap().is_empty());
    assert!(parse_jsonl_file(&lines(&["{", "[]", "42", ASSIST_EMPTY])).unwrap().is_empty());
}

fn dir(name: &str, files: Vec<(&str, Vec<&str>)>) -> ProjectDir {
    ProjectDir {
        dir_name: name.to_string(),
        files: files.into_iter().map(|(stem, l)| LogFile { stem: stem.to_string(), lines: lines(&l) }).collect(),
    }
}

const B1: &str = r#"{"type":"assistant","timestamp":"2025-06-01T08:00:00Z","message":{"content":[{"type":"text","text":"one"}]}}"#;
const B2: &str = r#"{"type":"assistant","timestamp":"2025-06-02T08:00:00Z","sessionId":"zzz","message":{"content":[{"type":"tool_use","name":"Write","input":{"content":"1\n2\n3\n4\n5"}}]}}"#;

fn sample_dirs() -> Vec<ProjectDir> {
    vec![
        dir("-Users-kumitaakira-demia-works-wasurenai", vec![("f1", vec![USER, ASSIST1]), ("f2", vec![ASSIST2]), ("empty", vec![])]),
        dir("-Users-kumitaakira-demia-works-my-api", vec![("sess-b1", vec![B1]), ("other", vec![B2])]),
    ]
}

#[test]
fn collect_stats_groups_and_orders() {
    let ps = collect_stats(&sample_dirs(), None).unwrap();
    assert_eq!(ps.len(), 2);
    // wasurenai: 3 + 2 + 2 = 7 lines; my-api: 1 + 5 = 6 lines.
    assert_eq!(ps[0].name, "wasurenai");
    assert_eq!(ps[0].stats.total(), 7);
    assert_eq!(ps[0].sessions.len(), 1);
    let s = &ps[0].sessions[0];
    assert_eq!(s.date, "2025-06-03");
    assert_eq!(s.title, "バグ修正してほしい");
    assert_eq!((s.stats.write_lines, s.stats.edit_lines, s.stats.text_lines), (3, 2, 2));
    assert_eq!(ps[1].name, "my-api");
    assert_eq!(ps[1].stats.total(), 6);
    assert_eq!(ps[1].sessions.len(), 2);
    assert_eq!(ps[1].sessions[0].date, "2025-06-02");
    assert_eq!(ps[1].sessions[0].title, "zzz");
    assert_eq!(ps[1].sessions[1].date, "2025-06-01");
    assert_eq!(ps[1].sessions[1].title, "sess-b1");
}

#[test]
fn collect_stats_filters() {
    let ps = collect_stats(&sample_dirs(), Some("api")).unwrap();
    assert_eq!(ps.len(), 1);
    assert_eq!(ps[0].name, "my-api");
    let ps = collect_stats(&sample_dirs(), Some("kumitaakira")).unwrap();
    assert_eq!(ps.len(), 2);
    let ps = collect_stats(&sample_dirs(), Some("nothing")).unwrap();
    assert!(ps.is_empty());
}

#[test]
fn collect_stats_same_session_across_files() {
    let d = vec![dir("proj", vec![("a", vec![ASSIST1]), ("b", vec![ASSIST2])])];
    let ps = collect_stats(&d, None).unwrap();
    assert_eq!(ps.len(), 1);
    assert_eq!(ps[0].name, "proj");
    assert_eq!(ps[0].sessions.len(), 1);
    assert_eq!(ps[0].sessions[0].date, "2025-06-03");
    assert_eq!(ps[0].sessions[0].title, "abcdef01");
    assert_eq!(ps[0].stats.total(), 7);
}

#[test]
fn display_summary_table() {
    let ps = collect_stats(&sample_dirs(), None).unwrap();
    assert!(fits_summary(&ps));
    let out = display_summary(&ps);
    let expected = vec![
        "┌──────────────┬───────┬──────┬──────────┬──────────┬────────┐",
        "│ プロジェクト │ Write │ Edit │ チャット │ コード計 │ 総合計 │",
        "├──────────────┼───────┼──────┼──────────┼──────────┼────────┤",
        "│ wasurenai    │     3 │    2 │        2 │        5 │      7 │",
        "│ my-api       │     5 │    0 │        1 │        5 │      6 │",
        "├──────────────┼───────┼──────┼──────────┼──────────┼────────┤",
        "│ 合計         │     8 │    2 │        3 │       10 │     13 │",
        "└──────────────┴───────┴──────┴──────────┴──────────┴────────┘",
    ];
    assert_eq!(out, expected);
}

#[test]
fn display_summary_empty() {
    assert_eq!(display_summary(&[]), vec!["No data found."]);
    assert_eq!(display_sessions(&[]), vec!["No data found."]);
}

#[test]
fn display_sessions_listing() {
    let ps = collect_stats(&sample_dirs(), Some("api")).unwrap();
    assert!(fits_sessions(&ps));
    let out = display_sessions(&ps);
    let expected = vec![
        "".to_string(),
        "=== my-api (2 sessions) ===".to_string(),
        format!("  {:<12} {:<12} {:>8} {:>8} {:>8} {:>8}", "日付", "タイトル", "Write", "Edit", "チャット", "合計"),
        format!("  {:<12} {:<12} {:>8} {:>8} {:>8} {:>8}", "2025-06-02", "zzz", "5", "0", "0", "5"),
        format!("  {:<12} {:<12} {:>8} {:>8} {:>8} {:>8}", "2025-06-01", "sess-b1", "0", "0", "1", "1"),
        format!("  {:<12} {:<12} {:>8} {:>8} {:>8} {:>8}", "", "合計", "5", "0", "1", "6"),
    ];
    assert_eq!(out, expected);
}

#[test]
fn fits_checks_reject_overflow() {
    let big = ccstat::stats::ProjectStats {
        name: "x".to_string(),
        stats: Stats { write_lines: usize::MAX, edit_lines: 1, text_lines: 0 },
        sessions: vec![],
    };
    assert!(!fits_summary(std::slice::from_ref(&big)));
    assert!(!fits_sessions(std::slice::from_ref(&big)));
}

#[test]
fn jsonl_file_names() {
    assert!(is_jsonl_file_name("abc.jsonl"));
    assert!(is_jsonl_file_name("a.b.jsonl"));
    assert!(!is_jsonl_file_name(".jsonl"));
    assert!(!is_jsonl_file_name("abc.json"));
    assert!(!is_jsonl_file_name("jsonl"));
    assert!(!is_jsonl_file_name("abc.jsonl.bak"));
}

#[test]
fn dir_selection() {
    assert!(dir_selected("-Users-kumitaakira-demia-works-wasurenai", None));
    assert!(dir_selected("-Users-kumitaakira-demia-works-wasurenai", Some("wasu")));
    assert!(dir_selected("-Users-kumitaakira-demia-works-wasurenai", Some("demia")));
    assert!(!dir_selected("-Users-kumitaakira-demia-works-wasurenai", Some("api")));
}

fn project(name: &str, w: usize, e: usize, t: usize) -> ccstat::stats::ProjectStats {
    ccstat::stats::ProjectStats {
        name: name.to_string(),
        stats: Stats { write_lines: w, edit_lines: e, text_lines: t },
        sessions: vec![],
    }
}

#[test]
fn readme_summary_example() {
    let ps = vec![project("saas-api", 1245, 832, 3567), project("my-api", 456, 234, 1890)];
    assert!(fits_summary(&ps));
    let expected = vec![
        "┌──────────────┬───────┬───────┬──────────┬──────────┬────────┐",
        "│ プロジェクト │ Write │  Edit │ チャット │ コード計 │ 総合計 │",
        "├──────────────┼───────┼───────┼──────────┼──────────┼────────┤",
        "│ saas-api     │ 1,245 │   832 │    3,567 │    2,077 │  5,644 │",
        "│ my-api       │   456 │   234 │    1,890 │      690 │  2,580 │",
        "├──────────────┼───────┼───────┼──────────┼──────────┼────────┤",
        "│ 合計         │ 1,701 │ 1,066 │    5,457 │    2,767 │  8,224 │",
        "└──────────────┴───────┴───────┴──────────┴──────────┴────────┘",
    ];
    assert_eq!(display_summary(&ps), expected);
}

#[test]
fn readme_sessions_example() {
    let session = |date: &str, title: &str, w: usize, e: usize, t: usize| ccstat::stats::SessionStats {
        date: date.to_string(),
        title: title.to_string(),
        stats: Stats { write_lines: w, edit_lines: e, text_lines: t },
    };
    let mut p = project("saas-api", 1245, 832, 3567);
    p.sessions = vec![
        session("2025-06-03", "バグ修正してほしい", 325, 200, 1200),
        session("2025-06-02", "Viewをクラスベー...", 500, 322, 1167),
        session("2025-06-01", "管理者画面について", 420, 310, 1200),
    ];
    let ps = vec![p];
    assert!(fits_sessions(&ps));
    let out = display_sessions(&ps);
    assert_eq!(out.len(), 7);
    assert_eq!(out[0], "");
    assert_eq!(out[1], "=== saas-api (3 sessions) ===");
    assert_eq!(out[3], format!("  {:<12} {:<12} {:>8} {:>8} {:>8} {:>8}", "2025-06-03", "バグ修正してほしい", "325", "200", "1,200", "1,725"));
    assert_eq!(out[4], format!("  {:<12} {:<12} {:>8} {:>8} {:>8} {:>8}", "2025-06-02", "Viewをクラスベー...", "500", "322", "1,167", "1,989"));
    assert_eq!(out[6], format!("  {:<12} {:<12} {:>8} {:>8} {:>8} {:>8}", "", "合計", "1,245", "832", "3,567", "5,644"));
}

#[test]
fn collected_projects_add_up_their_sessions() {
    let ps = collect_stats(&sample_dirs(), None).unwrap();
    for p in &ps {
        let (mut w, mut e, mut t) = (0, 0, 0);
        for s in &p.sessions {
            w += s.stats.write_lines;
            e += s.stats.edit_lines;
            t += s.stats.text_lines;
        }
        assert_eq!((w, e, t), (p.stats.write_lines, p.stats.edit_lines, p.stats.text_lines));
        for pair in p.sessions.windows(2) {
            assert!(pair[0].date >= pair[1].date);
        }
    }
    for pair in ps.windows(2) {
        assert!(pair[0].stats.total() >= pair[1].stats.total());
    }
}

#[test]
fn count_lines_law_joining() {
    let (a, b) = ("x\ny", "z");
    assert_eq!(count_lines(&format!("{}\n{}", a, b)), count_lines(a) + count_lines(b));
    assert_eq!(count_lines(&format!("{}\n", a)), count_lines(a) + 1);
}

#[test]
fn extract_date_law_ascii() {
    let ts = "2024-12-31T23:59:59+09:00";
    assert_eq!(extract_date(ts), &ts[..10]);
    assert_eq!(short_session_id("ffffffff-aaaa"), "ffffffff");
}

fn jstr(s: &str) -> JsonValue {
    JsonValue::Str(s.to_string())
}

fn jobj(fields: Vec<(&str, JsonValue)>) -> JsonValue {
    JsonValue::Object(fields.into_iter().map(|(k, v)| (k.to_string(), v)).collect())
}

#[test]
fn entries_from_records_on_given_values() {
    let user = jobj(vec![
        ("type", jstr("user")),
        ("message", jobj(vec![("content", JsonValue::Array(vec![jobj(vec![("type", jstr("text")), ("text", jstr("管理者画面について\n詳しく"))])]))])),
    ]);
    let assistant = jobj(vec![
        ("type", jstr("assistant")),
        ("timestamp", jstr("2025-06-01T00:00:00Z")),
        ("sessionId", JsonValue::Number("42".to_string())),
        ("message", jobj(vec![("content", JsonValue::Array(vec![
            jobj(vec![("type", jstr("tool_use")), ("name", jstr("Edit")), ("input", jobj(vec![("new_string", jstr("a\nb\nc"))]))]),
            jobj(vec![("type", jstr("text")), ("text", jstr(""))]),
            jobj(vec![("type", jstr("text")), ("text", JsonValue::Null)]),
        ]))])),
    ]);
    let es = entries_from_records(&vec![Some(user), None, Some(assistant)]).unwrap();
    assert_eq!(es.len(), 1);
    assert_eq!((es[0].write_lines, es[0].edit_lines, es[0].text_lines), (0, 3, 0));
    assert_eq!(es[0].title.as_deref(), Some("管理者画面について"));
    assert_eq!(es[0].timestamp.as_deref(), Some("2025-06-01T00:00:00Z"));
    assert!(es[0].session_id.is_none());
}

#[test]
fn session_entry_default_is_empty() {
    let e = SessionEntry::default();
    assert_eq!((e.write_lines, e.edit_lines, e.text_lines), (0, 0, 0));
    assert!(e.timestamp.is_none() && e.session_id.is_none() && e.title.is_none());
}
