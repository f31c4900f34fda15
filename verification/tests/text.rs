use holly_shell::history::History;
use holly_shell::numparse::parse_i32;
use holly_shell::numparse::parse_job_id;
use holly_shell::parse::parse_line;
use holly_shell::parse::prepare_line;

fn stages_of(line: &str) -> Option<(Vec<Vec<String>>, bool)> {
    parse_line(line).map(|p| (p.stages, p.background))
}

fn argv(words: &[&str]) -> Vec<String> {
    words.iter().map(|w| w.to_string()).collect()
}

#[test]
fn parses_single_command_with_arguments() {
    let (stages, bg) = stages_of("ls  -l\t/tmp").unwrap();
    assert!(!bg);
    assert_eq!(stages, vec![argv(&["ls", "-l", "/tmp"])]);
}

#[test]
fn parses_pipeline_without_spaces_around_bars() {
    let (stages, bg) = stages_of("cat f|sort | uniq -c").unwrap();
    assert!(!bg);
    assert_eq!(
        stages,
        vec![argv(&["cat", "f"]), argv(&["sort"]), argv(&["uniq", "-c"])]
    );
}

#[test]
fn lone_trailing_ampersand_marks_background() {
    let (stages, bg) = stages_of("sleep 50 &").unwrap();
    assert!(bg);
    assert_eq!(stages, vec![argv(&["sleep", "50"])]);
}

#[test]
fn ampersand_glued_to_a_word_is_an_argument() {
    let (stages, bg) = stages_of("sleep 50&").unwrap();
    assert!(!bg);
    assert_eq!(stages, vec![argv(&["sleep", "50&"])]);
}

#[test]
fn ampersand_not_at_the_end_is_an_argument() {
    let (stages, bg) = stages_of("echo & now").unwrap();
    assert!(!bg);
    assert_eq!(stages, vec![argv(&["echo", "&", "now"])]);
}

#[test]
fn empty_stages_are_syntax_errors() {
    assert!(stages_of("|cmd").is_none());
    assert!(stages_of("cmd|").is_none());
    assert!(stages_of("a || b").is_none());
    assert!(stages_of("   ").is_none());
    assert!(stages_of("").is_none());
    assert!(stages_of("&").is_none());
}

#[test]
fn background_pipeline_keeps_all_stages() {
    let (stages, bg) = stages_of("a | b &").unwrap();
    assert!(bg);
    assert_eq!(stages, vec![argv(&["a"]), argv(&["b"])]);
}

#[test]
fn exit_code_argument_parsing() {
    assert_eq!(parse_i32("42"), Some(42));
    assert_eq!(parse_i32("-5"), Some(-5));
    assert_eq!(parse_i32("+7"), Some(7));
    assert_eq!(parse_i32("0042"), Some(42));
    assert_eq!(parse_i32("2147483647"), Some(2147483647));
    assert_eq!(parse_i32("2147483648"), None);
    assert_eq!(parse_i32("-2147483648"), Some(-2147483648));
    assert_eq!(parse_i32("-2147483649"), None);
    assert_eq!(parse_i32("99999999999999999999"), None);
    assert_eq!(parse_i32(""), None);
    assert_eq!(parse_i32("-"), None);
    assert_eq!(parse_i32("4x"), None);
    assert_eq!(parse_i32(" 4"), None);
}

#[test]
fn job_id_argument_parsing() {
    assert_eq!(parse_job_id("3"), Some(3));
    assert_eq!(parse_job_id("+3"), Some(3));
    assert_eq!(parse_job_id("0"), Some(0));
    assert_eq!(parse_job_id("-3"), None);
    assert_eq!(parse_job_id("2147483647"), Some(2147483647));
    assert_eq!(parse_job_id("2147483648"), None);
    assert_eq!(parse_job_id("99999999999999"), None);
    assert_eq!(parse_job_id("1a"), None);
    assert_eq!(parse_job_id(""), None);
}

#[test]
fn blank_lines_are_reprompted_and_input_is_trimmed() {
    assert_eq!(prepare_line(""), None);
    assert_eq!(prepare_line("   \t "), None);
    assert_eq!(prepare_line("ls"), Some("ls".to_string()));
    assert_eq!(prepare_line("  ls -l \t"), Some("ls -l".to_string()));
    assert_eq!(prepare_line("\ta | b &  "), Some("a | b &".to_string()));
}

#[test]
fn history_renders_one_line_per_entry_in_order() {
    let mut h = History::new();
    h.add_entry("ls -l".to_string());
    h.add_entry("false | true".to_string());
    h.add_entry("exit".to_string());
    assert_eq!(h.len(), 3);
    assert_eq!(h.render(), "ls -l\nfalse | true\nexit\n");
}

#[test]
fn history_round_trips_through_its_text_form() {
    let mut h = History::new();
    h.add_entry("first".to_string());
    h.add_entry("second one".to_string());
    let text = h.render();
    let h2 = History::load(text.as_str());
    assert_eq!(h2.entries, vec!["first".to_string(), "second one".to_string()]);
}

#[test]
fn history_load_ignores_blank_lines() {
    let h = History::load("a\n\nb\n");
    assert_eq!(h.entries, vec!["a".to_string(), "b".to_string()]);
    let h = History::load("");
    assert_eq!(h.len(), 0);
    let h = History::load("no trailing newline");
    assert_eq!(h.entries, vec!["no trailing newline".to_string()]);
}
