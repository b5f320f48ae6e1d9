use tsundoku::chapters::{sanitize_filename, validate_chapter_range, ChapterInfo, ChapterList, RangeError};
use tsundoku::config::{select_scout_api, validate_settings, ApiConfig, ConfigError};
use tsundoku::console::{Console, Style};
use tsundoku::name_mapping::NamePart;
use tsundoku::refusal::is_refusal;
use tsundoku::retry::{after_failure, backoff_secs, RetryDecision};
use tsundoku::scout::{
    build_chapter_payload, check_scout_reply, entries_from_fields, extract_json_object, keep_chunk_entries, scout_step,
    RawNameFields, ScoutStep, TranslationError,
};
use tsundoku::translation::{
    failure_placeholder, join_translations, new_history, read_stream_line, record_exchange, request_messages,
    translation_step, validate_reply, ChunkStep, ProgressInfo, StreamLine,
};

fn fields_of(json: &str) -> Vec<RawNameFields> {
    let v: serde_json::Value = serde_json::from_str(json).unwrap();
    let field = |item: &serde_json::Value, k: &str| item.get(k).and_then(|x| x.as_str()).map(|s| s.to_string());
    v["names"]
        .as_array()
        .unwrap()
        .iter()
        .map(|item| RawNameFields {
            original: field(item, "original"),
            english: field(item, "english"),
            part: field(item, "part"),
        })
        .collect()
}

fn parse(raw: &str) -> Result<Vec<tsundoku::name_mapping::NameEntry>, TranslationError> {
    let obj = extract_json_object(raw)?;
    Ok(entries_from_fields(&fields_of(&obj)))
}

#[test]
fn test_api_configured_check() {
    let mut api = ApiConfig::default();
    assert!(!api.is_configured());
    api.key = "sk-real-key".to_string();
    assert!(api.is_configured());
}

#[test]
fn settings_checks_in_order() {
    let mut api = ApiConfig::default();
    let mut scout = ApiConfig::default();
    assert!(matches!(validate_settings(&api, Some(&scout), 10, true), Err(ConfigError::MissingValue(_))));
    api.key = "real-key".to_string();
    assert!(matches!(validate_settings(&api, Some(&scout), 10, true), Err(ConfigError::MissingValue(_))));
    assert!(validate_settings(&api, Some(&scout), 10, false).is_ok());
    scout.key = "scout-key".to_string();
    assert!(validate_settings(&api, Some(&scout), 10, true).is_ok());
    assert!(matches!(validate_settings(&api, None, 10, true), Err(ConfigError::MissingValue(_))));
    assert!(matches!(validate_settings(&api, Some(&scout), 0, true), Err(ConfigError::InvalidValue { .. })));
}

#[test]
fn test_style_disabled() {
    let console = Console::with_colors(false);
    assert_eq!(console.style("hello", &[Style::Red]), "hello");
}

#[test]
fn test_style_enabled() {
    let console = Console::with_colors(true);
    let styled = console.style("hello", &[Style::Red]);
    assert!(styled.contains("\x1b[31m"));
    assert!(styled.contains("hello"));
    assert!(styled.contains("\x1b[0m"));
}

#[test]
fn test_multiple_styles() {
    let console = Console::with_colors(true);
    let styled = console.style("hello", &[Style::Bold, Style::Red]);
    assert!(styled.contains("1;31"));
}

#[test]
fn test_label() {
    let console = Console::with_colors(false);
    assert_eq!(console.label("INFO", Style::Blue), "[INFO]");
}

#[test]
fn styled_exact_forms() {
    let on = Console::with_colors(true);
    assert_eq!(on.style("x", &[Style::Bold, Style::Red]), "\x1b[1;31mx\x1b[0m");
    assert_eq!(on.style("x", &[]), "x");
    assert_eq!(on.label("OK", Style::Green), "[\x1b[32;1mOK\x1b[0m]");
    assert_eq!(on.muted("m"), "\x1b[90;2mm\x1b[0m");
    assert_eq!(on.count(1234), "\x1b[32;1m1234\x1b[0m");
    let off = Console::with_colors(false);
    assert_eq!(off.chunk_info(3, 2, 10), "[Chapter 3, Chunk 2/10]");
    assert_eq!(off.count(0), "0");
}

#[test]
fn test_build_chapter_payload() {
    let payload = build_chapter_payload(5, "The Beginning", "Once upon a time...");
    assert_eq!(payload, "### Chapter 5 - The Beginning\nOnce upon a time...");
}

#[test]
fn test_chapter_list_len() {
    let oneshot = ChapterList::OneShot;
    assert_eq!(oneshot.len(), 1);
    assert!(oneshot.is_oneshot());
    let chapters = ChapterList::Chapters(vec![
        ChapterInfo { title: "Ch 1".to_string(), url: "http://example.com/1".to_string(), number: 1 },
        ChapterInfo { title: "Ch 2".to_string(), url: "http://example.com/2".to_string(), number: 2 },
    ]);
    assert_eq!(chapters.len(), 2);
    assert!(!chapters.is_oneshot());
}

#[test]
fn chapter_range_rules() {
    let two = ChapterList::Chapters(vec![
        ChapterInfo { title: "a".to_string(), url: "u".to_string(), number: 1 },
        ChapterInfo { title: "b".to_string(), url: "v".to_string(), number: 2 },
    ]);
    assert_eq!(validate_chapter_range(None, None, &two), Ok((1, 2)));
    assert_eq!(validate_chapter_range(Some(2), None, &two), Ok((2, 2)));
    assert_eq!(validate_chapter_range(Some(2), Some(1), &two), Err(RangeError::StartAfterEnd { start: 2, end: 1 }));
    assert_eq!(validate_chapter_range(None, Some(3), &two), Err(RangeError::EndBeyondTotal { end: 3, total: 2 }));
    assert_eq!(validate_chapter_range(None, None, &ChapterList::OneShot), Ok((1, 1)));
    assert_eq!(validate_chapter_range(Some(1), None, &ChapterList::OneShot), Err(RangeError::RangeOnOneShot));
    assert!(ChapterList::Chapters(vec![]).is_empty());
}

#[test]
fn file_names_are_sanitized() {
    assert_eq!(sanitize_filename("a/b:c*d?. . "), "a_b:c_d_");
    assert_eq!(sanitize_filename("<x>|\"y\"\\"), "_x___y__");
}

#[test]
fn test_refusal_detection() {
    let phrases = vec!["I'm sorry, but I cannot", "As an AI, I must decline", "I cannot assist with that"];
    for phrase in phrases {
        assert!(is_refusal(phrase), "Should detect refusal: {}", phrase);
    }
}

#[test]
fn test_non_refusal() {
    let phrases = vec!["The translation is...", "Here is the translated text", "私は学生です means I am a student"];
    for phrase in phrases {
        assert!(!is_refusal(phrase), "Should not detect refusal: {}", phrase);
    }
}

#[test]
fn refusal_only_counts_at_start() {
    assert!(!is_refusal("He said he was sorry, but I cannot blame him."));
    assert!(!is_refusal("Well, i'm sorry to hear it."));
    assert!(is_refusal("MY APOLOGIES, I will not do that"));
}

#[test]
fn test_parse_valid_json() {
    let json = r#"{"names":[{"original":"田中","english":"Tanaka","part":"family"}]}"#;
    let result = parse(json).unwrap();
    assert_eq!(result.len(), 1);
    assert_eq!(result[0].original, "田中");
    assert_eq!(result[0].english, "Tanaka");
    assert_eq!(result[0].part, NamePart::Family);
}

#[test]
fn test_parse_json_with_code_fence() {
    let json = r#"```json
{"names":[{"original":"太郎","english":"Taro","part":"given"}]}
```"#;
    let result = parse(json).unwrap();
    assert_eq!(result.len(), 1);
    assert_eq!(result[0].original, "太郎");
    assert_eq!(result[0].english, "Taro");
}

#[test]
fn test_parse_json_with_surrounding_text() {
    let json = r#"Here are the names I found:
{"names":[{"original":"花子","english":"Hanako","part":"given"}]}
I hope this helps!"#;
    let result = parse(json).unwrap();
    assert_eq!(result.len(), 1);
    assert_eq!(result[0].original, "花子");
}

#[test]
fn test_parse_empty_names() {
    let result = parse(r#"{"names":[]}"#).unwrap();
    assert!(result.is_empty());
}

#[test]
fn test_parse_missing_fields() {
    let result = parse(r#"{"names":[{"original":"田中"},{"english":"Smith"}]}"#).unwrap();
    assert!(result.is_empty());
}

#[test]
fn test_parse_invalid_json() {
    let result = extract_json_object("This is not JSON at all");
    assert!(result.is_err());
}

#[test]
fn fields_are_trimmed_and_part_defaults() {
    let fields = vec![
        RawNameFields { original: Some(" 田中 ".to_string()), english: Some("Tanaka\n".to_string()), part: Some("FAMILY".to_string()) },
        RawNameFields { original: Some("  ".to_string()), english: Some("X".to_string()), part: None },
        RawNameFields { original: Some("太郎".to_string()), english: Some("Taro".to_string()), part: Some("middle".to_string()) },
    ];
    let es = entries_from_fields(&fields);
    assert_eq!(es.len(), 2);
    assert_eq!(es[0].original, "田中");
    assert_eq!(es[0].english, "Tanaka");
    assert_eq!(es[0].part, NamePart::Family);
    assert_eq!(es[1].part, NamePart::Unknown);
}

#[test]
fn scout_reply_checks() {
    assert!(matches!(check_scout_reply("I'm sorry, I can't {\"names\":[]}"), Err(TranslationError::Refused(_))));
    assert!(matches!(check_scout_reply("no braces"), Err(TranslationError::ParseError(_))));
    assert_eq!(check_scout_reply("```\n{\"a\":1}\n```").unwrap(), "{\"a\":1}");
    assert_eq!(check_scout_reply("```json{\"a\":1}").unwrap(), "{\"a\":1}");
}

#[test]
fn test_progress_info() {
    let info = ProgressInfo { chapter: 1, chunk: 2, total_chunks: 5 };
    assert_eq!(info.chapter, 1);
    assert_eq!(info.chunk, 2);
    assert_eq!(info.total_chunks, 5);
}

#[test]
fn history_keeps_system_and_last_pairs() {
    let mut h = new_history("sys");
    for i in 0..4 {
        record_exchange(&mut h, &format!("q{}", i), &format!("a{}", i), 2);
    }
    let contents: Vec<&str> = h.iter().map(|m| m.content.as_str()).collect();
    assert_eq!(contents, vec!["sys", "q2", "a2", "q3", "a3"]);
    assert_eq!(h[0].role, "system");
    assert_eq!(h[1].role, "user");
    assert_eq!(h[2].role, "assistant");
    let req = request_messages(&h, "next");
    assert_eq!(req.len(), 6);
    assert_eq!(req[5].content, "next");
    let mut none = new_history("sys");
    record_exchange(&mut none, "q", "a", 0);
    assert_eq!(none.len(), 1);
}

#[test]
fn replies_are_checked_after_aggregation() {
    assert_eq!(validate_reply("  Hello there \n").unwrap(), "Hello there");
    assert!(matches!(validate_reply(" \n "), Err(TranslationError::Refused(_))));
    assert!(matches!(validate_reply("I cannot translate this"), Err(TranslationError::Refused(_))));
}

#[test]
fn placeholder_and_join() {
    assert_eq!(failure_placeholder("原文"), "[TRANSLATION FAILED]\n原文");
    let parts = vec!["one".to_string(), "two".to_string(), "three".to_string()];
    assert_eq!(join_translations(&parts), "one\n\ntwo\n\nthree");
    assert_eq!(join_translations(&vec![]), "");
}

#[test]
fn stream_lines() {
    assert!(matches!(read_stream_line("data: [DONE]"), StreamLine::Done));
    match read_stream_line("data: {\"x\":1}") {
        StreamLine::Data(d) => assert_eq!(d, "{\"x\":1}"),
        _ => panic!("expected data"),
    }
    assert!(matches!(read_stream_line(": keep-alive"), StreamLine::Other));
}

#[test]
fn backoff_doubles_and_gives_up() {
    assert_eq!(backoff_secs(0), 1);
    assert_eq!(backoff_secs(3), 8);
    assert_eq!(backoff_secs(70), u64::MAX);
    assert_eq!(after_failure(0, 3), RetryDecision::Retry { attempt: 1, wait_secs: 2 });
    assert_eq!(after_failure(1, 3), RetryDecision::Retry { attempt: 2, wait_secs: 4 });
    assert_eq!(after_failure(2, 3), RetryDecision::GiveUp);
}

#[test]
fn scout_steps() {
    let fields = vec![RawNameFields { original: Some("花子".to_string()), english: Some("Hanako".to_string()), part: None }];
    match scout_step(0, 3, Ok(fields)) {
        ScoutStep::Succeeded(es) => assert_eq!(es[0].english, "Hanako"),
        other => panic!("unexpected {:?}", other),
    }
    assert!(matches!(scout_step(0, 3, Err(TranslationError::Refused("x".to_string()))), ScoutStep::Retry { attempt: 1, wait_secs: 2 }));
    assert!(matches!(scout_step(2, 3, Err(TranslationError::ApiError("x".to_string()))), ScoutStep::Exhausted));
    let mut results = Vec::new();
    keep_chunk_entries(&mut results, vec![]);
    assert!(results.is_empty());
    keep_chunk_entries(&mut results, entries_from_fields(&vec![RawNameFields {
        original: Some("太郎".to_string()),
        english: Some("Taro".to_string()),
        part: Some("given".to_string()),
    }]));
    assert_eq!(results.len(), 1);
}

#[test]
fn translation_steps() {
    assert!(matches!(translation_step("原文", 0, 2, Ok("Text".to_string())), ChunkStep::Translated(ref t) if t == "Text"));
    assert!(matches!(translation_step("原文", 0, 2, Err(TranslationError::HttpError("x".to_string()))), ChunkStep::Retry { attempt: 1, wait_secs: 2 }));
    match translation_step("原文", 1, 2, Err(TranslationError::HttpError("x".to_string()))) {
        ChunkStep::GaveUp(p) => assert_eq!(p, "[TRANSLATION FAILED]\n原文"),
        other => panic!("unexpected {:?}", other),
    }
}

#[test]
fn stream_buffer_keeps_unfinished_line() {
    let (lines, rest) = tsundoku::translation::split_stream_buffer("data: a\n\ndata: [DONE]\r\ndata: par");
    assert_eq!(lines, vec!["data: a".to_string(), "".to_string(), "data: [DONE]\r".to_string()]);
    assert_eq!(rest, "data: par");
    assert!(matches!(read_stream_line(&lines[2]), StreamLine::Done));
}

#[test]
fn test_config_validation() {
    let api = ApiConfig::default();
    let scout = ApiConfig::default();
    assert!(validate_settings(&api, Some(&scout), 4000, true).is_err());

    let mut api = ApiConfig::default();
    let mut scout = ApiConfig::default();
    api.key = "real-key".to_string();
    scout.key = "scout-key".to_string();
    assert!(validate_settings(&api, Some(&scout), 4000, true).is_ok());
}

#[test]
fn test_config_validation_without_scout() {
    let mut api = ApiConfig::default();
    api.key = "real-key".to_string();
    let scout = ApiConfig::default();
    assert!(validate_settings(&api, Some(&scout), 4000, false).is_ok());
}

#[test]
fn test_scout_api_required() {
    let scout = ApiConfig::default();
    assert!(select_scout_api(Some(&scout)).is_err());
}

#[test]
fn english_rules_on_lowered_form() {
    assert!(tsundoku::rules::english_is_valid_lowered("Tanaka", "tanaka"));
    assert!(!tsundoku::rules::english_is_valid_lowered("Tanaka-SAMA", "tanaka-sama"));
    assert!(!tsundoku::rules::english_is_valid_lowered("Tanaka Taro", "tanaka taro"));
    assert!(!tsundoku::rules::english_is_valid("Yuko-Chan"));
    assert!(tsundoku::rules::original_is_valid("優子"));
    assert!(!tsundoku::rules::original_is_valid("優子ちゃん"));
    assert!(!tsundoku::rules::original_is_valid("みんな"));
}

#[test]
fn blank_text_and_no_attempts() {
    assert!(tsundoku::translation::is_blank(" \n\u{3000}"));
    assert!(!tsundoku::translation::is_blank(" a "));
    assert_eq!(tsundoku::translation::without_attempts("原文", 0), Some("[TRANSLATION FAILED]\n原文".to_string()));
    assert_eq!(tsundoku::translation::without_attempts("原文", 2), None);
}

#[test]
fn refusal_after_leading_whitespace() {
    assert!(matches!(check_scout_reply("\n  I'm sorry, no {\"names\":[]}"), Err(TranslationError::Refused(_))));
}

#[test]
fn failed_title_is_marked() {
    assert_eq!(tsundoku::translation::failed_title("第一話"), "第一話 [TRANSLATION_FAILED]");
}
