use chrono::{TimeZone, Utc};
use markdown_blog::post_parser::{parse_markdown, try_parse_markdown, YamlFrontMatter};
use std::collections::HashMap;

fn metadata_map(fm: &YamlFrontMatter) -> HashMap<String, String> {
    fm.metadata.iter().cloned().collect()
}

#[test]
fn test_parsing_default_case() {
    let input = "---\n\
    title: hi\n\
    date: 2023-03-17T20:55:00+08:00\n\
    ---\n\
    m"
    .as_bytes()
    .to_vec();

    let (fm, file_bytes) = parse_markdown(input);
    assert_eq!(fm.title, "hi");
    assert_eq!(
        fm.date,
        Utc.with_ymd_and_hms(2023, 3, 17, 12, 55, 0)
            .unwrap()
            .timestamp()
    );
    assert_eq!(file_bytes, vec![b'\n', b'm']);
}

#[test]
fn test_parsing_with_extra_meta() {
    let input = "---\n\
title: hi\n\
date: 2023-03-17T20:55:00+08:00\n\
ni: hao
---\n\
        m"
        .as_bytes()
        .to_vec();

    let (fm, file_bytes) = parse_markdown(input);
    assert_eq!(fm.title, "hi");
    assert_eq!(
        fm.date,
        Utc.with_ymd_and_hms(2023, 3, 17, 12, 55, 0)
            .unwrap()
            .timestamp()
    );
    assert_eq!(
        metadata_map(&fm),
        HashMap::from([("ni".to_string(), "hao".to_string())])
    );
    assert_eq!(file_bytes, vec![b'\n', b'm']);
}

#[test]
fn test_parsing_no_fm() {
    let input = "hiii".as_bytes().to_vec();
    let (fm, file_bytes) = parse_markdown(input);
    assert_eq!(fm.title, "Untitled");
    assert_eq!(file_bytes, vec![b'h', b'i', b'i', b'i']);
}

#[test]
fn front_matter_without_title_is_untitled() {
    let input = b"---\ndate: 2020-01-02T03:04:05+00:00\n---\nbody".to_vec();
    let (fm, rest) = parse_markdown(input);
    assert_eq!(fm.title, "Untitled");
    assert_eq!(
        fm.date,
        Utc.with_ymd_and_hms(2020, 1, 2, 3, 4, 5).unwrap().timestamp()
    );
    assert!(fm.metadata.is_empty());
    assert_eq!(rest, b"\nbody".to_vec());
}

#[test]
fn front_matter_last_entry_of_a_key_wins() {
    let input =
        b"---\ntitle: one\ntitle: two\ntag: a\ntag: b\ndate: 2020-01-02T03:04:05+00:00\n---\n"
            .to_vec();
    let (fm, rest) = parse_markdown(input);
    assert_eq!(fm.title, "two");
    assert_eq!(fm.metadata, vec![("tag".to_string(), "b".to_string())]);
    assert_eq!(rest, b"\n".to_vec());
}

#[test]
fn front_matter_values_are_trimmed_and_unquoted() {
    let input = b"---\r\ntitle:   \"Hello 'World'\"  \r\ndate: 2020-01-02T03:04:05+00:00\r\nurl: http://x.y\r\n---\r\nbody"
        .to_vec();
    let (fm, rest) = parse_markdown(input);
    assert_eq!(fm.title, "Hello World");
    assert_eq!(
        metadata_map(&fm),
        HashMap::from([("url".to_string(), "http://x.y".to_string())])
    );
    assert_eq!(rest, b"\r\nbody".to_vec());
}

#[test]
fn front_matter_skips_lines_without_key() {
    let input = b"---\n: nokey\nno colon here\n\xff\xfe: bad\ndate: 2020-01-02T03:04:05+00:00\n---\nx"
        .to_vec();
    let (fm, rest) = parse_markdown(input);
    assert_eq!(fm.title, "Untitled");
    assert!(fm.metadata.is_empty());
    assert_eq!(rest, b"\nx".to_vec());
}

#[test]
fn front_matter_date_with_offset_is_converted_to_utc() {
    let input = b"---\ndate: 2024-02-29T23:30:00-05:00\n---\n".to_vec();
    let (fm, _) = parse_markdown(input);
    assert_eq!(
        fm.date,
        Utc.with_ymd_and_hms(2024, 3, 1, 4, 30, 0).unwrap().timestamp()
    );
}

#[test]
fn short_file_starting_with_fence_has_no_front_matter() {
    let (fm, rest) = parse_markdown(b"---".to_vec());
    assert_eq!(fm.title, "Untitled");
    assert_eq!(rest, b"---".to_vec());
}

#[test]
fn try_parse_refuses_unclosed_front_matter() {
    assert!(try_parse_markdown(b"---\ntitle: x\nno end".to_vec()).is_none());
}

#[test]
fn try_parse_refuses_missing_date() {
    assert!(try_parse_markdown(b"---\ntitle: x\n---\nbody".to_vec()).is_none());
}

#[test]
fn try_parse_refuses_badly_formatted_date() {
    assert!(try_parse_markdown(b"---\ndate: 17 March 2023\n---\nbody".to_vec()).is_none());
}

#[test]
fn try_parse_refuses_fence_right_after_opening() {
    assert!(try_parse_markdown(b"------\ndate: 2020-01-02T03:04:05+00:00\n---\n".to_vec()).is_none());
}

#[test]
fn try_parse_accepts_what_parse_accepts() {
    let input = b"---\ntitle: t\ndate: 2020-01-02T03:04:05+00:00\n---\nbody".to_vec();
    let (fm, rest) = try_parse_markdown(input.clone()).unwrap();
    let (fm2, rest2) = parse_markdown(input);
    assert_eq!(fm.title, fm2.title);
    assert_eq!(fm.date, fm2.date);
    assert_eq!(rest, rest2);
    let (fm3, rest3) = try_parse_markdown(b"plain".to_vec()).unwrap();
    assert_eq!(fm3.title, "Untitled");
    assert_eq!(rest3, b"plain".to_vec());
}

#[test]
fn default_front_matter_is_untitled_and_dated_now() {
    let before = Utc::now().timestamp();
    let fm = YamlFrontMatter::default();
    let after = Utc::now().timestamp();
    assert_eq!(fm.title, "Untitled");
    assert!(before <= fm.date && fm.date <= after);
    assert!(fm.metadata.is_empty());
}

#[test]
fn new_front_matter_keeps_its_fields() {
    let fm = YamlFrontMatter::new(
        "t".to_string(),
        42,
        vec![("k".to_string(), "v".to_string())],
    );
    assert_eq!(fm.title, "t");
    assert_eq!(fm.date, 42);
    assert_eq!(fm.metadata, vec![("k".to_string(), "v".to_string())]);
}
