use base64::Engine;
use stakk::comment::{
    comment_json, find_stack_comment, format_stack_comment, stack_comment_payload, StackCommentData,
    StackEntry,
};
use stakk::forge::Comment;

const PREFIX: &str = "<!--- STAKK_STACK: ";
const SUFFIX: &str = " --->";
const FOOTER: &str = "*Created with [stakk](https://github.com/glennib/stakk)*";

fn sample_data() -> StackCommentData {
    StackCommentData {
        version: 0,
        stack: vec![
            StackEntry {
                bookmark_name: "feat-a".to_string(),
                pr_url: "https://github.com/owner/repo/pull/1".to_string(),
                pr_number: 1,
            },
            StackEntry {
                bookmark_name: "feat-b".to_string(),
                pr_url: "https://github.com/owner/repo/pull/2".to_string(),
                pr_number: 2,
            },
        ],
    }
}

/// Reads the stack back from a comment body, as the program does.
fn parse(body: &str) -> Option<StackCommentData> {
    let bytes = stack_comment_payload(body)?;
    let value: serde_json::Value = serde_json::from_slice(&bytes).ok()?;
    let version = value.get("version")?.as_u64()? as u32;
    let mut stack = Vec::new();
    for e in value.get("stack")?.as_array()? {
        stack.push(StackEntry {
            bookmark_name: e.get("bookmark_name")?.as_str()?.to_string(),
            pr_url: e.get("pr_url")?.as_str()?.to_string(),
            pr_number: e.get("pr_number")?.as_u64()?,
        });
    }
    Some(StackCommentData { version, stack })
}

#[test]
fn format_and_parse_roundtrip() {
    let data = sample_data();
    let body = format_stack_comment(&data, 0);
    let parsed = parse(&body).unwrap();
    assert_eq!(parsed, data);
}

#[test]
fn roundtrip_at_every_index_with_escapes() {
    let data = StackCommentData {
        version: 3,
        stack: vec![
            StackEntry {
                bookmark_name: "quote\"and\\slash".to_string(),
                pr_url: "https://example.com/p?x=\u{e9}\n".to_string(),
                pr_number: 18446744073709551615,
            },
            StackEntry { bookmark_name: "b".to_string(), pr_url: "u".to_string(), pr_number: 0 },
        ],
    };
    for i in 0..data.stack.len() {
        assert_eq!(parse(&format_stack_comment(&data, i)).unwrap(), data);
    }
}

#[test]
fn comment_json_is_compact_json() {
    assert_eq!(
        comment_json(&sample_data()),
        "{\"version\":0,\"stack\":[{\"bookmark_name\":\"feat-a\",\"pr_url\":\"https://github.com/owner/repo/pull/1\",\"pr_number\":1},{\"bookmark_name\":\"feat-b\",\"pr_url\":\"https://github.com/owner/repo/pull/2\",\"pr_number\":2}]}"
    );
}

#[test]
fn format_exact_body() {
    let data = StackCommentData {
        version: 0,
        stack: vec![StackEntry { bookmark_name: "a".to_string(), pr_url: "U".to_string(), pr_number: 9 }],
    };
    let token = base64::engine::general_purpose::STANDARD.encode(comment_json(&data));
    let expected = format!(
        "{PREFIX}{token}{SUFFIX}\nThis PR is part of a stack of 1 bookmark:\n\n1. `trunk()`\n1. **U \u{2190} this PR**\n\n---\n{FOOTER}"
    );
    assert_eq!(format_stack_comment(&data, 0), expected);
}

#[test]
fn format_highlights_current_pr() {
    let body = format_stack_comment(&sample_data(), 1);
    assert!(body.contains("**https://github.com/owner/repo/pull/2 \u{2190} this PR**"));
    assert!(!body.contains("**https://github.com/owner/repo/pull/1"));
}

#[test]
fn format_includes_trunk() {
    let body = format_stack_comment(&sample_data(), 0);
    assert!(body.contains("`trunk()`"));
}

#[test]
fn find_stack_comment_matches() {
    let comments = vec![
        Comment { id: 1, body: "Some unrelated comment".to_string() },
        Comment { id: 2, body: format_stack_comment(&sample_data(), 0) },
    ];
    let found = find_stack_comment(&comments);
    assert_eq!(found.unwrap().id, 2);
}

#[test]
fn find_stack_comment_none_when_absent() {
    let comments = vec![Comment { id: 1, body: "Nothing here".to_string() }];
    assert!(find_stack_comment(&comments).is_none());
}

#[test]
fn find_stack_comment_ignores_marker_after_first_line() {
    let comments = vec![Comment { id: 1, body: format!("quoted:\n{PREFIX}abc{SUFFIX}") }];
    assert!(find_stack_comment(&comments).is_none());
}

#[test]
fn parse_with_different_body_text() {
    let data = sample_data();
    let encoded = base64::engine::general_purpose::STANDARD.encode(comment_json(&data));
    let body = format!("{PREFIX}{encoded}{SUFFIX}\nSome different body text\n\n---\n*Some other footer*");
    let parsed = parse(&body).unwrap();
    assert_eq!(parsed, data);
}

#[test]
fn parse_invalid_base64_returns_none() {
    let body = format!("{PREFIX}not-valid-base64!!!{SUFFIX}\nstuff");
    assert!(stack_comment_payload(&body).is_none());
    assert!(parse(&body).is_none());
}

#[test]
fn parse_no_metadata_returns_none() {
    assert!(parse("just a regular comment").is_none());
}

#[test]
fn payload_is_the_decoded_token() {
    let body = format!("x {PREFIX}aGk={SUFFIX} y\nrest");
    assert_eq!(stack_comment_payload(&body), Some(b"hi".to_vec()));
}

#[test]
fn format_single_bookmark_no_plural() {
    let data = StackCommentData {
        version: 0,
        stack: vec![StackEntry {
            bookmark_name: "solo".to_string(),
            pr_url: "https://github.com/o/r/pull/1".to_string(),
            pr_number: 1,
        }],
    };
    let body = format_stack_comment(&data, 0);
    assert!(body.contains("1 bookmark:"));
    assert!(!body.contains("bookmarks:"));
}

#[test]
fn format_multiple_bookmarks_plural() {
    let body = format_stack_comment(&sample_data(), 0);
    assert!(body.contains("2 bookmarks:"));
}

#[test]
fn format_includes_footer() {
    let body = format_stack_comment(&sample_data(), 0);
    assert!(body.contains(FOOTER));
}

#[test]
fn comment_json_escapes_like_serde() {
    let data = StackCommentData {
        version: 1,
        stack: vec![StackEntry { bookmark_name: "a\u{1}\"\\\t".to_string(), pr_url: "\u{e9}".to_string(), pr_number: 5 }],
    };
    assert_eq!(
        comment_json(&data),
        "{\"version\":1,\"stack\":[{\"bookmark_name\":\"a\\u0001\\\"\\\\\\t\",\"pr_url\":\"\u{e9}\",\"pr_number\":5}]}"
    );
}
