//! Tests of the Synology Chat channel logic: configuration, token
//! verification, form parsing, splitting and outgoing bodies.

use serde_json::Value;
use synology_chat::percent::percent_decode;
use synology_chat::synology_chat::{
    build_outgoing_form_body, build_outgoing_payload, incoming_form_would_panic,
    parse_incoming_form, payload_json_with_quoted_text, split_message, SynologyChatConfig, DEFAULT_MAX_SEGMENT_LENGTH, DEFAULT_MIN_SEND_INTERVAL_MS,
};

fn config(
    enabled: bool,
    bot_token: &str,
    base_url: &str,
    default_user_id: i64,
    max_segment_length: Option<usize>,
    min_send_interval_ms: Option<u64>,
) -> SynologyChatConfig {
    SynologyChatConfig {
        enabled,
        bot_token: bot_token.to_string(),
        synology_base_url: base_url.to_string(),
        default_user_id,
        max_segment_length,
        min_send_interval_ms,
    }
}

/// Decodes the JSON inside a `payload=...` body.
fn payload_value(body: &str) -> Value {
    assert!(body.starts_with("payload="));
    let decoded = percent_decode(&body["payload=".len()..]);
    serde_json::from_str(&decoded).unwrap()
}

// ── Config ────────────────────────────────────────────────────────────

#[test]
fn config_parses_all_fields_and_sensible_defaults() {
    // {"enabled":true,"bot_token":" TOK ","synology_base_url":" https://x:5001/ ",
    //  "default_user_id":6,"max_segment_length":300,"min_send_interval_ms":250}
    let cfg = config(true, " TOK ", " https://x:5001/ ", 6, Some(300), Some(250));
    assert!(cfg.enabled);
    assert!(cfg.is_configured());
    assert_eq!(cfg.max_segment_length(), 300);
    assert_eq!(cfg.min_send_interval_ms(), 250);
    assert_eq!(cfg.resolve_user_id(""), Some(6));
    let url = cfg.outgoing_url().unwrap();
    assert!(url.starts_with("https://x:5001/webapi/entry.cgi?"));
    assert!(url.contains("token=%22TOK%22"));
}

#[test]
fn config_missing_fields_makes_it_inert() {
    let empty = SynologyChatConfig::default();
    assert!(!empty.is_configured());
    assert_eq!(empty.max_segment_length(), DEFAULT_MAX_SEGMENT_LENGTH);
    assert_eq!(empty.min_send_interval_ms(), DEFAULT_MIN_SEND_INTERVAL_MS);
    assert!(empty.outgoing_url().is_none());
    // "not json" gives the defaults as well.
    let bad = SynologyChatConfig::default();
    assert!(!bad.is_configured());
}

#[test]
fn resolve_user_id_prefers_reply_target_over_default() {
    // {"default_user_id":10,"bot_token":"t","synology_base_url":"http://x"}
    let cfg = config(false, "t", "http://x", 10, None, None);
    assert_eq!(cfg.resolve_user_id("6"), Some(6));
    assert_eq!(cfg.resolve_user_id("not-a-number"), Some(10));
    assert_eq!(cfg.resolve_user_id("0"), Some(10));
    // {"bot_token":"t","synology_base_url":"http://x"}
    let cfg2 = config(false, "t", "http://x", 0, None, None);
    assert_eq!(cfg2.resolve_user_id("not-a-number"), None);
    assert_eq!(cfg2.resolve_user_id("42"), Some(42));
}

#[test]
fn max_segment_length_ignores_zero() {
    let cfg = config(false, "", "", 0, Some(0), None);
    assert_eq!(cfg.max_segment_length(), 500);
    let cfg = config(false, "", "", 0, Some(1), Some(0));
    assert_eq!(cfg.max_segment_length(), 1);
    assert_eq!(cfg.min_send_interval_ms(), 0);
}

#[test]
fn blank_token_or_url_is_not_configured() {
    assert!(!config(false, "  \t", "http://x", 0, None, None).is_configured());
    assert!(!config(false, "t", "\u{3000}", 0, None, None).is_configured());
    assert!(config(false, "t", "http://x", 0, None, None).is_configured());
}

#[test]
fn resolve_user_id_parses_signs_and_bounds() {
    let cfg = config(false, "", "", -3, None, None);
    assert_eq!(cfg.resolve_user_id("+7"), Some(7));
    assert_eq!(cfg.resolve_user_id("-7"), None);
    assert_eq!(cfg.resolve_user_id("9223372036854775807"), Some(i64::MAX));
    assert_eq!(cfg.resolve_user_id("9223372036854775808"), None);
    assert_eq!(cfg.resolve_user_id(" 7"), None);
    assert_eq!(cfg.resolve_user_id("+"), None);
    assert_eq!(cfg.resolve_user_id("0007"), Some(7));
}

#[test]
fn outgoing_url_trims_slashes_and_encodes_token() {
    let cfg = config(false, " a b\"é ", "https://nas:5001///", 0, None, None);
    assert_eq!(
        cfg.outgoing_url().unwrap(),
        "https://nas:5001/webapi/entry.cgi?api=SYNO.Chat.External&method=chatbot&version=2&token=%22a%20b%22%C3%A9%22"
    );
}

// ── Incoming form parsing ─────────────────────────────────────────────

#[test]
fn parse_incoming_form_happy_path_with_user_id() {
    let body = b"token=TOK&text=hello+world&username=alice&user_id=6&channel_id=123";
    let inbound = parse_incoming_form(body, Some("TOK")).ok().flatten().unwrap();
    assert_eq!(inbound.sender, "alice");
    assert_eq!(inbound.reply_target, "6"); // user_id wins
    assert_eq!(inbound.content, "hello world");
    assert_eq!(inbound.user_id, Some(6));
}

#[test]
fn parse_incoming_form_falls_back_to_username_when_no_ids() {
    let body = b"token=TOK&text=%E4%BD%A0%E5%A5%BD&username=bob";
    let inbound = parse_incoming_form(body, Some("TOK")).ok().flatten().unwrap();
    assert_eq!(inbound.content, "你好");
    assert_eq!(inbound.reply_target, "bob");
}

#[test]
fn parse_incoming_form_rejects_bad_token() {
    let body = b"token=WRONG&text=hi&username=u";
    let err = parse_incoming_form(body, Some("CORRECT")).unwrap_err();
    assert!(err.contains("token mismatch"));
}

#[test]
fn parse_incoming_form_accepts_any_token_when_unconfigured() {
    let body = b"token=ANYTHING&text=hi&username=u";
    assert!(parse_incoming_form(body, None).unwrap().is_some());
}

#[test]
fn parse_incoming_form_ignores_empty() {
    assert!(parse_incoming_form(b"", Some("t")).unwrap().is_none());
    assert!(parse_incoming_form(b"token=t&text=&username=u", Some("t"))
        .unwrap()
        .is_none());
}

#[test]
fn parse_incoming_form_rejects_non_utf8_body() {
    let err = parse_incoming_form(b"token=t&text=\xff", None).unwrap_err();
    assert_eq!(err, "synology-chat: incoming body is not valid UTF-8");
}

#[test]
fn parse_incoming_form_channel_id_and_defaults() {
    let inbound = parse_incoming_form(b"text=+hi+&channel_id=77&user_id=", None)
        .unwrap()
        .unwrap();
    assert_eq!(inbound.sender, "user");
    assert_eq!(inbound.reply_target, "77");
    assert_eq!(inbound.content, "hi");
    assert_eq!(inbound.user_id, None);
}

#[test]
fn parse_incoming_form_later_field_wins_and_odd_escapes() {
    let inbound = parse_incoming_form(b"text=a&&text=%41%2b%+F%zz%&user_id=x1&junk", None)
        .unwrap()
        .unwrap();
    assert_eq!(inbound.content, "A+\u{f}%zz%");
    assert_eq!(inbound.reply_target, "x1");
    assert_eq!(inbound.user_id, None);
}

#[test]
fn parse_incoming_form_trims_tokens_before_comparing() {
    assert!(parse_incoming_form(b"token=+TOK+&text=hi", Some(" TOK "))
        .unwrap()
        .is_some());
    assert!(parse_incoming_form(b"text=hi", Some("   ")).unwrap().is_some());
    assert!(parse_incoming_form(b"text=hi", Some("T")).is_err());
}

#[test]
fn parse_incoming_form_requires_text_field() {
    let err = parse_incoming_form(b"token=TOK&username=u", Some("TOK")).unwrap_err();
    assert_eq!(err, "synology-chat: missing required field: text");
    // A wrong token is reported first.
    let err = parse_incoming_form(b"token=X&username=u", Some("TOK")).unwrap_err();
    assert!(err.contains("token mismatch"));
}

#[test]
fn parse_incoming_form_invalid_utf8_escape_gives_empty_text() {
    assert!(parse_incoming_form(b"text=%FF", None).unwrap().is_none());
}

#[test]
fn incoming_form_panic_check() {
    assert!(incoming_form_would_panic("text=%aé".as_bytes()));
    assert!(!incoming_form_would_panic("text=%é".as_bytes()));
    assert!(!incoming_form_would_panic(b"text=%41%42"));
    assert!(!incoming_form_would_panic(b""));
}

// ── Message splitting ─────────────────────────────────────────────────

#[test]
fn split_message_short_and_empty() {
    assert_eq!(split_message("", 10), Vec::<String>::new());
    assert_eq!(split_message("hi", 10), vec!["hi".to_string()]);
}

#[test]
fn split_message_respects_line_boundaries() {
    let text = "line one\nline two\nline three";
    let segs = split_message(text, 15);
    for seg in &segs {
        assert!(
            seg.len() <= 15,
            "segment '{}' has length {} > 15",
            seg,
            seg.len()
        );
    }
    let rejoined = segs.join("\n");
    assert_eq!(rejoined, text);
}

#[test]
fn split_message_hard_splits_oversized_line() {
    let long = "a".repeat(120);
    let segs = split_message(&long, 50);
    assert_eq!(segs.len(), 3);
    assert_eq!(segs[0].len(), 50);
    assert_eq!(segs[1].len(), 50);
    assert_eq!(segs[2].len(), 20);
}

#[test]
fn split_message_zero_limit_keeps_text_whole() {
    assert_eq!(split_message("a\nb ", 0), vec!["a\nb ".to_string()]);
    assert_eq!(split_message("", 0), Vec::<String>::new());
}

#[test]
fn split_message_trims_and_drops_blank_tail() {
    assert_eq!(split_message("ab  \ncd", 5), vec!["ab".to_string(), "cd".to_string()]);
    assert_eq!(split_message("ab\n  \n", 100), vec!["ab".to_string()]);
    assert_eq!(split_message("\n\nab", 100), vec!["ab".to_string()]);
}

#[test]
fn split_message_counts_characters_when_packing() {
    assert_eq!(split_message("你好\n世界", 5), vec!["你好\n世界".to_string()]);
    assert_eq!(
        split_message("你好\n世界", 4),
        vec!["你好".to_string(), "世界".to_string()]
    );
    // A line of exactly `max_length` characters is not cut, whatever its bytes.
    assert_eq!(split_message("测试测", 3), vec!["测试测".to_string()]);
}

#[test]
fn split_message_hard_split_counts_characters() {
    let text = "测试测试测";
    let segs = split_message(text, 4);
    assert_eq!(segs, vec!["测试测试".to_string(), "测".to_string()]);
}

#[test]
fn split_message_flushes_before_oversized_line() {
    let segs = split_message("ab\ncdefgh\nij", 3);
    assert_eq!(
        segs,
        vec![
            "ab".to_string(),
            "cde".to_string(),
            "fgh".to_string(),
            "ij".to_string()
        ]
    );
}

// ── Outgoing body building ────────────────────────────────────────────

#[test]
fn build_outgoing_payload_with_and_without_user() {
    let with = payload_value(&build_outgoing_form_body(&build_outgoing_payload("hi", Some(6))));
    assert_eq!(with["text"], "hi");
    assert_eq!(with["user_ids"], Value::Array(vec![Value::from(6)]));

    let without = payload_value(&build_outgoing_form_body(&build_outgoing_payload("hi", None)));
    assert_eq!(without["text"], "hi");
    assert!(without.get("user_ids").is_none());
}

#[test]
fn build_outgoing_form_body_percent_encodes_payload() {
    let payload = build_outgoing_payload("hello & world = ?", Some(6));
    let body = build_outgoing_form_body(&payload);
    assert!(body.starts_with("payload="));
    let encoded = body.trim_start_matches("payload=");
    assert!(!encoded.contains('{'));
    assert!(!encoded.contains('"'));
    assert!(!encoded.contains(' '));
    let decoded = percent_decode(encoded);
    let v: Value = serde_json::from_str(&decoded).unwrap();
    assert_eq!(v["text"], "hello & world = ?");
}

#[test]
fn outgoing_form_body_exact_bytes() {
    let body = build_outgoing_form_body(&build_outgoing_payload("a\"b", Some(-12)));
    assert_eq!(
        body,
        "payload=%7B%22text%22%3A%22a%5C%22b%22%2C%22user%5Fids%22%3A%5B%2D12%5D%7D"
    );
    let json = percent_decode(&body["payload=".len()..]);
    assert_eq!(json, "{\"text\":\"a\\\"b\",\"user_ids\":[-12]}");
}

#[test]
fn outgoing_json_escapes_controls() {
    let body = build_outgoing_form_body(&build_outgoing_payload("\u{1}\t\\é", None));
    let json = percent_decode(&body["payload=".len()..]);
    assert_eq!(json, "{\"text\":\"\\u0001\\t\\\\é\"}");
}

#[test]
fn payload_json_framing_is_exact() {
    assert_eq!(payload_json_with_quoted_text("\"x\"", None), "{\"text\":\"x\"}");
    assert_eq!(
        payload_json_with_quoted_text("\"x\"", Some(i64::MIN)),
        "{\"text\":\"x\",\"user_ids\":[-9223372036854775808]}"
    );
}

// ── End to end ────────────────────────────────────────────────────────

#[test]
fn round_trip_inbound_parse_and_outgoing_url() {
    // {"bot_token":"abc123","synology_base_url":"https://nas.local:5001","default_user_id":6}
    let cfg = config(false, "abc123", "https://nas.local:5001", 6, None, None);
    let body = b"token=abc123&text=ping+%E6%B5%8B%E8%AF%95&username=tester&user_id=42";
    let inbound = parse_incoming_form(body, Some(&cfg.bot_token))
        .ok()
        .flatten()
        .expect("valid form");
    assert_eq!(inbound.sender, "tester");
    assert_eq!(inbound.reply_target, "42");
    assert_eq!(inbound.content, "ping 测试");
    assert_eq!(inbound.user_id, Some(42));

    let uid = cfg.resolve_user_id(&inbound.reply_target);
    assert_eq!(uid, Some(42));

    let url = cfg.outgoing_url().expect("outgoing url");
    assert!(url.starts_with("https://nas.local:5001/webapi/entry.cgi?"));
    assert!(url.contains("token=%22abc123%22"));

    let payload = build_outgoing_payload("pong 测试", uid);
    let body = build_outgoing_form_body(&payload);
    assert!(body.starts_with("payload="));
    let json_part = &body["payload=".len()..];
    let decoded: String = percent_decode_ref(json_part);
    let val: Value = serde_json::from_str(&decoded).unwrap();
    assert_eq!(val["text"], "pong 测试");
    assert_eq!(val["user_ids"], Value::Array(vec![Value::from(42)]));
}

#[test]
fn long_reply_is_segmented_and_each_segment_respects_max_length() {
    let mut lines = Vec::new();
    for i in 0..20 {
        lines.push(format!("line-{i}: {}", "x".repeat(80)));
    }
    let text = lines.join("\n");
    let segs = split_message(&text, 200);
    assert!(segs.len() > 1, "expected multi-segment split, got {segs:?}");
    for seg in &segs {
        assert!(
            seg.len() <= 200,
            "segment of length {} exceeds 200: {seg:?}",
            seg.len()
        );
    }
    let rejoined = segs.join("\n");
    assert_eq!(rejoined, text);
}

#[test]
fn token_mismatch_is_rejected() {
    let body = b"token=WRONG&text=hi&username=u";
    let err = parse_incoming_form(body, Some("RIGHT")).unwrap_err();
    assert!(err.contains("token mismatch"));
}

#[test]
fn empty_content_is_noop_not_error() {
    let body = b"token=TOK&text=&username=u";
    assert!(parse_incoming_form(body, Some("TOK")).unwrap().is_none());
    assert!(parse_incoming_form(b"", Some("TOK")).unwrap().is_none());
}

#[test]
fn percent_decode_matches_reference_decoder() {
    for s in ["a+b%20c", "%zz%4", "%+1x", "%e6%B5%8b", "100%"] {
        assert_eq!(percent_decode(s), percent_decode_ref(s));
    }
    assert_eq!(percent_decode("%FF"), "");
}

/// A percent-decoder written independently, to cross-check bodies.
fn percent_decode_ref(input: &str) -> String {
    let bytes = input.as_bytes();
    let mut out = Vec::with_capacity(bytes.len());
    let mut i = 0;
    while i < bytes.len() {
        match bytes[i] {
            b'+' => {
                out.push(b' ');
                i += 1;
            }
            b'%' if i + 2 < bytes.len() => {
                let hex = &input[i + 1..i + 3];
                if let Ok(byte) = u8::from_str_radix(hex, 16) {
                    out.push(byte);
                    i += 3;
                } else {
                    out.push(bytes[i]);
                    i += 1;
                }
            }
            b => {
                out.push(b);
                i += 1;
            }
        }
    }
    String::from_utf8(out).unwrap_or_default()
}
