//! Tests of the channel's decisions: webhook handling, message ids,
//! throttling, send planning and response verdicts.

use synology_chat::channel::{
    check_segment_response, header_get, parse_webhook, plan_send, segment_send_failed,
    webhook_would_panic, ChannelState, WebhookRejection,
};
use synology_chat::percent::percent_decode;
use synology_chat::synology_chat::SynologyChatConfig;

fn configured(token: &str) -> SynologyChatConfig {
    SynologyChatConfig {
        enabled: true,
        bot_token: token.to_string(),
        synology_base_url: "https://nas:5001/".to_string(),
        default_user_id: 0,
        max_segment_length: Some(5),
        min_send_interval_ms: Some(250),
    }
}

fn headers(pairs: &[(&str, &str)]) -> Vec<(String, String)> {
    pairs
        .iter()
        .map(|(k, v)| (k.to_string(), v.to_string()))
        .collect()
}

#[test]
fn header_get_ignores_ascii_case_and_takes_first() {
    let h = headers(&[("Content-Type", "a"), ("X-Webhook-Method", "get"), ("x-webhook-method", "POST")]);
    assert_eq!(header_get(&h, "x-webhook-method"), Some("get".to_string()));
    assert_eq!(header_get(&h, "CONTENT-TYPE"), Some("a".to_string()));
    assert_eq!(header_get(&h, "content-typ"), None);
    assert_eq!(header_get(&[], "x"), None);
}

#[test]
fn webhook_get_is_acknowledged() {
    let cfg = configured("TOK");
    let h = headers(&[("x-webhook-method", "Get")]);
    assert_eq!(parse_webhook(&cfg, &h, b"token=WRONG&text=hi"), Ok(None));
}

#[test]
fn webhook_token_mismatch_is_unauthorized() {
    let cfg = configured(" TOK ");
    let h = headers(&[("x-webhook-method", "POST")]);
    assert_eq!(
        parse_webhook(&cfg, &h, b"token=WRONG&text=hi"),
        Err(WebhookRejection::Unauthorized("synology-chat: token mismatch".to_string()))
    );
    let inbound = parse_webhook(&cfg, &h, b"token=TOK&text=hi&user_id=5")
        .unwrap()
        .unwrap();
    assert_eq!(inbound.content, "hi");
    assert_eq!(inbound.reply_target, "5");
}

#[test]
fn webhook_bad_body_is_bad_request() {
    let cfg = configured("");
    assert_eq!(
        parse_webhook(&cfg, &[], b"text=\xc3"),
        Err(WebhookRejection::BadRequest(
            "synology-chat: incoming body is not valid UTF-8".to_string()
        ))
    );
    // No token configured: anything goes.
    assert!(parse_webhook(&cfg, &[], b"token=x&text=yo").unwrap().is_some());
    assert_eq!(
        parse_webhook(&cfg, &[], b"token=x&username=u"),
        Err(WebhookRejection::BadRequest(
            "synology-chat: missing required field: text".to_string()
        ))
    );
}

#[test]
fn webhook_panic_check_skips_get_requests() {
    let body = "text=%aé".as_bytes();
    assert!(webhook_would_panic(&[], body));
    assert!(!webhook_would_panic(&headers(&[("X-WEBHOOK-METHOD", "GET")]), body));
}

#[test]
fn message_ids_count_up_and_reset() {
    let mut st = ChannelState::new();
    assert!(!st.health_check());
    assert_eq!(st.next_message_id(), "synology_0");
    assert_eq!(st.next_message_id(), "synology_1");
    st.seq = u64::MAX;
    assert_eq!(st.next_message_id(), "synology_18446744073709551615");
    assert_eq!(st.seq, 0);
    st.record_send(1234);
    st.configure(configured("t"));
    assert!(st.health_check());
    assert_eq!(st.seq, 0);
    assert_eq!(st.last_send_ms, 0);
}

#[test]
fn throttle_waits_for_the_rest_of_the_interval() {
    let mut st = ChannelState::new();
    st.configure(configured("t"));
    assert_eq!(st.throttle_wait_ms(10_000), 0);
    st.record_send(10_000);
    assert_eq!(st.throttle_wait_ms(10_100), 150);
    assert_eq!(st.throttle_wait_ms(10_250), 0);
    assert_eq!(st.throttle_wait_ms(9_000), 250);
    st.config.min_send_interval_ms = None;
    assert_eq!(st.throttle_wait_ms(10_100), 400);
}

#[test]
fn plan_send_refuses_attachments_and_drops_unconfigured() {
    let cfg = configured("t");
    assert_eq!(
        plan_send(&cfg, "6", "hi", true).err(),
        Some("synology-chat: media attachments are not supported yet".to_string())
    );
    assert!(plan_send(&SynologyChatConfig::default(), "6", "hi", false)
        .unwrap()
        .is_none());
}

#[test]
fn plan_send_segments_and_addresses_the_reply() {
    let cfg = configured("t");
    let plan = plan_send(&cfg, "6", "abc\ndef\ng", false).unwrap().unwrap();
    assert_eq!(
        plan.url,
        "https://nas:5001/webapi/entry.cgi?api=SYNO.Chat.External&method=chatbot&version=2&token=%22t%22"
    );
    assert_eq!(plan.min_interval_ms, 250);
    let decoded: Vec<String> = plan
        .bodies
        .iter()
        .map(|b| percent_decode(&b["payload=".len()..]))
        .collect();
    assert_eq!(
        decoded,
        vec![
            "{\"text\":\"abc\",\"user_ids\":[6]}".to_string(),
            "{\"text\":\"def\\ng\",\"user_ids\":[6]}".to_string(),
        ]
    );
    let broadcast = plan_send(&cfg, "room", "x", false).unwrap().unwrap();
    assert_eq!(
        percent_decode(&broadcast.bodies[0]["payload=".len()..]),
        "{\"text\":\"x\"}"
    );
}

#[test]
fn segment_response_verdicts() {
    assert_eq!(check_segment_response(0, 1, 200, "{\"success\":true}"), Ok(()));
    assert_eq!(check_segment_response(0, 1, 299, "{\"success\":true,\"error\":1}"), Ok(()));
    assert_eq!(
        check_segment_response(0, 1, 200, ""),
        Err("synology-chat: segment 1/1 API error: ".to_string())
    );
    assert_eq!(
        check_segment_response(0, 2, 204, "{}"),
        Err("synology-chat: segment 1/2 API error: {}".to_string())
    );
    assert_eq!(
        check_segment_response(0, 1, 500, "{\"success\":true}"),
        Err("synology-chat: segment 1/1 HTTP 500: {\"success\":true}".to_string())
    );
    assert_eq!(
        check_segment_response(0, 3, 500, "oops"),
        Err("synology-chat: segment 1/3 HTTP 500: oops".to_string())
    );
    assert_eq!(
        check_segment_response(1, 3, 199, ""),
        Err("synology-chat: segment 2/3 HTTP 199: ".to_string())
    );
    assert_eq!(
        check_segment_response(2, 3, 200, "{\"success\":false}"),
        Err("synology-chat: segment 3/3 API error: {\"success\":false}".to_string())
    );
    assert_eq!(
        check_segment_response(0, 12, 200, "{\"error\":{\"code\":117}}"),
        Err("synology-chat: segment 1/12 API error: {\"error\":{\"code\":117}}".to_string())
    );
}

#[test]
fn segment_send_failure_message() {
    assert_eq!(
        segment_send_failed(4, 10, "timeout"),
        "synology-chat: segment 5/10 send failed: timeout"
    );
}
