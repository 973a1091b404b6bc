//! The channel's decisions around its I/O: webhook requests, message ids,
//! send planning, throttling between segments and the verdict on each
//! segment's HTTP response. The host bindings perform the I/O and hand the
//! results to these functions.

use vstd::prelude::*;

use crate::segment::split_message_spec;
use crate::synology_chat::{
    build_outgoing_form_body, build_outgoing_payload, effective_max_segment_length,
    form_body_for_json, incoming_form, incoming_form_panics, json_string, outgoing_url_for,
    parse_incoming_form, payload_json_for, resolved_user_id, split_message,
    strings_view, Inbound, SynologyChatConfig,
};
use crate::text::{
    contains_str, eq_ignore_ascii_case, eq_ignore_ascii_case_str, nat_decimal,
    push_decimal_u64, push_str, seq_contains, trim, trimmed,
};

verus! {

// ---------------------------------------------------------------------------
// Webhook requests
// ---------------------------------------------------------------------------

/// The value of the first header whose name equals `name` ignoring ASCII case.
pub open spec fn first_header(headers: Seq<(String, String)>, name: Seq<char>) -> Option<
    Seq<char>,
>
    decreases headers.len(),
{
    if headers.len() == 0 {
        None
    } else if eq_ignore_ascii_case(headers[0].0@, name) {
        Some(headers[0].1@)
    } else {
        first_header(headers.skip(1), name)
    }
}

/// The value of the first header named `name` (ASCII case ignored).
pub fn header_get(headers: &[(String, String)], name: &str) -> (r: Option<String>)
    ensures
        match r {
            Some(v) => first_header(headers@, name@) == Some(v@),
            None => first_header(headers@, name@) is None,
        },
{
    let mut i: usize = 0;
    assert(headers@.skip(0) =~= headers@);
    while i < headers.len()
        invariant
            i <= headers@.len(),
            first_header(headers@, name@) == first_header(headers@.skip(i as int), name@),
        decreases headers@.len() - i,
    {
        let ghost rest = headers@.skip(i as int);
        assert(rest[0] == headers@[i as int]);
        assert(rest.skip(1) =~= headers@.skip(i + 1));
        if eq_ignore_ascii_case_str(headers[i].0.as_str(), name) {
            return Some(headers[i].1.clone());
        }
        i = i + 1;
    }
    None
}

/// Law: the header found is the first one whose name matches, ignoring ASCII
/// case; none is found exactly when no name matches.
pub proof fn lemma_first_header(headers: Seq<(String, String)>, name: Seq<char>)
    ensures
        first_header(headers, name) is None <==> forall|i: int|
            0 <= i < headers.len() ==> !eq_ignore_ascii_case(#[trigger] headers[i].0@, name),
        first_header(headers, name) is Some ==> exists|i: int|
            0 <= i < headers.len() && eq_ignore_ascii_case(#[trigger] headers[i].0@, name)
                && first_header(headers, name) == Some(headers[i].1@) && forall|j: int|
                0 <= j < i ==> !eq_ignore_ascii_case(#[trigger] headers[j].0@, name),
    decreases headers.len(),
{
    if headers.len() > 0 {
        let r = headers.skip(1);
        lemma_first_header(r, name);
        if eq_ignore_ascii_case(headers[0].0@, name) {
            assert(eq_ignore_ascii_case(headers[0].0@, name));
        } else {
            assert forall|i: int| 1 <= i < headers.len() implies headers[i] == r[i - 1] by {}
            if first_header(r, name) is Some {
                let i = choose|i: int|
                    0 <= i < r.len() && eq_ignore_ascii_case(#[trigger] r[i].0@, name)
                        && first_header(r, name) == Some(r[i].1@) && forall|j: int|
                        0 <= j < i ==> !eq_ignore_ascii_case(#[trigger] r[j].0@, name);
                assert(headers[i + 1] == r[i]);
                assert forall|j: int| 0 <= j < i + 1 implies !eq_ignore_ascii_case(
                    #[trigger] headers[j].0@,
                    name,
                ) by {
                    if j > 0 {
                        assert(headers[j] == r[j - 1]);
                    }
                }
            } else {
                assert forall|i: int| 0 <= i < headers.len() implies !eq_ignore_ascii_case(
                    #[trigger] headers[i].0@,
                    name,
                ) by {
                    if i > 0 {
                        assert(headers[i] == r[i - 1]);
                    }
                }
            }
        }
    }
}

/// Whether the request is a plain `GET` acknowledgement (by its
/// `x-webhook-method` header, ASCII case ignored).
pub open spec fn is_get_request(headers: Seq<(String, String)>) -> bool {
    let method = match first_header(headers, "x-webhook-method"@) {
        Some(m) => m,
        None => Seq::empty(),
    };
    eq_ignore_ascii_case(method, "GET"@)
}

/// The token that inbound forms are held to: the trimmed bot token, when it is not blank.
pub open spec fn token_for_verify(bot_token: Seq<char>) -> Option<Seq<char>> {
    if trim(bot_token).len() == 0 {
        None
    } else {
        Some(trim(bot_token))
    }
}

/// Why a webhook request is refused: a token mismatch is unauthorized
/// (the host answers 403), anything else is a bad request.
#[derive(Debug, Clone, PartialEq, Eq)]
pub enum WebhookRejection {
    Unauthorized(String),
    BadRequest(String),
}

/// The rejection for an error message of the form parser.
pub open spec fn rejection_is_unauthorized(message: Seq<char>) -> bool {
    seq_contains(message, "token mismatch"@)
}

pub open spec fn rejection_message(r: WebhookRejection) -> Seq<char> {
    match r {
        WebhookRejection::Unauthorized(m) => m@,
        WebhookRejection::BadRequest(m) => m@,
    }
}

/// Whether handling the request would panic in the form decoder.
pub open spec fn webhook_panics(headers: Seq<(String, String)>, body: Seq<u8>) -> bool {
    !is_get_request(headers) && incoming_form_panics(body)
}

/// Whether `parse_webhook` would panic on this request.
pub fn webhook_would_panic(headers: &[(String, String)], body: &[u8]) -> (r: bool)
    ensures
        r == webhook_panics(headers@, body@),
{
    !is_get(headers) && crate::synology_chat::incoming_form_would_panic(body)
}

fn is_get(headers: &[(String, String)]) -> (r: bool)
    ensures
        r == is_get_request(headers@),
{
    let method = match header_get(headers, "x-webhook-method") {
        Some(m) => m,
        None => String::new(),
    };
    eq_ignore_ascii_case_str(method.as_str(), "GET")
}

/// Handle one webhook request: a `GET` is acknowledged with no message;
/// otherwise the form is checked against the trimmed bot token (when set)
/// and decoded; a token mismatch is `Unauthorized`, any other error a `BadRequest`.
pub fn parse_webhook(config: &SynologyChatConfig, headers: &[(String, String)], body: &[u8]) -> (r:
    Result<Option<Inbound>, WebhookRejection>)
    requires
        !webhook_panics(headers@, body@),
    ensures
        is_get_request(headers@) ==> r == Ok::<Option<Inbound>, WebhookRejection>(None),
        !is_get_request(headers@) ==> match (
            r,
            incoming_form(body@, token_for_verify(config.bot_token@)),
        ) {
            (Ok(None), Ok(None)) => true,
            (Ok(Some(i)), Ok(Some(m))) => i@ == m,
            (Err(rej), Err(msg)) => rejection_message(rej) == msg && (rej is Unauthorized
                <==> rejection_is_unauthorized(msg)),
            _ => false,
        },
{
    if is_get(headers) {
        return Ok(None);
    }
    let token = trimmed(config.bot_token.as_str());
    let verify = if token.as_str().is_empty() {
        None
    } else {
        Some(token.as_str())
    };
    assert(crate::synology_chat::opt_str_view(verify) == token_for_verify(config.bot_token@));
    match parse_incoming_form(body, verify) {
        Ok(inbound) => Ok(inbound),
        Err(e) => {
            if contains_str(e.as_str(), "token mismatch") {
                Err(WebhookRejection::Unauthorized(e))
            } else {
                Err(WebhookRejection::BadRequest(e))
            }
        },
    }
}

// ---------------------------------------------------------------------------
// Channel state
// ---------------------------------------------------------------------------

/// The time to wait before the next segment: what remains of the minimum
/// interval since the last send, when there was one.
pub open spec fn throttle_wait(last_send_ms: u64, now_ms: u64, min_interval_ms: u64) -> u64 {
    let elapsed = if now_ms >= last_send_ms {
        now_ms - last_send_ms
    } else {
        0
    };
    if last_send_ms != 0 && elapsed < min_interval_ms {
        (min_interval_ms - elapsed) as u64
    } else {
        0
    }
}

/// The id of the `seq`-th inbound message: `synology_<seq>`.
pub open spec fn message_id(seq: u64) -> Seq<char> {
    "synology_"@ + nat_decimal(seq as nat)
}

/// Law: messages numbered differently get different ids.
pub proof fn lemma_message_ids_distinct(a: u64, b: u64)
    requires
        a != b,
    ensures
        message_id(a) != message_id(b),
{
    crate::text::lemma_nat_decimal_value(a as nat);
    crate::text::lemma_nat_decimal_value(b as nat);
    let p = "synology_"@;
    if message_id(a) == message_id(b) {
        assert(message_id(a).skip(p.len() as int) =~= nat_decimal(a as nat));
        assert(message_id(b).skip(p.len() as int) =~= nat_decimal(b as nat));
    }
}

/// Law: after a send recorded at a non-zero clock time, the wait before the
/// next send lasts until at least the minimum interval has passed since it (for
/// a clock that has not gone back), and never longer than the interval; with no
/// recorded send (as after `configure`), there is no wait.
pub proof fn lemma_throttle_spacing(last_send_ms: u64, now_ms: u64, min_interval_ms: u64)
    ensures
        throttle_wait(0, now_ms, min_interval_ms) == 0,
        last_send_ms != 0 && now_ms >= last_send_ms ==> now_ms + throttle_wait(
            last_send_ms,
            now_ms,
            min_interval_ms,
        ) - last_send_ms >= min_interval_ms,
        throttle_wait(last_send_ms, now_ms, min_interval_ms) <= min_interval_ms,
        last_send_ms != 0 && now_ms >= last_send_ms && now_ms - last_send_ms
            < min_interval_ms ==> now_ms + throttle_wait(last_send_ms, now_ms, min_interval_ms)
            - last_send_ms == min_interval_ms,
        now_ms >= last_send_ms && now_ms - last_send_ms >= min_interval_ms ==> throttle_wait(
            last_send_ms,
            now_ms,
            min_interval_ms,
        ) == 0,
{
}

/// Law: a segment succeeds exactly when its status is in 200..300 and its
/// body contains `"success":true`.
pub proof fn lemma_segment_success(index: nat, total: nat, status: u16, detail: Seq<char>)
    ensures
        segment_response_verdict(index, total, status, detail) is Ok <==> (200 <= status < 300
            && seq_contains(detail, "\"success\":true"@)),
{
}

/// The channel's state between host calls.
pub struct ChannelState {
    pub config: SynologyChatConfig,
    /// Counter for inbound message ids.
    pub seq: u64,
    /// Clock time (ms) of the last dispatched segment; 0 when none.
    pub last_send_ms: u64,
}

impl ChannelState {
    pub fn new() -> (r: ChannelState)
        ensures
            !r.config.enabled,
            r.config.bot_token@.len() == 0,
            r.config.synology_base_url@.len() == 0,
            r.config.default_user_id == 0,
            r.config.max_segment_length is None,
            r.config.min_send_interval_ms is None,
            !r.config.configured(),
            r.seq == 0,
            r.last_send_ms == 0,
    {
        ChannelState { config: SynologyChatConfig::default(), seq: 0, last_send_ms: 0 }
    }

    /// Install a new configuration and reset the counters.
    pub fn configure(&mut self, config: SynologyChatConfig)
        ensures
            final(self).config == config,
            final(self).seq == 0,
            final(self).last_send_ms == 0,
    {
        self.config = config;
        self.last_send_ms = 0;
        self.seq = 0;
    }

    /// The id for the next inbound message; the counter advances (wrapping).
    pub fn next_message_id(&mut self) -> (r: String)
        ensures
            r@ == message_id(old(self).seq),
            final(self).seq == (if old(self).seq == u64::MAX {
                0
            } else {
                (old(self).seq + 1) as u64
            }),
            final(self).config == old(self).config,
            final(self).last_send_ms == old(self).last_send_ms,
    {
        let v = self.seq;
        self.seq = if v == u64::MAX {
            0
        } else {
            v + 1
        };
        let mut r = "synology_".to_owned();
        push_decimal_u64(&mut r, v);
        r
    }

    /// How long to wait at `now_ms` before sending the next segment.
    pub fn throttle_wait_ms(&self, now_ms: u64) -> (r: u64)
        ensures
            r == throttle_wait(
                self.last_send_ms,
                now_ms,
                match self.config.min_send_interval_ms {
                    Some(ms) => ms,
                    None => crate::synology_chat::DEFAULT_MIN_SEND_INTERVAL_MS,
                },
            ),
            self.last_send_ms != 0 && now_ms >= self.last_send_ms ==> now_ms + r
                - self.last_send_ms >= self.config.min_send_interval_ms.unwrap_or(
                crate::synology_chat::DEFAULT_MIN_SEND_INTERVAL_MS,
            ),
    {
        let min_interval = self.config.min_send_interval_ms();
        let last = self.last_send_ms;
        let elapsed = if now_ms >= last {
            now_ms - last
        } else {
            0
        };
        if last != 0 && elapsed < min_interval {
            min_interval - elapsed
        } else {
            0
        }
    }

    /// Note that a segment was dispatched at `now_ms`.
    pub fn record_send(&mut self, now_ms: u64)
        ensures
            final(self).last_send_ms == now_ms,
            final(self).config == old(self).config,
            final(self).seq == old(self).seq,
    {
        self.last_send_ms = now_ms;
    }

    pub fn health_check(&self) -> (r: bool)
        ensures
            r == self.config.configured(),
    {
        self.config.is_configured()
    }
}

// ---------------------------------------------------------------------------
// Sending
// ---------------------------------------------------------------------------

/// What to send for one outgoing message: the External API URL, the form
/// body of each segment in order, and the minimum interval between segments.
pub struct SendPlan {
    pub url: String,
    pub bodies: Vec<String>,
    pub min_interval_ms: u64,
}

pub open spec fn attachments_unsupported_message() -> Seq<char> {
    "synology-chat: media attachments are not supported yet"@
}

/// The form bodies of the segments of `content` addressed to `user_id`.
pub open spec fn segment_bodies(segments: Seq<Seq<char>>, user_id: Option<i64>) -> Seq<Seq<char>> {
    Seq::new(
        segments.len(),
        |i: int| form_body_for_json(payload_json_for(json_string(segments[i]), user_id)),
    )
}

/// Plan sending `content` to `recipient`: attachments are refused; an
/// unconfigured channel drops the message (`Ok(None)`); otherwise the reply is
/// split into segments with the configured limit, each with a form body
/// addressed to the resolved user id.
pub fn plan_send(
    config: &SynologyChatConfig,
    recipient: &str,
    content: &str,
    has_attachments: bool,
) -> (r: Result<Option<SendPlan>, String>)
    ensures
        has_attachments ==> (r matches Err(e) && e@ == attachments_unsupported_message()),
        !has_attachments && !config.configured() ==> r matches Ok(None),
        !has_attachments && config.configured() ==> (r matches Ok(Some(plan)) && {
            &&& plan.url@ == outgoing_url_for(config.synology_base_url@, config.bot_token@)
            &&& plan.min_interval_ms == config.min_send_interval_ms.unwrap_or(
                crate::synology_chat::DEFAULT_MIN_SEND_INTERVAL_MS,
            )
            &&& strings_view(plan.bodies@) == segment_bodies(
                split_message_spec(
                    content@,
                    effective_max_segment_length(config.max_segment_length) as nat,
                ),
                resolved_user_id(recipient@, config.default_user_id),
            )
        }),
{
    if has_attachments {
        return Err("synology-chat: media attachments are not supported yet".to_owned());
    }
    let url = match config.outgoing_url() {
        Some(u) => u,
        None => {
            return Ok(None);
        },
    };
    let user_id = config.resolve_user_id(recipient);
    let segments = split_message(content, config.max_segment_length());
    let ghost segs = strings_view(segments@);
    let mut bodies: Vec<String> = Vec::new();
    let mut i: usize = 0;
    while i < segments.len()
        invariant
            i <= segments@.len(),
            segs == strings_view(segments@),
            strings_view(bodies@) == segment_bodies(segs, user_id).take(i as int),
        decreases segments@.len() - i,
    {
        let payload = build_outgoing_payload(segments[i].as_str(), user_id);
        let body = build_outgoing_form_body(&payload);
        assert(segs[i as int] == segments@[i as int]@);
        let ghost before = bodies@;
        assert(body@ == segment_bodies(segs, user_id)[i as int]);
        proof {
            crate::synology_chat::lemma_strings_view_push(bodies@, body);
        }
        bodies.push(body);
        assert(strings_view(bodies@) =~= segment_bodies(segs, user_id).take(i + 1));
        i = i + 1;
    }
    assert(segment_bodies(segs, user_id).take(i as int) =~= segment_bodies(segs, user_id));
    Ok(Some(SendPlan { url, bodies, min_interval_ms: config.min_send_interval_ms() }))
}

/// The start of every segment error: `synology-chat: segment <i+1>/<n> `.
pub open spec fn segment_error_prefix(index: nat, total: nat) -> Seq<char> {
    "synology-chat: segment "@ + nat_decimal(index + 1) + "/"@ + nat_decimal(total) + " "@
}

fn push_segment_error_prefix(r: &mut String, index: usize, total: usize)
    requires
        index < total,
    ensures
        final(r)@ == old(r)@ + segment_error_prefix(index as nat, total as nat),
{
    push_str(r, "synology-chat: segment ");
    push_decimal_u64(r, (index + 1) as u64);
    push_str(r, "/");
    push_decimal_u64(r, total as u64);
    push_str(r, " ");
    assert(r@ =~= old(r)@ + segment_error_prefix(index as nat, total as nat));
}

/// The error for a segment whose request could not be sent.
pub fn segment_send_failed(index: usize, total: usize, reason: &str) -> (r: String)
    requires
        index < total,
    ensures
        r@ == segment_error_prefix(index as nat, total as nat) + "send failed: "@ + reason@,
{
    let mut r = String::new();
    push_segment_error_prefix(&mut r, index, total);
    push_str(&mut r, "send failed: ");
    push_str(&mut r, reason);
    assert(r@ =~= segment_error_prefix(index as nat, total as nat) + "send failed: "@ + reason@);
    r
}

/// The verdict on a segment's response: success needs a status in 200..300
/// and a body containing `"success":true`; another status is an HTTP error,
/// a 2xx body without that flag an API error.
pub open spec fn segment_response_verdict(
    index: nat,
    total: nat,
    status: u16,
    detail: Seq<char>,
) -> Result<(), Seq<char>> {
    if !(200 <= status && status < 300) {
        Err(
            segment_error_prefix(index, total) + "HTTP "@ + nat_decimal(status as nat) + ": "@
                + detail,
        )
    } else if !seq_contains(detail, "\"success\":true"@) {
        Err(segment_error_prefix(index, total) + "API error: "@ + detail)
    } else {
        Ok(())
    }
}

/// Check the response to segment `index` of `total`.
pub fn check_segment_response(index: usize, total: usize, status: u16, detail: &str) -> (r:
    Result<(), String>)
    requires
        index < total,
    ensures
        match (r, segment_response_verdict(index as nat, total as nat, status, detail@)) {
            (Ok(()), Ok(())) => true,
            (Err(e), Err(m)) => e@ == m,
            _ => false,
        },
{
    if !(200 <= status && status < 300) {
        let mut r = String::new();
        push_segment_error_prefix(&mut r, index, total);
        push_str(&mut r, "HTTP ");
        push_decimal_u64(&mut r, status as u64);
        push_str(&mut r, ": ");
        push_str(&mut r, detail);
        assert(r@ =~= segment_error_prefix(index as nat, total as nat) + "HTTP "@ + nat_decimal(
            status as nat,
        ) + ": "@ + detail@);
        return Err(r);
    }
    if !contains_str(detail, "\"success\":true") {
        let mut r = String::new();
        push_segment_error_prefix(&mut r, index, total);
        push_str(&mut r, "API error: ");
        push_str(&mut r, detail);
        assert(r@ =~= segment_error_prefix(index as nat, total as nat) + "API error: "@ + detail@);
        return Err(r);
    }
    Ok(())
}

} // verus!
