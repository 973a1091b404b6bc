//! Synology Chat channel logic: the channel's configuration, verification
//! and decoding of the outgoing-webhook form that Synology posts, splitting of
//! long replies into segments, and the `payload=...` body and External API URL
//! of outgoing messages.

use vstd::prelude::*;
use vstd::utf8::*;

use crate::form::{
    decoded_form, form_decode_panics, form_urlencoded_decode, lemma_split_step, lookup, split_seq, FormFields,
};
use crate::percent::{percent_encoded, utf8_percent_encode_non_alphanumeric};
use crate::segment::{hard_chunks, split_message_spec, split_run, split_step};
use crate::text::{
    chars_of, int_decimal, is_blank, is_valid_utf8, parse_i64, parse_i64_str, push_decimal_i64,
    push_str, string_of_range, trim, trim_bounds, trim_end, trim_end_index,
    trim_end_matches, trimmed,
};

verus! {

pub const CHANNEL: &'static str = "synology-chat";

/// The URL path segment the host mounts this channel's webhook under
/// (`/plugin/synology-chat`).
pub const WEBHOOK_PATH: &'static str = "synology-chat";

pub const DEFAULT_MAX_SEGMENT_LENGTH: usize = 500;

pub const DEFAULT_MIN_SEND_INTERVAL_MS: u64 = 500;

/// The plugin's config section, mirroring `[channels.synology-chat.<alias>]`.
#[derive(Debug, Clone)]
pub struct SynologyChatConfig {
    /// Host-side enable gate.
    pub enabled: bool,
    /// Synology Chat bot token: used both for inbound token verification and
    /// for building the outbound External API URL.
    pub bot_token: String,
    /// Synology NAS base URL, e.g. `https://nas.example.com:5001`.
    pub synology_base_url: String,
    /// Default user id for replies whose target is not a positive number;
    /// 0 means none.
    pub default_user_id: i64,
    /// Maximum characters per outgoing segment; see `max_segment_length()`.
    pub max_segment_length: Option<usize>,
    /// Minimum interval between two consecutive segment sends, in milliseconds.
    pub min_send_interval_ms: Option<u64>,
}

impl Default for SynologyChatConfig {
    fn default() -> (r: Self)
        ensures
            !r.enabled,
            r.bot_token@.len() == 0,
            r.synology_base_url@.len() == 0,
            r.default_user_id == 0,
            r.max_segment_length is None,
            r.min_send_interval_ms is None,
    {
        SynologyChatConfig {
            enabled: false,
            bot_token: String::new(),
            synology_base_url: String::new(),
            default_user_id: 0,
            max_segment_length: None,
            min_send_interval_ms: None,
        }
    }
}

/// The segment limit in effect: the configured one when positive, else the default.
pub open spec fn effective_max_segment_length(configured: Option<usize>) -> usize {
    match configured {
        Some(n) => if n > 0 {
            n
        } else {
            DEFAULT_MAX_SEGMENT_LENGTH
        },
        None => DEFAULT_MAX_SEGMENT_LENGTH,
    }
}

/// The user id a reply goes to: the reply target when it is a positive
/// integer, else the default user id when that is positive, else none.
pub open spec fn resolved_user_id(reply_target: Seq<char>, default_user_id: i64) -> Option<i64> {
    match parse_i64(reply_target) {
        Some(id) if id > 0 => Some(id),
        _ => if default_user_id > 0 {
            Some(default_user_id)
        } else {
            None
        },
    }
}

/// The query that follows the base URL of the Synology External API.
pub open spec fn external_api_query() -> Seq<char> {
    "/webapi/entry.cgi?api=SYNO.Chat.External&method=chatbot&version=2&token="@
}

/// The External API URL for a base URL and a bot token: the trimmed base
/// without trailing slashes, the API path and query, and the trimmed token in
/// double quotes, percent-encoded.
pub open spec fn outgoing_url_for(base_url: Seq<char>, bot_token: Seq<char>) -> Seq<char> {
    trim_end_matches(trim(base_url), '/') + external_api_query() + percent_encoded(
        encode_utf8(seq!['"'] + trim(bot_token) + seq!['"']),
    )
}

impl SynologyChatConfig {
    /// Both the bot token and the base URL are set (not blank).
    pub open spec fn configured(&self) -> bool {
        trim(self.bot_token@).len() > 0 && trim(self.synology_base_url@).len() > 0
    }

    pub fn is_configured(&self) -> (r: bool)
        ensures
            r == self.configured(),
    {
        !is_blank(self.bot_token.as_str()) && !is_blank(self.synology_base_url.as_str())
    }

    pub fn max_segment_length(&self) -> (r: usize)
        ensures
            r == effective_max_segment_length(self.max_segment_length),
            r > 0,
    {
        match self.max_segment_length {
            Some(n) => if n > 0 {
                n
            } else {
                DEFAULT_MAX_SEGMENT_LENGTH
            },
            None => DEFAULT_MAX_SEGMENT_LENGTH,
        }
    }

    pub fn min_send_interval_ms(&self) -> (r: u64)
        ensures
            r == match self.min_send_interval_ms {
                Some(ms) => ms,
                None => DEFAULT_MIN_SEND_INTERVAL_MS,
            },
    {
        match self.min_send_interval_ms {
            Some(ms) => ms,
            None => DEFAULT_MIN_SEND_INTERVAL_MS,
        }
    }

    /// Resolve the numeric user id for an outbound reply: prefer the explicit
    /// reply target when it parses as a positive integer, else fall back to
    /// `default_user_id`. Returns `None` when neither is a positive id.
    pub fn resolve_user_id(&self, reply_target: &str) -> (r: Option<i64>)
        ensures
            r == resolved_user_id(reply_target@, self.default_user_id),
    {
        if let Some(id) = parse_i64_str(reply_target) {
            if id > 0 {
                return Some(id);
            }
        }
        if self.default_user_id > 0 {
            Some(self.default_user_id)
        } else {
            None
        }
    }

    /// The full Synology External API URL for sending messages, when the
    /// channel is configured:
    /// `<base>/webapi/entry.cgi?api=SYNO.Chat.External&method=chatbot&version=2&token=%22...%22`.
    pub fn outgoing_url(&self) -> (r: Option<String>)
        ensures
            r is Some <==> self.configured(),
            r matches Some(url) ==> url@ == outgoing_url_for(
                self.synology_base_url@,
                self.bot_token@,
            ),
    {
        if !self.is_configured() {
            return None;
        }
        let base = chars_of(self.synology_base_url.as_str());
        let (b, e0) = trim_bounds(&base, 0, base.len());
        assert(base@.subrange(0, base@.len() as int) =~= base@);
        let mut e: usize = e0;
        while e > b && base[e - 1] == '/'
            invariant
                b <= e <= e0 <= base@.len(),
                trim_end_matches(base@.subrange(b as int, e0 as int), '/') == trim_end_matches(
                    base@.subrange(b as int, e as int),
                    '/',
                ),
            decreases e,
        {
            assert(base@.subrange(b as int, e as int).drop_last() =~= base@.subrange(
                b as int,
                e - 1,
            ));
            e = e - 1;
        }
        let mut url = string_of_range(&base, b, e);
        push_str(&mut url, "/webapi/entry.cgi?api=SYNO.Chat.External&method=chatbot&version=2&token=");
        let mut token_value = String::new();
        token_value.push('"');
        let token = trimmed(self.bot_token.as_str());
        push_str(&mut token_value, token.as_str());
        token_value.push('"');
        assert(token_value@ =~= seq!['"'] + trim(self.bot_token@) + seq!['"']);
        let encoded = utf8_percent_encode_non_alphanumeric(token_value.as_str());
        push_str(&mut url, encoded.as_str());
        Some(url)
    }
}

/// An inbound message after parsing the Synology Chat outgoing-webhook form.
#[derive(Debug, Clone, PartialEq, Eq)]
pub struct Inbound {
    pub sender: String,
    /// The numeric `user_id` (as a string) from the incoming form so replies
    /// can go back to the same user; else the `channel_id`; else the sender.
    pub reply_target: String,
    pub content: String,
    pub user_id: Option<i64>,
}

/// The contents of an [`Inbound`].
pub struct InboundModel {
    pub sender: Seq<char>,
    pub reply_target: Seq<char>,
    pub content: Seq<char>,
    pub user_id: Option<i64>,
}

impl View for Inbound {
    type V = InboundModel;

    open spec fn view(&self) -> InboundModel {
        InboundModel {
            sender: self.sender@,
            reply_target: self.reply_target@,
            content: self.content@,
            user_id: self.user_id,
        }
    }
}

pub open spec fn not_utf8_message() -> Seq<char> {
    "synology-chat: incoming body is not valid UTF-8"@
}

pub open spec fn token_mismatch_message() -> Seq<char> {
    "synology-chat: token mismatch"@
}

pub open spec fn missing_text_message() -> Seq<char> {
    "synology-chat: missing required field: text"@
}

/// The value of a field, or the empty text when the form has none.
pub open spec fn field_or_empty(m: Map<Seq<char>, Seq<char>>, name: Seq<char>) -> Seq<char> {
    match lookup(m, name) {
        Some(v) => v,
        None => Seq::empty(),
    }
}

/// The value of a field when the form has one and it is not empty.
pub open spec fn non_empty_field(m: Map<Seq<char>, Seq<char>>, name: Seq<char>) -> Option<
    Seq<char>,
> {
    match lookup(m, name) {
        Some(v) => if v.len() > 0 {
            Some(v)
        } else {
            None
        },
        None => None,
    }
}

/// Whether the form's `token` field is rejected: a non-blank token is
/// configured and the trimmed form token differs from it.
pub open spec fn token_rejected(m: Map<Seq<char>, Seq<char>>, configured: Option<Seq<char>>) -> bool {
    match configured {
        Some(expected) => trim(expected).len() > 0 && trim(field_or_empty(m, "token"@)) != trim(
            expected,
        ),
        None => false,
    }
}

/// The message that a decoded form with non-blank text stands for.
pub open spec fn inbound_of_form(m: Map<Seq<char>, Seq<char>>) -> InboundModel {
    let username = match non_empty_field(m, "username"@) {
        Some(u) => u,
        None => "user"@,
    };
    let user_id_str = non_empty_field(m, "user_id"@);
    let user_id = match user_id_str {
        Some(s) => parse_i64(s),
        None => None,
    };
    let reply_target = match user_id_str {
        Some(s) => s,
        None => match non_empty_field(m, "channel_id"@) {
            Some(c) => c,
            None => username,
        },
    };
    InboundModel {
        sender: username,
        reply_target: reply_target,
        content: trim(field_or_empty(m, "text"@)),
        user_id: user_id,
    }
}

/// What parsing a webhook form body gives: nothing for an empty body (a plain
/// acknowledgement); an error for a body that is not UTF-8, whose token is
/// rejected, or that lacks the required `text` field; nothing for blank text;
/// else the message.
pub open spec fn incoming_form(body: Seq<u8>, configured: Option<Seq<char>>) -> Result<
    Option<InboundModel>,
    Seq<char>,
> {
    if body.len() == 0 {
        Ok(None)
    } else if !valid_utf8(body) {
        Err(not_utf8_message())
    } else {
        let m = decoded_form(body);
        if token_rejected(m, configured) {
            Err(token_mismatch_message())
        } else if lookup(m, "text"@) is None {
            Err(missing_text_message())
        } else if trim(field_or_empty(m, "text"@)).len() == 0 {
            Ok(None)
        } else {
            Ok(Some(inbound_of_form(m)))
        }
    }
}

/// Whether parsing `body` panics: a percent escape's two bytes end inside a
/// multi-byte character, where the text cannot be sliced. `parse_incoming_form`
/// excludes such bodies.
pub open spec fn incoming_form_panics(body: Seq<u8>) -> bool {
    body.len() > 0 && valid_utf8(body) && form_decode_panics(body)
}

pub open spec fn opt_str_view(s: Option<&str>) -> Option<Seq<char>> {
    match s {
        Some(t) => Some(t@),
        None => None,
    }
}

pub open spec fn parse_result_view(r: Result<Option<Inbound>, String>) -> Result<
    Option<InboundModel>,
    Seq<char>,
> {
    match r {
        Ok(Some(i)) => Ok(Some(i@)),
        Ok(None) => Ok(None),
        Err(e) => Err(e@),
    }
}

/// Whether `parse_incoming_form` would panic on `body`.
pub fn incoming_form_would_panic(body: &[u8]) -> (r: bool)
    ensures
        r == incoming_form_panics(body@),
{
    body.len() > 0 && is_valid_utf8(body) && crate::form::form_body_panics(body)
}

fn field_or_empty_of(parsed: &FormFields, name: &str) -> (r: String)
    requires
        parsed.wf(),
    ensures
        r@ == field_or_empty(parsed@, name@),
{
    match parsed.get(name) {
        Some(v) => v,
        None => String::new(),
    }
}

fn non_empty_field_of(parsed: &FormFields, name: &str) -> (r: Option<String>)
    requires
        parsed.wf(),
    ensures
        match r {
            Some(v) => non_empty_field(parsed@, name@) == Some(v@),
            None => non_empty_field(parsed@, name@) is None,
        },
{
    match parsed.get(name) {
        Some(v) => if v.as_str().is_empty() {
            None
        } else {
            Some(v)
        },
        None => None,
    }
}

/// Parse a Synology Chat outgoing-webhook form body (`x-www-form-urlencoded`).
/// Returns `Ok(None)` when this is a plain acknowledgement or the text is
/// blank, `Err` when the body is not UTF-8, the token does not match, or the
/// required `text` field is missing.
pub fn parse_incoming_form(body: &[u8], configured_token: Option<&str>) -> (r: Result<
    Option<Inbound>,
    String,
>)
    requires
        !incoming_form_panics(body@),
    ensures
        parse_result_view(r) == incoming_form(body@, opt_str_view(configured_token)),
{
    if body.len() == 0 {
        return Ok(None);
    }
    if !is_valid_utf8(body) {
        return Err("synology-chat: incoming body is not valid UTF-8".to_owned());
    }
    let parsed = form_urlencoded_decode(body);
    let ghost m = parsed@;
    let form_token = field_or_empty_of(&parsed, "token");
    if let Some(expected) = configured_token {
        if !is_blank(expected) && trimmed(form_token.as_str()) != trimmed(expected) {
            return Err("synology-chat: token mismatch".to_owned());
        }
    }
    let text = match parsed.get("text") {
        Some(t) => trimmed(t.as_str()),
        None => {
            return Err("synology-chat: missing required field: text".to_owned());
        },
    };
    if text.as_str().is_empty() {
        return Ok(None);
    }
    let username = match non_empty_field_of(&parsed, "username") {
        Some(u) => u,
        None => "user".to_owned(),
    };
    let user_id_str = non_empty_field_of(&parsed, "user_id");
    let user_id = match &user_id_str {
        Some(s) => parse_i64_str(s.as_str()),
        None => None,
    };
    let reply_target = match user_id_str {
        Some(s) => s,
        None => match non_empty_field_of(&parsed, "channel_id") {
            Some(c) => c,
            None => username.clone(),
        },
    };
    let inbound = Inbound { sender: username, reply_target, content: text, user_id };
    assert(inbound@ == inbound_of_form(m));
    Ok(Some(inbound))
}

/// Law: a reply to a message whose `user_id` field is a positive number goes
/// to that user, whatever the default user id.
pub proof fn lemma_reply_goes_back_to_sender(
    body: Seq<u8>,
    configured: Option<Seq<char>>,
    default_user_id: i64,
)
    ensures
        (incoming_form(body, configured) matches Ok(Some(m)) && m.user_id matches Some(id)
            && id > 0) ==> resolved_user_id(
            incoming_form(body, configured)->Ok_0->Some_0.reply_target,
            default_user_id,
        ) == incoming_form(body, configured)->Ok_0->Some_0.user_id,
{
}

/// Law: with a non-blank configured token, a form whose trimmed token differs
/// from it is refused with the token-mismatch error, whatever else it holds.
pub proof fn lemma_bad_token_rejected(body: Seq<u8>, expected: Seq<char>)
    requires
        body.len() > 0,
        valid_utf8(body),
        trim(expected).len() > 0,
        trim(field_or_empty(decoded_form(body), "token"@)) != trim(expected),
    ensures
        incoming_form(body, Some(expected)) == Err::<Option<InboundModel>, Seq<char>>(
            token_mismatch_message(),
        ),
{
}

/// Law: without a configured token (or with a blank one), any token is
/// accepted: the body is parsed as if no token were configured.
pub proof fn lemma_unconfigured_token_accepts_any(body: Seq<u8>, configured: Option<Seq<char>>)
    requires
        configured matches Some(t) ==> trim(t).len() == 0,
    ensures
        incoming_form(body, configured) == incoming_form(body, None),
{
}

/// Law: an accepted form without a `text` field is an error.
pub proof fn lemma_missing_text_is_error(body: Seq<u8>, configured: Option<Seq<char>>)
    requires
        body.len() > 0,
        valid_utf8(body),
        !token_rejected(decoded_form(body), configured),
        lookup(decoded_form(body), "text"@) is None,
    ensures
        incoming_form(body, configured) == Err::<Option<InboundModel>, Seq<char>>(
            missing_text_message(),
        ),
{
}

/// Law: an empty body, or a form whose `text` field is blank, yields no
/// message and no error.
pub proof fn lemma_blank_text_is_no_message(body: Seq<u8>, configured: Option<Seq<char>>)
    requires
        body.len() == 0 || (valid_utf8(body) && !token_rejected(decoded_form(body), configured)
            && lookup(decoded_form(body), "text"@) is Some && trim(
            field_or_empty(decoded_form(body), "text"@),
        ).len() == 0),
    ensures
        incoming_form(body, configured) == Ok::<Option<InboundModel>, Seq<char>>(None),
{
}

/// Law: what an accepted message holds, field by field, in terms of the
/// decoded form. Its content is the whole `text` field, trimmed; its sender is
/// the `username` field when not empty, else `user`; its reply target is the
/// `user_id` field when not empty (and its user id that field read as an
/// integer), else the `channel_id` field when not empty, else the sender.
pub proof fn lemma_inbound_fields(body: Seq<u8>, configured: Option<Seq<char>>)
    ensures
        incoming_form(body, configured) matches Ok(Some(msg)) ==> {
            let m = decoded_form(body);
            let text = lookup(m, "text"@);
            let name = lookup(m, "username"@);
            let id = lookup(m, "user_id"@);
            let channel = lookup(m, "channel_id"@);
            let has_name = name is Some && name.unwrap().len() > 0;
            let has_id = id is Some && id.unwrap().len() > 0;
            let has_channel = channel is Some && channel.unwrap().len() > 0;
            &&& text is Some
            &&& msg.content == trim(text.unwrap())
            &&& msg.content.len() > 0
            &&& has_name ==> msg.sender == name.unwrap()
            &&& !has_name ==> msg.sender == "user"@
            &&& has_id ==> msg.reply_target == id.unwrap() && msg.user_id == parse_i64(id.unwrap())
            &&& !has_id ==> msg.user_id is None
            &&& !has_id && has_channel ==> msg.reply_target == channel.unwrap()
            &&& !has_id && !has_channel ==> msg.reply_target == msg.sender
        },
{
}

/// Law: a reply goes to the reply target when that reads as a positive
/// integer, else to the default user id when that is positive, else to no one;
/// it never goes to a non-positive id, and the decimal form of any positive
/// id always resolves to that id.
pub proof fn lemma_resolve_user_id(reply_target: Seq<char>, default_user_id: i64, n: i64)
    ensures
        resolved_user_id(reply_target, default_user_id) is Some ==> resolved_user_id(
            reply_target,
            default_user_id,
        ).unwrap() > 0,
        parse_i64(reply_target) is Some && parse_i64(reply_target).unwrap() > 0
            ==> resolved_user_id(reply_target, default_user_id) == parse_i64(reply_target),
        !(parse_i64(reply_target) is Some && parse_i64(reply_target).unwrap() > 0)
            ==> resolved_user_id(reply_target, default_user_id) == (if default_user_id > 0 {
            Some(default_user_id)
        } else {
            None
        }),
        n > 0 ==> resolved_user_id(int_decimal(n as int), default_user_id) == Some(n),
{
    crate::text::lemma_parse_i64_of_decimal(n);
}

/// Law: a non-empty body that is not UTF-8 is refused; a form whose trimmed
/// token equals the trimmed configured token is parsed as if no token were
/// configured.
pub proof fn lemma_utf8_and_matching_token(body: Seq<u8>, expected: Seq<char>)
    ensures
        body.len() > 0 && !valid_utf8(body) ==> incoming_form(body, Some(expected)) == Err::<
            Option<InboundModel>,
            Seq<char>,
        >(not_utf8_message()),
        trim(field_or_empty(decoded_form(body), "token"@)) == trim(expected) ==> incoming_form(
            body,
            Some(expected),
        ) == incoming_form(body, None),
{
}

/// Law: the segment limit in effect is the configured one whenever that is
/// positive, whatever its size; only no limit or a zero limit give the default.
pub proof fn lemma_configured_segment_limit(configured: Option<usize>)
    ensures
        configured is Some && configured.unwrap() > 0 ==> effective_max_segment_length(
            configured,
        ) == configured.unwrap(),
        configured == Some(0usize) ==> effective_max_segment_length(configured)
            == DEFAULT_MAX_SEGMENT_LENGTH,
        configured is None ==> effective_max_segment_length(configured)
            == DEFAULT_MAX_SEGMENT_LENGTH,
{
}

// ---------------------------------------------------------------------------
// Splitting replies into segments
// ---------------------------------------------------------------------------

/// The texts of a sequence of strings.
pub open spec fn strings_view(v: Seq<String>) -> Seq<Seq<char>> {
    v.map_values(|s: String| s@)
}

pub proof fn lemma_strings_view_push(v: Seq<String>, s: String)
    ensures
        strings_view(v.push(s)) == strings_view(v).push(s@),
{
    assert(strings_view(v.push(s)) =~= strings_view(v).push(s@));
}

/// Pushes `cur` without its trailing whitespace.
fn push_trimmed(segs: &mut Vec<String>, cur: &Vec<char>)
    ensures
        strings_view(final(segs)@) == strings_view(old(segs)@).push(trim_end(cur@)),
{
    let e = trim_end_index(cur, 0, cur.len());
    assert(cur@.subrange(0, cur@.len() as int) =~= cur@);
    let s = string_of_range(cur, 0, e);
    proof {
        lemma_strings_view_push(segs@, s);
    }
    segs.push(s);
}

/// Feeds the line `cs[lo..hi]` to the segmenter.
fn split_line(
    segs: &mut Vec<String>,
    cur: &mut Vec<char>,
    cs: &Vec<char>,
    lo: usize,
    hi: usize,
    max_length: usize,
)
    requires
        max_length > 0,
        lo <= hi <= cs@.len(),
        old(cur)@.len() <= max_length,
    ensures
        (strings_view(final(segs)@), final(cur)@) == split_step(
            strings_view(old(segs)@),
            old(cur)@,
            cs@.subrange(lo as int, hi as int),
            max_length as nat,
        ),
        final(cur)@.len() <= max_length,
{
    let ghost line = cs@.subrange(lo as int, hi as int);
    let ghost segs0 = strings_view(segs@);
    let ghost cur0 = cur@;
    let line_len: usize = hi - lo;
    // With `cur.len() <= max_length`, `cur.len() + line_len + 1 > max_length`
    // is `line_len >= max_length - cur.len()`.
    if cur.len() > 0 && line_len >= max_length - cur.len() {
        push_trimmed(segs, cur);
        *cur = Vec::new();
    }
    let ghost segs1 = strings_view(segs@);
    let ghost cur1 = cur@;
    if line_len > max_length {
        if cur.len() > 0 {
            push_trimmed(segs, cur);
            *cur = Vec::new();
        }
        let ghost segs2 = strings_view(segs@);
        let mut pos: usize = lo;
        assert(segs2 + hard_chunks(line, max_length as nat) =~= strings_view(segs@)
            + hard_chunks(cs@.subrange(pos as int, hi as int), max_length as nat));
        while pos < hi
            invariant
                lo <= pos <= hi <= cs@.len(),
                max_length > 0,
                line == cs@.subrange(lo as int, hi as int),
                segs2 + hard_chunks(line, max_length as nat) == strings_view(segs@) + hard_chunks(
                    cs@.subrange(pos as int, hi as int),
                    max_length as nat,
                ),
            decreases hi - pos,
        {
            let end: usize = if hi - pos > max_length {
                pos + max_length
            } else {
                hi
            };
            let ghost rest = cs@.subrange(pos as int, hi as int);
            let ghost segs_before = strings_view(segs@);
            let chunk = string_of_range(cs, pos, end);
            proof {
                lemma_strings_view_push(segs@, chunk);
                if hi - pos > max_length {
                    assert(rest.take(max_length as int) =~= cs@.subrange(pos as int, end as int));
                    assert(rest.skip(max_length as int) =~= cs@.subrange(end as int, hi as int));
                } else {
                    assert(cs@.subrange(end as int, hi as int) =~= Seq::<char>::empty());
                }
            }
            segs.push(chunk);
            pos = end;
            assert(strings_view(segs@) + hard_chunks(cs@.subrange(pos as int, hi as int), max_length as nat)
                =~= segs_before + hard_chunks(rest, max_length as nat));
        }
        assert(cs@.subrange(hi as int, hi as int) =~= Seq::<char>::empty());
        assert(strings_view(segs@) =~= segs2 + hard_chunks(line, max_length as nat));
    } else {
        if cur.len() > 0 {
            cur.push('\n');
        }
        let ghost before = cur@;
        let mut k: usize = lo;
        while k < hi
            invariant
                lo <= k <= hi <= cs@.len(),
                cur@ == before + cs@.subrange(lo as int, k as int),
            decreases hi - k,
        {
            cur.push(cs[k]);
            k = k + 1;
            assert(cur@ =~= before + cs@.subrange(lo as int, k as int));
        }
        proof {
            if cur1.len() == 0 {
                assert(before =~= cur1);
            }
        }
    }
}

/// Split a long message into line-aware segments of at most `max_length`
/// characters each, preserving line breaks where possible.
pub fn split_message(text: &str, max_length: usize) -> (r: Vec<String>)
    ensures
        strings_view(r@) == split_message_spec(text@, max_length as nat),
        max_length > 0 ==> forall|i: int|
            0 <= i < r@.len() ==> (#[trigger] r@[i])@.len() <= max_length,
{
    if max_length == 0 {
        let mut v: Vec<String> = Vec::new();
        if !text.is_empty() {
            let s = text.to_owned();
            proof {
                lemma_strings_view_push(v@, s);
            }
            v.push(s);
        }
        assert(strings_view(v@) =~= split_message_spec(text@, max_length as nat));
        return v;
    }
    let cs = chars_of(text);
    let n = cs.len();
    let mut segs: Vec<String> = Vec::new();
    let mut cur: Vec<char> = Vec::new();
    let mut start: usize = 0;
    let mut i: usize = 0;
    let ghost mut done: Seq<Seq<char>> = seq![];
    assert(cs@.take(0) =~= Seq::<char>::empty());
    assert(split_seq(cs@.take(0), '\n') =~= seq![Seq::<char>::empty()]);
    assert(cs@.subrange(0, 0) =~= Seq::<char>::empty());
    assert(strings_view(segs@) =~= Seq::<Seq<char>>::empty());
    while i < n
        invariant
            n == cs@.len(),
            cs@ == text@,
            max_length > 0,
            start <= i <= n,
            split_seq(cs@.take(i as int), '\n') == done.push(cs@.subrange(start as int, i as int)),
            (strings_view(segs@), cur@) == split_run(done, max_length as nat),
            cur@.len() <= max_length,
        decreases n - i,
    {
        proof {
            lemma_split_step(cs@, '\n', i as int);
        }
        if cs[i] == '\n' {
            let ghost line = cs@.subrange(start as int, i as int);
            split_line(&mut segs, &mut cur, &cs, start, i, max_length);
            proof {
                assert(done.push(line).drop_last() =~= done);
                done = done.push(line);
            }
            assert(cs@.subrange(i + 1, i + 1) =~= Seq::<char>::empty());
            start = i + 1;
        } else {
            assert(cs@.subrange(start as int, i as int).push(cs@[i as int]) =~= cs@.subrange(
                start as int,
                i + 1,
            ));
        }
        i = i + 1;
    }
    assert(cs@.take(n as int) =~= cs@);
    let ghost line = cs@.subrange(start as int, n as int);
    split_line(&mut segs, &mut cur, &cs, start, n, max_length);
    proof {
        assert(done.push(line).drop_last() =~= done);
    }
    let e = trim_end_index(&cur, 0, cur.len());
    assert(cur@.subrange(0, cur@.len() as int) =~= cur@);
    if e > 0 {
        let tail = string_of_range(&cur, 0, e);
        proof {
            lemma_strings_view_push(segs@, tail);
        }
        segs.push(tail);
    }
    assert(strings_view(segs@) == split_message_spec(text@, max_length as nat));
    proof {
        crate::segment::lemma_segments_within_limit(text@, max_length as nat);
        assert forall|i: int| 0 <= i < segs@.len() implies (#[trigger] segs@[i])@.len()
            <= max_length by {
            assert(strings_view(segs@)[i] == segs@[i]@);
            assert(split_message_spec(text@, max_length as nat)[i] == segs@[i]@);
        }
    }
    segs
}

// ---------------------------------------------------------------------------
// Outgoing messages
// ---------------------------------------------------------------------------

/// An outgoing message as the Synology Chat External API expects it:
/// `{"text": "<segment>", "user_ids": [<user_id>]}`, where `user_ids` is
/// omitted when there is no user id (broadcast / channel-only).
pub struct OutgoingPayload {
    pub text: String,
    pub user_id: Option<i64>,
}

/// Build the outgoing payload for a segment and an optional user id.
pub fn build_outgoing_payload(text: &str, user_id: Option<i64>) -> (r: OutgoingPayload)
    ensures
        r.text@ == text@,
        r.user_id == user_id,
{
    OutgoingPayload { text: text.to_owned(), user_id }
}

/// A lower-case hexadecimal digit, for `n < 16`.
pub open spec fn hex_lower(n: nat) -> char {
    if n < 10 {
        (n + 48) as char
    } else {
        (n + 87) as char
    }
}

/// How one character appears inside a JSON string as `serde_json` writes it:
/// `"` and `\` are escaped with a backslash, backspace, tab, line feed, form
/// feed and carriage return as `\b \t \n \f \r`, the other characters below
/// U+0020 as `\u00` and two lower-case hex digits; all others stand for themselves.
pub open spec fn json_escape_char(c: char) -> Seq<char> {
    if c == '"' {
        seq!['\\', '"']
    } else if c == '\\' {
        seq!['\\', '\\']
    } else if c == '\u{8}' {
        seq!['\\', 'b']
    } else if c == '\t' {
        seq!['\\', 't']
    } else if c == '\n' {
        seq!['\\', 'n']
    } else if c == '\u{c}' {
        seq!['\\', 'f']
    } else if c == '\r' {
        seq!['\\', 'r']
    } else if (c as u32) < 0x20 {
        seq![
            '\\',
            'u',
            '0',
            '0',
            hex_lower(((c as u32) / 16) as nat),
            hex_lower(((c as u32) % 16) as nat),
        ]
    } else {
        seq![c]
    }
}

/// The characters of `s`, each escaped for a JSON string.
pub open spec fn json_escaped(s: Seq<char>) -> Seq<char>
    decreases s.len(),
{
    if s.len() == 0 {
        Seq::empty()
    } else {
        json_escape_char(s[0]) + json_escaped(s.skip(1))
    }
}

/// The JSON string literal for `s`: the escaped characters in double quotes.
pub open spec fn json_string(s: Seq<char>) -> Seq<char> {
    seq!['"'] + json_escaped(s) + seq!['"']
}

/// `serde_json::to_string(s)`: the JSON string literal for `s`, escaped as
/// `json_escape_char` says. Serializing a `str` into memory does not fail, so
/// the `unwrap_or_default` never applies.
#[verifier::external_body]
fn json_quote(s: &str) -> (r: String)
    ensures
        r@ == json_string(s@),
{
    serde_json::to_string(s).unwrap_or_default()
}

/// The `user_ids` member of the payload object, when there is a user id.
pub open spec fn user_ids_member(user_id: Option<i64>) -> Seq<char> {
    match user_id {
        Some(uid) => ",\"user_ids\":["@ + int_decimal(uid as int) + "]"@,
        None => Seq::empty(),
    }
}

/// The compact JSON object of a payload, given the JSON literal of its text:
/// members in key order, `text` first.
pub open spec fn payload_json_for(quoted_text: Seq<char>, user_id: Option<i64>) -> Seq<char> {
    "{\"text\":"@ + quoted_text + user_ids_member(user_id) + "}"@
}

/// The JSON object of a payload whose text is already a JSON string literal.
pub fn payload_json_with_quoted_text(quoted_text: &str, user_id: Option<i64>) -> (r: String)
    ensures
        r@ == payload_json_for(quoted_text@, user_id),
{
    let mut r = "{\"text\":".to_owned();
    push_str(&mut r, quoted_text);
    let ghost before = r@;
    if let Some(uid) = user_id {
        push_str(&mut r, ",\"user_ids\":[");
        push_decimal_i64(&mut r, uid);
        push_str(&mut r, "]");
        assert(r@ =~= before + user_ids_member(user_id));
    } else {
        assert(r@ =~= before + user_ids_member(user_id));
    }
    push_str(&mut r, "}");
    r
}

/// The `application/x-www-form-urlencoded` body for a JSON text:
/// `payload=` followed by the percent-encoded JSON.
pub open spec fn form_body_for_json(json: Seq<char>) -> Seq<char> {
    "payload="@ + percent_encoded(encode_utf8(json))
}

/// The full `application/x-www-form-urlencoded` POST body:
/// `payload=%7B%22text%22%3A...%7D`. The JSON payload keeps non-ASCII text
/// as UTF-8 before percent-encoding.
pub fn build_outgoing_form_body(payload: &OutgoingPayload) -> (r: String)
    ensures
        r@ == form_body_for_json(payload_json_for(json_string(payload.text@), payload.user_id)),
{
    let quoted = json_quote(payload.text.as_str());
    let json = payload_json_with_quoted_text(quoted.as_str(), payload.user_id);
    let mut body = "payload=".to_owned();
    let encoded = utf8_percent_encode_non_alphanumeric(json.as_str());
    push_str(&mut body, encoded.as_str());
    body
}

} // verus!
