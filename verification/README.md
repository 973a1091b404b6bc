# synology_chat

The logic of a Synology Chat channel plugin, with its behaviour stated in
Verus contracts and proved.

* `src/synology_chat.rs` — configuration, parsing and token check of the
  outgoing-webhook form Synology posts, splitting of replies into segments,
  and the `payload=` body and External API URL of outgoing messages.
* `src/channel.rs` — the decisions around the host's I/O: webhook requests,
  message ids, send plans, throttling and the verdict on each response.
* `src/form.rs`, `src/percent.rs` — form-body splitting and percent
  decoding/encoding; `src/segment.rs` — what segmenting yields and its laws;
  `src/text.rs` — whitespace trimming, decimal integers, substring search.
* `app/` — the host side: JSON configuration (serde), the clock and HTTP
  delivery (`waki`).
* `tests/` — scenario tests.
