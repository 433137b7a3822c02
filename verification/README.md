# jev-driver

A typed driver for TypeSafe AI's Jev (System One) decision model, whose
logic is proved with Verus.

Jev answers three kinds of questions about a JSON state: **choice** (pick
one option), **score** (rate against an ordered rubric of 2..=10 levels)
and **noul** (estimate P(yes)). The library composes those questions,
checks their backtick references against the keys serde emits, and
validates every answer strictly: unknown option keys, unasked answers,
missing criteria and unnormalized distributions are errors.

## Layout

- `src/` — the verified library.
  - `keyed.rs`: string-keyed maps kept in key order (the view is the
    ordered entries; reads give back writes).
  - `text.rs`: character-level helpers, decimal text, std's unsigned parse.
  - `naming.rs`: serde's field renaming rules, serialized keys, backtick
    reference tokens, snake-cased option keys.
  - `attrs.rs`: `#[serde(...)]` and `#[jev(...)]` attribute items as plain
    values, and what the derives read from them.
  - `derive_rules.rs`: the rules the question derives enforce.
  - `wire.rs`, `question.rs`, `refs.rs`: wire shapes, decisions and their
    builders, composition and reference checking.
  - `answer.rs`: response validation over answer digests, and the typed
    layer's key checks.
  - `client.rs`: status classification and the retry loop's decisions.
  - `endpoint.rs`: the endpoint a client posts to (a pathless base URL
    gets `v1/systemone` joined, a URL with a path is used as it is), the
    configured URL setting, and API-key normalization.
  - `triage.rs`: the ticket-triage question set.
- `tests/` — scenario tests run against the compiled library.
- `app/` — the unverified edge: JSON (serde), the float-valued answer
  types, the HTTP client and its retry loop (reqwest, tokio), attribute
  syntax walking (syn), and the triage demo program.
