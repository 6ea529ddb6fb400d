# kiro_rs

Prompt-cache accounting for Anthropic-compatible usage fields, and the
proxy's configuration, with contracts proved by Verus.

- `src/anthropic/` — the request model (`types`), SHA-256 and hex
  (`hashing`), the cache store (`store`), breakpoint computation and the
  lookup that reads or creates cache entries (`cache`), and the laws that
  hold across requests (`laws`).
- `src/model/config.rs` — configuration defaults, derived regions, value
  parsing and environment overrides.
- `src/text.rs` — trimming, ASCII case folding and decimal parsing.
- `app/` — the process-wide cache and clock, the JSON request types and
  their reduction to the model, the configuration file and the environment.
