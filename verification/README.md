# electricity_monitor_backend

The core of the electricity monitor's backend, written in Verus. The
public functions of `src/` carry contracts that Verus proves; the calls
into outside crates and into std that vstd does not describe go through
small wrappers (marked `external_body`) whose contracts are trusted.

- `src/` — the verified library: merging crawled rooms by id, the room
  path tree and its hash index, the notification gate and the planning of
  alert rounds, the least-recently-used caches of users and bindings,
  login identities, signed tokens and refresh cookies, binding proof codes, captcha and
  verification-code rules, rate limiting, room synchronisation plans, and
  the decisions of the fetch and retry loops. Calls into outside crates
  (`uuid`, `urlencoding`, `rand`, `hmac`/`sha2`, `chrono`, `lru`, `sonic-rs`,
  `jsonwebtoken`) go
  through small trusted wrappers whose contracts are stated next to them.
- `tests/` — the project's scenarios and tests of each law and error.
- `app/` — the unverified service glue: HTTP, the cache server (counters,
  codes, captcha tokens), the request flows of login and captcha checks,
  the notification round's sends, the wire forms of the library's types,
  and the floating-point parts (fees and hit rates).
