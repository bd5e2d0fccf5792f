# gauge

Verified decision logic of the Gauge permission service.

- `src/` — the Verus library:
  - `actor_id` — typed maintainer identity derived from the request actor;
  - `principal_ids` — record keys of user and group principals;
  - `group_graph` — snapshot of permission groups and principals, and the proved walk
    over owner/member edges;
  - `super_user` — super-user membership check, seed tallies, the Super User group row
    and the principal and edges that make a user its owner and member;
  - `permission_request_notifier` — who is notified about permission requests, and how;
  - `domains` — validation, authorization order and listing of taxonomy domains;
  - `revoke_umbrella_grants` — the grants a kind-wide revocation pass removes;
  - `migrate_principal_connections` — the writes that move legacy principal edges onto
    the unified edges;
  - `model`, `text` — plain-value models and character-level string operations.
- `app/` — async services that read and write through a `GaugeStore` implemented by the
  host over Valence, and call the library for every decision.
- `tests/` — executable tests of the library.
