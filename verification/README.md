# samrewritten

The Steam-facing backend of SamRewritten, verified with Verus.

- `src/app_info.rs` reads Steam's binary `appinfo.vdf` (version 29): the
  string table, the per-app blobs and the `common` fields the collection
  filters need.
- `src/friend_library.rs` encodes `Player.GetOwnedGames#1` and decodes the
  app ids out of Steam's protobuf answer; it also frames the on-disk cache.
- `src/steam_collections.rs` evaluates Steam's user collections (static lists
  and dynamic filters) against the user's library.
- `src/steam_locator.rs` finds Steam's installs and the files in them.
- `src/unified_messages.rs` decides, report by report, how a call into the
  Steam client's unified messages ends.
- `src/sidebar.rs` holds the app list sidebar's decisions: which filters and
  sort orders need achievement counts, the collection picker's rows and picks.
- `app/` is the unverified edge: file and registry access, environment
  variables, the FFI into the Steam client, and serde.
