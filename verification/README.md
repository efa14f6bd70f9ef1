# apeiron_cipher

The verified core of the Apeiron Cipher game: the rules and data structures
behind mods, assets, persistence, observations and the journal, each with a
contract proved by Verus.

## Layout

- `src/` — the verified library.
  - `naming` — procedural material names from a seed.
  - `mod_manifest`, `mod_validator`, `mod_registry` — mod manifests, their
    validation, dependency ordering, activation state and directory
    discovery.
  - `mod_asset_validator` — validation of mod asset files (classifications,
    combination rules, biomes, languages, races) over a parsed TOML model.
  - `persistence` — the save header, write-ahead-log framing, segment
    naming and recovery, the writer's bookkeeping, and modification decay.
  - `observation`, `journal` — observation confidence, journal entries,
    filters, and the journal panel's selection and scrolling.
  - `materials` — material seeds, the well-known starter materials, name
    disambiguation and the material catalog.
  - `matchmaking` — what signaling messages mean, what commands send, how a
    connection reacts to each happening, and the reconnect back-off.
  - `knowledge_graph` — the player's knowledge graph on a `petgraph`
    graph: concept creation and removal, first-observer naming, the
    observations recorded on each concept, observation-gated relationship
    wiring, the breadth-first neighbourhood search with exact hop
    distances, the discovery timeline, name ordering, and saving and
    rebuilding the graph.
  - `text`, `order` — string helpers and ordering lemmas shared by the above.
- `app/` — the program around the library: filesystem scanning, TOML and
  JSON parsing, the WAL files, the WebSocket runtime, and the
  floating-point parts (decay ranking, weight bands, confidence
  accumulation and material similarity).
- `tests/` — tests run against the compiled library.
