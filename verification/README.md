# mg_vault

A local-first Markdown vault authority whose rules are verified with Verus.
Markdown files in user-owned directories stay the only authority; every
derived structure (projections, the SQLite index, interop snapshots) can be
rebuilt from them.

## Layout

- `src/` — the verified library. Each module states its behaviour in
  `requires`/`ensures` contracts over mathematical models and proves it:
  - `frontmatter`, `frontmatter_scalar`, `yaml`: exact byte spans of YAML
    frontmatter and of one top-level scalar, without normalizing anything, and
    the `yaml_edit` checks behind them;
  - `paths`, `vault`: Unix path components, order and joins; which note paths
    may be read or mutated, confinement beneath the root, trash identifiers,
    note creation plans and replacement checks;
  - `fingerprint`, `digest`, `text`: SHA-256 source fingerprints, hexadecimal
    text and the few standard-library conversions the library relies on;
  - `index`: the in-memory projection (titles, text, Wikilinks) and search;
  - `store`: the freshness decisions of the persistent index, metadata and
    schema checks, database locations and recovery checks;
  - `observation`, `recovery`: the steps of a rebuild, a freshness
    verification, a verified search and the recovery of an unreadable index,
    from what was observed to what must be done next;
  - `interop`, `snapshot`: stable identities, Wikilink resolution and the
    deterministic read-only snapshot;
  - `registry`, `xdg`: the vault registry and the XDG locations;
  - `protocol`, `service`: the IPC messages, client checks, frames, and the
    owner-only service's answers;
  - `present`: escaping, machine-readable paths, error codes and index reports.
- `tests/` — tests of the library on concrete values.
- `app/` — the command line and the index service: filesystem walks and reads,
  durable writes, SQLite, sockets and JSON.
