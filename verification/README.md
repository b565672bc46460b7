# server

The core of a media server, verified with Verus: roles and their ranks,
validation of the configuration, permission rules (parsing rule keys such as
`post.edit.*(owned, rating<=risky)`, ordering rules by strength, and checking
a permission against a table), and the per-instance secrets.

- `src/` is the verified library. Each public function states what it
  returns in its `ensures`; the laws that relate several functions are
  public proof functions (`lemma_*`).
  - `auth`: roles, their ranks, users and the user cache.
  - `config`: the configuration and its validation.
  - `perms`: permissions, predicates, rules, rule keys and tables.
  - `post`, `util`, `text`: ratings and collections, comparison operators,
    and the text functions the parsers are built from.
  - `secrets`: the media pepper and the shuffled alphabet of public ids.
  - `model`: the permission table of a configuration.
- `app/` is the program around it: the HTTP server, the SQLite database,
  reading the YAML configuration.
- `tests/` runs the library on concrete values.
