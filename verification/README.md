# dbdev

dbdev is a package manager for Postgres trusted language extensions (TLE).
This crate holds its logic, verified with Verus:

- `src/control.rs` parses an extension's `.control` file the way Postgres
  reads configuration files (optional `=`, `#` comments, `''` and backslash
  escapes in quoted values, unterminated quotes rejected).
- `src/models.rs` reads the settings of a control file into the extension's
  metadata, and holds the types of a package.
- `src/package_files.rs` tells a package's files apart by their names.
- `src/version_graph.rs` answers which versions can upgrade into a version,
  and which base version is nearest to it.
- `src/install.rs` decides which scripts of a package are installed into
  pg_tle: only the default version's own lineage.
- `src/create.rs` builds the `create extension` statement with safely quoted
  names and versions.

`app/` is the plumbing around it: reading a package directory and running the
statements against Postgres with sqlx.
