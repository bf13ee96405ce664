# Plexus

Plexus asks a language server for source symbols and relationships and builds a
deterministic program graph of direct facts: `contains`, `calls`, `reads` and
`writes`. Transitive mutation is derived from those facts, not stored.

The library under `src/` is verified with Verus:

- `graph`: nodes, facts and the `petgraph` graph that holds them;
- `analysis`: what each answer of the language server adds to the graph;
- `extraction`: the conversation with the server as a state machine, which
  says what to ask next and takes each answer;
- `protocol`: which requests the server's capabilities allow, and retries;
- `identity`, `sorting`, `output`: the canonical snapshot with deterministic
  identifiers, and its compact and JSON renderings;
- `mutation`: the derived mutation relation;
- `text`, `seqs`, `error`: strings, sequences and error messages.

`app/` holds the `plexus` command: argument parsing, reading the project,
running the language server and writing the output.

```console
$ plexus analyse --root . --lsp-server rust-analyzer --language rust --extension rs --format compact
```

Positions are zero-based UTF-16 positions with exclusive ends, as in LSP.
