# plouf-rs

A code graph for a polyglot repository, written in Rust and verified with
[Verus](https://github.com/verus-lang/verus). It walks a source tree, writes a
`wiring.json` (nodes and resolved edges) with two sidecars, and answers queries
over it.

PHP is parsed with Mago and JS/TS/Vue with oxc. Blade, Twig, Angular templates,
bbscript, SQL and Dolibarr's language files are scanned as text.

## Layout

- `src/` is the library, all of it verified: the formats that turn a file into
  nodes and raw edges (`format` and the modules it routes to), the resolution of
  raw edges (`resolve`), the assembly and the texts of the graph (`index`,
  `lang`), the queries (`query`, `schema`) and the status line (`statusline`).
  `text`, `scan`, `seqs`, `sorting` and `buckets` are what they share.
- `tests/` runs the library.
- `app/` is the command `plouf-rs`: arguments, files, threads and the clock.

## Contracts

Every function says over sequences of characters what it gives, so the contract
of a format is the graph of any file. Laws that span functions are public proof
functions next to what they speak of: the graph that is written is the graph that
is read (`index::the_graph_reads_back`), a join node lists all that name it
(`index::a_join_node_lists_all_that_name_it`), a route leads from its scenarios to
its page (`query::a_route_lists_scenario_and_page`), a call never dangles
(`resolve::calls_reach_nodes`), no two symbols of a file share an id
(`php::the_symbols_of_a_file_are_sound`, `js::the_symbols_of_a_file_are_sound`).

What the parsers and the JSON reader give is trusted: `syntax::parse_php`,
`js::parse_js` and the items of `json` name it, and the logic behind them is
verified for every tree and every value. A JS source whose tree is nested too
deeply for the stack (`json::DEEPEST`) gives its file and its translation keys, but
no symbols.
