# TriviumDB

An embedded database that keeps vectors, a labelled weighted graph and JSON payloads under the same
node identifiers, with its logic verified by Verus.

## Layout

- `src/` is the library. Every function in it is verified against its contract.
  - `storage/`: the node table, the records of its log, and the frames that they are written in.
  - `database/`: settings, transactions, recovery, mutations, and the stages of a search.
  - `graph/`: traversal, paths, reachability, components, centrality, communities.
  - `filter`, `json`, `patch`, `text`, `number`, `vector`, `ranking`, `sorting`, `collections`: the
    values that the rest works on.
  - `hook`: code of a caller's own that runs between the stages of a search.
  - `bindings/`: what the language bindings parse and report.
- `tests/` holds the tests of the library.
- `app/` is ordinary Rust around the library: files, locks, threads, floating point kernels,
  plugins, and the Node.js and Python bindings.

## Numbers

The library holds floating point numbers as bit patterns. It compares and orders them itself. Where
it needs arithmetic on them, the caller hands in the operations, and the contracts say what is
handed to each operation and what is done with its result.

## What is taken on trust

A few functions of other crates and of the standard library are called behind wrappers with a
stated contract: comparing and searching texts, converting whole JSON numbers to floating point,
and reading RFC 3339 times. Each wrapper says above itself what it relies on.
