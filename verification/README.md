# cstree

Lossless concrete syntax trees, verified with Verus.

A tree is built bottom-up as an immutable *green* tree by `GreenNodeBuilder`,
with checkpoints for wrapping already-built elements in a node and for
backtracking. `SyntaxNode` and `SyntaxToken` are *red* views over a shared
green root: they know their position and absolute byte offsets, and offer
navigation (children, siblings, ancestors, first/last and next/previous
tokens), text access (`SyntaxData`, `SyntaxText`) and rebuilding a tree with
one element exchanged. Token payloads can be deduplicated by `TokenInterner`.

Every public function carries a contract over a mathematical model of the
trees (`GreenTree`, paths into it, byte sequences), and the library states its
laws as proof functions: backtracking to a checkpoint restores the
builder's state at the checkpoint after any run of calls that finishes no node
open at the checkpoint, wrapping at a checkpoint after calls that open and
close their own nodes equals opening the node before them, interning equal payloads
yields equal keys, chunks of a text concatenate to its bytes, writing a tree
out as events and reading it back gives the same tree (event streams whose
kinds or token payloads do not fit the syntax are refused), node data spread over
those events comes back in order, slices compose and stay readable when cut
at character boundaries, and the next and previous tokens lie to the right
and left of a token.

## Layout

- `src/builder.rs` — the builder and its model, with the backtracking and
  wrapping laws.
- `src/green.rs` — green nodes, tokens and elements, and their model.
- `src/syntax/` — red nodes and tokens (`node.rs`, `token.rs`), children
  (`iter.rs`), navigation (`navigation.rs`), the tokens below a node and the
  parts of a range they cover (`tokens.rs`), text access (`text.rs`,
  `zip.rs`), and replacement (`replace.rs`).
- `src/events.rs` — trees as preorder event streams, and rebuilding them.
- `src/node_data.rs` — data attached to nodes (`NodeDataMap`), per-node data
  carried alongside an event stream, and the checks on its length.
- `src/tree_debug.rs` — the indented debug rendering of a node and everything
  below it.
- `src/derive.rs` — the rules of the `Syntax` derive: from a description of an
  enum, the table of kinds it implements or the errors it reports.
- `src/interning/` — keys, the interner traits, and the default interner.
- `src/display.rs` — renderings of token data as text or byte lists.
- `src/text.rs`, `src/kind.rs`, `src/util.rs`, `src/utf8.rs` — ranges, kinds,
  helpers, and UTF-8 decoding.
- `app/` — serde support for syntax trees (with or without node data), the
  `Display` and `Error` implementations for error types, and the derive's
  reading of `syn` input and emission of tokens.
- `tests/` — tests of the library.
