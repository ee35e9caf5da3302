# antichess_tree

A verified library for an antichess opening tree: move encoding, bitboard
positions, standard algebraic notation, and queries on a tree file of
positions with their subtree sizes.

- `src/bits.rs`: bitboards viewed as sets of squares.
- `src/moves.rs`: the 16-bit move encoding and UCI text.
- `src/board.rs`: positions, moves on them, attacks and the end of the game.
- `src/san.rs`: standard algebraic notation.
- `src/tree.rs`: the tree file, its links, the table of subtree sizes,
  counting subtrees, answering queries and describing a tree.
- `src/query.rs`: the answer to a query.
- `src/decimal.rs`: numbers and fixed words written as ASCII text.
- `app/main.rs`: reads a tree file and prints the answer to a query.
