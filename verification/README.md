# kingly

A chess engine library whose behaviour is stated in Verus contracts and proved.

## Layout

- `src/` — the verified library.
  - `square`, `direction`, `piece`, `castling`, `bitboard`, `util`, `value`, `moves`:
    the basic types and their algebra.
  - `piece_map`, `zobrist`, `position`, `fen`: the board, its hash, making and taking
    back moves, and reading FEN strings (`Position::from_fen` with one grammar,
    `Position::set` and `fen::parse` with the classic one: fields split on any white
    space, every row filled to its end).
  - `tables`, `move_gen`, `legal`: precomputed attack tables (with slider lookups proved
    equal to step-by-step ray walks), the move generator, and the proof that in positions
    that play reaches the generator yields exactly the legal moves, each once.
  - `eval`, `transposition_table`, `search`: material evaluation, the hash table of the
    search, and the alpha-beta search with quiescence and iterative deepening. Each search
    that was not stopped is stated as the fail-soft recursion (`q_rel`, `ab_rel`): its
    score and the table after it are those the recursion gives for some move lists the
    generator may give at each node. `Search::start` chains its iterations
    (`run_chain`): the first starts from the table it is given and the root moves
    searched, each next one from the table and move order the previous one left.
  - `client`: the engine state a user interface drives, and `perft`, proved to count the
    sequences of legal moves.
  - `bits`: the calls into `bitintr` for the bit instructions, with their contracts.
- `tests/` — tests of the library on concrete positions (perft counts, parsing, move
  generation, search results).
- `app/` — the command line program: `perft`, `divide` and `bench` subcommands, and a
  small UCI loop.
