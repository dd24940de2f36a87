# caissa

A functional chess library whose every function carries a contract proved
with Verus. Positions are values, moves are pure transitions, a game is a
fold of actions over a starting position.

## Layout

- `rules` — the rules of chess as mathematics: the position model, what
  each piece reaches, the reducer (`expand_spec`, `reduce_spec`), the legal
  actions and the mode of a position. Every executable function below is
  proved against these definitions.
- `square`, `piece`, `action`, `position` — the values; `notation` and
  `ops` the operator notation (`e2 >> e4`, `position + action`).
- `reduce` — the executable reducer, legality, check and mode.
- `san`, `fen` — SAN emission and resolution, FEN in and out, the board
  drawing.
- `game`, `study`, `timeline`, `clock` — the memoized fold, the tree of
  lines, timestamps as data, per-player budgets.
- `pgn`, `classics` — tag sections, movetext, import and export, databases.
- `play`, `review`, `progress` — self-play, search and annotation, and the
  measure that proves every game ends.
- `inverse`, `readback` — emission is resolution's inverse: SAN, scores and
  FEN read back as what was written.
- `text` — the character-level toolkit the parsers share.

## Laws proved

- The reducer: an accepted move never leaves the mover's king attacked
  (for a castle, unless a second king castles while its side's first king
  is already attacked — castling looks only at the castling king), and a castle's king squares (start, passage, landing) were
  unattacked before it — a pawn attacks the two squares diagonally ahead
  of it whatever stands there; only a pawn promotes;
  castling rights only shrink; the legal actions are exactly the accepted
  ones, each listed once.
- Games: the history is the fold of the log, and so is every prefix of it;
  undo after apply is the identity; a played game rejects everything;
  games that share a log prefix share its positions; every game between
  players ends, and players whose answers are functions of the game
  (random players with their seeds among them) always play the same game.
- Notation: a resolved SAN other than a castle (which desugars to the
  king's move, its legality left to the reducer) names an accepted action; the SAN of a legal
  action resolves back to it; a game from the standard start, written as
  a score and imported, replays the same actions through the same
  positions, and exported as PGN and imported again keeps its actions, its
  positions, its tags and its result, with the roster's tags first and
  the movetext within 80 columns; FEN written reads back as the position.
- Studies: grafting keeps every line and holds the new one; grafting the
  same line twice changes nothing; the mainline stays unless the new line
  properly extends it.
- Tags: keys stay ordered and unique; a set value reads back.
- Time: a stamp (`u32`, `u64`, `i64`) and the span between two stamps
  (`u32`, `u64`) are tick counts; a wall-clock instant enters as its
  count, such as an `i64` of milliseconds since the Unix epoch, with
  `u64` durations.
