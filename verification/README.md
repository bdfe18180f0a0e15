# tetris

The rules of a falling-blocks game, verified with Verus.

- `src/piece.rs`: pieces, their rotations, position tests, moves, rotation with wall kicks, the seven piece kinds and the random choice of the next one.
- `src/game.rs`: the playing field, landing a piece, clearing complete rows, score, cleared-row count, levels and the fall interval.
- `src/events.rs`: how a batch of player inputs moves, rotates, drops and lands the falling piece.
- `src/scores.rs`: the high-score text format (numbers in decimal, separated by spaces, two lines).
- `src/texture.rs`: texture colours and sizes.
- `app/main.rs`: the window, clock, input and score file, with SDL2.
