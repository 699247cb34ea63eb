# reword

Plain-text flashcards with FSRS spaced repetition. Decks are Markdown files
with one `front::back` card per line (`front:::back` is asked both ways);
every grade is appended to the deck's `.log`, and memory is recomputed from
the log on each run.

## Layout

- `src/` is the library, written in Verus. Each public function states what
  it returns in `ensures`, over spec functions on sequences, maps and
  integers, and Verus proves it. The modules:
  - `text`, `strs`: string helpers, answer matching, escaping, padding, wrapping;
  - `deck`: the deck file parser; `history`: log rows and the log parser;
  - `ledger`: replaying a log into per-card histories, with the laws of
    replay (a review lands at the end of its own history, an undo takes it
    back, a skip is no history, a rename carries history over, row order
    does not matter when times differ);
  - `planner`: which cards are due and which new ones a session may take;
  - `session`: the review queue and the meaning of each key press;
  - `store`, `config`, `edit`, `review`, `commands`, `stats`, `viz`,
    `complete`, `setup`, `term`, `clock`, `memory`, `types`, `error`:
    the rules behind each command, and its messages.
- `app/` is the program around the library: the command line, files, the
  terminal, the clock and time zone, and the FSRS model (floating point).
  It reads and writes; the library decides.
- `tests/` runs the library on concrete values.

Calls into `jiff`, `unicode-normalization` and `unicode-width`, and
`String::push` and `str::to_lowercase`, are the only trusted code in
`src/`: each is a small function whose contract says what the library
assumes of the call.
