# tsuitate_bot

A bot for tsuitate shogi, the blind variant of shogi: neither player sees the other's pieces, and an
attempt that turns out illegal costs a foul instead of the turn.

`src/` is the library. Everything in it is verified with Verus: the rules of the game, what a player
observes, the reasoning about an unseen checker, the state of the connection, and the tools that read
game records. `app/` is the program around it: sockets, HTTP, files, JSON, and the arithmetic on
floating-point weights. `tests/` runs the library on concrete games.

## The library

| Modules | What they hold |
| --- | --- |
| `board`, `shogi`, `notation`, `protocol` | squares, moves, positions, legality, how a game ends |
| `observation`, `model`, `replay`, `kifu`, `synthesis` | what a side sees, and what a finished game or a score amounts to |
| `candidates`, `check`, `check_votes` | moves to try, the pieces that could be giving check, and what samples say of them |
| `check_price`, `check_policy`, `check_belief` | choices in check at other prices and under other beliefs |
| `check_economy`, `check_prep`, `check_mining`, `chase`, `origin_weights` | turns in check of finished games, and how well the king was covered before |
| `reach`, `window_search` | where unseen pieces can have gone |
| `scenario`, `continuation`, `diagnosis`, `mate_points`, `mate_export`, `mate_report`, `checkpoint` | experiments on positions out of real games |
| `tsume`, `pawn_push`, `recapture`, `health` | what game records tell |
| `client`, `bridge`, `webhook`, `config` | decisions of the connection, the file bridge, the server and the settings |
| `digest`, `json`, `seeds`, `tuning`, `lists`, `text` | digests, seeds, the log of a search, lists and text |
| `bignum`, `binary`, `shortest`, `numeral` | decimal numerals, rounded to binary numbers of 64 bits and written back with the fewest digits |

Numbers that are weighed against one another at run time are floating-point in the program. The
library takes them as integers that are ordered the same way, or as counts, and leaves the arithmetic
to `app/`.

Two functions are trusted rather than verified: `digest::sha256`, which calls the `sha2` crate, and
`json::json_string`, which calls `serde_json`.

## Laws

Besides the contracts of the functions, the library states properties that relate several of them, as
public proof functions whose names begin with `law_`. Among them: the piece that really gives check is
always among the hypotheses; a game that is replayed from its score passes through the positions of
its record; settings that were installed for a while are taken back in order; no request is acted on
before every test of it has passed.
