# pcbot_wasm

A bot that plays the perpetual perfect-clear loop: it clears a four-line board with ten pieces, or a
two-line board with five, again and again, seeing the hold, six previews and one more piece for each
placement. The rules, the search and the bookkeeping are verified with Verus; hosts drive the bot
with `start`, `suggest`, `play`, `new_piece` and `stop`.

## Layout

`src/` is the verified library.

| modules | what they hold |
| --- | --- |
| `bits`, `bytes`, `text`, `table` | words as sets, blobs, numbers in words, hash tables |
| `piece`, `hidden`, `chain` | pieces, bags, sequences of reveals, boundary states |
| `shapes`, `movebits`, `movegen`, `tbpcoord`, `physical`, `board` | falling pieces, move generation, coordinates, the host's board |
| `proj`, `moves` | the filter for fields that may still be cleared, and the moves that pass it |
| `score`, `values` | scores, and what boundary states are worth |
| `game`, `dag`, `value_search`, `analysis`, `choice` | the loop as a game, its positions, its solution, and single decisions |
| `fault`, `bot`, `init` | why the bot gives up, the bot, and setting it up |
| `sim`, `probe` | a host to try the bot on, and walks through a solved loop |

Scores are kept as the code words of double-precision numbers. Their order is worked out in the
library; their arithmetic is handed in as one function over `score::Op`, so that the contracts hold
for every arithmetic that is fair to sums and quotients with nothing (`score::fair`). `app/arith.rs`
has the one that the bot is meant to be used with.

`app/` is the interface of the worker that hosts the bot, with the files, the simulator and the
probe. It reads its three compressed blobs from `data/`.

Public proof functions whose names begin with `law_` state what holds of the library as a whole.

## What is not proved

What `hashbrown::HashMap` and `miniz_oxide` do is stated on the functions that call them, in `table`
and `init`. That a filter lets every field pass that can be cleared is a property of its data.
