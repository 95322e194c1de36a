# blackjack

A blackjack engine: basic strategy and count indices for a set of rules, and a trainer that
grades every decision. The engine is written in Verus. `src/` is the library, and everything in
it is verified; `app/` is the terminal program around it; `tests/` runs the library.

## What the library promises

Every function states what it returns over a mathematical model: cards are tallies of ten
ranks, a shoe is a state with chances, a tree of values is a map from tallies. The laws that
span functions stand beside them as proof functions whose names begin with `law_`.

The solver works in any arithmetic: `num::Scalar` names the operations, and the contracts say
which operations are carried out in which order. `num::Fixed` is a decimal arithmetic of the
library's own, the program uses double precision. What the operations come to as numbers is
stated of an exact arithmetic (`exact.rs`): the outcomes of the dealer add up, weights are
hypergeometric, looking at the hole card is conditioning.

## Layout of `src/`

- cards and tables: `card`, `shoe`, `drawing`, `table`, `text`, `num`
- hands, the dealer and payoffs: `hand`, `dealer`, `rules`, `simulation`
- enumerating hands: `partitions`, `listing`, `combinat`
- values of moves: `solve`, `split`, `round`
- charts: `reach`, `chart`, `column`, `panes`, `config`
- counting: `count`, `countw`, `countshoe`, `occurrence`
- count indices: `index`, `sweep`
- the trainer: `training`, `drill`, `grading`
- the program's decisions: `session` (keys), `schedule` (work), `cache` (entries on disk)
- pages: `view`, `chartview`, `panels`, `trainview`
- laws: `exact` and the modules that end in `laws`

## What is not proved

A few calls into other crates and the standard library are trusted, each with a contract in
the place where it is made: `String::push` (`text`), drawing a place by weights with `rand`
(`drawing`), and `bincode`'s writing and reading of a list of bytes (`cache`). Which card a
random draw brings is left to chance: the contracts say what holds whatever comes.
