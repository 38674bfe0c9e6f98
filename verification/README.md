# pokerbots

A league where poker bots play heads-up no-limit hold'em against each other.
The library in `src/` holds the logic, each function with a contract that
Verus proves:

- `hands` — cards, their codes, the value of a five-card hand, the order of
  hands and the best five of seven cards.
- `game` — the betting state machine of one hand: blinds, raises, folds,
  dealing the board and the showdown, with its laws (chips are conserved, a
  hand dealt from a full deck can always be played on, ...).
- `communication`, `text` — the line protocol spoken with the bots.
- `matchplay` — a match of many hands between two bots, the messages of each
  betting round, a bot's answer and the record of every step.
- `results` — scoring a match and drawing opponents.
- `accounts`, `membership`, `signin`, `listing` — the rules of the website:
  names, passwords, teams and invites, uploads, sign-in steps, listings and
  game records.

`app/` is the program around it: running a match between two bot programs,
rating matches, matchmaking and the static pages. `tests/` exercises the
library on concrete values.
