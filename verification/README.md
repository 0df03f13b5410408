# yacht

A terminal dice game in the style of Yacht for two players, whose rules are a
library verified with Verus.

- `src/scoring.rs`: the scoring categories (upper section, chance, three and
  four of a kind, full house, straights, yacht), each with a contract over
  spec functions of the dice, and the laws that relate them.
- `src/dice.rs`: sorting the dice and splitting them into held and free ones.
- `src/game.rs`: the players, the turn cycle (first roll, up to two rerolls,
  scoring), the scores and the end of the game. The random faces come from
  `rand`.
- `src/menu.rs`: what a key press does in the menus where a player picks dice
  to hold and a category to score, and how a die is drawn.
- `app/`: the pancurses front end, which draws and reads keys.
- `tests/`: tests of the library on concrete values.
