# rtk_grep

Runs a search with `rg`, or with `grep` where `rg` is not there, and shows the matches grouped by
file, with long lines and long paths cut down and long lists capped.

`src/` is the library, verified with Verus:

- `args` reads the command line; `query` turns it into the arguments of `rg` and of `grep`.
- `match_line` reads a line of output, `clean` and `path` cut lines and paths down, `context`
  holds the regular expression for the surroundings of a match.
- `group` collects the matches by file, `report` writes them.
- `session` decides which command is run next and what is answered.
- `text`, `number` and `order` hold what these need of strings and numbers.

`app/` runs the commands and prints the answers.
