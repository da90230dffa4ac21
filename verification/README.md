# tracing-console

Watch the `tracing` spans of a running program from a terminal.

The library under `src/` holds everything that decides something, with
contracts that Verus proves. The program under `app/` does the input and
output around it: the terminal, the network, the clock and the subscriber that
a host installs.

## The library

- `cache`: spans and events as a host records them. Which are recorded
  (`predicate`), under which ids (`ident`, `thread`), where open spans are kept
  (`slots`, `store`), how events find their spans (`driver`), and how event
  records are used again (`pool`).
- `server`: what a host decides for each console. How it answers requests,
  which spans it streams, and how often it looks for new ones.
- `protocol`, `wire`: the messages between host and console, and how recorded
  spans become part of them.
- `network`: what a console asks of its host, what becomes of the answers, and
  how bursts of spans are taken in.
- `aggregate`: the rolling window over recent spans and the statistics of each
  stack, kept up to date as spans come and go.
- `model`: the state of the console and how every update changes it. The table
  (`console`), the graph (`graph`, `series`, `color`), single spans and traces
  (`explore`), what is typed (`input`), and the rate at which spans come in
  (`rate`).
- `keys`: what a key means where it is pressed.
- `stats`: the report that is printed without a terminal interface.
- `installer`, `args`: how another version is installed, and what can be said
  on the command line.
- `pattern`, `double`, `number`: numbers in double precision, results rounded
  to them, and how they are read from text.
- `text`, `order`, `sorted`, `tally`: strings, orders, sorted collections and
  sorted counts.

What holds across functions is stated in public proof functions, most of them
in `aggregate/laws.rs`, `aggregate/replay.rs`, `aggregate/arrival.rs`,
`cache/laws.rs` and `model/laws.rs`.

## Numbers and times

Fractions are doubles. The library holds them as their bit patterns and works
with integers: `pattern` says exactly which double every result is. Times are
counted in nanoseconds.
