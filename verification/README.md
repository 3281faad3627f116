# sequencer

A cycle sequencer for live coding: a pattern file says what plays, sample folders hold the sounds,
and every cycle the file is read again.

The library in `src/` is written in Verus. Every executable function has a contract, stated over
views in sequences, maps and real numbers, and Verus proves that its code keeps it.

- `text`, `number`, `binary`, `bignat`, `ratio`, `order`, `table`: characters and words, numbers as
  they are written, the numbers of single and double precision, exact arithmetic, stable sorting,
  names and tables.
- `pat`: mini-notation, as in `bd [sn hh] <a b> ~ cp*3 euclid(3,8) bd`. `pat::parse` reads it,
  `pat::eval` says which tokens start when in a cycle, `pat::lanes` adds `# gain`, `# pan` and the
  other lanes, `pat::laws` states what holds of all patterns.
- `banks`: folders of WAV files, counted from one.
- `dsl`: pattern files. `dsl::lines` makes statements of lines, `dsl::sound` and `dsl::track` read
  tracks, `dsl::inclusion` takes in other files, `dsl::program` reads a whole file, `dsl::events`
  says what a track plays in a cycle, `dsl::needs` which folders a program asks about, `dsl::laws`
  what holds of all programs.
- `event_spec`: schedules in a form that can be compared.
- `plan`: the hits of a cycle, with chance, swing and jitter, and the voices that play them.
- `audio`: voices on the clock of the output. `clips`: what WAV files hold.
- `session`: scenes and reloads from cycle to cycle.

A number in a file is read as the nearest number of its precision; from there on, times, gains and
durations are exact fractions. Files and folders are handed to the library as values. The numbers
drawn for a hit are hashed from its cycle, its track, its sample and the bits of its place.

`app/` is the program around the library: arguments, files, the sound card, and the mixing of
samples in floating point.

Trusted, with contracts that are not proved: `String::push` and the debug form of a text, from the
standard library, and the two calls into `hound` that read WAV files.
