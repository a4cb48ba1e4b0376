# Life Zone

A simulated community of creatures that get hungry, learn where things are, tell
each other, pair, have children and die. A tick is an hour. Runs are
deterministic: the same seed and the same decisions give the same history, tick for
tick, and a run that is stored and resumed goes on as if it had never stopped. The
laws in `history` and `course` say exactly what that takes.

- `src/` is the library. Every item in it is verified with Verus: the contract of
  a function says what it returns and changes, over sequences and maps that stand
  for the exec values.
- `tests/` runs it.
- `app/` is the program around it: the thread that owns a world, storage, the
  clock, and what is sent to whoever watches.

| modules | what they hold |
|---|---|
| `num`, `text`, `lists`, `heap`, `grid`, `flood` | 32-bit floating-point numbers by their bits, texts, and containers |
| `chance` | the one source of chance, a ChaCha8 key stream |
| `terrain`, `world`, `noise`, `worldgen`, `pathfind` | the land, how it is made, and how it is crossed |
| `creature`, `knowledge`, `perception`, `economy`, `social` | bodies, beliefs, goods and kinship |
| `actions`, `plans`, `needs`, `acting`, `season` | what happens to creatures and what they do |
| `town`, `courting`, `birth`, `nursery`, `death`, `estates` | how lives meet, begin and end |
| `thinking`, `chronicle`, `records`, `saving`, `digest`, `keeping` | calls to a model, what is written down, and what every phase keeps |
| `tick`, `course`, `history` | the tick in its parts, how it is run step by step, and the course of a run |
| `pace`, `runner`, `display`, `detail` | how fast it goes, and what is shown of it |
