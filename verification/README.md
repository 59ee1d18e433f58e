# range_map

A verified library of *input-range maps*: maps that record, for each edge of a target, the range
of values that flowed through it, rather than whether it was hit.

One byte per edge packs two 4-bit bucket indices, the lowest (low nibble) and the highest (high
nibble) value bucket ever observed there. `RANGE_EMPTY` (`0x0F`), the inverted interval
`lo = 15, hi = 0`, means that nothing was observed yet.

| Module | What it holds |
| --- | --- |
| `entry` | buckets, packed entries, their union, recording into a map |
| `trace` | what a map holds after a sequence of observations |
| `laws` | what holds of buckets, entries and maps, whatever the values are |
| `observer` | the observer traits |
| `range_observer` | `InputRangeMapObserver`, which turns any byte map observer into a range map |
| `storage` | map observers that own their map |
| `feedback` | which observations are worth keeping, and the history of those kept |
| `campaign` | what becomes of a testcase: coverage or range feedback, solutions |
| `text` | readable forms of observers and maps |
| `harness` | a demonstration target whose bug is gated on a value |

`app/` runs the demonstration target on input files.
