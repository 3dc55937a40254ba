# sysmon

A small system monitor whose logic is verified with Verus.

- `src/ring_buffer.rs`: the fixed-capacity sample history; its view is the items
  held, oldest first, and pushing onto a full buffer drops the oldest.
- `src/text.rs`: lines, whitespace-separated words and `u64` parsing over
  characters, each proved against a spec of what it computes.
- `src/collectors/`: parsers for `/proc/stat`, `/proc/meminfo` and
  `/proc/diskstats`, and the collectors that turn successive readings into tick
  and sector counts (`order.rs` holds the order of device names).
- `src/app.rs`: the page cycle, pausing, when sampling is due, and how samples
  enter the histories.
- `src/clock.rs`: the clock of `std::time`, behind contracts that state nothing
  of what it reads.
- `app/`: reading the `/proc` files, percentages, gigabytes and bytes per
  second (floating point), and the tick loop that ties them to the library.
