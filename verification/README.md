# alta_bus

A low-latency TCP message bus for market data. Publishers send binary frames into the bus;
subscribers receive the frames of the channels that they subscribed to.

- `src/` is the library, verified with Verus: the wire protocol (`le`, `header`, `types`,
  `codec`, `messages`, `frame`), the ring that fans messages out (`ring`, `ring_laws`), what
  the bus decides about its connections (`session`, `registry`, `dispatch`, `outbox`), the
  channel configuration (`config`), the clock (`clock`), and the arithmetic of the benchmarks
  (`load`, `samples`).
- `tests/` exercises the library.
- `app/` is the program around it: sockets, threads, files and terminal output. `bus` runs the
  bus (address in `BUS_ADDR`, default `0.0.0.0:8000`), `bench` and `latency` measure it against
  Redis.

Every frame is a header of 17 bytes and the payload that it announces, all numbers
little-endian:

| Offset | Size | Field |
|---|---:|---|
| 0 | 1 | `msg_type`; 0 in a subscriber's request |
| 1 | 4 | `channel_id` |
| 5 | 8 | `timestamp_ns` |
| 13 | 4 | `payload_len`, at most 1024 |

A subscriber's request carries up to 256 channel ids; an empty one asks for all channels.
