# dsline

Local dataflow primitives with proved behaviour: framed byte messages, bounded
single-producer single-consumer channels over fixed slots, transport addresses,
a small expression language, and operator pipelines.

`src/` is the verified library. Each function states what it returns or changes,
and Verus proves it. Properties that relate several functions are public proof
functions whose names start with `law_`.

| Modules | What they hold |
| --- | --- |
| `frame`, `checksum`, `bytes` | The binary frame format, its checksum, little-endian numbers |
| `spsc` | A bounded queue of byte messages in memory |
| `storage`, `slot`, `region`, `persistent` | Storage split into slots, and the life of one slot |
| `queue` | The channel as a mathematical state machine |
| `ring`, `chunk` | The same machine as code, and messages larger than a slot |
| `channel`, `persistent_channel` | The two channels, in memory and on shared storage |
| `delivery`, `window` | What the channels promise: order, backpressure, slots in one run |
| `recovery`, `sharing` | The same where a channel is opened again or shared by two handles |
| `transport` | Transport schemes and URLs |
| `token`, `expr`, `notation`, `eval` | Expressions: reading, writing, evaluation order |
| `pipeline` | Streams, sinks and operators |
| `binding`, `error`, `text` | Error classes for bindings, errors and their text |

`app/` holds what stands around the library: slots in a file, waiting for room,
floating-point arithmetic and the Python classes. `tests/` runs the library.

## Storage

A channel works over any type that implements `FixedSlotStorage`. The exact
contracts hold for storage that is stable: each request succeeds, and nothing
but the channel writes to it during a call. Memory is stable. For other storage
the contracts say which requests are refused, and how messages are numbered.

## Numbers

Expressions are parsed, written and evaluated over any type of number. The
caller says how a number is read, how it is shown and what operators do to it;
`app/` does so for floating-point numbers.
