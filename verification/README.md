# llmperf-rs

A command line tool that measures the throughput of OpenAI-compatible chat
endpoints, and chats with them.

- `src/` is the library. Everything it decides or computes is verified with
  Verus: counting tokens, cutting a stream of server-sent events into payloads,
  following requests, the time during which at least one of them was busy,
  prompts of a given length, tables and reports, conversations, and which
  setting wins.
- `app/` is the program around it: the command line, files, HTTP, the terminal,
  and floating point.
- `tests/` runs the library.

Points in time and spans of time are whole nanoseconds in the library, and a
rate is a number of tokens over such a span. The program turns them into
seconds and tokens per second when it prints them. Where a decision rests on
seconds in double precision, the library computes those numbers with whole
numbers, and rounds as double precision does.

What is taken on trust from other crates stands behind small functions whose
doc comments say what is claimed: `tiktoken-rs` (tokens of a text), `rand`
(random numbers), `unicode-width` (columns of a text), and
`String::from_utf8_lossy` and `String::push` of the standard library.
