# screen_streamer

The decisions of a low-latency screen streamer, written in Rust and proved with
Verus: which tiles of a frame changed, how they are merged, ordered, packed and
acknowledged, what a client is answered, and how a capture proceeds.

- `src/` is the library. Every function states in its contract what it returns
  or changes, over values: sequences, sets, maps and integers. Proof functions
  named `law_…` state what holds across functions.
- `tests/` runs the library with the outside crates it calls.
- `app/` is the program around it: sockets, threads, the compositor, the image
  codec, the environment and the measuring tools. It does what the library's
  state machines say and hands them what happened.

## Modules

| Module | What it decides |
|---|---|
| `tile`, `tile_hash`, `tile_extract`, `convert`, `frame` | the grid of cells, its hashes and pixels |
| `diff`, `encoder`, `priority`, `pipeline` | what changed, what is merged, what goes first |
| `tile_buffer_pool` | which buffers are used again |
| `protocol`, `transport`, `stream` | packets, batches, acknowledgements, lost cells |
| `auth`, `session`, `signaling`, `server`, `ice`, `json`, `tls` | letting a client in, and negotiating with it |
| `oneshot`, `websocket` | the simpler servers |
| `input` | remote control: keys and buttons held, requests made |
| `capture`, `screencopy` | which backend captures, and in which steps |
| `config`, `bandwidth`, `cli`, `error`, `text`, `bits` | settings, rates, options, messages |
| `pictures`, `hashes`, `bench`, `profiler` | what the measuring tools measure |

Times are nanoseconds since some instant of the caller's. Qualities and weights
are millionths, scales are percent, and scroll distances are hundredths.

The page that the server hands out is read from
`docs/client-examples/client.html` when it starts.
