# olea-core

The host side of a configurable Bluetooth LE Audio stack: settings, the GATT link,
the session with a pair of headphones, the audio loop, and the agent that a
configuration app talks to. The library decides; it touches no radio, no sound card
and no disk. Everything in `src/` is verified with Verus.

## Layout

| module | what it holds |
| --- | --- |
| `text`, `natural`, `number`, `time`, `bytes` | text, single-precision numbers, lengths of time, bytes |
| `settings` | the settings file: what it holds, what a change costs |
| `hci`, `l2cap`, `att`, `bap`, `vcs`, `safety` | what goes over the air |
| `link` | one connection: events, packets, GATT procedures |
| `device`, `capabilities`, `cis`, `stream`, `audio`, `reconnect` | who is found, what they can do, which channels came up |
| `session` | a session, pairing, bringing channels up, the audio loop |
| `agent` | commands, connecting and retrying, setting a stream up, what the app is told |

## How work is shared

What has to wait for a radio, a sound card or a peer is asked for and answered.

- A GATT procedure takes the replies so far and says what to ask next, or how it
  ended.
- Bringing channels up takes the facts so far and says which job is next.
- The audio loop, a connection attempt and the setup of a stream are state machines:
  each method takes the outcome of what was last done and gives the next action.

`app/` is the program around the library. It performs the actions on a `Platform`,
reads commands from standard input and writes events to standard output, one JSON
object per line.

## Where the laws stand

Each module ends with the laws that relate its functions, as public proof functions:
a saved file reads back the same (`settings`), packets reassemble (`att`), a long
value is read whole (`link::procedure`), channels keep the order of their group
(`cis`), channels in an answer are up (`session::establish`), silence has to last before the stream falls
idle (`session::playback`), a stale connect is dropped (`agent::command`), and others.
