# clawbit

A desktop pet that follows the sessions of a coding assistant. The assistant runs
a small hook program on each of its events; the hook forwards the event over a
local socket to the pet, which keeps per-session state, usage counts and a mood.

`src/` is the verified library (Verus):

- `models` – event, status, task-state and emotion types, and event names.
- `hook` – what the hook program sends for what the assistant handed it.
- `state` – the task state that follows each event.
- `session` – the session store: events at a given time, sleep after silence,
  forgetting idle sessions, and positions that are never reused.
- `stats` – per-session and total counts of turns and tool calls; the totals
  count the calls made.
- `service` – taking one event into the store and the counts.
- `json`, `installer` – JSON documents as plain values, read from and written
  to text with serde_json, and writing the hooks into the assistant's settings
  text and taking them out again.
- `analyzer` – the request that rates a prompt's emotion, and reading the reply.
- `ipc` – splitting a socket message into lines.
- `sound` – the (still silent) sound player.
- `clock` – the clock readings the store and the counts take.

`app/` holds the hook program's `main`, the socket server, the event loop, the
emotion scores (floating point) and the reading and writing of the settings file.
