# Easement

A WebSocket bus and an HTTP tool gateway. Clients such as Wicket and Shotgun
connect over WebSocket and advertise their functions; an assistant calls them
through `/mcp/<slug>`. What the gateway decides is verified with Verus, and what
it reads and writes is not.

## Layout

- `src/` is the verified library.
  - `json`, `serial`: JSON values, and their text through `serde_json`.
  - `text`: trimming, cutting, joining, ordering and searching of texts.
  - `framing`: messages on lines or behind length prefixes.
  - `protocol`, `entry`, `normalize`, `transcript`: the entries of a
    conversation, what clients see of them, and the chain that they form.
  - `hosts`, `gateway`: ports, paths, command lines, and the answers to requests.
  - `bus`: sockets, tool calls, Wickets and timers. `bus::model` says what each
    event does, `bus::pump` does it, and `bus::laws` says what follows.
  - `screenshot`: the routes of screenshot saves, with `model`, `router` and
    `laws` in the same way.
- `app/` is the program around it: sockets, files, processes and the clock.
- `tests/` runs the library.

## Trust

The contracts of `serial` on `serde_json`, of `framing` on `String::from_utf8`
and of `text` on `String::push` are taken as they are stated there. Everything
else in `src/` is proved.
