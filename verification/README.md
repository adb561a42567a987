# mockreplay

Record real HTTP traffic once, replay it for tests. Point it at a real
plain-HTTP API once and it records the exchanges; point the tests at the
recording instead of the network.

```bash
mockreplay record --target localhost:9000 --listen 127.0.0.1:8081 --out recording.json
mockreplay replay --file recording.json --listen 127.0.0.1:8081
```

Bodies are framed by `Content-Length`, or for responses by the end of the
connection; there is no chunked transfer encoding and no TLS.

## Layout

`src/` is the library, verified with Verus:

- `httpmsg`: reading and writing requests and responses
- `reader`: what has arrived on a connection
- `recording`: recorded exchanges, and the one that answers a request
- `record`: a recording session, from event to action
- `replay`: answering requests from a recording
- `text`, `utf8_text`, `search`: characters, their bytes, and finding things
- `framing`, `arrival`, `round_trip`, `passing_on`, `proxying`: proofs about the
  library as a whole: where messages end, that the chunks they arrive in do not
  matter, that what is written is read back, that what is read can be passed
  on, and that replaying repeats what was recorded

`app/` is the program around it: arguments, sockets, threads and the JSON file.
