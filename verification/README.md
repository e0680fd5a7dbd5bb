# agent24_os_proto

The protocol between a kernel and the modules that it runs as processes of their own, as a verified
library: which requests a module is sent and what it may see of them, what a module may ask of the
kernel, how the two introduce themselves, and how a module is started and stopped.

`src/` holds the rules and proves them with Verus. Nothing in it waits, reads a clock or touches a
file: it is told what happened and says what follows. `app/` does the rest with sockets, processes
and timers. `tests/` runs the library with the outside crates that it calls.

| module | what it holds |
|---|---|
| `drain` | one run of a module: what is admitted while it starts, runs, drains and is revoked |
| `proxy` | forwarding: which headers pass, where a module may send a client, what is answered instead |
| `rpc` | the callback channel past its handshake: classifying frames, running calls, the queue |
| `initialize` | the kernel's side of the handshake |
| `module` | the module's side: introducing itself, calls and their answers |
| `endpoint` | the callback socket and the first frame on it |
| `kernel_call` | requests that the kernel makes to a module itself |
| `launch` | which program is started, with which environment, and what becomes of its output |
| `failure`, `supervise` | why a run failed |
| `manifest`, `version` | digests and version ranges |
| `frame`, `json`, `repeats`, `text`, `tenths` | lines, JSON values, repeated keys, texts, seconds in words |

Each public function says in its `ensures` what it returns for every input. What holds across
functions is stated by the proof functions whose names begin with `law_`.

Times are nanoseconds on one clock of the caller's. A failure of the system comes in as its text.

What is believed and not proved stands in the functions marked `external_body`. Each calls into
another crate, or into the standard library, and says in its comment what is claimed of what it
calls.
