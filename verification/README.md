# moonpool

Deterministic simulation and state-space exploration for distributed systems, with
the logic verified by Verus.

The library in `src/` is pure: it holds state, decides what happens next and says so
in plain values. The application in `app/` does what only an operating system can do.
It forks processes, maps shared memory, polls sockets and clocks, and drives tasks.

## The simulation

| Module | What it holds |
|---|---|
| `time`, `events` | spans of time and the queue of events |
| `random`, `xorshift`, `config` | draws, a generator, and the settings of a network |
| `state`, `wakers`, `world` | connections, waiting tasks, and how an event changes them |
| `connections`, `faults`, `stream` | what tasks do with connections and what goes wrong with them |
| `buggify` | fault injection |
| `chronology`, `ordering` | why time moves on and why bytes arrive in order |
| `topology`, `orchestrator`, `report`, `runner` | simulations of many iterations |
| `operation_gen` | random operations for workloads |

## The transport

| Module | What it holds |
|---|---|
| `envelope`, `request_response_envelope` | messages as bytes |
| `protocol`, `client`, `server` | messages over streams, requests and their responses |
| `transport_error`, `peer_config`, `well_known` | errors, settings and reserved tokens |

## The exploration

| Module | What it holds |
|---|---|
| `assertion_slots`, `each_buckets` | the assertions that were met |
| `coverage`, `sancov` | what timelines covered |
| `energy`, `shared_stats`, `split_config` | what timelines cost |
| `context`, `explorer`, `split_loop` | the life of an exploration and its splits |
| `controller`, `replay` | the frontier of jobs and their recipes |
| `adaptive` | scenarios |

Contracts speak of mathematical views. A step of the world, for example, is a function
from one `WorldView` to the next, so that a run is fixed by its seed. Probabilities are
parts per million, ratios are parts of two to the power of 53, and counters start over
after their largest value. A task that waits is a number, which the application maps to
a waker.
