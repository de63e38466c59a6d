# interceptor-rs

An HTTP interceptor for autoscaled services, as a Verus library with a thin
program around it.

* `src/` holds the logic, with contracts that Verus proves.
  What the library believes of other crates (`bytes`, `dashmap`, `http`,
  `httparse`, `prometheus`) stands in small items marked `external_body`, each
  with a comment that names the outside function and says what is claimed of it.
* `app/` is the program: sockets, the Kubernetes watches, the clock, and locks
  around the state of the library.
* `tests/` runs the compiled library with the other crates linked.

The modules, from the bottom up:

| Module | What it is about |
| --- | --- |
| `natural`, `double`, `duration` | exact integers, binary64 numbers, spans of time |
| `text`, `fields`, `buffer`, `store` | texts, header maps, byte buffers, keyed values |
| `config`, `crd` | the environment and the custom resource |
| `routing` | which resource a request belongs to |
| `queue`, `watch` | requests in flight and request rates per resource |
| `endpoints` | ready endpoints, and waiting for the first one |
| `backend_pool`, `chunked`, `body`, `wire`, `forward` | connections, bodies, heads, the exchange with a backend |
| `proxy` | a request from its arrival to its response |
| `diagnostics`, `metrics`, `reply`, `admin` | counters and the servers beside the proxy |

Times are nanoseconds since a fixed moment and are always passed in. Functions
whose names begin with `law_` state what holds of several functions together.
