# dormant

A reverse proxy for Docker that starts containers when they are asked for and stops them when nobody
uses them any more. Containers take part by the label `dormant.enable=true`.

- `src/` is the library: what the proxy decides, verified with Verus. The table of its modules is in
  `src/lib.rs`.
- `app/` is the program around it: the command line, the Docker socket, the HTTP and TCP servers.
- `tests/` runs the library on concrete values.

## How the library is laid out

Work that needs no outside answer is an ordinary function with an exact contract: reading labels and
settings, building the routing table, finding a route, ordering the containers to start, choosing
those to stop, rewriting a request.

Where the proxy has to ask or do something and then decide, the library has a step function from a
state and an event to the next state and the next action, and `app/` performs the actions:

| steps | for |
|-------|-----|
| `proxy::handle`, `proxy::handle_step` | an HTTP request |
| `tcp::handle_conn`, `tcp::handle_conn_step` | a TCP connection |
| `startup::ensure_started_single`, `startup::ensure_started_step` | the start of a container |
| `startup::ensure_started_with_port`, `startup::ensure_group_started`, `starts::start_levels_step` | the levels before a container, and those of a group |
| `idle::idle_round`, `idle::idle_round_step` | a round over the sessions that are over |
| `startup::wait_healthy`, `startup::wait_healthy_step` | the wait for a healthy dependency |
| `aliases::sync_self_aliases`, `aliases::sync_self_aliases_step` | the proxy's own names on a network |
| `docker::watch_events_step` | the events of the Docker daemon |

Clock readings are handed in as the time since a fixed starting point.

What holds of several functions together is stated in public proof functions, named `lemma_..`, at
the end of each module and in `router_laws` and `level_laws`.

## What is taken on trust

Two functions of other crates are called from the library: `humantime::parse_duration` in
`src/time.rs`, and `HeaderValue::to_str` of `hyper` in `src/http.rs`. What is claimed of them stands
above the calls.

## Settings

| argument | environment | default |
|----------|-------------|---------|
| `--listen` | `DORMANT_LISTEN` | `0.0.0.0:80` |
| `--docker-socket` | `DORMANT_DOCKER_SOCKET` | `/var/run/docker.sock` |
| `--idle-check-interval-secs` | `DORMANT_IDLE_CHECK_INTERVAL_SECS` | `30` |
| `--self-network` | `DORMANT_SELF_NETWORK` | none |
| `--static-routes` | `DORMANT_STATIC_ROUTES` | none |
