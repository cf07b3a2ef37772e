# waronmap

A strategy game on the road map of a region. Players own road intersections, send
armies along the roads between them, and put up buildings.

- `src/` is the library: every rule of the game and of the server, verified with Verus.
  It holds coordinates and lengths as integers that stand for doubles; what is computed in floating point is handed to it as pure functions.
- `app/` is the program: the HTTP and socket servers, the files, the JSON answers, and
  the floating-point functions. `generate-nodes` and `prepare-region-cache` as first
  argument run the tools that prepare the data of a region; anything else starts the
  server.
- `tests/` runs the library on concrete values.

| Part | Modules |
|------|---------|
| Values and text | `numeric`, `text`, `table`, `sorting`, `heap`, `json`, `geometry`, `clock`, `errors` |
| Road map | `repo`, `loading`, `refresh`, `boundary`, `components`, `cells`, `tiles`, `prepare` |
| Roads | `walks`, `search`, `roads` |
| World | `state`, `world`, `economy`, `production`, `battle`, `buildings`, `construction`, `missiles`, `ticks` |
| Players | `accounts`, `passwords`, `colors`, `leaderboard` |
| Requests | `connections`, `features`, `requests`, `freshness`, `body`, `web`, `live` |

What holds of the library as a whole is stated by the public proof functions whose
names begin with `law_`. Calls into other crates are marked
`#[verifier::external_body]`, each with a comment that says what is believed of it.

The server reads `PORT`, `WS_PORT` and `BIND_ADDR`.
