# atv_iptv_proxy

A LAN proxy that logs in to an IPTV provider's portal on behalf of Android TV
clients, caches the channel list and the programme guide, and hands clients
local bearer tokens instead of the provider's credentials.

## Layout

- `src/` is the library, verified with Verus. Every function carries a
  `requires`/`ensures` contract over spec functions and views:
  - `text`, `split`, `pairs`, `hex`: character-level helpers, splitting,
    key/value lists and hex encoding, with their specifications.
  - `auth`: token hashing and lookup, token generation from random bytes,
    id normalisation.
  - `stream`: rewriting multicast stream URLs through udpxy.
  - `cache`: the channel and programme-guide caches.
  - `config`: the configuration, its defaults and the start-up check.
  - `pairing`: the pairing sessions that let a TV obtain a token.
  - `ctc`, `numbering`, `portal`: the provider portal's pages and answers,
    channel numbering, and the login exchange as a state machine whose
    requests the caller performs.
  - `http_body`: choosing a text encoding for a response body.
  - `backend`: channel lists from a plain HTTP backend.
  - `server`: command line, request parsing, responses, routes and the
    handlers, split where a handler needs the network or the disk into a
    step before and a step after that work.
- `app/` is the executable: it reads the configuration file, listens, does
  the file and network work the handlers hand back, and converts between the
  library's types and their JSON forms.
- `tests/` runs the library on concrete values.

The laws the library keeps (what a read gives back after a write, what
every operation preserves) are public proof functions named `law_*`.
