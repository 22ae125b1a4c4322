# cable_streaming

Finds movies in cable TV listings (XMLTV) and looks them up in MDBList and
the Streaming Availability API.

- `src/` is the verified library: the weekend movie report over a listing
  (`listings`), the ranking of MDBList search results (`mdblist`), the
  streaming services of a movie (`streaming_availability`), request URLs and
  RapidAPI headers (`web`), which responses the cache keeps (`cache`), XMLTV
  times (`xmltv`), an ordered string map (`sorted_map`) and std's string
  order (`text`).
- `app/` holds what runs around it: reading files, the sled response cache,
  the HTTP clients, JSON/TOML/XML decoding, and the three command-line tools.
