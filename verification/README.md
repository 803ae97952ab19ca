# gandalfd

A DNS blocker: it answers NXDOMAIN for the domains on its blocklists and
forwards every other query to upstream resolvers.

- `src/` is the verified library.
  - `domain`: validation of domain names (`validate_domain`), the stored form
    (`DomainName`, lower-cased) and the query form (`DomainRef`, never
    lower-cased), over the names' UTF-8 bytes.
  - `blocklist`: reading hosts files and domain lists line by line into an
    `ahash::AHashSet`, merging several fetched lists, exact lookup.
  - `handler`: what the server does with each request, upstream answer and
    send failure (`decide`).
  - `fetcher`: where a list comes from (URL and cache file) and the order
    of the steps that get its data (cache first, then download).
  - `settings`: the configuration.
  - `text`: characters, whitespace and line splitting.
- `app/` is the program around it: configuration loading, downloads and the
  cache files, the UDP/TCP server and the upstream resolver.
- `tests/` exercises the library.
