# signin

A sign-in desk for a team: members sign in and out by id, completed sessions
and newly created users wait in a local cache until they are sent to the
team's server, and a password (the API key) unlocks the desk, checked online
against the server or offline against a kept hash.

- `src/` is the library, verified with Verus. The cache directory is held as
  map from canonical file names to bytes together with the set of its
  directories (`util::cache::CacheStore`), kept in the shape a file system
  gives them; every operation resolves the name it is given as the file
  system does (`util::path`: `.`, `..`, repeated slashes, components that
  must be directories) and states what it does to the cache and returns.
  - `text`: decimal numbers, whitespace trimming, splitting on a separator.
  - `util::cache`: the file operations (append, write at the start without
    truncating, clear, delete, read trimmed, whether a file or directory
    exists).
  - `util::sess`, `util::user`: session and user records, their line
    formats, lookups, and the queues of records to send.
  - `util::remote`, `util::traits`: the API requests (the API key travels
    beside the body and is added as a form field when posted), reading the
    replies, password checks (argon2 hashes).
  - `util::pattern`: regular expressions (regex), kept with their pattern.
  - `util::time`: the clock and `HH:MM:SS` durations (chrono).
  - `actions`: what signing in, signing out and creating a user do.
  - `cache`: the first layout of the cache, with session files under `sess/`.
- `app/` is the terminal program (cursive): it mirrors the cache directory on
  disk into the library's map and back, sends requests over HTTP (reqwest),
  and draws the dialogs.
- `tests/` runs the library on concrete values.
