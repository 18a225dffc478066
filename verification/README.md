# mediafinder

A media file finder for Windows studios: an index of every media file on the
local and network drives, searched as you type, with duplicate finding, a
thumbnail and preview cache, and an audit of what the NTFS change journal
remembers being deleted.

- `src/` is the library, written in Verus: the index and its search, the
  incremental update from journal changes, the cache formats, the duplicate
  tiers (size classes, fingerprints, whole-content verification), the
  thumbnail and preview caches, the background scheduling decisions and the
  audit report. Each public function states in its contract what it returns,
  except the shared progress counters of content verification, whose values
  other threads change.
- `tests/` exercises the library on concrete values.
- `app/` is the command around it: walking folders, reading and hashing
  files, printing results.
