# navidrome_import

Turns an Exportify export of playlists into playlists over a local music library: it matches every
exported track against the audio files on disk, tags each file with the playlists it belongs to,
and writes one `.m3u` file per playlist.

The library under `src/` is verified with Verus. It holds what is decided and computed: reading
exports, normalising and comparing names, indexing the library, the three tiers of matching, what
goes into tags, playlist files and reports, and the order of the steps. The program under `app/`
reads and writes the files, and handles the floating point numbers of the command line and of
duration cells that hold no exact whole number.

| module      | what it holds                                                  |
|-------------|----------------------------------------------------------------|
| `text`      | text as a sequence of characters                               |
| `order`     | the order of texts, and sorting                                |
| `model`     | playlists and tracks                                           |
| `sources`   | which files are read, and zip archives                         |
| `exportify` | CSV files to playlists                                         |
| `matching`  | normal forms, keys and similarity                              |
| `tags`      | reading tags and writing the playlist tag                      |
| `library`   | the index of audio files                                       |
| `resolve`   | from a track to a file                                         |
| `outcome`   | memberships, hits and misses                                   |
| `m3u`       | playlist files                                                 |
| `report`    | what is printed and what is missing                            |
| `run`       | the steps of an import, and watching the drop directory        |

Scores are exact fractions, and cutoffs are whole billionths of a percent. Durations are whole
nanoseconds. Files are known by their place in the list of files that were found.
