# delivered

A small file server that also serves the `.mp4` files in its stream directory as HLS:
segments are cut at keyframes of the first video track and remuxed to fragmented MP4 on
the fly. Nothing is transcoded, and nothing is written to disk.

| Endpoint | What it returns |
| --- | --- |
| `GET /api/stream` | JSON list of the available streams |
| `GET /api/stream/{name}/master.m3u8` | multivariant playlist |
| `GET /api/stream/{name}/index.m3u8` | media playlist |
| `GET /api/stream/{name}/init.mp4` | CMAF init segment |
| `GET /api/stream/{name}/segment-{n}.m4s` | CMAF media segment |

`{name}` is the file name without its extension `.mp4`, and `.m3u` works anywhere `.m3u8`
does. Hidden files, and files whose extension is written otherwise, are not listed.

## Layout

`src/` is the library, proved with Verus:

- `boxes`, `samples`, `mp4`, `codec`, `locate`: the demuxer, from bytes to a movie with
  its flattened sample tables.
- `fmp4`, `roundtrip`: the writer of init and media segments, and what a parser reads back
  out of them.
- `plan`, `remux`, `hls`, `playlist`: cutting a movie into segments, building a segment from
  the parts of the file that it is made of, and the playlists.
- `names`, `api`, `json`, `guard`, `cache`: stream names, requests and answers, request
  paths, and what is kept between requests.
- `text`, `error`: strings as character sequences, and the defects of a file.

`app/` is the server around it: environment, sockets, files, and times in seconds, which
are floating point numbers. The library takes them as functions on ticks.

`PORT`, `BIND_ADDR`, `FILES_DIR`, `STREAM_DIR` and `HLS_TARGET_DURATION` configure it,
from the environment or a `.env` file.
