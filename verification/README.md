# watermark_service

Serves a video as HLS with the viewer's name drawn on every segment, rendered
when it is asked for.

- `src/` is the library, verified with Verus. It holds the rules and does no I/O.
  - `segmentation`: cuts a video into segments that begin on keyframes
  - `m3u8`: writes the playlist
  - `video_metadata`: what is kept of a video, and the binary form of keyframes
  - `ffprobe`: reads what `ffprobe` reports of a whole file
  - `segment`: the `ffmpeg` command line, and the watermark
  - `session`: what viewers ask for, and what they are answered
  - `text`: numbers and cuts in strings
- `app/` is the server around it: HTTP, the store, processes, and floating point.
- `tests/` runs the library.

The library counts time in whole milliseconds (in `ffprobe`, in microseconds).
Seconds with decimals appear only where they are printed, and in `app/`.
