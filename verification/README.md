# levi

A parallel file downloader. The library (`src/`) holds its logic, verified
with Verus:

- `links`: turning a URL into a file link — trimming, decoding `%XY`
  escapes, taking the last path segment, and splitting it into a file name
  and an extension;
- `downloader`: where a download goes on disk, when a file counts as already
  downloaded, how the bytes are split into parts (the parts tile the file),
  the part file names, the `Range` header, and the step of a part download;
- `requests`: what is read of an HTTP response and when it is accepted;
- `files`: when a file may be created;
- `text`: decimal formatting and small string helpers.

`app/` is the program around it: HTTP requests, the file system, the async
runtime and Ctrl-C handling.
