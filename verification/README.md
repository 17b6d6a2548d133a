# idxd

A keyboard-driven media browser for the desktop. `src/` is the library: what the
browser decides and computes, written in Verus, with contracts that are proved.
`app/` is the program around it: windows, files, the database, threads.

- `layout` puts items into rows and keeps layouts that were made.
- `models` holds media items, rows of the grid and the columns of the database.
- `scanner` sorts through what a directory holds and reads the sizes of pictures and
  videos.
- `thumbnails` sizes and makes thumbnails, keeps them, and orders requests for them.
- `image_loader` reads pictures, their orientation and their embedded previews.
- `ui` decides what keys do, what the grid and the viewer show, and where.
- `video` is the state of the video player.
- `bench` plans, measures and reports benchmark runs.
- `single` and `double` are binary floating point numbers of 32 and 64 bits as plain
  integers, with exact contracts, and `precision` bounds their rounding; `decimals`,
  `text`, `paths`, `sorting`, `hashing`, `bitmap` and `texture_lru` serve the others.

Calls into `image`, `lru`, `xxhash-rust` and some functions of the standard library
stand behind small functions whose contracts are believed; each says so.
