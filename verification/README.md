# celestial

A path timer for speedrun routes. A route is recorded between a start and a
finish trigger; recorded paths are kept in collections, sorted from fastest
to slowest, and compared against each other.

## Layout

- `src/` is the verified library:
  - `pathdata`: paths, trigger volumes, collections and comparison files;
  - `fileformat`: reading the layout of a comparison file from its header,
    and upgrading the older layouts;
  - `pathlog`: the recorder and the store of paths (triggers, recording,
    high pass filters, mute/solo, what is compared, save and load);
  - `laws`: properties of the recorder proved over its specification
    (collections stay sorted, what the filters accept, what saving and
    loading give back);
  - `events`: the handling of one user or game event;
  - `keybind`, `ui`: keybind texts, input checking and the timer text;
  - `selection`, `logs`, `game`, `rendering`, `error`, `ids`: smaller parts.
- `app/` holds the host side: file and config I/O, serde records of the file
  formats, the float geometry of triggers, and the event loop.
- `tests/` runs the library on concrete values.
