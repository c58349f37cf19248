# splitter

Line reading in the style of AWK's `getline`, with its contracts proved by Verus.

A `DefaultSplitter` reads a source chunk by chunk, finds the lines, and splits them into
fields on the way: at white space, or at single bytes of your choice. A `ChainedReader`
reads several inputs in turn. A `DefaultLine` gives access to the fields of a line, and
takes assignments to them; the line as a whole follows.

- `src/` is the verified library. `src/laws/` states what holds of its parts taken
  together: that all of the input comes through whatever the chunk size, that every line
  is found once and in order, also over several files, that the fields of a line split at
  white space are its words, that assignments to fields and to lines read back, and so on.
- `app/` adapts `std::io::Read` to the library's sources.
- `tests/` runs the library on concrete inputs.

What is not proved:

- That `SmallVec` keeps the few bytes of a cut-off character (`src/stray.rs`).
- That a source outside `src/` behaves as `Source` says: it delivers its bytes in order,
  and writes nothing behind those that it delivers. The latter is more than
  `std::io::Read` promises; the adapter in `app/` sees to it.
- How a pattern splits a line, which is left to whatever implements `RegexEngine`. What
  it is asked for, and what becomes of its answer, is proved.
