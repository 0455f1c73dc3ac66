# tcloc

A treemap of a codebase in the terminal, sized by lines of code and coloured by
language. The library under `src/` holds what the program computes and decides,
written in Verus and proved against its contracts; `app/` holds the terminal, the
file system, threads and the clock.

## Layout

| Module | What it holds |
| ------ | ------------- |
| `double`, `time` | numbers as 64-bit floating point computes them; spans of time |
| `text`, `format`, `order`, `path`, `path_index`, `path_table` | texts, numbers as text, ranking, paths, values by path |
| `lang`, `scanner`, `watcher` | languages; which files count and how many lines they have; changes after the scan |
| `tree`, `ledger`, `app`, `view` | the tree of folders, the statistics, and the state of the program |
| `treemap`, `ui`, `grid`, `bitmap_font` | squarified layout, the views, the picture, large labels |
| `near`, `tile_bounds`, `tile_cover`, `tile_areas`, `ui::containment` | proofs that tiles stay inside, apart and in proportion, and cover the area |
| `input`, `session`, `cli` | keys and the mouse; when to draw; the command line |
| `bench`, `bench_report`, `perf`, `alloc_track` | measurements and their reports |

Floating point is not computed by the machine but by `double`, whose operations
are specified as the nearest number to the exact result. Layouts, colours and
percentages are therefore exact statements about the values on the screen.

## What is trusted

The outside calls of the library are `memchr::memchr`, `memchr::memchr_iter`,
`hashbrown::HashMap` (behind `path_index`), the glyphs of
`font8x8::legacy::BASIC_LEGACY`, and three functions of the standard library:
`String::push`, `String::from_utf8_lossy` and `std::str::from_utf8`. Each stands
behind an item whose doc comment says what is claimed of it.
