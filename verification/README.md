# Extension Scanner

Scans a folder or a ZIP archive, counts its files by extension, flags executable files
that look like something else (`malware.png.exe`), lists the files with a search, filters
and an order, and writes a pie chart and a JSON report.

## Layout

- `src/` is the library. Verus proves every function in it against its contract.
  - `text`, `order`, `double`, `format`, `json`: texts, sorting, the integers and fractions
    of floating-point arithmetic, and how numbers, sizes and strings are written.
  - `names`: extensions, suspicious names, and names for new files.
  - `records`, `tally`, `statistics`: what is found, and how it is counted.
  - `archive`, `scan`, `walk`: reading an archive, and taking in what a walk through a folder
    meets.
  - `filter`: which files are listed, and in which order.
  - `chart`, `report`, `document`: what is drawn and written after a scan, and how a report
    is read.
  - `state`, `view`: the state of the program, and the texts in its window.
  - `elevation`: restarting with administrator rights on Windows.
- `app/` is the program: the window, dialogs, files, threads and drawing.
- `tests/` runs the library.

## What is believed without proof

The contracts of a few functions of the standard library (`String::push`,
`str::to_lowercase`, `Path::file_name`, `PathBuf::clone`) and of the `zip` crate
(`ZipArchive::new`, `len`, `by_index`). Each stands beside its declaration in `src/`.

## Laws

Public functions named `lemma_..` state what holds of the library as a whole. Some of them:

- The statistics account for every file and every byte, there is one way only to write
  them, and the order in which files were met does not matter.
- A walk through a folder records every file, directory and failure that it meets, and
  reading an archive in parts finds what reading it at once does.
- A listing holds the files that are asked for and no others, whatever its order.
- The slices of the chart add up to all files.
- Links are never followed, and change nothing in what is found.
- In every state that the program can reach, the figures that are shown are those of the
  files.
- Shown numbers, JSON strings, quoted arguments and wide texts read back, and so does a
  report as a whole.
