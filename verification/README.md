# Disk Usage Map

Finds large, old folders: it scans a drive or folder, shows folder sizes as a
map of tiles, keeps finished maps in a database and refreshes parts of them.

- `src/` is the library, verified with Verus: NTFS records and volumes
  (`mft`), folder trees and their totals (`tree`, `whole`), scans (`scan`, `walk`,
  `updates`, `preserve`), refreshing one folder (`subtree`, `merge`, `spread`),
  paths and how they are written (`path`, `anchor`, `raw`), saved maps
  (`cache`), tiles and candidates (`rank`, `app`), words and dates (`i18n`,
  `labels`, `text`). `laws`, `merge_laws`, `rank_laws`, `mft::laws` and
  `mft::order` state what holds across functions.
- `app/` is the program around it: the window, the disk, the volume and the
  database.
- `tests/` runs the library on records, disks and windows in memory.
