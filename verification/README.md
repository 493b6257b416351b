# cshell

`cshl` moves a directory to another place and leaves a link where it was, so that
everything that knows the old path goes on working.

```
cshl <SOURCE> <TARGET>     move, and leave a link
cshl list                  show what was moved
cshl restore <SOURCE>      move it back, and take the link away
```

A move on one volume is one rename. Between volumes the data is copied to a
directory beside the target, renamed into place once all of it is there, and only
then removed from the source. Files keep their mode, their times and their extended
attributes; on Linux and Windows owners and access lists are not kept. The ledger,
`~/.cshell/ledger.json`, says that a move is in flight before anything is touched, and
that it is done when the link is there.

## What is proved

The library under `src/` is written in Verus: every decision of the program is a
function with a contract. Whatever waits for the system is a machine that says what
to do next and takes back what came of it.

| Module | What it holds |
|---|---|
| `path`, `text`, `order`, `lookup` | paths by the rules of Unix and of Windows, texts, sorting, an index of paths |
| `plan`, `survey`, `share` | scanning a tree, what a scan finds, what hard links save |
| `copy`, `remove` | copying and removing a tree with many hands |
| `transfer`, `migrate`, `restore` | moving between volumes, a whole move, a whole move back |
| `ledger`, `calendar`, `home` | the ledger, its place and its dates |
| `link`, `platform` | making and repointing links, what is particular to each system |
| `job`, `safety`, `volume` | what a move is about, and whether it may be done |
| `cli`, `error`, `report` | commands, errors, and what is shown |
| `world`, `replica`, `names`, `clearing`, `census`, `peers` | what is on the disk, and the laws that speak of it |

Functions named `law_…` state what holds of the library as a whole. Some of them:

- Whatever comes of the steps of a move, all the data is at the source or at the target,
  as it was, and the answer of the process says where. What could not be read, and so is
  not at the target, is still at the source. Where the move went well, all of it is at the
  target, and the link says so (`migrate::law_every_move`).
- A move and a move back give what was there before (`restore::law_there_and_back`).
- Where nothing was found that cannot be read, a copy is the tree that was scanned
  (`census::law_scan_and_copy`), and scans agree whatever comes back first
  (`census::law_scans_agree`).
- In a copy, names are of one file just where they were told to be and could be linked,
  and the bytes counted are those that were copied (`replica::law_every_copy`).
- A file that was copied holds the whole of what it was copied from, whatever size that
  was said to have (`platform::law_copy_file_is_whole`, `platform::unix::law_fill_is_whole`).
- Removing counts everything, and there is no failure just if the source is gone
  (`clearing::law_every_removal`).
- What is made for a target is what was missing, and goes again where a move fails
  (`migrate::law_made_is_what_was_missing`).
- A link that is repointed on Unix is there at every moment, and leaves no stand-in
  (`link::law_repoint_on_unix`).
- Nothing is touched before the ledger says so (`migrate::law_ledger_comes_first`), and
  what many processes enter at one time all stays (`peers::law_beginnings_stay`).
- The file of the ledger is the old one or the new one, whole, at every moment
  (`ledger::law_every_save`), and a change that fails leaves it as it was
  (`peers::law_failed_change_changes_nothing`).
- What is there is never renamed over (`platform::law_never_replaces`).

What is believed without proof are a few calls: `dirs::home_dir`,
`String::from_utf8_lossy`, and the error numbers of `libc`.

## Layout

- `src/`: the library
- `tests/`: its tests, among them whole moves on a file system held in memory
- `app/`: the program around it: arguments, threads, calls to the system, JSON
