# omapic

A keyboard-driven image viewer and temporary organizer: open images, look
at them, throw the interesting ones into numbered workspaces, arrange a
workspace, run one explicit command on it. Nothing about the images is
stored; files change only when a command is confirmed.

The decisions live in a library verified with Verus (`src/`); the window,
the file system, threads and other programs live in `app/`.

## Library (`src/`)

| module | what it decides |
|---|---|
| `model` | the session: workspaces, pending rotations, views, manual order, selection, undo/redo |
| `cli` | which files are images, natural name order, which images a command line asks for |
| `paths` | file names, parents, extensions, joins, `Path` equality |
| `fsops` | planning and checking file operations; the step-by-step run, parking files under temporary names and rolling back |
| `conversation` | the palette commands as conversations: what to ask, plan, confirm and report |
| `commands` | the commands' titles and the texts of their confirmations |
| `shell` | shell command templates: placeholders, quoting, ready-made lines |
| `history` | the shell history file's text |
| `exif` | the EXIF block of a JPEG: tags, embedded preview, orientation, the bytes a rotation changes |
| `quick` | ready-made thumbnails: cache flavours, PNG text chunks, EXIF previews |
| `thumbs` | the thumbnail queue: which job a worker takes next |
| `preview_cache` | which decoded previews are kept |
| `controls` | what a key does, key hints, grid navigation, list splices, status texts, thumbnail eviction |
| `palette` | yes/no answers, filtering, row movement and keys of the command palette |
| `montage` | the `magick montage` command line of a contact sheet |
| `theme` | the colour theme and its CSS |
| `text` | characters, decimal numbers, trimming, splitting, parsing numbers |

Public proof functions state the laws the library keeps, among them: the
natural order is reflexive and antisymmetric and calls only identical
names equal, and image lists come out sorted by it; `quote` gives a word
that `sh` reads back as the original text; a session stays well formed
and keeps at most 200 undo steps; undo and
redo take each other back; every view shows each image once; a checked plan
touches no existing file and no two steps share a target; a run touches
nothing but planned paths and its own temporary names; history files read
back what was written; the preview cache stays bounded; an EXIF block
rebuilt with an orientation, put in place of the old one, is found again
and reads back that orientation; turning an image right then left, or
right four times, leaves it as it was; writing a rotation to a file keeps
every state of the session showing the image as before.

`r` and `R` turn the selected image on screen only; the palette's *Save
rotations to files…* asks, then writes each pending rotation into its JPEG
(the EXIF orientation, nothing else), and the session drops what was
written, undo history included.

## Program (`app/`)

`main`, argument handling, file and process I/O, the thumbnail worker
threads and the GTK 4 user interface, all driven by the library's
decisions.

## Tests

`tests/` runs the library on concrete values; every law has an example
there too.
