# ZuneTUI

A terminal program that manages the music on a classic Zune from Linux: it browses the local files
beside the device's folders, copies tracks in both directions, deletes tracks, albums and artists,
and edits playlists.

What the program decides is a library, written in Rust and proved with Verus. What it does to the
outside world is ordinary Rust around it.

## Layout

- `src/` is the library. Every function states in `requires` and `ensures` what it takes and what it
  gives, over mathematical values: a folder is a `FolderView`, a session an `AppView`, a path the
  sequence of its bytes.
  - `text`, `path`, `local_path`, `order`, `seqs`: characters, paths and stable sorting.
  - `device`, `folders`, `library`, `device_tree`, `tree`, `marks`: what the device lists, and how
    it is found, shown and marked.
  - `audio`, `upload`, `transfer`, `deletion`: what is sent, where it goes, and what is deleted.
  - `browser`: the local side.
  - `app_state`, `palette`, `debug_log`: settings, themes and the log.
  - `session`, `file_screen`, `playlist_screen`, `keys`, `screen`: the session, and what each key
    does to it.
- `tests/` runs the library.
- `app/` is the program: the terminal, the file system, the audio tags, and libmtp.

## How the program and the library meet

A key or an event goes into the library as a plain value. The library changes the session and hands
back an `Action`, which the program performs: it reads a directory, moves the cursor of a tree,
writes the settings or starts a transfer. A transfer is a list of steps. The program performs the
call that a step asks for and records what came of it.

## What is trusted

The proofs rest on Verus and on the contracts of a few functions outside the library: `String::push`,
`String::pop`, `str::to_lowercase`, `String::from_utf8` and `String::from_utf8_lossy` of the standard
library, and `ListState::select_next`, `ListState::select_previous` and `Layout::areas` of ratatui.
Each contract stands beside the call, with a comment that says what it claims.

## Public laws

Facts that hold of several functions together are public proof functions whose names start with
`lemma_`. Among them: settings that are written are read back, a download stays in the directory
that was asked for, a folder is emptied before it is deleted, the first failure ends a deletion, an
artist's folder is deleted only where every track that lies directly in it, or directly in one of its
album folders, is marked, a folder that was created for a name is found by it again, a picked album
folder counts before the tags, and a deletion that is cancelled keeps the marks and starts nothing.
