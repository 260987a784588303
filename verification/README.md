# gk2-save-core

A lossless reader, writer and editor for Graveyard Keeper 2 saves (Odin binary documents),
verified with Verus.

- `src/` is the verified library. `wire`, `endian`, `strings` and `encode` decode and
  encode the token stream; `bracket` proves that encoding a decoded document gives back its
  bytes. `service` answers single-value edits on one document. `workspace` and `history`
  hold several open documents with atomic transactions, undo and redo, and a content hash
  that tells whether a document differs from its saved state. `general`, `drops`,
  `inventory` and `progression` read and edit the game's own structures. `storage` holds
  the decisions behind saving a save pair with backups and recovery.
- `app/` is the transport around the library: JSON messages, decimal text of
  floating-point values, template files and the desktop file handling.
- `tests/` runs the library on concrete saves.

Numbers of floating-point fields cross the library as their raw bits; their decimal text is
made and read in `app/`. Templates for new nodes and the inventory catalog are supplied at
run time.
