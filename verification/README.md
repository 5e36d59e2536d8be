# convert_world

Converts Minecraft worlds stored in the 1.4.7 chunk layout: it replaces blocks in every
chunk of a world's region files following a conversion file, and converts 1.4.7 sections
into the 1.20.1 layout of palettes and packed indices.

- `src/` is the library, written in Verus and verified: the block arrays of 1.4.7 sections
  (`chunk147`), the 1.20.1 block states and the conversion (`chunk1201`, `packing`), the
  conversion tables and their ordering (`conversion`), the conversion file's text (`text`),
  and the bookkeeping of region files: headers, chunk headers and the allocation of sectors
  (`region`).
- `app/` is the program around it: command-line arguments, the async reading and writing of
  region files, compression, and NBT (de)serialisation.
- `tests/` runs the library on concrete values.
