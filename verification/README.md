# RustVoxel, verified core

The data formats and rules of the RustVoxel block game, with their contracts
proved by Verus.

- `src/` is the library. Each module states what its functions return over
  mathematical models (`Seq`, `Map`, spec functions) and proves it:
  - `mcproto`, `net`: the vanilla wire protocol primitives and the framed
    LAN protocol;
  - `session`, `client`: what the multiplayer client does with each packet
    from the server (a step from state and packet to next state and
    actions), the framing of what it sends, and the decoding of chunk
    sections;
  - `nbt`, `json`: NBT reading and writing, the JSON lexer;
  - `anvil`, `pack`, `png`: checksums, DEFLATE compression and
    decompression, zlib and gzip, region files, ZIP and PNG, the texture
    pack index;
  - `font`, `mobs`, `noise`, `view`, `servers`, `text`: the pixel font, the
    mob table, integer hashing, the chunk loading order, the saved server
    list, character sequences.
- `app/` is ordinary Rust around it: the program's entry, file and network
  I/O (the client's socket loop drives `session::handle_step`), and the
  floating-point helpers.
- `tests/` exercises the library on concrete values.
