# tdu_savegame

Tools for Test Drive Unlimited save games, verified with Verus.

- `src/cipher.rs`: the 64-bit block cipher (32 rounds of XTEA) and the proof
  that deciphering undoes enciphering.
- `src/tdudec.rs`: decryption and encryption of save files (blocks on their
  own) and of other files (blocks chained after a fixed start value), with the
  proof that decrypting an encrypted file gives back its padded contents.
- `src/hash.rs`: the CRC-32 checksum that a player save keeps of its account.
- `src/util.rs`: reading and patching the account file `commondt.sav`,
  patching `playersave`, reading and writing `ProfileList.dat`, with the
  proofs that a patched account file and a written profile list read back as
  written.
- `src/editor.rs`: the decisions of the account editor (profile names, the
  renamed profile list, the patched and encrypted files).
- `src/text.rs`, `src/bytes.rs`: UTF-8 text and little-endian words in bytes.
- `app/main.rs`: the editor's window, file pickers and file access.

File offsets:

| file | offset | content |
|------|--------|---------|
| commondt.sav | 0x91 | 1 online, else offline |
| commondt.sav | 0x98..0xb8 | nickname |
| commondt.sav | 0xba..0xee | email |
| commondt.sav | 0xf0..0x10f | password |
| playersave | 0x8..0xc | checksum of the nickname |
| playersave | 0xc..0x10 | checksum of the email (zero offline) |
| playersave | 0x10..0x14 | checksum of the password (zero offline) |
| playersave | 0x1a..0x3a | nickname |
