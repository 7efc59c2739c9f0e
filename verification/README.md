# polygone_drive

A distributed, encrypted file drive. A file is cut into chunks of one mebibyte; each
chunk is encrypted with AES-256-GCM and cut into seven fragments, any four of which give
it back; relay nodes keep the fragments. A small map (`.pgd`) says what file it was, and
is handed on as a token or as a link that expires.

## Layout

- `src/` is the library, verified with Verus.
  - `links`, `link_laws`: share links, their expiry, and what holds of them.
  - `share`: tokens and addresses, and what they carry.
  - `drive_map`: the map of a file and its byte layout.
  - `storage`: encrypted chunks, the names of fragments, fetching enough of them.
  - `transfer`: the course of an upload and of a download.
  - `network`: what a relay does with a request, and what it answers.
  - `cipher`, `base64url`, `text`, `clock`: what the others are built on.
- `app/` is the program around it: the command line, files, the network, and the
  secret sharing and key exchange of the `polygone` crate.
- `tests/` runs the library on concrete values.

## What is trusted

AES-GCM, BLAKE3, base64, hex, bincode, UUIDs, random bytes and the clock come from
outside. Each such call stands behind one item whose doc comment says what is claimed of
it without proof.

## Usage

```
polygone-drive upload myfile.pdf --recipient peer.pubkey
polygone-drive share myfile.pdf.pgd
polygone-drive download --token poly://<token> --sk my.key
polygone-drive node --cache-gb 100
```
