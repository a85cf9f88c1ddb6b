# wormhole_cli

A client for [wormhole.app](https://wormhole.app): it uploads files or directories under
end-to-end encryption, downloads them again, and shows what a link holds.

`src/` is the library. It is written in [Verus](https://github.com/verus-lang/verus); what each
function does is stated in its contract and proved.

- `crypto`, `stream`, `encrypt`, `decrypt`: key derivation, and streams in the `aes128gcm` content
  encoding. `roundtrip` proves that decryption gives back what was encrypted, however either was
  cut into chunks.
- `multifile`: decryption of a torrent's data into its files. `routing` proves that every file gets
  its plaintext, and that a download gives back what was uploaded; `parts` tells what each file
  gets of data that ends early.
- `bencoding`, `decoding`, `bencode`, `torrent`: torrent files, read and written. `torrent_laws`
  proves that reading gives back what was written.
- `pieces`, `upload`, `upload_plan`: the pieces of an upload and what the server is told of it.
- `base64_text`, `models`, `api`: links, messages and requests.
- `chunks`, `hex`, `text`, `sizes`, `paths`, `report`, `error`: what the others build on.

What the library takes from other crates (`ring`, `aes-gcm`, `sha1`, `rand`, `base64`, `bendy`) and
from the standard library stands behind small wrappers whose contracts are believed without proof;
each says what it claims.

In a stream the last record, and no other, bears the mark of the last; it may be as long as the
others. Streams that end inside their header or before their last record, data behind the last
record, and counters that would leave their range are reported as errors.

`app/` is the program around the library: arguments, files, the network and progress bars.
`tests/` runs the library on known values.
