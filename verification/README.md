# sync-rs

Uploads a file from a client to a server over TCP, in chunks, and has the
server check the result against a BLAKE3 hash that the client announced.

`src/` is the verified library. It holds the wire protocol and the decisions of
both ends; it neither opens files nor sockets.

| Module | What it holds |
|---|---|
| `protocol` | The messages and how each is laid out in a frame. |
| `errors` | Errors, their words, and the codes under which they are reported. |
| `registry` | The files that a server knows of. |
| `transport` | Client and server with an answer to every request. |
| `tcp` | Client and server without answers, with a bounded pool of senders. |
| `chunking` | Cutting a file into chunks and hashing it on the way. |
| `chunk`, `cdc` | Splitting a file by content, or into blocks of one size. |
| `upload` | What holds of an upload as a whole. |
| `wire`, `text`, `paths`, `ids`, `digest` | Bytes, text, paths, identifiers, hashes. |

What is taken from other crates (`bytes`, `blake3`, `uuid`, `chunkrs`) and from
the standard library without proof is marked as trusted where it stands, in
`wire`, `digest`, `ids`, `cdc` and `text`.

`app/` is the program: `client <file>` uploads a file to `0.0.0.0:6868`, and
`server` receives files there and keeps them in `/tmp/uploads`, each as
`<file id>_<name>`.
