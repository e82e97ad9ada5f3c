# destream_json

Decoding of JSON documents that arrive in chunks, verified with Verus.

A `Decoder` is handed the chunks of a document and is asked for one token at a time. Where the
bytes at hand do not settle the answer, it says so (`Step::More`) and is asked again once there
are more of them.

- `src/` is the verified library. `input.rs` states what each reading makes of the bytes before
  it; `decoder.rs` and `access.rs` are the readings. `encoder.rs` writes bytes as they are read.
- `src/laws/` holds what is proved of the readings: what each of them keeps (`order.rs`), that
  one that was put off can be repeated (`streaming.rs`), what is read back of a value in its
  notation (`notation.rs`) and of lists and maps (`items.rs`), and that all this is so however
  the document is cut into chunks (`driving.rs`). Only the message of an error may show less of
  the document, where something stands in the place of a `null`.
- `app/` drives a decoder from an asynchronous stream, and offers what it reads to the visitors
  of `destream`. Numbers with a fraction are converted there.
- `tests/` runs the library on documents, whole and in chunks.

What is not proved is in `src/text.rs`: how `String::from_utf8`, `String::push`,
`base64::decode` and `base64::encode` behave.
