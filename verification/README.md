# rusty_rapidgzip

A gzip decoder that decodes one file with many workers, and whose results are
proved. The compressed bytes are cut at guessed block boundaries; each chunk is
decoded without the bytes before it, with markers for what it copies from them;
then the chunks are anchored one after the other, and their markers are filled
in from the output before them.

- `src/` is the library, verified with Verus.
  - `deflate/` decodes DEFLATE streams. `format.rs` says what a stream decodes
    to, `cells.rs` what it decodes to without the bytes before it; the kernels
    in `fast_inflate.rs`, `wide_window.rs`, `inflate.rs` and `stepwise.rs` are
    proved to do that. `embed.rs` and `cut.rs` say how decoding depends on where
    its input stands and ends.
  - `gzip.rs`, `members.rs` and `checksum.rs` are the framing around it.
  - `pipeline.rs`, `chain.rs` and `schedule.rs` decode a body in chunks,
    `serial.rs` in order, `bgzf.rs` member by member, and `file.rs` a whole file
    by one of these.
  - `stream.rs`, `streaming.rs` and `pieces.rs` decode a file as it comes in.
  - `agreement.rs`, `concat.rs`, `file.rs` and `pieces.rs` prove that all of
    these give the same bytes of a file that decodes, wherever it is cut.
  - `autotune.rs`, `backend.rs`, `corpus.rs` and `fastq.rs` are what is around
    the decoder.
- `app/` runs the library: threads, channels, files and pipes.
- `tests/` run it on values.

What is trusted: `crc32fast` computes CRC-32, `hex` writes hexadecimal digits,
and `sha2` gives the same answer for the same bytes.
