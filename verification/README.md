# systems_programming

Verified cores of a set of small systems-programming exercises, with the
programs around them.

- `src/` is the library, checked by Verus: the RESP2 parser, encoder,
  decoder and server step (`resp`), a length-prefixed frame codec over
  `bytes` (`codec`), a packed record header (`record`), a `(u32, i64, f64)`
  record in both byte orders over `byteorder` (`endian`), the task list's
  text format and commands (`todo`), a line diff (`diff`), the calculator's
  lexer and parser (`calc`), the field rules of a tagged message
  (`message`), the chunking and checked sums of a parallel sum
  (`chunked_sum`) and the decisions of two thread-coordination exercises
  (`progress`). Each public function states its result in `ensures`; the
  laws that span functions (round trips, balanced brackets, precedence,
  chunked sums) are public proof functions.
- `app/` is one binary, `app <program> [args]`, with everything the library
  leaves out: files, sockets, threads, the terminal, Tokio and serde, and
  the calculator's floating-point evaluation.
- `tests/` runs the library on concrete values.
