# jvm_signature

Reading and writing Java generic signatures, the `Signature` attribute strings of
the JVM class file format: class signatures (`<T:Ljava/lang/Object;>Ljava/lang/Object;`),
method signatures (`<T:Ljava/lang/Object;>(TT;)V^Ljava/io/IOException;`) and field
signatures (`Ljava/util/List<+Ljava/lang/Number;>;`).

The library is written in Verus and verified.

- `src/signature.rs`: the signature types, their mathematical models (`Spec*`) and views.
- `src/grammar.rs`: the grammar as spec functions over the UTF-8 bytes of a signature,
  including the exact error (offset and message) reported for each rejected input.
- `src/parser.rs`: the reader; `parse_class_signature`, `parse_method_signature` and
  `parse_field_signature` return exactly what the grammar describes.
- `src/render.rs`: writing signatures back as text (`to_string`), `internal_name`, and
  the text of errors.
- `src/duplicate.rs`: deep copies (`Clone`).
- `src/laws.rs`, `src/read_back.rs`, `src/read_wf.rs`: the laws relating the reader and
  the writer: reading then writing gives the text back (when it holds no empty `<>`
  list), writing a well-formed value then reading gives the value back, and everything
  the reader accepts is well formed (`src/wellformed.rs`), so that reading, writing and
  reading again gives the same value for every input. `src/laws.rs` also holds the laws
  on text appended to a signature (trailing text is refused where it starts; a `^` and a
  class type add one exception; a class type adds one interface), the law that writing
  back a reference type needs only the bytes that were read to be free of `<>`, and the
  law that type arguments do not change an `internal_name`.
- `src/window.rs`: a reading depends only on the bytes it looks at; the lemmas that
  carry a reading from one byte sequence over to another that holds the same bytes.
- `src/str_input.rs`: the law that reading from a `str` never reports the `invalid utf-8`
  error: every position the reader reaches is a character boundary.
- `src/utf8_facts.rs`: facts about the UTF-8 encoding used by those laws.
- `app/lib.rs`: the error type with `std::error::Error` and `Display` (through
  `thiserror`), which the verified library cannot carry itself.
