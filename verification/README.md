# adjmerge

A three-way line merge (a git merge driver) whose library is verified with Verus.
Changes on touching lines stay separate instead of conflicting.

- `src/tokenizer.rs`: splits UTF-8 bytes into lines, keeping each line's terminator
  (`\n`, `\r\n`, `\r` or none); `split_lines` is the specification, and writing the
  lines back gives the input byte for byte.
- `src/diff3.rs`: the two two-way diffs (imara-diff's histogram diff, behind one
  trusted wrapper) and the walk over both hunk lists that yields the merge regions;
  `walk`/`chunk_bounds` specify it, and the `law_*` proofs state what the walk keeps:
  the regions split the base in order, read side by side they give back each side,
  and conflicts only stand where the two sides wrote different lines.
- `src/output.rs`: writes the regions (diff3 or zdiff3 conflict style) and computes
  the outcome.
- `src/lib.rs`: `merge`, from three byte buffers to the merged bytes.
- `src/error.rs`: the error type.
- `app/main.rs`: the command line (argument parsing, files, exit codes).
