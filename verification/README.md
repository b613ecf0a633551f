# econfcheck

Checks that the files under a directory follow the rules of that
directory's `.editorconfig`: `indent_style`, `indent_size`,
`trim_trailing_whitespace`, `insert_final_newline` and `end_of_line`.

The library in `src/` is verified with Verus:

- `glob`: the EditorConfig glob matcher, with its meaning given by
  `glob_rec`/`path_matches` and laws about each operator: `*` is any run
  without `/`, `**` any run, `**/` zero or more whole directories, `?` one
  character other than `/`, `{a,b}` either alternative; a pattern without
  `/` is matched against a path's final component;
- `parse`: the `.editorconfig` parser and the per-file merge of sections,
  specified line by line (`apply_line`, `parse_lines`, `effective`);
- `properties`: the property map, kept sorted by name, viewed as a `Map`;
- `check`: the five rule checkers, specified as sequences of violations;
- `report`: which directory entries a scan skips and how findings are
  printed;
- `text`: lines, trimming, string comparison, decimal numbers in and
  out, and the two calls into std that stay trusted (`str::to_lowercase`,
  `String::push`).

`app/main.rs` is the command line tool: argument parsing (clap), walking
the directory and reading files, and printing.
