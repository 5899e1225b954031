# diffview

A viewer for the changes in a local git repository: unified and split views, syntax
highlighting, changed words, a file tree with a fuzzy filter, mouse selection and copy.

- `src/` is the logic, verified with Verus: display rows (`rows`), syntax spans
  (`highlight`), highlight merging (`overlay`), the file tree (`tree`, `collapse`), the
  fuzzy filter (`fuzzy`), selection (`selection`), navigation (`navigate`), labels
  (`labels`), the diff on display (`item`), the state of the viewer (`viewer`) and the
  sidebar (`sidebar`). The modules `layout_laws`, `hunk_laws`, `tree_laws`,
  `tree_paths`, `tree_order`, `tree_reorder`, `tree_shape` and `viewer_laws` hold what is
  proved of these as a whole.
- `app/` is the program: window, drawing, git, and the highlighter.
- `tests/` runs the library on concrete values.

| Key | Action |
|---|---|
| `]` / `[` | next / previous file |
| `n` / `p` | next / previous hunk |
| `v` | unified / split view |
| `/` | focus file filter |
| `home` / `end` | top / bottom |
| `ctrl-b` | toggle sidebar |
| `r` | refresh |
| `ctrl-+` / `ctrl--` / `ctrl-0` | text bigger / smaller / reset |
| `ctrl-c` | copy selection |
| `escape` | clear selection |
| `ctrl-k` | show keybindings |
| `ctrl-q` | quit |
