# rinkaku

rinkaku condenses a change into the signatures of the symbols it touched
and their one-hop dependencies. This crate holds its logic as a library
whose behaviour is stated in contracts and proved with Verus; `app/` holds
the input and output around it (running `git`, reading files, the cache
file on disk, building the resolver for a change (scoped to the changed
projects, through the cache when a head commit names the blobs), help
text).

Layout of `src/`:

- `cli` — the command line: options, defaults, and when an argument list
  is refused.
- `text`, `str_map` — character and string helpers, and a text-keyed map.
- `syntax` — syntax trees parsed with tree-sitter, copied into plain values.
- `definition`, `markdown`, `signature_slice`, `signature_bound`, `extract`
  — reading definitions off a tree, slicing and tidying their signatures,
  and classifying a change's symbols against the base side.
- `symbols` — extracting a file's symbols: its definition and reference
  queries run over its parse, each captured definition turned into a
  symbol (sections, component interfaces and the component itself
  included), and a change narrowed to the innermost definitions it touches.
- `index` — the repository-wide definition index: which files are parsed
  for it (language, admission, prefilter) and the resolver built from them.
- `language` — Markdown, PHP, Vue and Svelte support: test-file
  conventions, index membership, script masking and component tags.
- `deps`, `deps_cache`, `path_proximity`, `project_scope` — name-based
  dependency resolution, its on-disk cache, ranking by path proximity, and
  scoping the scan to the changed projects.
- `git_quote`, `git_output`, `repo_path`, `slug` — reading what `git` prints
  and validating paths and repository names.
- `render`, `escape` — output formats and the framing of rendered reports.
- `scroll`, `wrap`, `styled`, `pane`, `overlay`, `dependency_update` — the
  terminal panes' scrolling, wrapping and truncation arithmetic, and the
  report update that background dependency resolution delivers.
- `pipeline` — the pipeline's decisions that need no repository access.
- `quit_confirm` — the quit-confirmation popup's key step.
