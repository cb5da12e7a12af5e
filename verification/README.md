# promptls

A tiny language server for **one-shot prompt files**: the buffers that AI CLIs open
in `$EDITOR` on `Ctrl+G`. The prompt file lives in `$TMPDIR`, but everything you want
to reference is in your project, so `@path` references are resolved against the
**project root**.

| Feature | What it does |
|---|---|
| Completion | `@` triggers fuzzy path completion over the whole repo (`@src/comp/but` finds `src/components/Button.tsx`). Directories insert with a trailing `/`. |
| Diagnostics | A warning for each `@path` that does not exist under the root. |
| Hover | The first 30 lines of a file, with its counts; the listing of a directory. |
| Go to definition | `@src/foo.rs:42` jumps to line 42. |

Root: `--root <dir>`, else `$PROMPTLS_ROOT`, else the working directory of the nearest
ancestor process outside the temp dirs. `promptls setup` prints the editor
configuration; `--cli-name` and `--cli-command` name the AI CLI in it.

## Neovim (0.11+)

Attach only to `.md` files under the temp dir, never to ordinary Markdown:

```lua
vim.lsp.config("promptls", {
  cmd = { "promptls" },
  filetypes = { "markdown" },
  -- Attach only to temp-dir .md files (the Ctrl+G buffers), not ordinary Markdown.
  root_dir = function(bufnr, on_dir)
    local name = vim.api.nvim_buf_get_name(bufnr)
    if not name:match("%.md$") then return end
    -- Both CLIs use $TMPDIR if set, else /tmp (Node os.tmpdir / Rust temp_dir).
    -- Compare realpaths too: on macOS /tmp is a symlink to /private/tmp.
    local tmpdir = (os.getenv("TMPDIR") or "/tmp"):gsub("/*$", "/")
    local real_tmpdir = (vim.uv.fs_realpath(tmpdir) or tmpdir):gsub("/*$", "/")
    local real_name = vim.uv.fs_realpath(name) or name
    if vim.startswith(name, tmpdir) or vim.startswith(real_name, real_tmpdir) then
      on_dir(vim.fn.getcwd())
    end
  end,
})
vim.lsp.enable("promptls")
```

## Keeping the CLI output visible while editing

`promptls setup --install-wrapper` installs `nvim-code`, which opens Neovim in a tmux
side pane and blocks until it closes. Route the CLIs through it, here one that is run
as `my-cli`, and Codex:

```sh
alias my-cli='VISUAL=nvim-code EDITOR=nvim-code my-cli'
alias codex='VISUAL=nvim-code EDITOR=nvim-code codex'
```

## Layout

`src/` is the library, verified with [Verus](https://github.com/verus-lang/verus):

- `refs` finds `@path` references and the token being typed, and `prose` states what
  the text around them does to them;
- `text` converts between byte offsets and LSP positions (UTF-16 columns);
- `index`, `limits` and `rank` hold the indexed paths and search them;
- `server` is the state of the server and its answers;
- `hover`, `stats`, `format` and `partial` make hover bodies;
- `root`, `path` and `setup` decide the project root and install the wrapper;
- `chars` and `seqs` are the texts and sequences underneath.

The contracts of the library speak of texts as sequences of characters. What holds of
several functions together stands in the proof functions whose names start with
`law_`. Scores come from `nucleo-matcher`: the library names its result and proves
everything around it.

`app/` is the program: arguments, the LSP protocol, files and processes. `tests/`
runs the library.
