//! The post-install guide and the wrapper.

use promptls::setup::{
    aliases, default_bin_dir, guide, install_wrapper, installed_notice, run_setup, wrapper_path,
    InstallAction, Installed, NoHome, SetupStep, NVIM_CONFIG, WRAPPER, WRAPPER_NAME,
};

/// The configuration and the aliases as README.md shows them.
const DOCUMENTED: &str = r#"
```lua
vim.lsp.config("promptls", {
  cmd = { "promptls" },
  filetypes = { "markdown" },
  -- Attach only to temp-dir .md files (the Ctrl+G buffers), not ordinary Markdown.
  root_dir = function(bufnr, on_dir)
    local name = vim.api.nvim_buf_get_name(bufnr)
    if not name:match("%.md$") then return end
    -- Both CLIs use $TMPDIR if set, else /tmp (Node os.tmpdir / Rust temp_dir).
    -- Compare realpaths too: on macOS /tmp is a symlink to /private/tmp.
    local tmpdir = (os.getenv("TMPDIR") or "/tmp"):gsub("/*$", "/")
    local real_tmpdir = (vim.uv.fs_realpath(tmpdir) or tmpdir):gsub("/*$", "/")
    local real_name = vim.uv.fs_realpath(name) or name
    if vim.startswith(name, tmpdir) or vim.startswith(real_name, real_tmpdir) then
      on_dir(vim.fn.getcwd())
    end
  end,
})
vim.lsp.enable("promptls")
```

```sh
alias my-cli='VISUAL=nvim-code EDITOR=nvim-code my-cli'
alias codex='VISUAL=nvim-code EDITOR=nvim-code codex'
```
"#;

#[test]
fn wrapper_basename_satisfies_claude_code_gui_check() {
    assert!(WRAPPER_NAME.contains("code"));
    assert!(WRAPPER.starts_with("#!/usr/bin/env bash"));
}

#[test]
fn readme_matches_embedded_snippets() {
    assert!(DOCUMENTED.contains(NVIM_CONFIG.trim_end()), "nvim snippet drifted");
    assert_eq!(aliases("my-cli").lines().count(), 2);
    for line in aliases("my-cli").lines() {
        assert!(DOCUMENTED.contains(line), "missing alias line: {line}");
    }
}

#[test]
fn install_is_idempotent_and_refuses_to_clobber() {
    // Nothing there: the wrapper is written.
    assert_eq!(install_wrapper(&Installed::Nothing, false), InstallAction::Write);
    assert_eq!(install_wrapper(&Installed::Nothing, true), InstallAction::Write);
    // Same content again: no-op.
    let same = Installed::File(WRAPPER.as_bytes().to_vec(), true);
    assert_eq!(install_wrapper(&same, false), InstallAction::Keep);
    assert_eq!(install_wrapper(&same, true), InstallAction::Keep);
    // Same content, but not executable: the exec bits are set.
    let plain = Installed::File(WRAPPER.as_bytes().to_vec(), false);
    assert_eq!(install_wrapper(&plain, false), InstallAction::MarkExecutable);
    assert_eq!(install_wrapper(&plain, true), InstallAction::MarkExecutable);
    // Differing content: refused without --force, replaced with it.
    let patched = Installed::File(b"patched".to_vec(), true);
    assert_eq!(install_wrapper(&patched, false), InstallAction::Refuse);
    assert_eq!(install_wrapper(&patched, true), InstallAction::Write);
    // So is content that is not text.
    let binary = Installed::File(vec![0xff, 0xfe], false);
    assert_eq!(install_wrapper(&binary, false), InstallAction::Refuse);
    assert_eq!(install_wrapper(&binary, true), InstallAction::Write);
    // Not readable: reported.
    assert_eq!(install_wrapper(&Installed::Unreadable, false), InstallAction::Fail);
    assert_eq!(install_wrapper(&Installed::Unreadable, true), InstallAction::Fail);
}

#[test]
fn wrapper_locations() {
    assert_eq!(wrapper_path(b"/opt/bin"), b"/opt/bin/nvim-code".to_vec());
    assert_eq!(wrapper_path(b"/opt/bin/"), b"/opt/bin/nvim-code".to_vec());
    assert_eq!(wrapper_path(b""), b"nvim-code".to_vec());
    assert_eq!(default_bin_dir(Some(b"/home/me".to_vec())), Ok(b"/home/me/.local/bin".to_vec()));
    assert_eq!(default_bin_dir(None), Err(NoHome));
}

#[test]
fn setup_steps() {
    assert!(matches!(run_setup(None, None), Ok(SetupStep::ShowGuide)));
    match run_setup(Some(Some(b"/d".to_vec())), None) {
        Ok(SetupStep::Install(dir)) => assert_eq!(dir, b"/d".to_vec()),
        other => panic!("{other:?}"),
    }
    match run_setup(Some(None), Some(b"/home/me".to_vec())) {
        Ok(SetupStep::Install(dir)) => assert_eq!(dir, b"/home/me/.local/bin".to_vec()),
        other => panic!("{other:?}"),
    }
    assert!(run_setup(Some(None), None).is_err());
}

#[test]
fn guide_and_notice_text() {
    let g = guide("Some CLI", "some-cli");
    assert!(g.starts_with("# promptls setup\n\n## 1. Neovim (0.11+) — add to init.lua\n\nvim.lsp"));
    assert!(g.contains(&format!("{NVIM_CONFIG}## 2. Keep the CLI output visible")));
    assert!(g.contains("    promptls setup --install-wrapper          # -> ~/.local/bin/nvim-code\n"));
    assert!(g.contains("    promptls setup --install-wrapper DIR      # -> DIR/nvim-code\n\nThen"));
    assert!(g.contains(
        "\n\nalias some-cli='VISUAL=nvim-code EDITOR=nvim-code some-cli'\n\
         alias codex='VISUAL=nvim-code EDITOR=nvim-code codex'\n\n\
         The name must contain \"code\": Some CLI only skips the alternate screen\n\
         when the editor's basename contains a GUI-editor name.\n\n## 3. Try it\n\n\
         Ctrl+G in Some CLI / Codex, type `@src/co`, get completion; `K` hover,\n"
    ));
    assert!(g.ends_with("`gd` jump. `RUST_LOG=debug promptls --root .` if something looks off.\n"));
    assert_eq!(
        installed_notice("/d/nvim-code", "codex"),
        "installed /d/nvim-code\n\nNow add to your shell rc:\n\n\
         alias codex='VISUAL=nvim-code EDITOR=nvim-code codex'\n\
         alias codex='VISUAL=nvim-code EDITOR=nvim-code codex'\n\n"
    );
}
