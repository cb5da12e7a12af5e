//! `promptls setup` — the post-install guide.
//!
//! `cargo install` cannot run hooks or print anything beyond "Installed
//! package", so the editor wiring (Neovim config, the tmux side-pane wrapper
//! and the shell aliases that select it) is delivered as a subcommand instead.

use crate::path::{join, joined, same_bytes};
use vstd::prelude::*;
use vstd::string::*;
use vstd::utf8::*;

verus! {

/// Neovim 0.11+ config that attaches promptls only to temp-dir `.md` buffers.
pub const NVIM_CONFIG: &'static str = "vim.lsp.config(\"promptls\", {
  cmd = { \"promptls\" },
  filetypes = { \"markdown\" },
  -- Attach only to temp-dir .md files (the Ctrl+G buffers), not ordinary Markdown.
  root_dir = function(bufnr, on_dir)
    local name = vim.api.nvim_buf_get_name(bufnr)
    if not name:match(\"%.md$\") then return end
    -- Both CLIs use $TMPDIR if set, else /tmp (Node os.tmpdir / Rust temp_dir).
    -- Compare realpaths too: on macOS /tmp is a symlink to /private/tmp.
    local tmpdir = (os.getenv(\"TMPDIR\") or \"/tmp\"):gsub(\"/*$\", \"/\")
    local real_tmpdir = (vim.uv.fs_realpath(tmpdir) or tmpdir):gsub(\"/*$\", \"/\")
    local real_name = vim.uv.fs_realpath(name) or name
    if vim.startswith(name, tmpdir) or vim.startswith(real_name, real_tmpdir) then
      on_dir(vim.fn.getcwd())
    end
  end,
})
vim.lsp.enable(\"promptls\")
";

/// `$VISUAL`/`$EDITOR` wrapper: Neovim in a tmux side pane, blocking until it
/// closes. Its basename must contain a GUI-editor name (here `code`) — that is
/// the only signal that the calling CLI uses to decide *not* to take over the screen.
pub const WRAPPER: &'static str = "#!/usr/bin/env bash
# Neovim in a tmux side pane, blocking until it closes; plain nvim outside tmux.
set -euo pipefail

if [ -z \"${TMUX:-}\" ]; then
    exec nvim \"$@\"
fi

channel=\"nvim-code-$$\"
tmux split-window -h -c \"$PWD\" \"$(printf '%q ' nvim \"$@\"); tmux wait-for -S $channel\"
tmux wait-for \"$channel\"
";

pub const WRAPPER_NAME: &'static str = "nvim-code";

/// The guide up to the editor configuration.
pub const GUIDE_HEAD: &'static str = "# promptls setup

## 1. Neovim (0.11+) — add to init.lua

";

/// The guide between the configuration and the first mention of the wrapper.
pub const GUIDE_WRAPPER: &'static str = "## 2. Keep the CLI output visible while editing (optional, tmux)

Install the bundled wrapper (Neovim in a tmux side pane; plain nvim outside tmux):

    promptls setup --install-wrapper          # -> ~/.local/bin/";

/// The guide between the two mentions of the wrapper.
pub const GUIDE_WRAPPER_DIR: &'static str = "
    promptls setup --install-wrapper DIR      # -> DIR/";

/// The guide between the wrapper and the aliases.
pub const GUIDE_ALIASES: &'static str = "

Then route the AI CLIs through it (add to ~/.zshrc / ~/.bashrc):

";

/// The guide between the aliases and the first mention of the CLI.
pub const GUIDE_NAME: &'static str = "
The name must contain \"code\": ";

/// The guide between the two mentions of the CLI.
pub const GUIDE_TRY: &'static str = " only skips the alternate screen
when the editor's basename contains a GUI-editor name.

## 3. Try it

Ctrl+G in ";

/// The guide after the last mention of the CLI.
pub const GUIDE_TAIL: &'static str = " / Codex, type `@src/co`, get completion; `K` hover,
`gd` jump. `RUST_LOG=debug promptls --root .` if something looks off.
";

/// The alias that routes a command through the wrapper.
pub open spec fn alias_line(command: Seq<char>) -> Seq<char> {
    "alias "@ + command + "='VISUAL=nvim-code EDITOR=nvim-code "@ + command + "'\n"@
}

/// The aliases for the CLI with the given command, and for Codex.
pub open spec fn aliases_text(command: Seq<char>) -> Seq<char> {
    alias_line(command) + alias_line("codex"@)
}

/// The text of the guide, for a CLI that is called `name` and run as `command`.
pub open spec fn guide_text(name: Seq<char>, command: Seq<char>) -> Seq<char> {
    GUIDE_HEAD@ + NVIM_CONFIG@ + GUIDE_WRAPPER@ + WRAPPER_NAME@ + GUIDE_WRAPPER_DIR@ + WRAPPER_NAME@
        + GUIDE_ALIASES@ + aliases_text(command) + GUIDE_NAME@ + name + GUIDE_TRY@ + name
        + GUIDE_TAIL@
}

/// Appends the alias that routes a command through the wrapper.
fn append_alias(text: &mut String, command: &str)
    ensures
        final(text)@ == old(text)@ + alias_line(command@),
{
    let ghost before = text@;
    text.append("alias ");
    text.append(command);
    text.append("='VISUAL=nvim-code EDITOR=nvim-code ");
    text.append(command);
    text.append("'\n");
    assert(text@ =~= before + alias_line(command@));
}

/// Shell aliases that route only the AI CLIs through the wrapper, leaving
/// `$EDITOR` for git etc. untouched.
pub fn aliases(command: &str) -> (text: String)
    ensures
        text@ == aliases_text(command@),
{
    let mut text = String::new();
    append_alias(&mut text, command);
    append_alias(&mut text, "codex");
    assert(text@ =~= aliases_text(command@));
    text
}

/// The full guide as printed by `promptls setup`, for a CLI that is called `name`
/// and run as `command`.
pub fn guide(name: &str, command: &str) -> (g: String)
    ensures
        g@ == guide_text(name@, command@),
{
    let mut g = String::new();
    g.append(GUIDE_HEAD);
    g.append(NVIM_CONFIG);
    g.append(GUIDE_WRAPPER);
    g.append(WRAPPER_NAME);
    g.append(GUIDE_WRAPPER_DIR);
    g.append(WRAPPER_NAME);
    g.append(GUIDE_ALIASES);
    g.append(aliases(command).as_str());
    g.append(GUIDE_NAME);
    g.append(name);
    g.append(GUIDE_TRY);
    g.append(name);
    g.append(GUIDE_TAIL);
    assert(g@ =~= guide_text(name@, command@));
    g
}

/// What stands where the wrapper is to be installed.
#[derive(Debug)]
pub enum Installed {
    /// Nothing is there.
    Nothing,
    /// A file with these bytes is there, text or not, and whether its exec bits are set.
    File(Vec<u8>, bool),
    /// Something is there, but it cannot be read.
    Unreadable,
}

/// What to do about the wrapper.
#[derive(Debug, Clone, Copy, PartialEq, Eq)]
pub enum InstallAction {
    /// The wrapper is installed already.
    Keep,
    /// The wrapper is there, but not executable: set its exec bits.
    MarkExecutable,
    /// Create the directory, write the wrapper and set its exec bits.
    Write,
    /// Another file is there; it takes `--force` to overwrite it.
    Refuse,
    /// Report that what is there cannot be read.
    Fail,
}

/// What to do about the wrapper, given what stands in its place.
pub open spec fn install_action(existing: Installed, force: bool) -> InstallAction {
    match existing {
        Installed::Nothing => InstallAction::Write,
        Installed::File(bytes, executable) => if bytes@ == encode_utf8(WRAPPER@) {
            if executable {
                InstallAction::Keep
            } else {
                InstallAction::MarkExecutable
            }
        } else if force {
            InstallAction::Write
        } else {
            InstallAction::Refuse
        },
        Installed::Unreadable => InstallAction::Fail,
    }
}

/// Whether to write the wrapper. Refuses to clobber a differing file unless
/// `force`, so a locally patched copy is never silently replaced.
pub fn install_wrapper(existing: &Installed, force: bool) -> (a: InstallAction)
    ensures
        a == install_action(*existing, force),
{
    match existing {
        Installed::Nothing => InstallAction::Write,
        Installed::File(bytes, executable) => {
            if same_bytes(bytes.as_slice(), WRAPPER.as_bytes()) {
                if *executable {
                    InstallAction::Keep
                } else {
                    InstallAction::MarkExecutable
                }
            } else if force {
                InstallAction::Write
            } else {
                InstallAction::Refuse
            }
        },
        Installed::Unreadable => InstallAction::Fail,
    }
}

/// The file of the wrapper in the directory `dir`.
pub fn wrapper_path(dir: &[u8]) -> (dest: Vec<u8>)
    ensures
        dest@ == joined(dir@, encode_utf8(WRAPPER_NAME@)),
{
    join(dir, WRAPPER_NAME.as_bytes())
}

/// `$HOME` is not set, so there is no default directory for the wrapper.
#[derive(Debug, Clone, Copy, PartialEq, Eq)]
pub struct NoHome;

/// Default wrapper location: `$HOME/.local/bin`, which is on PATH on most
/// Linux/macOS setups (same place `cargo install` users typically already have).
pub fn default_bin_dir(home: Option<Vec<u8>>) -> (r: Result<Vec<u8>, NoHome>)
    ensures
        match home {
            Some(h) => r matches Ok(dir) && dir@ == joined(h@, encode_utf8(".local/bin"@)),
            None => r is Err,
        },
{
    match home {
        Some(h) => Ok(join(h.as_slice(), ".local/bin".as_bytes())),
        None => Err(NoHome),
    }
}

/// What `promptls setup` does.
#[derive(Debug)]
pub enum SetupStep {
    /// Print the guide.
    ShowGuide,
    /// Install the wrapper into a directory.
    Install(Vec<u8>),
}

/// `promptls setup [--install-wrapper [DIR]]`: without the flag, the guide is
/// shown; with it, the wrapper goes to the directory that it names, or to the
/// default one.
pub fn run_setup(install_wrapper: Option<Option<Vec<u8>>>, home: Option<Vec<u8>>) -> (r: Result<
    SetupStep,
    NoHome,
>)
    ensures
        match install_wrapper {
            None => r matches Ok(SetupStep::ShowGuide),
            Some(Some(named)) => r matches Ok(SetupStep::Install(dir)) && dir@ == named@,
            Some(None) => match home {
                Some(h) => r matches Ok(SetupStep::Install(dir)) && dir@ == joined(
                    h@,
                    encode_utf8(".local/bin"@),
                ),
                None => r is Err,
            },
        },
{
    match install_wrapper {
        None => Ok(SetupStep::ShowGuide),
        Some(Some(dir)) => Ok(SetupStep::Install(dir)),
        // Flag given without a value: use the default location.
        Some(None) => match default_bin_dir(home) {
            Ok(dir) => Ok(SetupStep::Install(dir)),
            Err(e) => Err(e),
        },
    }
}

/// What is printed once the wrapper is installed at `dest`.
pub open spec fn notice_text(dest: Seq<char>, command: Seq<char>) -> Seq<char> {
    "installed "@ + dest + "\n\nNow add to your shell rc:\n\n"@ + aliases_text(command) + "\n"@
}

/// What is printed once the wrapper is installed at `dest`.
pub fn installed_notice(dest: &str, command: &str) -> (s: String)
    ensures
        s@ == notice_text(dest@, command@),
{
    let mut s = String::new();
    s.append("installed ");
    s.append(dest);
    s.append("\n\nNow add to your shell rc:\n\n");
    s.append(aliases(command).as_str());
    s.append("\n");
    assert(s@ =~= notice_text(dest@, command@));
    s
}

/// What stands in place of the wrapper once an action was carried out.
pub open spec fn installed_after(existing: Installed, action: InstallAction) -> (Seq<u8>, bool) {
    match action {
        InstallAction::Write => (encode_utf8(WRAPPER@), true),
        _ => match existing {
            Installed::File(bytes, executable) => (
                bytes@,
                executable || action == InstallAction::MarkExecutable,
            ),
            _ => (Seq::empty(), false),
        },
    }
}

/// Unless it is refused or fails, installing leaves the wrapper there, with its exec bits
/// set.
pub proof fn law_install_leaves_the_wrapper(existing: Installed, force: bool)
    requires
        install_action(existing, force) != InstallAction::Refuse,
        install_action(existing, force) != InstallAction::Fail,
    ensures
        installed_after(existing, install_action(existing, force)) == (encode_utf8(WRAPPER@), true),
{
}

/// Installing is idempotent: once the wrapper is there and executable, it is kept, with
/// or without `force`.
pub proof fn law_install_is_idempotent(existing: Installed, force: bool)
    requires
        existing matches Installed::File(bytes, executable) && bytes@ == encode_utf8(WRAPPER@)
            && executable,
    ensures
        install_action(existing, force) == InstallAction::Keep,
{
}

/// A file that differs from the wrapper, text or not, is refused without `force` and
/// replaced with it.
pub proof fn law_differing_file_takes_force(existing: Installed, force: bool)
    requires
        existing matches Installed::File(bytes, _) && bytes@ != encode_utf8(WRAPPER@),
    ensures
        install_action(existing, force) == (if force {
            InstallAction::Write
        } else {
            InstallAction::Refuse
        }),
{
}

/// Nothing that is there is ever overwritten without `force`.
pub proof fn law_install_never_clobbers(existing: Installed)
    requires
        !(existing is Nothing),
    ensures
        install_action(existing, false) != InstallAction::Write,
{
}

} // verus!
