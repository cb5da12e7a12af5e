//! Setup: what is installed, and what is printed.

use crate::setup::{
    alias_line, aliases_text, guide_text, install_action, notice_text, InstallAction, Installed,
    GUIDE_ALIASES, GUIDE_HEAD, GUIDE_NAME, GUIDE_TAIL, GUIDE_TRY, GUIDE_WRAPPER, GUIDE_WRAPPER_DIR,
    NVIM_CONFIG, WRAPPER, WRAPPER_NAME,
};
use vstd::prelude::*;
use vstd::string::*;
use vstd::utf8::*;

verus! {

/// The wrapper is written where nothing is, and over another file only if that is forced;
/// it is kept where it is already, and made executable if it is not; and what cannot be
/// read is left alone, forced or not.
pub proof fn law_what_is_installed(bytes: Vec<u8>, executable: bool, force: bool)
    ensures
        install_action(Installed::Nothing, force) == InstallAction::Write,
        install_action(Installed::Unreadable, force) == InstallAction::Fail,
        bytes@ == encode_utf8(WRAPPER@) && executable ==> install_action(
            Installed::File(bytes, executable),
            force,
        ) == InstallAction::Keep,
        bytes@ == encode_utf8(WRAPPER@) && !executable ==> install_action(
            Installed::File(bytes, executable),
            force,
        ) == InstallAction::MarkExecutable,
        bytes@ != encode_utf8(WRAPPER@) && force ==> install_action(
            Installed::File(bytes, executable),
            force,
        ) == InstallAction::Write,
        bytes@ != encode_utf8(WRAPPER@) && !force ==> install_action(
            Installed::File(bytes, executable),
            force,
        ) == InstallAction::Refuse,
{
}

/// Each alias runs the command under its own name, with the wrapper as its editor.
pub proof fn law_what_aliases_say(command: Seq<char>)
    ensures
        alias_line(command) == "alias "@ + command + "='VISUAL=nvim-code EDITOR=nvim-code "@ + command
            + "'\n"@,
        aliases_text(command) == alias_line(command) + alias_line("codex"@),
        WRAPPER_NAME@ == "nvim-code"@,
{
}

/// The guide holds the editor configuration, then tells how to install the wrapper, then
/// gives the aliases, and names the CLI twice.
pub proof fn law_what_the_guide_says(name: Seq<char>, command: Seq<char>)
    ensures
        guide_text(name, command) == GUIDE_HEAD@ + NVIM_CONFIG@ + GUIDE_WRAPPER@ + "nvim-code"@
            + GUIDE_WRAPPER_DIR@ + "nvim-code"@ + GUIDE_ALIASES@ + alias_line(command) + alias_line(
            "codex"@,
        ) + GUIDE_NAME@ + name + GUIDE_TRY@ + name + GUIDE_TAIL@,
{
    assert(guide_text(name, command) =~= GUIDE_HEAD@ + NVIM_CONFIG@ + GUIDE_WRAPPER@ + "nvim-code"@
        + GUIDE_WRAPPER_DIR@ + "nvim-code"@ + GUIDE_ALIASES@ + alias_line(command) + alias_line(
        "codex"@,
    ) + GUIDE_NAME@ + name + GUIDE_TRY@ + name + GUIDE_TAIL@);
}

/// Once the wrapper is installed, its place and the aliases are printed.
pub proof fn law_what_the_notice_says(dest: Seq<char>, command: Seq<char>)
    ensures
        notice_text(dest, command) == "installed "@ + dest + "\n\nNow add to your shell rc:\n\n"@
            + alias_line(command) + alias_line("codex"@) + "\n"@,
{
    assert(notice_text(dest, command) =~= "installed "@ + dest
        + "\n\nNow add to your shell rc:\n\n"@ + alias_line(command) + alias_line("codex"@) + "\n"@);
}

} // verus!
