//! First-run setup: whether it was completed, and the Startup shortcut that
//! starts LiClone in the tray at login.

use vstd::prelude::*;

use crate::text::{chars_of, concat, double_single_quotes, escape_single_quotes, push_str, trim, trim_str};

verus! {

broadcast use vstd::string::group_string_axioms;

/// Whether setup was completed, and whether LiClone starts at login.
#[derive(Debug, Clone, Copy, PartialEq, Eq)]
pub struct SetupState {
    pub completed: bool,
    pub autostart: bool,
}

/// The setup state from the saved setup record (its `completed` flag,
/// `None` when there is no readable record) and whether the Startup
/// shortcut exists.
pub fn status(saved_completed: Option<bool>, link_exists: bool) -> (r: SetupState)
    ensures
        r.completed == (saved_completed == Some(true)),
        r.autostart == link_exists,
{
    let completed = match saved_completed {
        Some(c) => c,
        None => false,
    };
    SetupState { completed, autostart: link_exists }
}

/// Whether the Startup shortcut is written again when LiClone starts: when
/// it exists, so that it points at the running executable.
pub fn refresh_tray_launch(link_exists: bool) -> (r: bool)
    ensures
        r == link_exists,
{
    link_exists
}

/// The PowerShell script that writes the Startup shortcut `link` to start
/// `exe --tray` minimized in `work`.
pub open spec fn shortcut_spec(link: Seq<char>, exe: Seq<char>, work: Seq<char>) -> Seq<char> {
    "$s = (New-Object -ComObject WScript.Shell).CreateShortcut('"@ + double_single_quotes(link)
        + "'); $s.TargetPath = '"@ + double_single_quotes(exe) + "'; $s.Arguments = '--tray'; $s.WorkingDirectory = '"@
        + double_single_quotes(work)
        + "'; $s.WindowStyle = 7; $s.Description = 'Wroom LiClone'; $s.Save()"@
}

/// The script that writes the Startup shortcut.
pub fn shortcut_script(link: &str, exe: &str, work: &str) -> (r: String)
    ensures
        r@ == shortcut_spec(link@, exe@, work@),
{
    let mut s = concat("$s = (New-Object -ComObject WScript.Shell).CreateShortcut('", escape_single_quotes(link).as_str());
    push_str(&mut s, "'); $s.TargetPath = '");
    push_str(&mut s, escape_single_quotes(exe).as_str());
    push_str(&mut s, "'; $s.Arguments = '--tray'; $s.WorkingDirectory = '");
    push_str(&mut s, escape_single_quotes(work).as_str());
    push_str(&mut s, "'; $s.WindowStyle = 7; $s.Description = 'Wroom LiClone'; $s.Save()");
    s
}

/// The outcome of writing the Startup shortcut: it worked when the script
/// succeeded and the shortcut is there; else what the script reported.
pub fn shortcut_outcome(success: bool, link_exists: bool, stderr: &str) -> (r: Result<(), String>)
    ensures
        success && link_exists ==> r is Ok,
        !(success && link_exists) ==> (r matches Err(e) && e@ == if trim(stderr@).len() == 0 {
            "Could not add LiClone to startup."@
        } else {
            trim(stderr@)
        }),
{
    if success && link_exists {
        return Ok(());
    }
    let e = trim_str(stderr);
    if chars_of(e.as_str()).len() == 0 {
        Err("Could not add LiClone to startup.".to_string())
    } else {
        Err(e)
    }
}

} // verus!
