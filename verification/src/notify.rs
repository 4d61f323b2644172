//! Desktop notifications: the command each platform's notifier is run
//! with.  Nothing here runs it.

use crate::config::Platform;
use crate::escape::{escape_applescript, escape_powershell, escaped_applescript, escaped_powershell};
use vstd::prelude::*;

verus! {

/// The name notifications are sent under.
pub const APP_NAME: &'static str = "MediaOrganizer";

/// The AppleScript that shows a notification.
pub open spec fn applescript_text(title: Seq<char>, message: Seq<char>) -> Seq<char> {
    "display notification \""@ + escaped_applescript(message) + "\" with title \""@
        + escaped_applescript(title) + "\""@
}

/// The PowerShell script that shows a balloon tip for 4 s.
pub open spec fn powershell_text(title: Seq<char>, message: Seq<char>) -> Seq<char> {
    "Add-Type -AssemblyName System.Windows.Forms; $n=New-Object System.Windows.Forms.NotifyIcon; $n.Icon=[System.Drawing.SystemIcons]::Information; $n.Visible=$true; $n.ShowBalloonTip(4000,'"@
        + escaped_powershell(title) + "','"@ + escaped_powershell(message)
        + "',[System.Windows.Forms.ToolTipIcon]::Info); Start-Sleep -Milliseconds 4500; $n.Dispose()"@
}

/// The program and arguments that show a notification on a platform: none
/// on platforms without a notifier.
pub open spec fn notify_spec(platform: Platform, title: Seq<char>, message: Seq<char>) -> Option<
    (Seq<char>, Seq<Seq<char>>),
> {
    match platform {
        Platform::Linux => Some(
            ("notify-send"@, seq!["--app-name"@, APP_NAME@, title, message]),
        ),
        Platform::MacOs => Some(("osascript"@, seq!["-e"@, applescript_text(title, message)])),
        Platform::Windows => Some(
            (
                "powershell"@,
                seq![
                    "-NoProfile"@,
                    "-WindowStyle"@,
                    "Hidden"@,
                    "-Command"@,
                    powershell_text(title, message),
                ],
            ),
        ),
        Platform::Other => None,
    }
}

/// The views of a list of strings.
pub open spec fn views(v: Seq<String>) -> Seq<Seq<char>> {
    v.map_values(|s: String| s@)
}

fn owned(s: &str) -> (r: String)
    ensures
        r@ == s@,
{
    s.to_owned()
}

/// The command that shows a desktop notification with `title` and
/// `message` on `platform`.
pub fn notify_command(platform: Platform, title: &str, message: &str) -> (r: Option<
    (String, Vec<String>),
>)
    ensures
        match r {
            Some((prog, args)) => notify_spec(platform, title@, message@) == Some(
                (prog@, views(args@)),
            ),
            None => notify_spec(platform, title@, message@) is None,
        },
{
    match platform {
        Platform::Linux => {
            let mut args: Vec<String> = Vec::new();
            args.push(owned("--app-name"));
            args.push(owned(APP_NAME));
            args.push(owned(title));
            args.push(owned(message));
            proof {
                assert(views(args@) =~= seq!["--app-name"@, APP_NAME@, title@, message@]);
            }
            Some((owned("notify-send"), args))
        },
        Platform::MacOs => {
            let mut script = String::new();
            script.append("display notification \"");
            script.append(escape_applescript(message).as_str());
            script.append("\" with title \"");
            script.append(escape_applescript(title).as_str());
            script.append("\"");
            let mut args: Vec<String> = Vec::new();
            args.push(owned("-e"));
            args.push(script);
            proof {
                assert(args@[1]@ =~= applescript_text(title@, message@));
                assert(views(args@) =~= seq!["-e"@, applescript_text(title@, message@)]);
            }
            Some((owned("osascript"), args))
        },
        Platform::Windows => {
            let mut script = String::new();
            script.append(
                "Add-Type -AssemblyName System.Windows.Forms; $n=New-Object System.Windows.Forms.NotifyIcon; $n.Icon=[System.Drawing.SystemIcons]::Information; $n.Visible=$true; $n.ShowBalloonTip(4000,'",
            );
            script.append(escape_powershell(title).as_str());
            script.append("','");
            script.append(escape_powershell(message).as_str());
            script.append(
                "',[System.Windows.Forms.ToolTipIcon]::Info); Start-Sleep -Milliseconds 4500; $n.Dispose()",
            );
            let mut args: Vec<String> = Vec::new();
            args.push(owned("-NoProfile"));
            args.push(owned("-WindowStyle"));
            args.push(owned("Hidden"));
            args.push(owned("-Command"));
            args.push(script);
            proof {
                assert(args@[4]@ =~= powershell_text(title@, message@));
                assert(views(args@) =~= seq![
                    "-NoProfile"@,
                    "-WindowStyle"@,
                    "Hidden"@,
                    "-Command"@,
                    powershell_text(title@, message@),
                ]);
            }
            Some((owned("powershell"), args))
        },
        Platform::Other => None,
    }
}

} // verus!
