use vstd::prelude::*;
use vstd::string::StringExecFns;

use crate::text::{decimal_text, u64_decimal};

verus! {

/// Seconds after which a copied secret is cleared from the clipboard.
pub const CLEAR_DELAY_DEFAULT: u64 = 15;

/// The program that reaches the clipboard.
#[derive(Clone, Copy, Debug, PartialEq, Eq, Structural)]
pub enum ClipboardBackend {
    WlCopy,
    Xclip,
}

/// The program and arguments that copy standard input to the clipboard.
pub fn copy_command(backend: ClipboardBackend) -> (r: Vec<&'static str>)
    ensures
        backend == ClipboardBackend::WlCopy ==> r@.len() == 1 && r@[0]@ == "wl-copy"@,
        backend == ClipboardBackend::Xclip ==> r@.len() == 3 && r@[0]@ == "xclip"@ && r@[1]@
            == "-selection"@ && r@[2]@ == "clipboard"@,
{
    match backend {
        ClipboardBackend::WlCopy => vec!["wl-copy"],
        ClipboardBackend::Xclip => vec!["xclip", "-selection", "clipboard"],
    }
}

/// The shell line that waits `delay` seconds and then clears the clipboard.
pub open spec fn clear_line(backend: ClipboardBackend, delay: nat) -> Seq<char> {
    match backend {
        ClipboardBackend::WlCopy => "sleep "@ + decimal_text(delay) + "; wl-copy --clear"@,
        ClipboardBackend::Xclip => "sleep "@ + decimal_text(delay) + "; echo -n | xclip -selection clipboard"@,
    }
}

/// The shell line that clears the clipboard after the default delay.
pub fn clear_command(backend: ClipboardBackend) -> (r: String)
    ensures
        r@ == clear_line(backend, CLEAR_DELAY_DEFAULT as nat),
{
    let mut s = String::from_str("sleep ");
    let delay = u64_decimal(CLEAR_DELAY_DEFAULT);
    s.append(delay.as_str());
    match backend {
        ClipboardBackend::WlCopy => s.append("; wl-copy --clear"),
        ClipboardBackend::Xclip => s.append("; echo -n | xclip -selection clipboard"),
    }
    s
}

/// The backend that the session calls for: `wl-copy` under Wayland;
/// otherwise none is fixed and one is looked for.
pub fn backend_for_session(wayland: bool) -> (r: Option<ClipboardBackend>)
    ensures
        wayland ==> r == Some(ClipboardBackend::WlCopy),
        !wayland ==> r == None::<ClipboardBackend>,
{
    if wayland {
        Some(ClipboardBackend::WlCopy)
    } else {
        None
    }
}

} // verus!
