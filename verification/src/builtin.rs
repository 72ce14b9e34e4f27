//! The capability database that ships with the library.

use crate::capdb::lines_text;
use vstd::prelude::*;

verus! {

/// The database used when no other is given, line by line.
///
/// `[id]` starts a capability; an id has letters, digits and dashes. `title` is one
/// line for reports. `rationale` says why the capability matters and how noisy the
/// signal is. `symbols` are imported functions that show it, `strings` are read-only
/// strings that show it on their own. A line that starts with a blank continues the
/// key above it. A symbol or a string belongs to one capability only.
pub const BUILTIN: [&'static str; 124] = [
    "[selection-read]",
    "title = Reads clipboard or primary-selection contents",
    "rationale = On X11 any client can ask the owner of a selection for its contents at any \
        time and without the user noticing, so passwords and private messages that were copied \
        are readable in the background. Every toolkit needs these calls to paste, which makes \
        the signal noisy; what counts is which component asks.",
    "symbols =",
    "  XConvertSelection",
    "  xcb_convert_selection",
    "  xcb_convert_selection_checked",
    "  xcb_icccm_get_text_property",
    "  gtk_clipboard_request_contents",
    "  gtk_clipboard_request_text",
    "  gtk_clipboard_wait_for_contents",
    "  gtk_clipboard_wait_for_text",
    "  gdk_clipboard_read_text_async",
    "  gdk_clipboard_read_async",
    "  SDL_GetClipboardText",
    "  glfwGetClipboardString",
    "[selection-watch]",
    "title = Gets notified whenever any application changes the clipboard",
    "rationale = XFixes sends an event each time a selection gets a new owner, in whatever \
        application the user copied something. Together with reading the selection this is all \
        that a clipboard logger needs. Clipboard managers and some toolkits use it as well, so \
        look at who imports it.",
    "symbols =",
    "  XFixesSelectSelectionInput",
    "  XFixesSelectSelectionNotify",
    "  xcb_xfixes_select_selection_input",
    "  xcb_xfixes_select_selection_input_checked",
    "  xcb_xfixes_select_selection_notify",
    "[screen-capture]",
    "title = Reads pixels of the screen or of other windows",
    "rationale = Reading an image from the root window or from a redirected window shows \
        whatever is on the display, including windows of other applications. Drawing code \
        sometimes reads back its own pixmaps through the same calls, so a hit in a rendering \
        library alone is weak.",
    "symbols =",
    "  XGetImage",
    "  XGetSubImage",
    "  XShmGetImage",
    "  xcb_get_image",
    "  xcb_get_image_unchecked",
    "  xcb_shm_get_image",
    "  xcb_shm_get_image_unchecked",
    "  XCompositeNameWindowPixmap",
    "  XCompositeRedirectWindow",
    "  XCompositeRedirectSubwindows",
    "  xcb_composite_name_window_pixmap",
    "  xcb_composite_redirect_window",
    "  xcb_composite_redirect_subwindows",
    "  gdk_pixbuf_get_from_window",
    "[screen-change-tracking]",
    "title = Tracks which parts of the screen change",
    "rationale = The Damage extension reports every region that is redrawn, on the whole \
        screen if asked, which is how screen recorders know when to grab the next frame. It \
        carries no pixels itself and compositors depend on it, so it matters mostly next to \
        screen capture.",
    "symbols =",
    "  XDamageCreate",
    "  XDamageSubtract",
    "  xcb_damage_create",
    "  xcb_damage_create_checked",
    "  xcb_damage_subtract",
    "[pipewire-stream]",
    "title = Connects media streams through PipeWire",
    "rationale = On Wayland desktops a granted screen share arrives as a PipeWire stream, and \
        cameras and microphones do so too. The import shows that the component can consume or \
        produce such a stream, not that permission was ever given, and plain audio players \
        connect streams as well.",
    "symbols =",
    "  pw_stream_connect",
    "  pw_stream_new",
    "  pw_stream_new_simple",
    "  pw_context_connect_fd",
    "[portal-screencast]",
    "title = Requests screen capture through xdg-desktop-portal",
    "rationale = The ScreenCast, Screenshot and RemoteDesktop portals hand out screen \
        contents or input control after the desktop has asked the user. They are reached over \
        D-Bus by name, so the interface name in read-only data is the only trace that a static \
        look can find.",
    "strings =",
    "  org.freedesktop.portal.ScreenCast",
    "  org.freedesktop.portal.Screenshot",
    "  org.freedesktop.portal.RemoteDesktop",
    "[input-record]",
    "title = Records keyboard and pointer input of the whole session",
    "rationale = The Record extension delivers every key press and pointer event of the \
        session no matter which window has the focus, and polling the keymap gives nearly the \
        same. Few applications have an honest need for it; global hotkey helpers and test tools \
        are the usual exceptions.",
    "symbols =",
    "  XRecordAllocRange",
    "  XRecordCreateContext",
    "  XRecordEnableContext",
    "  XRecordEnableContextAsync",
    "  xcb_record_create_context",
    "  xcb_record_enable_context",
    "  XQueryKeymap",
    "  xcb_query_keymap",
    "  xcb_query_keymap_unchecked",
    "[keyboard-grab]",
    "title = Grabs the keyboard or individual key combinations globally",
    "rationale = A grab sends key events to the grabbing client instead of the focused \
        window, for the whole keyboard or for single combinations. Menus, lock screens and \
        global shortcuts grab briefly and legitimately; a long grab reads whatever the user \
        types meanwhile.",
    "symbols =",
    "  XGrabKey",
    "  XGrabKeyboard",
    "  xcb_grab_key",
    "  xcb_grab_key_checked",
    "  xcb_grab_keyboard",
    "  xcb_grab_keyboard_unchecked",
    "  gdk_keyboard_grab",
    "  gdk_device_grab",
    "  gdk_seat_grab",
    "[xi2-event-selection]",
    "title = Selects XInput2 events, possibly raw input of the whole session",
    "rationale = With the right mask XInput2 reports raw key and pointer events for all \
        windows. The mask is built at run time, so the import alone cannot tell ordinary touch \
        and scroll handling, which every modern toolkit does this way, from listening to the \
        entire session.",
    "symbols =",
    "  XISelectEvents",
    "  xcb_input_xi_select_events",
    "  xcb_input_xi_select_events_checked",
    "[input-injection]",
    "title = Injects synthetic keyboard or pointer input",
    "rationale = The XTest extension and libei create key presses and pointer motion that \
        other clients cannot tell from real ones, so a component with them can type into any \
        window. Remote control software and accessibility tools need it, most other applications \
        do not.",
    "symbols =",
    "  XTestFakeKeyEvent",
    "  XTestFakeButtonEvent",
    "  XTestFakeMotionEvent",
    "  XTestFakeRelativeMotionEvent",
    "  xcb_test_fake_input",
    "  xcb_test_fake_input_checked",
    "  ei_new_sender",
    "  ei_device_keyboard_key",
    "  ei_device_pointer_motion",
    "[window-introspection]",
    "title = Enumerates other clients' windows and reads their titles",
    "rationale = Walking the window tree and reading properties shows which applications are \
        open and what their titles say, which often names documents, chat partners or web pages. \
        Window managers and toolkits walk the tree too, so this is context for other findings \
        more than proof.",
    "symbols =",
    "  XQueryTree",
    "  XFetchName",
    "  XGetWMName",
    "  xcb_query_tree",
    "  xcb_query_tree_unchecked",
    "  xcb_ewmh_get_client_list",
    "  xcb_ewmh_get_wm_name",
];

/// The lines of the database as texts.
#[verifier::opaque]
pub open spec fn builtin_lines() -> Seq<Seq<char>> {
    BUILTIN@.map_values(|line: &'static str| line@)
}

/// The text of the database: every line with its line feed.
pub open spec fn builtin_text() -> Seq<char> {
    lines_text(builtin_lines(), 124)
}

/// The capabilities of the database, in order.
pub open spec fn builtin_ids() -> Seq<Seq<char>> {
    seq![
        "selection-read"@,
        "selection-watch"@,
        "screen-capture"@,
        "screen-change-tracking"@,
        "pipewire-stream"@,
        "portal-screencast"@,
        "input-record"@,
        "keyboard-grab"@,
        "xi2-event-selection"@,
        "input-injection"@,
        "window-introspection"@,
    ]
}

/// Writes the text of the database.
pub(crate) fn write_builtin() -> (r: String)
    ensures
        r@ == builtin_text(),
{
    let lines = BUILTIN;
    let ghost all = builtin_lines();
    let mut text = String::new();
    let mut i: usize = 0;
    assert(text@ =~= lines_text(all, 0));
    while i < 124
        invariant
            i <= 124,
            lines == BUILTIN,
            all == builtin_lines(),
            text@ == lines_text(all, i as int),
        decreases 124 - i,
    {
        let ghost before = text@;
        text.append(lines[i]);
        text.push('\n');
        assert(all[i as int] == lines@[i as int]@) by {
            reveal(builtin_lines);
        }
        assert(text@ =~= before + all[i as int].push('\n'));
        i = i + 1;
    }
    text
}

} // verus!
