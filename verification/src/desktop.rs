//! What the window shows and does.
use vstd::prelude::*;

use crate::bootstrap::UserEvent;
use crate::dsh_service::DSH_PORT;
use crate::status;
use crate::status::status_page;
use crate::text;
use crate::text::is_blank;
use crate::wide;
use crate::wide::to_wide;

verus! {

/// Target URL of the DeepSeek Harness Web GUI.
pub const APP_URL: &'static str = "http://127.0.0.1:3080/";

/// Window title.
pub const APP_TITLE: &'static str = "DeepSeek Harness";

/// The folder of the browser profile below the local application data.
pub const DATA_FOLDER: &'static str = "DeepSeekHarness";

/// Indicator of the status page while the service is starting.
pub const SPINNER: &'static str = "<span class=\"spinner\"></span>";

/// Indicator of the status page when the service failed to start.
pub const RED_DOT: &'static str = "<span class=\"dot\"></span>";

/// What the user reads while the service is starting.
pub const STARTING: &'static str =
    "正在启动 DeepSeek Harness 服务（npx @deepseek-ai/dsh web），请稍候…";

/// What the user reads in front of the reason why there is no browser control.
pub const NO_WEBVIEW_HEAD: &'static str =
    "无法启动浏览器控件（需要 Microsoft Edge WebView2 运行时）。\n\n错误详情：";

/// What the user reads behind the reason why there is no browser control.
pub const NO_WEBVIEW_TAIL: &'static str = "\n\n请安装 WebView2 运行时后重试。";

/// DSH light-theme page background (`--dsw-alias-bg-base`).
pub const BG_LIGHT: (u8, u8, u8, u8) = (0xf9, 0xfa, 0xfb, 0xff);

/// DSH dark-theme page background (`#0f1115`).
pub const BG_DARK: (u8, u8, u8, u8) = (0x0f, 0x11, 0x15, 0xff);

/// True when the Windows UI theme is light (matches `prefers-color-scheme` so the webview background
/// matches the page background before it loads). Takes the registry value `AppsUseLightTheme`, if
/// there is one.
pub fn system_light_theme(apps_use_light_theme: Option<u32>) -> (r: bool)
    ensures
        r == (apps_use_light_theme != Some(0u32)),
{
    match apps_use_light_theme {
        Some(value) => value != 0,
        None => true,
    }
}

/// The background of the window before the page loads.
pub fn background(light: bool) -> (r: (u8, u8, u8, u8))
    ensures
        r == (if light {
            BG_LIGHT
        } else {
            BG_DARK
        }),
{
    if light {
        BG_LIGHT
    } else {
        BG_DARK
    }
}

/// Where the browser profile is kept.
pub enum UserDataDir {
    /// In this directory.
    Given(String),
    /// In a folder of this directory.
    Below { base: String, folder: String },
}

/// WebView2 user-data directory: an isolated per-user profile for this app.
///
/// Overridable with `DSH_DESKTOP_USER_DATA_DIR` (used for testing and as an escape hatch). Takes
/// that environment variable and `LOCALAPPDATA`, as far as they are set.
pub fn user_data_dir(given: Option<String>, local_app_data: Option<String>) -> (r: UserDataDir)
    ensures
        given is Some && !text::blank(given->Some_0@) ==> r == UserDataDir::Given(given->Some_0),
        given is None || text::blank(given->Some_0@) ==> {
            &&& r is Below
            &&& r->folder@ == DATA_FOLDER@
            &&& local_app_data is Some ==> r->base == local_app_data->Some_0
            &&& local_app_data is None ==> r->base@ == "."@
        },
{
    if let Some(dir) = given {
        if !is_blank(dir.as_str()) {
            return UserDataDir::Given(dir);
        }
    }
    let base = match local_app_data {
        Some(base) => base,
        None => ".".to_owned(),
    };
    UserDataDir::Below { base, folder: DATA_FOLDER.to_owned() }
}

/// The style of an error dialog: an OK button, the error icon, and in front of the other windows
/// (`MB_OK | MB_ICONERROR | MB_SETFOREGROUND`).
pub const ERROR_STYLE: u32 = 0x0001_0010;

/// A native error dialog: its text, its caption and its style as the Windows API takes them.
pub struct ErrorDialog {
    pub text: Vec<u16>,
    pub caption: Vec<u16>,
    pub style: u32,
}

/// The native error dialog with this message (used when the WebView2 runtime is missing or the
/// webview cannot be created, so the user isn't left with a silent exit).
pub fn show_error(message: &str) -> (r: ErrorDialog)
    ensures
        r.text@ == wide::utf16(message@).push(0),
        r.caption@ == wide::utf16(APP_TITLE@).push(0),
        r.style == ERROR_STYLE,
{
    ErrorDialog { text: to_wide(message), caption: to_wide(APP_TITLE), style: ERROR_STYLE }
}

/// What the user reads when there is no browser control.
pub fn no_webview_message(detail: &str) -> (r: String)
    ensures
        r@ == NO_WEBVIEW_HEAD@ + detail@ + NO_WEBVIEW_TAIL@,
{
    let mut r = NO_WEBVIEW_HEAD.to_owned();
    r.append(detail);
    r.append(NO_WEBVIEW_TAIL);
    r
}

/// The status page that is shown until the worker has news.
pub fn starting_page(template: &str) -> (r: String)
    ensures
        r@ == status::page(template@, SPINNER@, STARTING@),
{
    status_page(template, SPINNER, STARTING)
}

/// What the main event loop hears.
pub enum MainEvent {
    /// The user wants to close the window.
    CloseRequested,
    /// The worker has news.
    User(UserEvent),
    /// Anything else.
    Other,
}

/// What the main event loop does.
pub enum Response {
    /// Stop the DSH service we started, and leave.
    CleanUpAndExit,
    /// Load this address into the browser, and wait for the next event.
    LoadUrl(String),
    /// Load this page into the browser, and wait for the next event.
    LoadHtml(String),
    /// Wait for the next event.
    Wait,
}

/// Decides what the main event loop does on an event; `template` is that of the status page.
pub fn on_event(template: &str, event: &MainEvent) -> (r: Response)
    ensures
        event is CloseRequested <==> r is CleanUpAndExit,
        event is Other <==> r is Wait,
        event matches MainEvent::User(UserEvent::DshReady) ==> r is LoadUrl && r->LoadUrl_0@
            == APP_URL@,
        event matches MainEvent::User(UserEvent::DshFailed(reason)) ==> r is LoadHtml
            && r->LoadHtml_0@ == status::page(template@, RED_DOT@, reason@),
{
    match event {
        MainEvent::CloseRequested => Response::CleanUpAndExit,
        MainEvent::User(UserEvent::DshReady) => Response::LoadUrl(APP_URL.to_owned()),
        MainEvent::User(UserEvent::DshFailed(reason)) => Response::LoadHtml(
            status_page(template, RED_DOT, reason.as_str()),
        ),
        MainEvent::Other => Response::Wait,
    }
}

/// The address that is loaded is that of the port that the service is looked for on.
pub proof fn app_url_names_the_port()
    ensures
        APP_URL@ == "http://127.0.0.1:"@ + text::decimal(DSH_PORT as nat) + "/"@,
{
    reveal_strlit("http://127.0.0.1:3080/");
    reveal_strlit("http://127.0.0.1:");
    reveal_strlit("/");
    reveal_with_fuel(text::decimal, 4);
    assert(text::decimal(3080) =~= seq!['3', '0', '8', '0']);
    assert(APP_URL@ =~= "http://127.0.0.1:"@ + text::decimal(DSH_PORT as nat) + "/"@);
}

} // verus!
