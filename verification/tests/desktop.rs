use dsh_desktop::bootstrap::UserEvent;
use dsh_desktop::desktop::{
    background, no_webview_message, on_event, show_error, starting_page, system_light_theme,
    user_data_dir, MainEvent, Response, UserDataDir, APP_TITLE, APP_URL,
};
use dsh_desktop::dsh_service::DSH_PORT;
use dsh_desktop::status::{escape, status_page};
use dsh_desktop::text::string_of;
use windows_sys::Win32::UI::WindowsAndMessaging::{MB_ICONERROR, MB_OK, MB_SETFOREGROUND};

const TEMPLATE: &str = "<p>__INDICATOR__</p><p>__STATUS__</p>";

#[test]
fn message_is_escaped() {
    let escaped = |s: &str| string_of(&escape(s));
    assert_eq!(escaped("a < b && c > d"), "a &lt; b &amp;&amp; c &gt; d");
    assert_eq!(escaped("&lt;"), "&amp;lt;");
    assert_eq!(escaped("服务"), "服务");
    for s in ["", "<script>alert(1)</script>", "&&<<>>", "\"quotes'"] {
        let expected = s.replace('&', "&amp;").replace('<', "&lt;").replace('>', "&gt;");
        assert_eq!(escaped(s), expected);
        assert!(!escaped(s).contains('<') && !escaped(s).contains('>'));
        let shown = escaped(s).replace("&gt;", ">").replace("&lt;", "<").replace("&amp;", "&");
        assert_eq!(shown, s);
    }
}

#[test]
fn page_has_indicator_and_message() {
    assert_eq!(
        status_page(TEMPLATE, "<i></i>", "1 < 2"),
        "<p><i></i></p><p>1 &lt; 2</p>"
    );
    assert_eq!(status_page("no slots", "x", "y"), "no slots");
    assert_eq!(status_page("__STATUS__ __STATUS__", "x", "y"), "y y");
}

#[test]
fn message_goes_into_the_indicator_too() {
    assert_eq!(status_page("__INDICATOR__", "[__STATUS__]", "a&b"), "[a&amp;b]");
    assert_eq!(status_page("__STATUS__", "x", "__INDICATOR__"), "__INDICATOR__");
}

#[test]
fn page_while_the_service_starts() {
    assert_eq!(
        starting_page(TEMPLATE),
        "<p><span class=\"spinner\"></span></p><p>正在启动 DeepSeek Harness 服务（npx @deepseek-ai/dsh web），请稍候…</p>"
    );
}

#[test]
fn theme_is_light_unless_switched_off() {
    assert!(system_light_theme(None));
    assert!(system_light_theme(Some(1)));
    assert!(system_light_theme(Some(7)));
    assert!(!system_light_theme(Some(0)));
    assert_eq!(background(true), (0xf9, 0xfa, 0xfb, 0xff));
    assert_eq!(background(false), (0x0f, 0x11, 0x15, 0xff));
}

fn parts(dir: UserDataDir) -> (String, Option<String>) {
    match dir {
        UserDataDir::Given(dir) => (dir, None),
        UserDataDir::Below { base, folder } => (base, Some(folder)),
    }
}

#[test]
fn profile_directory() {
    let some = |s: &str| Some(s.to_string());
    assert_eq!(parts(user_data_dir(some(" D:\\p "), some("C:\\l"))), (" D:\\p ".to_string(), None));
    for blank in [None, some(""), some(" \t\u{3000}")] {
        assert_eq!(
            parts(user_data_dir(blank, some("C:\\l"))),
            ("C:\\l".to_string(), some("DeepSeekHarness"))
        );
    }
    assert_eq!(parts(user_data_dir(None, None)), (".".to_string(), some("DeepSeekHarness")));
    assert_eq!(parts(user_data_dir(None, some(""))), ("".to_string(), some("DeepSeekHarness")));
}

#[test]
fn error_dialog() {
    let dialog = show_error("缺 🐳");
    assert_eq!(dialog.text, vec![0x7f3a, 0x20, 0xd83d, 0xdc33, 0]);
    assert_eq!(String::from_utf16(&dialog.caption).unwrap(), "DeepSeek Harness\0");
    assert_eq!(dialog.style, 0x10010);
    assert_eq!(dialog.style, MB_OK | MB_ICONERROR | MB_SETFOREGROUND);
    assert_eq!(APP_TITLE, "DeepSeek Harness");
    assert_eq!(
        no_webview_message("E42"),
        "无法启动浏览器控件（需要 Microsoft Edge WebView2 运行时）。\n\n错误详情：E42\n\n请安装 WebView2 运行时后重试。"
    );
}

#[test]
fn main_loop_decides() {
    assert!(matches!(on_event(TEMPLATE, &MainEvent::CloseRequested), Response::CleanUpAndExit));
    assert!(matches!(on_event(TEMPLATE, &MainEvent::Other), Response::Wait));
    match on_event(TEMPLATE, &MainEvent::User(UserEvent::DshReady)) {
        Response::LoadUrl(url) => assert_eq!(url, "http://127.0.0.1:3080/"),
        _ => panic!("no address"),
    }
    let failed = MainEvent::User(UserEvent::DshFailed("x > y".to_string()));
    match on_event(TEMPLATE, &failed) {
        Response::LoadHtml(page) => {
            assert_eq!(page, "<p><span class=\"dot\"></span></p><p>x &gt; y</p>")
        }
        _ => panic!("no page"),
    }
}

#[test]
fn address_names_the_port() {
    assert_eq!(APP_URL, format!("http://127.0.0.1:{}/", DSH_PORT));
}
