use hirpuscity::outside::unix_seconds;
use hirpuscity::platform::{admin_key_setting, human_bytes, quota_bytes_from_mb, AdminKey, App, Dispatch};
use hirpuscity::store::Store;

fn app(admin: bool) -> App {
    App {
        store: Store::empty("/tmp/hcity-platform", "pages.hirpus", 1024),
        assets_dir: "./web".into(),
        admin_key: if admin { Some("k".into()) } else { None },
    }
}

#[test]
fn sizes_and_quota() {
    assert_eq!(human_bytes(0), "0 MB");
    assert_eq!(human_bytes(1073741824), "1024 MB");
    assert_eq!(human_bytes(1048575), "0 MB");
    assert_eq!(quota_bytes_from_mb(None), 1073741824);
    assert_eq!(quota_bytes_from_mb(Some(5)), 5242880);
}

#[test]
fn admin_key_needs_a_uuid() {
    assert!(matches!(admin_key_setting(None), AdminKey::Unset));
    assert!(matches!(admin_key_setting(Some("   ")), AdminKey::Unset));
    assert!(matches!(admin_key_setting(Some("not-a-uuid")), AdminKey::Rejected));
    let raw = " 123e4567-e89b-12d3-a456-426614174000 ";
    assert!(matches!(admin_key_setting(Some(raw)), AdminKey::Enabled(ref k) if k == raw));
}

#[test]
fn requests_go_to_sites_or_platform() {
    let a = app(false);
    assert!(matches!(a.dispatch("uno.pages.hirpus", true), Dispatch::Site(ref s) if s == "uno"));
    assert!(matches!(a.dispatch("uno.pages.hirpus:443", false), Dispatch::MethodNotAllowed));
    assert!(matches!(a.dispatch("pages.hirpus", false), Dispatch::Platform));
    assert!(matches!(a.dispatch("www.pages.hirpus", true), Dispatch::Platform));
}

#[test]
fn frontend_asset_names() {
    let off = app(false);
    let on = app(true);
    assert_eq!(off.asset_name("/").as_deref(), Some("index.html"));
    assert_eq!(off.asset_name("///").as_deref(), Some("index.html"));
    assert_eq!(off.asset_name("/js/home.js").as_deref(), Some("js/home.js"));
    assert_eq!(off.asset_name("/.env"), None);
    assert_eq!(off.asset_name("/js//x.js"), None);
    assert_eq!(off.asset_name("/js/"), None);
    assert_eq!(off.asset_name("/admin.html"), None);
    assert_eq!(on.asset_name("/admin.html").as_deref(), Some("admin.html"));
}

#[test]
fn creation_times_from_the_clock() {
    assert_eq!(unix_seconds(None), 0);
    assert_eq!(unix_seconds(Some(1_700_000_000)), 1_700_000_000);
    assert_eq!(unix_seconds(Some(u64::MAX)), -1);
}
