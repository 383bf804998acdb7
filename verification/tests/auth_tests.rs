use hirpuscity::auth::{admin_cookie, cookie_value, current_user, expired_cookie, make_cookie};
use hirpuscity::store::Store;

#[test]
fn cookie_roundtrip_and_tamper() {
    let mut store = Store::empty("/tmp/hcity-auth", "pages.hirpus", 1024);
    let (_sub, token) = store.signup("alice", "", "").unwrap();

    let header = make_cookie("alice", &token);
    assert_eq!(current_user(Some(&header), &store).as_deref(), Some("alice"));

    let bad = [
        make_cookie("alice", "00000000-0000-0000-0000-000000000000"),
        make_cookie("bob", &token),
        "hcity=garbage-without-colon".to_string(),
    ];
    for value in bad {
        assert_eq!(current_user(Some(&value), &store), None);
    }
}

#[test]
fn cookie_texts() {
    assert_eq!(
        make_cookie("alice", "k"),
        "hcity=alice:k; Path=/; HttpOnly; SameSite=Lax; Max-Age=2592000"
    );
    assert_eq!(
        expired_cookie("hcity"),
        "hcity=; Path=/; HttpOnly; SameSite=Lax; Max-Age=0"
    );
    assert_eq!(
        admin_cookie("k"),
        "hcity_admin=k; Path=/; HttpOnly; SameSite=Lax; Max-Age=2592000"
    );
}

#[test]
fn cookie_lookup_in_headers() {
    assert_eq!(cookie_value(None, "hcity"), None);
    assert_eq!(cookie_value(Some("a=1; hcity=x:y; b=2"), "hcity").as_deref(), Some("x:y"));
    // the last cookie of that name wins; names must match exactly
    assert_eq!(cookie_value(Some("hcity=1;hcity=2"), "hcity").as_deref(), Some("2"));
    assert_eq!(cookie_value(Some("hcity_admin=k"), "hcity"), None);
    assert_eq!(cookie_value(Some("  hcity_admin=k  "), "hcity_admin").as_deref(), Some("k"));
    assert_eq!(cookie_value(Some("hcity="), "hcity").as_deref(), Some(""));
}

#[test]
fn session_needs_a_cookie_and_a_colon() {
    let mut store = Store::empty("/tmp/hcity-auth", "pages.hirpus", 1024);
    let (_sub, token) = store.signup("carla", "", "").unwrap();
    assert_eq!(current_user(None, &store), None);
    let header = format!("x=1; hcity=carla:{token}");
    assert_eq!(current_user(Some(&header), &store).as_deref(), Some("carla"));
    // the subdomain is normalised like a login
    let header = format!("hcity= CARLA :{token}");
    assert_eq!(current_user(Some(&header), &store).as_deref(), Some("carla"));
    // after deletion the same cookie no longer authenticates
    store.delete_site("carla").unwrap();
    let header = format!("hcity=carla:{token}");
    assert_eq!(current_user(Some(&header), &store), None);
}
