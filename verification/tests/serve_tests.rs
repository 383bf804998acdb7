use hirpuscity::serve_site::{
    begin_serve, content_type, flat_target, serve_reply, site_target, SiteReply, SiteRequest,
};
use hirpuscity::store::Store;

#[test]
fn flat_target_rules() {
    assert_eq!(flat_target("/").as_deref(), Some("index.html"));
    assert_eq!(flat_target("").as_deref(), Some("index.html"));
    assert_eq!(flat_target("/./").as_deref(), Some("index.html"));
    assert_eq!(flat_target("/pagina.html").as_deref(), Some("pagina.html"));
    assert_eq!(flat_target("/../etc/passwd"), None);
    assert_eq!(flat_target("/a/b.html"), None);
    assert_eq!(flat_target("/ok/../nope"), None);
}

#[test]
fn flat_target_edge_cases() {
    assert_eq!(flat_target("//x.html//").as_deref(), Some("x.html"));
    assert_eq!(flat_target("/./x.html/.").as_deref(), Some("x.html"));
    assert_eq!(flat_target("/.."), None);
    assert_eq!(flat_target("/...").as_deref(), Some("..."));
    assert_eq!(flat_target("/.hidden").as_deref(), Some(".hidden"));
}

#[test]
fn percent_encoded_paths_are_decoded_first() {
    assert_eq!(site_target("/la%20mia%20pagina.html").as_deref(), Some("la mia pagina.html"));
    assert_eq!(site_target("/%2E%2E/x"), None);
    assert_eq!(site_target("/a%2Fb.html"), None);
    assert_eq!(site_target("/").as_deref(), Some("index.html"));
}

#[test]
fn content_types() {
    assert_eq!(content_type("index.html"), "text/html");
    assert_eq!(content_type("style.css"), "text/css");
    assert_eq!(content_type("logo.png"), "image/png");
    assert_eq!(content_type("noext"), "application/octet-stream");
}

fn serve_once(store: &mut Store, sub: &str, path: &str, dir: bool, files: &[&str]) -> &'static str {
    match begin_serve(store, sub, path, dir) {
        SiteRequest::NotFound => "platform 404",
        SiteRequest::File(name) => {
            let is_file = files.contains(&name.as_str());
            let custom = files.contains(&"404.html");
            match serve_reply(&name, is_file, is_file, custom) {
                SiteReply::File(_) => "file",
                SiteReply::CustomNotFound => "custom 404",
                SiteReply::NotFound => "platform 404",
            }
        }
    }
}

#[test]
fn traffic_counts_all_site_responses() {
    let mut store = Store::empty("/tmp/hcity-serve", "pages.hirpus", 1024);
    store.signup("uno", "", "").unwrap();
    let files = ["index.html", "404.html"];

    assert_eq!(serve_once(&mut store, "uno", "/index.html", true, &files), "file");
    assert_eq!(serve_once(&mut store, "uno", "/manca.html", true, &files), "custom 404");
    assert_eq!(serve_once(&mut store, "uno", "/altro.html", true, &files), "custom 404");
    assert_eq!(store.get_visits("uno"), 3);

    // a nonexistent site is not a visit
    assert_eq!(serve_once(&mut store, "ghost", "/index.html", true, &files), "platform 404");
    assert_eq!(store.get_visits("ghost"), 0);
}

#[test]
fn a_site_without_its_directory_counts_nothing() {
    let mut store = Store::empty("/tmp/hcity-serve", "pages.hirpus", 1024);
    store.signup("due", "", "").unwrap();
    assert_eq!(serve_once(&mut store, "due", "/", false, &[]), "platform 404");
    assert_eq!(store.get_visits("due"), 0);
    // a path that names no flat file is still a visit
    assert_eq!(serve_once(&mut store, "due", "/a/b.html", true, &[]), "platform 404");
    assert_eq!(store.get_visits("due"), 1);
    assert_eq!(serve_once(&mut store, "due", "/x.html", true, &[]), "platform 404");
    assert_eq!(store.get_visits("due"), 2);
}

#[test]
fn reply_choice() {
    assert!(matches!(serve_reply("a.css", true, true, true), SiteReply::File(ref t) if t == "text/css"));
    assert!(matches!(serve_reply("a.css", false, true, true), SiteReply::NotFound));
    assert!(matches!(serve_reply("a.css", false, false, true), SiteReply::CustomNotFound));
    assert!(matches!(serve_reply("a.css", false, false, false), SiteReply::NotFound));
}
