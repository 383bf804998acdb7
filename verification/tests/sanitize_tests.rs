use hirpuscity::sanitize::{clean_upload_name, safe_file_name};

#[test]
fn upload_names() {
    assert_eq!(clean_upload_name("index.html").as_deref(), Some("index.html"));
    assert_eq!(
        clean_upload_name("../../etc/passwd.css").as_deref(),
        Some("passwd.css")
    );
    assert_eq!(
        clean_upload_name("..\\..\\evil.html").as_deref(),
        Some("evil.html")
    );
    assert_eq!(clean_upload_name("script.js"), None);
    assert_eq!(clean_upload_name(".hidden.html"), None);
    assert_eq!(clean_upload_name("noext"), None);
    assert_eq!(clean_upload_name(""), None);
    assert_eq!(clean_upload_name("bad<name>.html"), None);
    assert!(clean_upload_name("my (1) pic.PNG").is_some());
}

#[test]
fn file_names() {
    assert_eq!(safe_file_name("index.html").as_deref(), Some("index.html"));
    assert_eq!(safe_file_name("a b (1).png").as_deref(), Some("a b (1).png"));
    assert_eq!(safe_file_name("../secret.txt"), None);
    assert_eq!(safe_file_name("/abs.html"), None);
    assert_eq!(safe_file_name(""), None);
    assert_eq!(safe_file_name("."), None);
    assert_eq!(safe_file_name(".hidden.html"), None);
    assert_eq!(safe_file_name("bad\\name.html"), None);
}

#[test]
fn upload_name_keeps_case_and_every_accepted_extension() {
    assert_eq!(
        clean_upload_name("my (1) pic.PNG").as_deref(),
        Some("my (1) pic.PNG")
    );
    for ext in ["html", "htm", "css", "png", "jpg", "jpeg", "gif", "webp", "svg", "ico"] {
        let name = format!("file.{ext}");
        assert_eq!(clean_upload_name(&name).as_deref(), Some(name.as_str()));
    }
    assert_eq!(clean_upload_name("x.JS"), None);
    assert_eq!(clean_upload_name("dir/"), None);
    assert_eq!(clean_upload_name("a.tar.gz"), None);
}

#[test]
fn accepted_upload_names_can_be_deleted_later() {
    for raw in ["../../etc/passwd.css", "..\\x\\evil.html", "my (1) pic.PNG", "ok.svg"] {
        let stored = clean_upload_name(raw).unwrap();
        assert_eq!(safe_file_name(&stored).as_deref(), Some(stored.as_str()));
        assert!(!stored.contains('/') && !stored.contains('\\'));
    }
}
