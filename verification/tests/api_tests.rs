use hirpuscity::api::{
    admin_delete, admin_login, admin_logout, admin_meta, admin_reset_key, admin_target,
    authenticate, authorize_admin, delete_file, delete_me, file_not_found, login, logout,
    admin_sites, me, session, signup, sites, update_meta, upload, upload_fits, upload_target,
    Admin, AdminSubBody, DeleteFileBody, LoginBody, MetaBody, SignupBody, SitesQuery,
    UploadAction, UploadEvent, UploadProgress, User,
};
use hirpuscity::platform::App;
use hirpuscity::store::{DirEntryInfo, Store};

const KEY: &str = "123e4567-e89b-12d3-a456-426614174000";

fn new_app(admin: bool) -> App {
    App {
        store: Store::empty("/tmp/hcity-api", "pages.hirpus", 100),
        assets_dir: "/tmp/web".to_string(),
        admin_key: if admin { Some(KEY.to_string()) } else { None },
    }
}

fn body(sub: &str) -> SignupBody {
    SignupBody { subdomain: sub.to_string() }
}

fn admin_body(sub: &str, name: &str, description: &str) -> AdminSubBody {
    AdminSubBody { sub: sub.into(), name: name.into(), description: description.into() }
}

#[test]
fn signup_gives_a_working_session_cookie() {
    let mut app = new_app(false);
    let rep = signup(&mut app, None, &body(" Nuovo ")).ok().unwrap();
    assert_eq!(rep.sub, "nuovo");
    assert_eq!(rep.domain, "nuovo.pages.hirpus");
    assert_eq!(rep.token.len(), 36);
    assert_eq!(
        rep.cookie,
        format!("hcity=nuovo:{}; Path=/; HttpOnly; SameSite=Lax; Max-Age=2592000", rep.token)
    );
    let u = authenticate(&app, Some(&rep.cookie)).ok().unwrap();
    assert_eq!(u.0, "nuovo");
    let s = session(&app, Some(&rep.cookie));
    assert_eq!(s.sub.as_deref(), Some("nuovo"));
    assert_eq!(s.base_domain, "pages.hirpus");
    // the name starts as the subdomain, the description blank
    assert_eq!(app.store.get_meta("nuovo"), ("nuovo".to_string(), String::new()));

    // logged in: no second signup, no login
    let e = signup(&mut app, Some(&rep.cookie), &body("altro")).err().unwrap();
    assert_eq!((e.status, e.message.as_str()), (400, "sei già connesso"));
    let e = login(&app, Some(&rep.cookie), &LoginBody { subdomain: "nuovo".into(), token: rep.token.clone() })
        .err()
        .unwrap();
    assert_eq!((e.status, e.message.as_str()), (400, "sei già connesso"));
}

#[test]
fn signup_errors_come_from_the_registry() {
    let mut app = new_app(false);
    let e = signup(&mut app, None, &body("www")).err().unwrap();
    assert_eq!((e.status, e.message.as_str()), (400, "sottodominio riservato"));
    signup(&mut app, None, &body("uno")).ok().unwrap();
    let e = signup(&mut app, None, &body("UNO")).err().unwrap();
    assert_eq!((e.status, e.message.as_str()), (400, "sottodominio già occupato"));
}

#[test]
fn login_sets_the_trimmed_token() {
    let mut app = new_app(false);
    let rep = signup(&mut app, None, &body("tre")).ok().unwrap();
    let padded = format!("  {}\n", rep.token);
    let l = login(&app, None, &LoginBody { subdomain: " TRE".into(), token: padded }).ok().unwrap();
    assert_eq!(l.sub, "tre");
    assert_eq!(l.cookie, rep.cookie);
    // the cookie a login sets is a session of that site
    assert_eq!(authenticate(&app, Some(&l.cookie)).ok().map(|u| u.0).as_deref(), Some("tre"));
    let e = login(&app, None, &LoginBody { subdomain: "tre".into(), token: "nope".into() })
        .err()
        .unwrap();
    assert_eq!((e.status, e.message.as_str()), (401, "sottodominio o chiave non validi"));
    let e = authenticate(&app, Some("hcity=tre:nope")).err().unwrap();
    assert_eq!((e.status, e.message.as_str()), (401, "non autenticato"));
    assert_eq!(logout(), "hcity=; Path=/; HttpOnly; SameSite=Lax; Max-Age=0");
}

#[test]
fn site_listing_pages() {
    let mut app = new_app(false);
    for i in 0..3 {
        app.store
            .signup_with(&format!("s{i}"), "", "pizza", format!("t{i}"), i as i64)
            .unwrap();
    }
    let all = sites(&app, &SitesQuery { q: None, limit: None });
    assert_eq!(all.len(), 3);
    assert_eq!(all[0].domain, "s2.pages.hirpus");
    let one = sites(&app, &SitesQuery { q: Some("pizza".into()), limit: Some(1) });
    assert_eq!(one.len(), 1);
    let none = sites(&app, &SitesQuery { q: Some("cane".into()), limit: Some(10_000) });
    assert!(none.is_empty());
}

#[test]
fn dashboard_data() {
    let mut app = new_app(false);
    app.store.signup_with("quattro", "Quattro", "", "t".into(), 3).unwrap();
    app.store.record_traffic("quattro");
    let entries = vec![
        DirEntryInfo { name: "z.html".into(), len: 7, is_file: true },
        DirEntryInfo { name: "a.png".into(), len: 5, is_file: true },
    ];
    let m = me(&app, &User("quattro".into()), &entries);
    assert_eq!(m.sub, "quattro");
    assert_eq!(m.domain, "quattro.pages.hirpus");
    assert_eq!(m.name, "Quattro");
    assert_eq!(m.description, "");
    assert_eq!(m.quota_bytes, 100);
    assert_eq!(m.used_bytes, 12);
    assert_eq!(m.visits, 1);
    assert_eq!(m.files, vec![("a.png".to_string(), 5), ("z.html".to_string(), 7)]);

    update_meta(
        &mut app,
        &User("quattro".into()),
        &MetaBody { name: "  ".into(), description: " bella  pagina ".into() },
    );
    assert_eq!(app.store.get_meta("quattro"), ("quattro".to_string(), "bella pagina".to_string()));

    assert_eq!(
        delete_me(&mut app, &User("quattro".into())).ok().as_deref(),
        Some("hcity=; Path=/; HttpOnly; SameSite=Lax; Max-Age=0")
    );
    let e = delete_me(&mut app, &User("quattro".into())).err().unwrap();
    assert_eq!((e.status, e.message.as_str()), (404, "sito inesistente"));
}

#[test]
fn upload_decisions() {
    let app = new_app(false);
    assert_eq!(upload_target("../x/pagina.html").as_deref(), Ok("pagina.html"));
    assert_eq!(
        upload_target("a.js"),
        Err("a.js: nome o tipo non ammesso (solo html/htm/css/png/jpg/jpeg/gif/webp/svg/ico)".to_string())
    );
    assert_eq!(upload_fits(&app, "a.html", 0, 0), Err("a.html: file vuoto".to_string()));
    assert_eq!(upload_fits(&app, "a.html", 40, 60), Ok(()));
    assert_eq!(
        upload_fits(&app, "a.html", 41, 60),
        Err("a.html: quota superata (limite 100 byte)".to_string())
    );
    assert_eq!(
        upload_fits(&app, "a.html", u64::MAX, u64::MAX),
        Err("a.html: quota superata (limite 100 byte)".to_string())
    );
}

#[test]
fn file_deletion_names() {
    assert_eq!(
        delete_file(&DeleteFileBody { name: "ok.html".into() }).ok().as_deref(),
        Some("ok.html")
    );
    let e = delete_file(&DeleteFileBody { name: "../x".into() }).err().unwrap();
    assert_eq!((e.status, e.message.as_str()), (400, "percorso non valido"));
    let e = file_not_found();
    assert_eq!((e.status, e.message.as_str()), (404, "file non trovato"));
}

#[test]
fn admin_access() {
    let off = new_app(false);
    let on = new_app(true);
    let cookie = format!("hcity_admin={KEY}");
    assert!(authorize_admin(&off, Some(&cookie)).is_err());
    assert!(authorize_admin(&on, Some(&cookie)).is_ok());
    assert!(authorize_admin(&on, Some("hcity_admin=wrong")).is_err());
    let e = authorize_admin(&on, None).err().unwrap();
    assert_eq!((e.status, e.message.as_str()), (401, "non autenticato"));

    let good = LoginBody { subdomain: String::new(), token: KEY.into() };
    assert_eq!(
        admin_login(&on, &good).ok().as_deref(),
        Some(format!("hcity_admin={KEY}; Path=/; HttpOnly; SameSite=Lax; Max-Age=2592000").as_str())
    );
    let e = admin_login(&off, &good).err().unwrap();
    assert_eq!((e.status, e.message.as_str()), (401, "chiave sbagliata"));
    let bad = LoginBody { subdomain: String::new(), token: format!(" {KEY}") };
    assert!(admin_login(&on, &bad).is_err());
    assert_eq!(admin_logout(), "hcity_admin=; Path=/; HttpOnly; SameSite=Lax; Max-Age=0");
}

#[test]
fn admin_operations() {
    let mut app = new_app(true);
    let rep = signup(&mut app, None, &body("cinque")).ok().unwrap();
    let admin = Admin;

    let e = admin_target(&admin_body("   ", "", "")).err().unwrap();
    assert_eq!((e.status, e.message.as_str()), (400, "sottodominio mancante"));
    assert_eq!(admin_target(&admin_body(" cinque ", "", "")).ok().as_deref(), Some("cinque"));

    assert!(admin_meta(&mut app, &admin, &admin_body(" cinque ", "Cinque", "desc")).is_ok());
    assert_eq!(app.store.get_meta("cinque"), ("Cinque".to_string(), "desc".to_string()));
    assert!(admin_meta(&mut app, &admin, &admin_body("", "x", "y")).is_err());

    let (sub, token) = admin_reset_key(&mut app, &admin, &admin_body("cinque", "", "")).ok().unwrap();
    assert_eq!(sub, "cinque");
    assert_ne!(token, rep.token);
    assert!(authenticate(&app, Some(&rep.cookie)).is_err());
    assert_eq!(app.store.login("cinque", &token).as_deref(), Some("cinque"));
    let e = admin_reset_key(&mut app, &admin, &admin_body("ghost", "", "")).err().unwrap();
    assert_eq!((e.status, e.message.as_str()), (404, "sito inesistente"));

    assert!(admin_delete(&mut app, &admin, &admin_body("cinque", "", "")).is_ok());
    let e = admin_delete(&mut app, &admin, &admin_body("cinque", "", "")).err().unwrap();
    assert_eq!((e.status, e.message.as_str()), (404, "sito inesistente"));
}

#[test]
fn upload_steps() {
    let app = new_app(false);
    let mut p = UploadProgress { saved: 0, errors: Vec::new() };
    assert!(matches!(upload(&app, &mut p, UploadEvent::Part(None)), UploadAction::Next));
    assert!(matches!(
        upload(&app, &mut p, UploadEvent::Part(Some("dir\\a.CSS".into()))),
        UploadAction::ReadBody(ref n) if n == "a.CSS"
    ));
    assert!(matches!(
        upload(&app, &mut p, UploadEvent::Part(Some("x.exe".into()))),
        UploadAction::Next
    ));
    assert!(matches!(
        upload(&app, &mut p, UploadEvent::BodyRead { name: "a.CSS".into(), len: 10, used: 90 }),
        UploadAction::Store(ref n) if n == "a.CSS"
    ));
    assert!(matches!(upload(&app, &mut p, UploadEvent::Stored("a.CSS".into())), UploadAction::Next));
    assert!(matches!(
        upload(&app, &mut p, UploadEvent::BodyRead { name: "b.png".into(), len: 11, used: 90 }),
        UploadAction::Next
    ));
    upload(&app, &mut p, UploadEvent::BodyRead { name: "c.png".into(), len: 0, used: 0 });
    upload(&app, &mut p, UploadEvent::BodyUnreadable { name: "d.png".into(), reason: "eof".into() });
    upload(&app, &mut p, UploadEvent::StoreFailed { name: "e.png".into(), reason: "disco pieno".into() });
    assert_eq!(p.saved, 1);
    assert_eq!(
        p.errors,
        vec![
            "x.exe: nome o tipo non ammesso (solo html/htm/css/png/jpg/jpeg/gif/webp/svg/ico)".to_string(),
            "b.png: quota superata (limite 100 byte)".to_string(),
            "c.png: file vuoto".to_string(),
            "d.png: errore di lettura (eof)".to_string(),
            "e.png: scrittura fallita (disco pieno)".to_string(),
        ]
    );
}

#[test]
fn admin_overview_by_subdomain() {
    let mut app = new_app(true);
    app.store.signup_with("zeta", "Z", "", "t1".into(), 9).unwrap();
    app.store.signup_with("alfa", "A", "d", "t2".into(), 1).unwrap();
    app.store.record_traffic("zeta");
    let rows = admin_sites(&app, &Admin);
    assert_eq!(rows.len(), 2);
    assert_eq!(rows[0].sub, "alfa");
    assert_eq!(rows[0].info.domain, "alfa.pages.hirpus");
    assert_eq!(rows[0].info.description, "d");
    assert_eq!(rows[1].sub, "zeta");
    assert_eq!(rows[1].visits, 1);
}

#[test]
fn directory_usage_counts_files_only_against_the_quota() {
    let app = new_app(false);
    let entries = vec![
        DirEntryInfo { name: "a.html".into(), len: 90, is_file: true },
        DirEntryInfo { name: "cartella".into(), len: 4096, is_file: false },
    ];
    let used = hirpuscity::store::dir_size(&entries);
    assert_eq!(used, 90);
    let mut p = UploadProgress { saved: 0, errors: Vec::new() };
    assert!(matches!(
        upload(&app, &mut p, UploadEvent::BodyRead { name: "b.html".into(), len: 10, used }),
        UploadAction::Store(_)
    ));
    assert!(matches!(
        upload(&app, &mut p, UploadEvent::BodyRead { name: "b.html".into(), len: 11, used }),
        UploadAction::Next
    ));
    assert_eq!(p.errors, vec!["b.html: quota superata (limite 100 byte)".to_string()]);
}
