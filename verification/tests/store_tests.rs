use hirpuscity::store::{
    clean_meta, dir_listing, dir_size, score_doc, validate_subdomain, DirEntryInfo, SiteInfo,
    SiteRecord, Store,
};

fn new_store() -> Store {
    Store::empty("/tmp/hcity-test", "pages.hirpus", 1024)
}

fn subs_of(infos: Vec<SiteInfo>) -> Vec<String> {
    infos
        .into_iter()
        .map(|i| i.domain.split('.').next().unwrap().to_string())
        .collect()
}

#[test]
fn subdomain_rules() {
    assert!(validate_subdomain("miosito").is_ok());
    assert!(validate_subdomain("a-1").is_ok());
    assert!(validate_subdomain("").is_err());
    assert!(validate_subdomain("-bad").is_err());
    assert!(validate_subdomain("bad-").is_err());
    assert!(validate_subdomain("Has Upper").is_err());
    assert!(validate_subdomain("ciao!").is_err());
    assert!(validate_subdomain("www").is_err());
    assert!(validate_subdomain("admin").is_err());
    assert!(validate_subdomain(&"a".repeat(64)).is_err());
}

#[test]
fn subdomain_rule_messages() {
    assert_eq!(validate_subdomain(""), Err("sottodominio vuoto"));
    assert_eq!(
        validate_subdomain(&"a".repeat(64)),
        Err("sottodominio troppo lungo (max 63 caratteri)")
    );
    assert!(validate_subdomain(&"a".repeat(63)).is_ok());
    assert_eq!(
        validate_subdomain("Has Upper"),
        Err("ammesse solo lettere minuscole, cifre e trattini")
    );
    assert_eq!(
        validate_subdomain("-bad"),
        Err("deve iniziare e finire con lettera o cifra")
    );
    assert_eq!(validate_subdomain("hirpuscity"), Err("sottodominio riservato"));
    // a multi-byte character counts by its bytes, and is refused anyway
    assert_eq!(
        validate_subdomain(&"è".repeat(40)),
        Err("sottodominio troppo lungo (max 63 caratteri)")
    );
}

#[test]
fn query_matching() {
    let e = SiteInfo {
        domain: "gatto.pages.hirpus".into(),
        name: "Il Gatto Nero".into(),
        description: "Un sito sui gatti e sulla pizza".into(),
        created_at: 0,
    };
    // AND matching: every word must appear somewhere
    assert!(score_doc(&e, &vec!["gatto".into()]).is_some());
    assert!(score_doc(&e, &vec!["PIZZA".into()]).is_some());
    assert!(score_doc(&e, &vec!["nero".into(), "pizza".into()]).is_some());
    // a word that matches nowhere -> not a full match
    assert_eq!(score_doc(&e, &vec!["cane".into()]), None);
    assert_eq!(score_doc(&e, &vec!["gatto".into(), "cane".into()]), None);
    // empty query matches everything
    assert_eq!(score_doc(&e, &vec![]), Some(0));
}

#[test]
fn score_values_follow_match_quality() {
    let e = SiteInfo {
        domain: "gatto.pages.hirpus".into(),
        name: "Il Gatto Nero".into(),
        description: "Un sito sui gatti e sulla pizza".into(),
        created_at: 0,
    };
    // name substring 1, description 2, domain 3
    assert_eq!(score_doc(&e, &vec!["gatto".into()]), Some(1));
    assert_eq!(score_doc(&e, &vec!["pizza".into()]), Some(2));
    assert_eq!(score_doc(&e, &vec!["pages".into()]), Some(3));
    assert_eq!(score_doc(&e, &vec!["il gatto nero".into()]), Some(0));
    assert_eq!(
        score_doc(&e, &vec!["nero".into(), "pizza".into(), "hirpus".into()]),
        Some(6)
    );
}

#[test]
fn search_ranking() {
    let mut store = new_store();
    store.signup("pizza", "Pizza Romana", "cucina tradizionale").unwrap();
    store.signup("mario", "Mario", "il sito di mario sulla pizza").unwrap();
    store.signup("gatto", "Gatto", "animali").unwrap();

    // "pizza" matches the pizza and mario sites; exact-name match ranks first
    let r = subs_of(store.search("pizza", 50));
    assert_eq!(r[0], "pizza");
    assert!(r.contains(&"mario".to_string()));
    // the gatto site has no "pizza", so it is excluded (AND semantics)
    assert!(!r.contains(&"gatto".to_string()));

    // AND: "mario pizza" must exclude the gatto site
    let and = subs_of(store.search("mario pizza", 50));
    assert_eq!(and, vec!["mario".to_string()]);
}

#[test]
fn search_orders_by_score_then_newest_then_subdomain() {
    let mut store = new_store();
    store.signup_with("beta", "b", "torta", "t1".into(), 10).unwrap();
    store.signup_with("alfa", "a", "torta", "t2".into(), 10).unwrap();
    store.signup_with("gamma", "g", "torta", "t3".into(), 20).unwrap();
    store.signup_with("torta", "Torta", "", "t4".into(), 1).unwrap();
    let r = subs_of(store.search("torta", 50));
    assert_eq!(r, vec!["torta", "gamma", "alfa", "beta"]);
    // the limit keeps the best ones
    assert_eq!(subs_of(store.search("torta", 2)), vec!["torta", "gamma"]);
    assert!(store.search("torta", 0).is_empty());
    // an empty query lists every site, newest first, as the recent listing does
    assert_eq!(
        subs_of(store.search("   ", 50)),
        vec!["gamma", "alfa", "beta", "torta"]
    );
    assert_eq!(subs_of(store.search("", 3)), subs_of(store.recent_sites(3)));
}

#[test]
fn traffic_tracking() {
    let mut store = new_store();
    store.signup("uno", "", "").unwrap();
    store.record_traffic("uno");
    store.record_traffic("uno");
    assert_eq!(store.get_visits("uno"), 2);
    // survives a reload (what is persisted is what `records` gives)
    let reloaded = Store::load("/tmp/hcity-test", "pages.hirpus", 1024, store.records());
    assert_eq!(reloaded.get_visits("uno"), 2);
    // an unknown site counts nothing
    store.record_traffic("ghost");
    assert_eq!(store.get_visits("ghost"), 0);
}

#[test]
fn signup_login_flow() {
    let mut store = new_store();
    let (sub, token) = store.signup("TestSite", "Il Test", "sito di test").unwrap();
    assert_eq!(sub, "testsite");
    assert_eq!(store.login("testsite", &token).as_deref(), Some("testsite"));
    assert_eq!(store.login("testsite", "wrong"), None);
    assert_eq!(store.login("other", &token), None);
    assert_eq!(store.site_dir("testsite"), "/tmp/hcity-test/sites/testsite");

    assert!(store
        .recent_sites(10)
        .iter()
        .any(|i| i.domain == "testsite.pages.hirpus" && i.name == "Il Test"));

    store.update_meta("testsite", "Nuovo Nome", "");
    assert!(store.recent_sites(10).iter().any(|i| i.name == "Nuovo Nome"));
    assert_eq!(store.get_meta("testsite").0, "Nuovo Nome");
}

#[test]
fn signup_refusals_and_normalisation() {
    let mut store = new_store();
    let first = store.signup("  MixedCase ", "", "");
    assert_eq!(first, Ok(("mixedcase".to_string(), store_token(&store, "mixedcase"))));
    assert_eq!(store.signup("mixedcase", "", ""), Err("sottodominio già occupato".to_string()));
    assert_eq!(store.signup("www", "", ""), Err("sottodominio riservato".to_string()));
    assert_eq!(store.signup("", "", ""), Err("sottodominio vuoto".to_string()));
    // the blank name falls back to the subdomain
    assert_eq!(store.get_meta("mixedcase"), ("mixedcase".to_string(), String::new()));
    // tokens are lowercase hyphenated UUIDs
    let (_, t) = store.signup("conuuid", "", "").unwrap();
    assert_eq!(t.len(), 36);
    assert!(t.chars().enumerate().all(|(i, c)| if [8, 13, 18, 23].contains(&i) {
        c == '-'
    } else {
        c.is_ascii_digit() || ('a'..='f').contains(&c)
    }));
    // login trims the token and normalises the subdomain
    assert_eq!(store.login(" ConUUID ", &format!("  {t} ")).as_deref(), Some("conuuid"));
}

fn store_token(store: &Store, sub: &str) -> String {
    store
        .records()
        .into_iter()
        .find(|(s, _)| s == sub)
        .map(|(_, r)| r.token)
        .unwrap_or_default()
}

#[test]
fn reset_and_delete_site() {
    let mut store = new_store();
    let (_sub, token) = store.signup("dave", "", "").unwrap();

    let new_token = store.reset_token("dave").unwrap();
    assert_ne!(token, new_token);
    assert_eq!(store.login("dave", &token), None);
    assert_eq!(store.login("dave", &new_token).as_deref(), Some("dave"));
    assert!(store.reset_token("ghost").is_err());

    assert!(store.delete_site("dave").is_ok());
    assert!(!store.site_exists("dave"));
    assert_eq!(store.login("dave", &new_token), None);
    assert!(store.delete_site("dave").is_err());

    let store2 = Store::load("/tmp/hcity-test", "pages.hirpus", 1024, store.records());
    assert!(!store2.site_exists("dave"));
}

#[test]
fn error_messages_of_unknown_sites() {
    let mut store = new_store();
    assert_eq!(store.reset_token("ghost"), Err("sito inesistente".to_string()));
    assert_eq!(store.delete_site("ghost"), Err("sito inesistente".to_string()));
    assert_eq!(store.get_meta("ghost"), (String::new(), String::new()));
}

#[test]
fn load_keeps_the_last_record_of_a_subdomain() {
    let rec = |t: &str, v: u64| SiteRecord {
        token: t.into(),
        created_at: 5,
        name: "n".into(),
        description: String::new(),
        visits: v,
    };
    let store = Store::load(
        "/d",
        "example.org",
        7,
        vec![("a".into(), rec("x", 1)), ("b".into(), rec("y", 2)), ("a".into(), rec("z", 3))],
    );
    assert_eq!(store.get_visits("a"), 3);
    assert_eq!(store.login("a", "z").as_deref(), Some("a"));
    assert_eq!(store.login("a", "x"), None);
    assert_eq!(store.records().len(), 2);
    assert_eq!(store.quota_bytes(), 7);
    assert_eq!(store.base_domain(), "example.org");
}

#[test]
fn host_names_select_sites() {
    let store = new_store();
    assert_eq!(store.subdomain_from_host("miosito.pages.hirpus").as_deref(), Some("miosito"));
    assert_eq!(store.subdomain_from_host("MioSito.Pages.Hirpus:8080").as_deref(), Some("miosito"));
    assert_eq!(store.subdomain_from_host("pages.hirpus"), None);
    assert_eq!(store.subdomain_from_host("a.b.pages.hirpus"), None);
    assert_eq!(store.subdomain_from_host("www.pages.hirpus"), None);
    assert_eq!(store.subdomain_from_host("miosito.example.org"), None);
    assert_eq!(store.subdomain_from_host(""), None);
    // a listed domain leads back to its site
    let mut store = store;
    store.signup("tornare", "", "").unwrap();
    let domain = store.recent_sites(1).remove(0).domain;
    assert_eq!(store.subdomain_from_host(&domain).as_deref(), Some("tornare"));
}

#[test]
fn recent_sites_newest_first() {
    let mut store = new_store();
    store.signup_with("vecchio", "", "", "t1".into(), 1).unwrap();
    store.signup_with("nuovo", "", "", "t2".into(), 9).unwrap();
    store.signup_with("medio", "", "", "t3".into(), 5).unwrap();
    assert_eq!(subs_of(store.recent_sites(10)), vec!["nuovo", "medio", "vecchio"]);
    assert_eq!(subs_of(store.recent_sites(1)), vec!["nuovo"]);
    let rows = store.admin_rows();
    let subs: Vec<&str> = rows.iter().map(|r| r.sub.as_str()).collect();
    assert_eq!(subs, vec!["medio", "nuovo", "vecchio"]);
    assert_eq!(store.site_domain("x"), "x.pages.hirpus");
}

#[test]
fn meta_cleaning() {
    assert_eq!(clean_meta("  Il   mio\tsito \n ", "fb"), "Il mio sito");
    assert_eq!(clean_meta(" \t ", "fb"), "fb");
    assert_eq!(clean_meta("a\u{7}b", "fb"), "ab");
    let long = "x".repeat(200);
    assert_eq!(clean_meta(&long, "fb"), "x".repeat(120));
}

#[test]
fn directory_listing_sorted_files_and_total() {
    let entries = vec![
        DirEntryInfo { name: "b.html".into(), len: 10, is_file: true },
        DirEntryInfo { name: "sub".into(), len: 4096, is_file: false },
        DirEntryInfo { name: "a.css".into(), len: 3, is_file: true },
    ];
    let (files, total) = dir_listing(&entries);
    assert_eq!(files, vec![("a.css".to_string(), 3), ("b.html".to_string(), 10)]);
    assert_eq!(total, 13);
    assert_eq!(dir_size(&entries), 13);
    assert_eq!(dir_listing(&vec![]), (vec![], 0));
}

#[test]
fn score_ignores_order_and_ascii_case_and_grows_with_words() {
    let e = SiteInfo {
        domain: "gatto.pages.hirpus".into(),
        name: "Il Gatto Nero".into(),
        description: "Un sito sui gatti e sulla pizza".into(),
        created_at: 0,
    };
    assert_eq!(
        score_doc(&e, &vec!["pizza".into(), "nero".into()]),
        score_doc(&e, &vec!["nero".into(), "pizza".into()])
    );
    assert_eq!(score_doc(&e, &vec!["GaTtO".into()]), score_doc(&e, &vec!["gatto".into()]));
    assert_eq!(score_doc(&e, &vec!["nero".into()]), Some(1));
    assert_eq!(score_doc(&e, &vec!["nero".into(), "pizza".into()]), Some(3));
    assert_eq!(score_doc(&e, &vec!["nero".into(), "cane".into()]), None);
}

#[test]
fn tokens_are_random_uuids() {
    let mut store = new_store();
    let (_, t) = store.signup("gettone", "", "").unwrap();
    let c: Vec<char> = t.chars().collect();
    assert_eq!(c[14], '4');
    assert!(['8', '9', 'a', 'b'].contains(&c[19]));
    assert_ne!(t, "00000000-0000-0000-0000-000000000000");
    let r = store.reset_token("gettone").unwrap();
    assert_eq!(r.chars().nth(14), Some('4'));
}

#[test]
fn blank_queries_of_any_length_list_recent_sites() {
    let mut store = new_store();
    store.signup_with("uno", "", "", "t1".into(), 1).unwrap();
    store.signup_with("due", "", "", "t2".into(), 2).unwrap();
    let blank = " \t ".repeat(1000);
    assert_eq!(subs_of(store.search(&blank, 10)), subs_of(store.recent_sites(10)));
}
