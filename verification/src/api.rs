//! What each endpoint of the platform's JSON API decides: who is asking,
//! which registry operation runs, and what is answered. Reading the
//! request and writing the response stay with the server.
use vstd::prelude::*;

use crate::auth::{
    admin_cookie, cookie_value, cookie_value_spec, current_user, current_user_spec,
    expired_cookie, law_session_cookie_authenticates, make_cookie, session_cookie,
};
use crate::outside::{is_uuid_text, is_v4_uuid_text, uuid_str_parses};
use crate::platform::App;
use crate::sanitize::{clean_upload_name, safe_file_name, stored_name, upload_name};
use crate::store::{
    clean_meta_spec, dir_listing, domain_of, file_listing, law_signup_then_login,
    lemma_subdomain_is_normal, login_spec, search_spec, subdomain_char_ok, subdomain_check,
    info_of, sub_order, total_size, valid_subdomain, AdminRow, DirEntryInfo, DirEntryView,
    RecordView, SiteInfo,
};
use crate::text::{
    ascii_lower, words, chars_of, decimal, decimal_digits, lemma_trim_idempotent, lemma_trim_lacks,
    string_of, trim, trim_chars,
};

verus! {

/// An error answer: an HTTP status and the message of its JSON body.
pub struct ApiError {
    pub status: u16,
    pub message: String,
}

/// The request carries a valid site session for this subdomain.
pub struct User(pub String);

/// The request carries the admin session.
pub struct Admin;

pub struct SignupBody {
    pub subdomain: String,
}

pub struct LoginBody {
    pub subdomain: String,
    pub token: String,
}

pub struct SitesQuery {
    pub q: Option<String>,
    pub limit: Option<usize>,
}

pub struct MetaBody {
    pub name: String,
    pub description: String,
}

pub struct DeleteFileBody {
    pub name: String,
}

pub struct AdminSubBody {
    pub sub: String,
    pub name: String,
    pub description: String,
}

/// A header value, if present, as text.
pub open spec fn header_view(h: Option<&str>) -> Option<Seq<char>> {
    match h {
        Some(s) => Some(s@),
        None => None,
    }
}

/// `e` is the error answer with this status and message.
pub open spec fn is_error(e: ApiError, status: u16, message: Seq<char>) -> bool {
    e.status == status && e.message@ == message
}

fn error(status: u16, message: &str) -> (e: ApiError)
    ensures
        is_error(e, status, message@),
{
    ApiError { status, message: String::from_str(message) }
}

/// The site a request's `Cookie` header is logged in as; 401 otherwise.
pub fn authenticate(app: &App, cookie: Option<&str>) -> (r: Result<User, ApiError>)
    requires
        app.store.wf(),
    ensures
        match current_user_spec(header_view(cookie), app.store.registry()) {
            Some(u) => r matches Ok(User(x)) && x@ == u,
            None => r matches Err(e) && is_error(e, 401, "non autenticato"@),
        },
{
    match current_user(cookie, &app.store) {
        Some(sub) => Ok(User(sub)),
        None => Err(error(401, "non autenticato")),
    }
}

/// Admin access: the panel is on and the `hcity_admin` cookie holds its
/// key; 401 otherwise.
pub fn authorize_admin(app: &App, cookie: Option<&str>) -> (r: Result<Admin, ApiError>)
    ensures
        (r is Ok) <==> (app.admin_key matches Some(k) && cookie_value_spec(
            header_view(cookie),
            "hcity_admin"@,
        ) == Some(k@)),
        r matches Err(e) ==> is_error(e, 401, "non autenticato"@),
{
    match &app.admin_key {
        Some(expected) => match cookie_value(cookie, "hcity_admin") {
            Some(v) => {
                if v == *expected {
                    Ok(Admin)
                } else {
                    Err(error(401, "non autenticato"))
                }
            },
            None => Err(error(401, "non autenticato")),
        },
        None => Err(error(401, "non autenticato")),
    }
}

/// What the session endpoint reports.
pub struct Session {
    pub sub: Option<String>,
    pub base_domain: String,
}

/// The logged-in site, if any, and the platform's base domain.
pub fn session(app: &App, cookie: Option<&str>) -> (r: Session)
    requires
        app.store.wf(),
    ensures
        match (r.sub, current_user_spec(header_view(cookie), app.store.registry())) {
            (Some(x), Some(y)) => x@ == y,
            (None, None) => true,
            _ => false,
        },
        r.base_domain@ == app.store.base(),
{
    let sub = current_user(cookie, &app.store);
    Session { sub, base_domain: String::from_str(app.store.base_domain()) }
}

/// A new site: its subdomain, token, domain and session cookie.
pub struct SignupReply {
    pub sub: String,
    pub token: String,
    pub domain: String,
    pub cookie: String,
}

/// Sign up a new site with a blank name and description. Refused (400)
/// while logged in, and with the registry's reason when the subdomain is
/// invalid or taken.
pub fn signup(app: &mut App, cookie: Option<&str>, body: &SignupBody) -> (r: Result<
    SignupReply,
    ApiError,
>)
    requires
        old(app).store.wf(),
    ensures
        final(app).store.wf(),
        final(app).store.same_settings(&old(app).store),
        final(app).assets_dir == old(app).assets_dir,
        final(app).admin_key == old(app).admin_key,
        ({
            let reg = old(app).store.registry();
            let s = ascii_lower(trim(body.subdomain@));
            if current_user_spec(header_view(cookie), reg) is Some {
                r matches Err(e) && is_error(e, 400, "sei già connesso"@)
                    && final(app).store.registry() == reg
            } else {
                match subdomain_check(s) {
                    Err(m) => r matches Err(e) && is_error(e, 400, m) && final(app).store.registry()
                        == reg,
                    Ok(_) => if reg.contains_key(s) {
                        r matches Err(e) && is_error(e, 400, "sottodominio già occupato"@)
                            && final(app).store.registry() == reg
                    } else {
                        r matches Ok(rep) && rep.sub@ == s && is_v4_uuid_text(rep.token@)
                            && uuid_str_parses(rep.token@)
                            && rep.domain@ == domain_of(s, old(app).store.base()) && rep.cookie@
                            == session_cookie(s, rep.token@) && final(app).store.registry()
                            == reg.insert(
                            s,
                            RecordView {
                                token: rep.token@,
                                created_at: final(app).store.registry()[s].created_at,
                                name: clean_meta_spec(""@, s),
                                description: clean_meta_spec(""@, ""@),
                                visits: 0,
                            },
                        )
                    },
                }
            }
        }),
{
    if current_user(cookie, &app.store).is_some() {
        return Err(error(400, "sei già connesso"));
    }
    match app.store.signup(body.subdomain.as_str(), "", "") {
        Ok((sub, token)) => {
            let domain = app.store.site_domain(sub.as_str());
            let cookie = make_cookie(sub.as_str(), token.as_str());
            Ok(SignupReply { sub, token, domain, cookie })
        },
        Err(m) => Err(ApiError { status: 400, message: m }),
    }
}

/// A successful login: the site and the session cookie to set before
/// sending the browser to its dashboard.
pub struct LoginReply {
    pub sub: String,
    pub cookie: String,
}

/// Log a site in with its subdomain and token. Refused (400) while logged
/// in; 401 when subdomain and token do not match.
pub fn login(app: &App, cookie: Option<&str>, body: &LoginBody) -> (r: Result<LoginReply, ApiError>)
    requires
        app.store.wf(),
    ensures
        ({
            let reg = app.store.registry();
            if current_user_spec(header_view(cookie), reg) is Some {
                r matches Err(e) && is_error(e, 400, "sei già connesso"@)
            } else {
                match login_spec(reg, body.subdomain@, body.token@) {
                    Some(s) => r matches Ok(rep) && rep.sub@ == s && rep.cookie@ == session_cookie(
                        s,
                        trim(body.token@),
                    ),
                    None => r matches Err(e) && is_error(e, 401, "sottodominio o chiave non validi"@),
                }
            }
        }),
{
    if current_user(cookie, &app.store).is_some() {
        return Err(error(400, "sei già connesso"));
    }
    match app.store.login(body.subdomain.as_str(), body.token.as_str()) {
        Some(sub) => {
            let tc = chars_of(body.token.as_str());
            let tt = trim_chars(&tc);
            let token = string_of(&tt);
            let cookie = make_cookie(sub.as_str(), token.as_str());
            Ok(LoginReply { sub, cookie })
        },
        None => Err(error(401, "sottodominio o chiave non validi")),
    }
}

/// The cookie that ends a site session.
pub fn logout() -> (r: String)
    ensures
        r@ == "hcity=; Path=/; HttpOnly; SameSite=Lax; Max-Age=0"@,
{
    let r = expired_cookie("hcity");
    proof {
        reveal_strlit("hcity");
        reveal_strlit("=; Path=/; HttpOnly; SameSite=Lax; Max-Age=0");
        reveal_strlit("hcity=; Path=/; HttpOnly; SameSite=Lax; Max-Age=0");
        assert(r@ =~= "hcity=; Path=/; HttpOnly; SameSite=Lax; Max-Age=0"@);
    }
    r
}

/// How many results a listing page holds: 50 unless asked, at most 500.
pub open spec fn page_limit(limit: Option<usize>) -> int {
    match limit {
        Some(n) => if n < 500 {
            n as int
        } else {
            500
        },
        None => 50,
    }
}

/// The text of an optional query parameter; empty when absent.
pub open spec fn query_text(q: Option<String>) -> Seq<char> {
    match q {
        Some(s) => s@,
        None => Seq::empty(),
    }
}

/// The public site listing: the sites matching the query, best first, one
/// page of them.
pub fn sites(app: &App, params: &SitesQuery) -> (r: Vec<SiteInfo>)
    requires
        app.store.wf(),
        words(query_text(params.q)).len() <= 1431655765,
    ensures
        r@.map_values(|i: SiteInfo| i@) == search_spec(
            app.store.registry(),
            app.store.base(),
            query_text(params.q),
            page_limit(params.limit),
        ),
{
    let limit: usize = match params.limit {
        Some(n) => if n < 500 {
            n
        } else {
            500
        },
        None => 50,
    };
    match &params.q {
        Some(q) => app.store.search(q.as_str(), limit),
        None => {
            let empty = String::new();
            assert(empty@ == Seq::<char>::empty());
            app.store.search(empty.as_str(), limit)
        },
    }
}

/// What the dashboard shows of the logged-in site.
pub struct MeReply {
    pub sub: String,
    pub domain: String,
    pub name: String,
    pub description: String,
    pub quota_bytes: u64,
    pub used_bytes: u64,
    pub visits: u64,
    pub files: Vec<(String, u64)>,
}

/// The dashboard data of the logged-in site, given what its directory
/// holds.
pub fn me(app: &App, user: &User, entries: &Vec<DirEntryInfo>) -> (r: MeReply)
    requires
        app.store.wf(),
        forall|i: int, j: int|
            0 <= i < entries@.len() && 0 <= j < entries@.len() && i != j ==> entries@[i].name@
                != entries@[j].name@,
        total_size(entries@.map_values(|e: DirEntryInfo| e@)) <= u64::MAX,
    ensures
        ({
            let reg = app.store.registry();
            let sub = user.0@;
            &&& r.sub@ == sub
            &&& r.domain@ == domain_of(sub, app.store.base())
            &&& reg.contains_key(sub) ==> r.name@ == reg[sub].name && r.description@
                == reg[sub].description && r.visits == reg[sub].visits
            &&& !reg.contains_key(sub) ==> r.name@.len() == 0 && r.description@.len() == 0
                && r.visits == 0
            &&& r.quota_bytes == app.store.quota()
            &&& r.used_bytes == total_size(entries@.map_values(|e: DirEntryInfo| e@))
            &&& r.files@.map_values(|f: (String, u64)| (f.0@, f.1)) == file_listing(
                entries@.map_values(|e: DirEntryInfo| e@),
            )
        }),
{
    let sub = user.0.as_str();
    let (name, description) = app.store.get_meta(sub);
    let visits = app.store.get_visits(sub);
    let (files, used_bytes) = dir_listing(entries);
    MeReply {
        sub: String::from_str(sub),
        domain: app.store.site_domain(sub),
        name,
        description,
        quota_bytes: app.store.quota_bytes(),
        used_bytes,
        visits,
        files,
    }
}

/// Set the name and description of the logged-in site.
pub fn update_meta(app: &mut App, user: &User, body: &MetaBody)
    requires
        old(app).store.wf(),
    ensures
        final(app).store.wf(),
        final(app).store.same_settings(&old(app).store),
        final(app).assets_dir == old(app).assets_dir,
        final(app).admin_key == old(app).admin_key,
        ({
            let reg = old(app).store.registry();
            let sub = user.0@;
            final(app).store.registry() == (if reg.contains_key(sub) {
                reg.insert(
                    sub,
                    RecordView {
                        name: clean_meta_spec(body.name@, sub),
                        description: clean_meta_spec(body.description@, ""@),
                        ..reg[sub]
                    },
                )
            } else {
                reg
            })
        }),
{
    app.store.update_meta(user.0.as_str(), body.name.as_str(), body.description.as_str());
}

/// Delete the logged-in site; on success the cookie that ends its
/// session, else 404 with the registry's reason.
pub fn delete_me(app: &mut App, user: &User) -> (r: Result<String, ApiError>)
    requires
        old(app).store.wf(),
    ensures
        final(app).store.wf(),
        final(app).store.same_settings(&old(app).store),
        final(app).assets_dir == old(app).assets_dir,
        final(app).admin_key == old(app).admin_key,
        ({
            let reg = old(app).store.registry();
            let sub = user.0@;
            if reg.contains_key(sub) {
                r matches Ok(c) && c@ == "hcity=; Path=/; HttpOnly; SameSite=Lax; Max-Age=0"@
                    && final(app).store.registry() == reg.remove(sub)
            } else {
                r matches Err(e) && is_error(e, 404, "sito inesistente"@)
                    && final(app).store.registry() == reg
            }
        }),
{
    match app.store.delete_site(user.0.as_str()) {
        Ok(_) => Ok(logout()),
        Err(m) => Err(ApiError { status: 404, message: m }),
    }
}

/// The message for an upload whose name or type is refused.
pub open spec fn refused_upload_message(raw: Seq<char>) -> Seq<char> {
    raw + ": nome o tipo non ammesso (solo html/htm/css/png/jpg/jpeg/gif/webp/svg/ico)"@
}

/// The name an uploaded file is stored under, or the message that
/// refuses it.
pub fn upload_target(raw_name: &str) -> (r: Result<String, String>)
    ensures
        match upload_name(raw_name@) {
            Some(n) => r matches Ok(x) && x@ == n,
            None => r matches Err(m) && m@ == refused_upload_message(raw_name@),
        },
{
    match clean_upload_name(raw_name) {
        Some(c) => Ok(c),
        None => {
            let mut m = String::from_str(raw_name);
            m.append(": nome o tipo non ammesso (solo html/htm/css/png/jpg/jpeg/gif/webp/svg/ico)");
            Err(m)
        },
    }
}

/// Whether an upload of `len` bytes fits a site that already uses `used`
/// bytes: an empty file and one beyond the quota are refused, each with
/// its message.
pub fn upload_fits(app: &App, clean: &str, len: u64, used: u64) -> (r: Result<(), String>)
    ensures
        len == 0 ==> (r matches Err(m) && m@ == empty_file_message(clean@)),
        len > 0 && used + len > app.store.quota() ==> (r matches Err(m) && m@ == over_quota_message(
            clean@,
            app.store.quota(),
        )),
        len > 0 && used + len <= app.store.quota() ==> r is Ok,
{
    if len == 0 {
        let mut m = String::from_str(clean);
        m.append(": file vuoto");
        return Err(m);
    }
    let quota = app.store.quota_bytes();
    if len > quota || used > quota - len {
        let mut m = String::from_str(clean);
        m.append(": quota superata (limite ");
        let digits = decimal_digits(quota);
        let d = string_of(&digits);
        m.append(d.as_str());
        m.append(" byte)");
        return Err(m);
    }
    Ok(())
}

/// Progress of a multi-file upload: how many files were stored, and one
/// message per file that was not.
pub struct UploadProgress {
    pub saved: usize,
    pub errors: Vec<String>,
}

/// What the server learned while receiving an upload.
pub enum UploadEvent {
    /// The next part arrived, with the file name the client gave, if any.
    Part(Option<String>),
    /// The body of the part to be stored as `name` was read: `len` bytes,
    /// while the site's directory holds `used` bytes.
    BodyRead { name: String, len: u64, used: u64 },
    /// The body of the part to be stored as `name` could not be read.
    BodyUnreadable { name: String, reason: String },
    /// The file `name` was written.
    Stored(String),
    /// Writing the file `name` failed.
    StoreFailed { name: String, reason: String },
}

/// What the server does next for an upload.
pub enum UploadAction {
    /// Go on with the next part.
    Next,
    /// Read this part's body; it is to be stored under this name.
    ReadBody(String),
    /// Write the body just read under this name.
    Store(String),
}

/// The message for a part whose body could not be read.
pub open spec fn unreadable_message(name: Seq<char>, reason: Seq<char>) -> Seq<char> {
    name + ": errore di lettura ("@ + reason + ")"@
}

/// The message for a file that could not be written.
pub open spec fn unwritable_message(name: Seq<char>, reason: Seq<char>) -> Seq<char> {
    name + ": scrittura fallita ("@ + reason + ")"@
}

/// The message for an empty file.
pub open spec fn empty_file_message(name: Seq<char>) -> Seq<char> {
    name + ": file vuoto"@
}

/// The message for a file beyond the quota.
pub open spec fn over_quota_message(name: Seq<char>, quota: u64) -> Seq<char> {
    name + ": quota superata (limite "@ + decimal(quota as nat) + " byte)"@
}

/// Whether a body of `len` bytes may be stored in a site whose files
/// already take `used` bytes: it is not empty and fits the quota.
pub open spec fn upload_admits(quota: u64, used: int, len: u64) -> bool {
    len > 0 && used + len <= quota
}

/// A directory listing without the entries named `name`.
pub open spec fn without_name(entries: Seq<DirEntryView>, name: Seq<char>) -> Seq<DirEntryView>
    decreases entries.len(),
{
    if entries.len() == 0 {
        entries
    } else if entries.last().name == name {
        without_name(entries.drop_last(), name)
    } else {
        without_name(entries.drop_last(), name).push(entries.last())
    }
}

/// The directory after `len` bytes were written as the regular file
/// `name`: an entry of that name is replaced, or else one is added.
pub open spec fn after_write(entries: Seq<DirEntryView>, name: Seq<char>, len: u64) -> Seq<DirEntryView> {
    without_name(entries, name).push(DirEntryView { name, len, is_file: true })
}

proof fn lemma_without_name_total(entries: Seq<DirEntryView>, name: Seq<char>)
    ensures
        total_size(without_name(entries, name)) <= total_size(entries),
    decreases entries.len(),
{
    if entries.len() > 0 {
        lemma_without_name_total(entries.drop_last(), name);
        if entries.last().name != name {
            let w = without_name(entries.drop_last(), name).push(entries.last());
            assert(w.drop_last() =~= without_name(entries.drop_last(), name));
        }
    }
}

/// An upload never takes a site beyond its quota: from files within the
/// quota, storing what `upload` admits (adding a file or replacing one)
/// leaves them within it, and what it refuses changes nothing.
pub proof fn law_upload_keeps_quota(quota: u64, entries: Seq<DirEntryView>, name: Seq<char>, len: u64)
    requires
        total_size(entries) <= quota,
    ensures
        total_size(
            if upload_admits(quota, total_size(entries) as int, len) {
                after_write(entries, name, len)
            } else {
                entries
            },
        ) <= quota,
{
    lemma_without_name_total(entries, name);
    let w = after_write(entries, name, len);
    assert(w.drop_last() =~= without_name(entries, name));
}

/// One step of an upload: parts without a file name are skipped, a part
/// whose name or type is refused is reported and skipped, an accepted one
/// is read, then stored when it is not empty and fits the quota; every
/// refusal and failure adds its message, every stored file counts.
pub fn upload(app: &App, progress: &mut UploadProgress, event: UploadEvent) -> (action: UploadAction)
    requires
        event is Stored ==> old(progress).saved < usize::MAX,
    ensures
        ({
            let saved0 = old(progress).saved;
            let errs0 = old(progress).errors@;
            let saved = final(progress).saved;
            let errs = final(progress).errors@.map_values(|m: String| m@);
            let before = errs0.map_values(|m: String| m@);
            match event {
                UploadEvent::Part(None) => action is Next && saved == saved0 && errs == before,
                UploadEvent::Part(Some(raw)) => saved == saved0 && match upload_name(raw@) {
                    Some(n) => (action matches UploadAction::ReadBody(x) && x@ == n)
                        && errs == before,
                    None => action is Next && errs == before.push(refused_upload_message(raw@)),
                },
                UploadEvent::BodyRead { name, len, used } => saved == saved0 && if upload_admits(
                    app.store.quota(),
                    used as int,
                    len,
                ) {
                    (action matches UploadAction::Store(x) && x@ == name@) && errs == before
                } else if len == 0 {
                    action is Next && errs == before.push(empty_file_message(name@))
                } else {
                    action is Next && errs == before.push(
                        over_quota_message(name@, app.store.quota()),
                    )
                },
                UploadEvent::BodyUnreadable { name, reason } => action is Next && saved == saved0
                    && errs == before.push(unreadable_message(name@, reason@)),
                UploadEvent::Stored(_) => action is Next && saved == saved0 + 1 && errs == before,
                UploadEvent::StoreFailed { name, reason } => action is Next && saved == saved0
                    && errs == before.push(unwritable_message(name@, reason@)),
            }
        }),
{
    let ghost before = old(progress).errors@.map_values(|m: String| m@);
    match event {
        UploadEvent::Part(None) => UploadAction::Next,
        UploadEvent::Part(Some(raw)) => match upload_target(raw.as_str()) {
            Ok(name) => UploadAction::ReadBody(name),
            Err(m) => {
                progress.errors.push(m);
                assert(progress.errors@.map_values(|m: String| m@) =~= before.push(
                    refused_upload_message(raw@),
                ));
                UploadAction::Next
            },
        },
        UploadEvent::BodyRead { name, len, used } => match upload_fits(app, name.as_str(), len, used) {
            Ok(()) => UploadAction::Store(name),
            Err(m) => {
                progress.errors.push(m);
                assert(progress.errors@.map_values(|m: String| m@) =~= before.push(
                    if len == 0 {
                        empty_file_message(name@)
                    } else {
                        over_quota_message(name@, app.store.quota())
                    },
                ));
                UploadAction::Next
            },
        },
        UploadEvent::BodyUnreadable { name, reason } => {
            let mut m = name;
            m.append(": errore di lettura (");
            m.append(reason.as_str());
            m.append(")");
            progress.errors.push(m);
            assert(progress.errors@.map_values(|m: String| m@) =~= before.push(
                unreadable_message(name@, reason@),
            ));
            UploadAction::Next
        },
        UploadEvent::Stored(_) => {
            progress.saved = progress.saved + 1;
            UploadAction::Next
        },
        UploadEvent::StoreFailed { name, reason } => {
            let mut m = name;
            m.append(": scrittura fallita (");
            m.append(reason.as_str());
            m.append(")");
            progress.errors.push(m);
            assert(progress.errors@.map_values(|m: String| m@) =~= before.push(
                unwritable_message(name@, reason@),
            ));
            UploadAction::Next
        },
    }
}

/// The stored file a delete request names; 400 for a name no upload could
/// have been stored under.
pub fn delete_file(body: &DeleteFileBody) -> (r: Result<String, ApiError>)
    ensures
        match stored_name(body.name@) {
            Some(n) => r matches Ok(x) && x@ == n,
            None => r matches Err(e) && is_error(e, 400, "percorso non valido"@),
        },
{
    match safe_file_name(body.name.as_str()) {
        Some(n) => Ok(n),
        None => Err(error(400, "percorso non valido")),
    }
}

/// The answer to a delete request for a file the site does not have.
pub fn file_not_found() -> (e: ApiError)
    ensures
        is_error(e, 404, "file non trovato"@),
{
    error(404, "file non trovato")
}

/// Admin login: with the panel on and the right key, the admin session
/// cookie; 401 otherwise.
pub fn admin_login(app: &App, body: &LoginBody) -> (r: Result<String, ApiError>)
    ensures
        match app.admin_key {
            Some(k) => if body.token@ == k@ {
                r matches Ok(c) && c@ == "hcity_admin="@ + k@
                    + "; Path=/; HttpOnly; SameSite=Lax; Max-Age=2592000"@
            } else {
                r matches Err(e) && is_error(e, 401, "chiave sbagliata"@)
            },
            None => r matches Err(e) && is_error(e, 401, "chiave sbagliata"@),
        },
{
    match &app.admin_key {
        Some(expected) => {
            if body.token == *expected {
                Ok(admin_cookie(expected.as_str()))
            } else {
                Err(error(401, "chiave sbagliata"))
            }
        },
        None => Err(error(401, "chiave sbagliata")),
    }
}

/// The cookie that ends the admin session.
pub fn admin_logout() -> (r: String)
    ensures
        r@ == "hcity_admin=; Path=/; HttpOnly; SameSite=Lax; Max-Age=0"@,
{
    let r = expired_cookie("hcity_admin");
    proof {
        reveal_strlit("hcity_admin");
        reveal_strlit("=; Path=/; HttpOnly; SameSite=Lax; Max-Age=0");
        reveal_strlit("hcity_admin=; Path=/; HttpOnly; SameSite=Lax; Max-Age=0");
        assert(r@ =~= "hcity_admin=; Path=/; HttpOnly; SameSite=Lax; Max-Age=0"@);
    }
    r
}

/// Every site for the admin overview, by subdomain, with its listing
/// entry and visit count.
pub fn admin_sites(app: &App, _admin: &Admin) -> (r: Vec<AdminRow>)
    requires
        app.store.wf(),
    ensures
        r@.len() == sub_order(app.store.registry()).len(),
        forall|i: int|
            0 <= i < r@.len() ==> {
                let reg = app.store.registry();
                let k = sub_order(reg)[i];
                &&& #[trigger] r@[i].sub@ == k
                &&& r@[i].info@ == info_of(k, reg[k], app.store.base())
                &&& r@[i].visits == reg[k].visits
            },
{
    app.store.admin_rows()
}

/// The subdomain an admin request is about, trimmed; 400 when blank.
pub fn admin_target(body: &AdminSubBody) -> (r: Result<String, ApiError>)
    ensures
        trim(body.sub@).len() == 0 ==> (r matches Err(e) && is_error(
            e,
            400,
            "sottodominio mancante"@,
        )),
        trim(body.sub@).len() > 0 ==> (r matches Ok(s) && s@ == trim(body.sub@)),
{
    let c = chars_of(body.sub.as_str());
    let t = trim_chars(&c);
    if t.len() == 0 {
        return Err(error(400, "sottodominio mancante"));
    }
    Ok(string_of(&t))
}

/// Set the name and description of any site (admin).
pub fn admin_meta(app: &mut App, _admin: &Admin, body: &AdminSubBody) -> (r: Result<(), ApiError>)
    requires
        old(app).store.wf(),
    ensures
        final(app).store.wf(),
        final(app).store.same_settings(&old(app).store),
        final(app).assets_dir == old(app).assets_dir,
        final(app).admin_key == old(app).admin_key,
        ({
            let reg = old(app).store.registry();
            let sub = trim(body.sub@);
            if sub.len() == 0 {
                r matches Err(e) && is_error(e, 400, "sottodominio mancante"@)
                    && final(app).store.registry() == reg
            } else {
                r is Ok && final(app).store.registry() == (if reg.contains_key(sub) {
                    reg.insert(
                        sub,
                        RecordView {
                            name: clean_meta_spec(body.name@, sub),
                            description: clean_meta_spec(body.description@, ""@),
                            ..reg[sub]
                        },
                    )
                } else {
                    reg
                })
            }
        }),
{
    let sub = match admin_target(body) {
        Ok(s) => s,
        Err(e) => return Err(e),
    };
    app.store.update_meta(sub.as_str(), body.name.as_str(), body.description.as_str());
    Ok(())
}

/// Give a site a fresh token (admin); the site and its new token, or 404.
pub fn admin_reset_key(app: &mut App, _admin: &Admin, body: &AdminSubBody) -> (r: Result<
    (String, String),
    ApiError,
>)
    requires
        old(app).store.wf(),
    ensures
        final(app).store.wf(),
        final(app).store.same_settings(&old(app).store),
        final(app).assets_dir == old(app).assets_dir,
        final(app).admin_key == old(app).admin_key,
        ({
            let reg = old(app).store.registry();
            let sub = trim(body.sub@);
            if sub.len() == 0 {
                r matches Err(e) && is_error(e, 400, "sottodominio mancante"@)
                    && final(app).store.registry() == reg
            } else if reg.contains_key(sub) {
                r matches Ok((s, t)) && s@ == sub && is_v4_uuid_text(t@) && uuid_str_parses(t@)
                    && final(app).store.registry() == reg.insert(
                    sub,
                    RecordView { token: t@, ..reg[sub] },
                )
            } else {
                r matches Err(e) && is_error(e, 404, "sito inesistente"@)
                    && final(app).store.registry() == reg
            }
        }),
{
    let sub = match admin_target(body) {
        Ok(s) => s,
        Err(e) => return Err(e),
    };
    match app.store.reset_token(sub.as_str()) {
        Ok(t) => Ok((sub, t)),
        Err(m) => Err(ApiError { status: 404, message: m }),
    }
}

/// Delete any site (admin); 404 for an unknown one.
pub fn admin_delete(app: &mut App, _admin: &Admin, body: &AdminSubBody) -> (r: Result<(), ApiError>)
    requires
        old(app).store.wf(),
    ensures
        final(app).store.wf(),
        final(app).store.same_settings(&old(app).store),
        final(app).assets_dir == old(app).assets_dir,
        final(app).admin_key == old(app).admin_key,
        ({
            let reg = old(app).store.registry();
            let sub = trim(body.sub@);
            if sub.len() == 0 {
                r matches Err(e) && is_error(e, 400, "sottodominio mancante"@)
                    && final(app).store.registry() == reg
            } else if reg.contains_key(sub) {
                r is Ok && final(app).store.registry() == reg.remove(sub)
            } else {
                r matches Err(e) && is_error(e, 404, "sito inesistente"@)
                    && final(app).store.registry() == reg
            }
        }),
{
    let sub = match admin_target(body) {
        Ok(s) => s,
        Err(e) => return Err(e),
    };
    match app.store.delete_site(sub.as_str()) {
        Ok(_) => Ok(()),
        Err(m) => Err(ApiError { status: 404, message: m }),
    }
}

/// The cookie a signup hands out is a session of the new site: sent back
/// in a `Cookie` header it authenticates exactly that site.
pub proof fn law_signup_cookie_logs_in(reg: Map<Seq<char>, RecordView>, s: Seq<char>, rec: RecordView)
    requires
        valid_subdomain(s),
        is_uuid_text(rec.token),
    ensures
        current_user_spec(Some(session_cookie(s, rec.token)), reg.insert(s, rec)) == Some(s),
{
    assert(!s.contains(';') && !s.contains(':')) by {
        if s.contains(';') || s.contains(':') {
            let i = choose|i: int| 0 <= i < s.len() && (s[i] == ';' || s[i] == ':');
            assert(subdomain_char_ok(s[i]));
        }
    }
    assert(!rec.token.contains(';')) by {
        if rec.token.contains(';') {
            let i = choose|i: int| 0 <= i < rec.token.len() && rec.token[i] == ';';
            assert(rec.token[i] == ';');
        }
    }
    law_session_cookie_authenticates(reg.insert(s, rec), s, rec.token);
    law_signup_then_login(reg, s, rec);
}

/// The cookie a login hands out is a session of that site: sent back in a
/// `Cookie` header it authenticates the site the login was for.
pub proof fn law_login_cookie_logs_in(
    reg: Map<Seq<char>, RecordView>,
    sub: Seq<char>,
    token: Seq<char>,
    s: Seq<char>,
)
    requires
        login_spec(reg, sub, token) == Some(s),
        valid_subdomain(s),
        !token.contains(';'),
    ensures
        current_user_spec(Some(session_cookie(s, trim(token))), reg) == Some(s),
{
    assert(!s.contains(';') && !s.contains(':')) by {
        if s.contains(';') || s.contains(':') {
            let i = choose|i: int| 0 <= i < s.len() && (s[i] == ';' || s[i] == ':');
            assert(subdomain_char_ok(s[i]));
        }
    }
    lemma_trim_lacks(token, ';');
    law_session_cookie_authenticates(reg, s, trim(token));
    lemma_trim_idempotent(token);
    lemma_subdomain_is_normal(s);
}

} // verus!
