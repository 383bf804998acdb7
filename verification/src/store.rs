//! The site registry: one record per subdomain, the single source of truth
//! from which listings and search results are derived.
use vstd::prelude::*;

use crate::outside::{
    is_lower_hex, is_uuid_text, is_v4_uuid_text, new_uuid_text, now_unix, to_lowercase,
    unicode_lowercase, uuid_str_parses,
};
use crate::rank::{
    cand_lt, is_strict_order, is_total, lemma_sorted_exists, lemma_sorted_unique, rank_candidates,
    strictly_sorted, views,
    Candidate, CandidateView,
};
use crate::text::{
    ascii_lower, ascii_lowercase, ascii_upper, is_ascii_text, lemma_ascii_upper_then_lower, char_is_ascii_alnum, char_is_control, chars_of, ends_with,
    is_ascii_alnum, is_ascii_digit, is_ascii_lower, is_control, join, join_words, seq_eq, split_ws,
    string_of, trim, trim_chars, utf8_longer_than, words, contains_chars, contains_seq, str_lt,
    lemma_str_lt_irreflexive, lemma_str_lt_total, lemma_str_lt_transitive, is_ws, trim_end, trim_start,
};
use vstd::utf8::encode_utf8;

verus! {

/// A registered site, as stored in the registry.
pub struct SiteRecord {
    pub token: String,
    pub created_at: i64,
    pub name: String,
    pub description: String,
    pub visits: u64,
}

pub struct RecordView {
    pub token: Seq<char>,
    pub created_at: i64,
    pub name: Seq<char>,
    pub description: Seq<char>,
    pub visits: u64,
}

impl View for SiteRecord {
    type V = RecordView;

    open spec fn view(&self) -> RecordView {
        RecordView {
            token: self.token@,
            created_at: self.created_at,
            name: self.name@,
            description: self.description@,
            visits: self.visits,
        }
    }
}

impl SiteRecord {
    /// A field-by-field copy.
    pub fn duplicate(&self) -> (r: SiteRecord)
        ensures
            r@ == self@,
    {
        SiteRecord {
            token: self.token.clone(),
            created_at: self.created_at,
            name: self.name.clone(),
            description: self.description.clone(),
            visits: self.visits,
        }
    }
}

/// How a site appears in listings and search results.
pub struct SiteInfo {
    pub domain: String,
    pub name: String,
    pub description: String,
    pub created_at: i64,
}

pub struct InfoView {
    pub domain: Seq<char>,
    pub name: Seq<char>,
    pub description: Seq<char>,
    pub created_at: i64,
}

impl View for SiteInfo {
    type V = InfoView;

    open spec fn view(&self) -> InfoView {
        InfoView {
            domain: self.domain@,
            name: self.name@,
            description: self.description@,
            created_at: self.created_at,
        }
    }
}

impl SiteInfo {
    /// A field-by-field copy.
    pub fn duplicate(&self) -> (r: SiteInfo)
        ensures
            r@ == self@,
    {
        SiteInfo {
            domain: self.domain.clone(),
            name: self.name.clone(),
            description: self.description.clone(),
            created_at: self.created_at,
        }
    }
}

/// The full domain of a subdomain.
pub open spec fn domain_of(sub: Seq<char>, base: Seq<char>) -> Seq<char> {
    sub.push('.') + base
}

/// The listing entry of a registered site.
pub open spec fn info_of(sub: Seq<char>, r: RecordView, base: Seq<char>) -> InfoView {
    InfoView {
        domain: domain_of(sub, base),
        name: r.name,
        description: r.description,
        created_at: r.created_at,
    }
}

// ---------------------------------------------------------------------------
// Subdomain rules
// ---------------------------------------------------------------------------
pub open spec fn subdomain_char_ok(c: char) -> bool {
    is_ascii_lower(c) || is_ascii_digit(c) || c == '-'
}

pub open spec fn reserved_subdomain(s: Seq<char>) -> bool {
    ||| s == "www"@
    ||| s == "admin"@
    ||| s == "api"@
    ||| s == "mail"@
    ||| s == "smtp"@
    ||| s == "ftp"@
    ||| s == "ns1"@
    ||| s == "ns2"@
    ||| s == "root"@
    ||| s == "pages"@
    ||| s == "hirpuscity"@
}

/// The first rule a candidate subdomain breaks, with its message; the
/// length limit counts UTF-8 bytes.
pub open spec fn subdomain_check(s: Seq<char>) -> Result<(), Seq<char>> {
    if s.len() == 0 {
        Err("sottodominio vuoto"@)
    } else if encode_utf8(s).len() > 63 {
        Err("sottodominio troppo lungo (max 63 caratteri)"@)
    } else if !(forall|i: int| 0 <= i < s.len() ==> subdomain_char_ok(#[trigger] s[i])) {
        Err("ammesse solo lettere minuscole, cifre e trattini"@)
    } else if !is_ascii_alnum(s[0]) || !is_ascii_alnum(s.last()) {
        Err("deve iniziare e finire con lettera o cifra"@)
    } else if reserved_subdomain(s) {
        Err("sottodominio riservato"@)
    } else {
        Ok(())
    }
}

pub open spec fn valid_subdomain(s: Seq<char>) -> bool {
    subdomain_check(s) is Ok
}

/// The subdomain alphabet: a valid subdomain holds only `a`-`z`, `0`-`9`
/// and `-`; a non-empty one of at most 63 UTF-8 bytes holding any other
/// character is refused for exactly that reason.
pub proof fn law_subdomain_alphabet(s: Seq<char>)
    ensures
        valid_subdomain(s) ==> forall|i: int|
            0 <= i < s.len() ==> ('a' <= #[trigger] s[i] <= 'z') || ('0' <= s[i] <= '9') || s[i]
                == '-',
        (s.len() > 0 && encode_utf8(s).len() <= 63 && exists|i: int|
            0 <= i < s.len() && !(('a' <= #[trigger] s[i] <= 'z') || ('0' <= s[i] <= '9') || s[i]
                == '-')) ==> subdomain_check(s) == Err::<(), Seq<char>>(
            "ammesse solo lettere minuscole, cifre e trattini"@,
        ),
{
    if s.len() > 0 && encode_utf8(s).len() <= 63 && exists|i: int|
        0 <= i < s.len() && !(('a' <= #[trigger] s[i] <= 'z') || ('0' <= s[i] <= '9') || s[i] == '-') {
        let i = choose|i: int|
            0 <= i < s.len() && !(('a' <= #[trigger] s[i] <= 'z') || ('0' <= s[i] <= '9') || s[i]
                == '-');
        assert(!subdomain_char_ok(s[i]));
    }
    if valid_subdomain(s) {
        assert forall|i: int| 0 <= i < s.len() implies ('a' <= #[trigger] s[i] <= 'z') || ('0'
            <= s[i] <= '9') || s[i] == '-' by {
            assert(subdomain_char_ok(s[i]));
        }
    }
}

fn char_subdomain_ok(c: char) -> (b: bool)
    ensures
        b == subdomain_char_ok(c),
{
    ('a' <= c && c <= 'z') || ('0' <= c && c <= '9') || c == '-'
}

fn eq_lit(a: &str, lit: &str) -> (b: bool)
    ensures
        b == (a@ == lit@),
{
    let x = chars_of(a);
    let y = chars_of(lit);
    seq_eq(&x, &y)
}

fn is_reserved(sub: &str) -> (b: bool)
    ensures
        b == reserved_subdomain(sub@),
{
    eq_lit(sub, "www") || eq_lit(sub, "admin") || eq_lit(sub, "api") || eq_lit(sub, "mail")
        || eq_lit(sub, "smtp") || eq_lit(sub, "ftp") || eq_lit(sub, "ns1") || eq_lit(sub, "ns2")
        || eq_lit(sub, "root") || eq_lit(sub, "pages") || eq_lit(sub, "hirpuscity")
}

/// Check a candidate subdomain; the error names the first rule it breaks.
pub fn validate_subdomain(sub: &str) -> (r: Result<(), &'static str>)
    ensures
        match (r, subdomain_check(sub@)) {
            (Ok(()), Ok(())) => true,
            (Err(m), Err(e)) => m@ == e,
            _ => false,
        },
{
    let chars = chars_of(sub);
    if chars.len() == 0 {
        return Err("sottodominio vuoto");
    }
    if utf8_longer_than(&chars, 63) {
        return Err("sottodominio troppo lungo (max 63 caratteri)");
    }
    let mut i: usize = 0;
    while i < chars.len()
        invariant
            i <= chars.len(),
            chars@ == sub@,
            chars@.len() > 0,
            encode_utf8(sub@).len() <= 63,
            forall|k: int| 0 <= k < i ==> subdomain_char_ok(#[trigger] chars@[k]),
        decreases chars.len() - i,
    {
        if !char_subdomain_ok(chars[i]) {
            assert(!subdomain_char_ok(sub@[i as int]));
            assert(!(forall|k: int| 0 <= k < sub@.len() ==> subdomain_char_ok(#[trigger] sub@[k])));
            return Err("ammesse solo lettere minuscole, cifre e trattini");
        }
        i += 1;
    }
    if !char_is_ascii_alnum(chars[0]) || !char_is_ascii_alnum(chars[chars.len() - 1]) {
        return Err("deve iniziare e finire con lettera o cifra");
    }
    if is_reserved(sub) {
        return Err("sottodominio riservato");
    }
    Ok(())
}

// ---------------------------------------------------------------------------
// Site metadata
// ---------------------------------------------------------------------------
/// A site name or description as stored: whitespace runs collapsed to one
/// space, control characters dropped, cut to 120 characters and trimmed;
/// the fallback when nothing is left.
pub open spec fn clean_meta_spec(input: Seq<char>, fallback: Seq<char>) -> Seq<char> {
    let joined = join(words(input), ' ');
    let visible = joined.filter(|c: char| !is_control(c));
    let cut = if visible.len() <= 120 {
        visible
    } else {
        visible.take(120)
    };
    let t = trim(cut);
    if t.len() == 0 {
        fallback
    } else {
        t
    }
}

pub fn clean_meta(input: &str, fallback: &str) -> (r: String)
    ensures
        r@ == clean_meta_spec(input@, fallback@),
{
    let chars = chars_of(input);
    let ws = split_ws(&chars);
    assert(ws@.map_values(|w: Vec<char>| w@) =~= words(input@));
    let joined = join_words(&ws);
    let mut visible: Vec<char> = Vec::new();
    let mut i: usize = 0;
    while i < joined.len()
        invariant
            i <= joined.len(),
            visible@ == joined@.take(i as int).filter(|c: char| !is_control(c)),
        decreases joined.len() - i,
    {
        let c = joined[i];
        proof {
            reveal(Seq::filter);
        }
        assert(joined@.take(i + 1).drop_last() =~= joined@.take(i as int));
        assert(joined@.take(i + 1).last() == c);
        if !char_is_control(c) {
            visible.push(c);
            assert(joined@.take(i + 1).filter(|c: char| !is_control(c)) == joined@.take(
                i as int,
            ).filter(|c: char| !is_control(c)).push(c));
        } else {
            assert(joined@.take(i + 1).filter(|c: char| !is_control(c)) == joined@.take(
                i as int,
            ).filter(|c: char| !is_control(c)));
        }
        i += 1;
    }
    assert(joined@.take(joined.len() as int) =~= joined@);
    let mut cut: Vec<char> = Vec::new();
    let mut j: usize = 0;
    while j < visible.len() && j < 120
        invariant
            j <= visible.len(),
            j <= 120,
            cut@ == visible@.take(j as int),
        decreases visible.len() - j,
    {
        cut.push(visible[j]);
        j += 1;
        assert(cut@ =~= visible@.take(j as int));
    }
    if visible.len() <= 120 {
        assert(cut@ =~= visible@);
    }
    let t = trim_chars(&cut);
    if t.len() == 0 {
        String::from_str(fallback)
    } else {
        string_of(&t)
    }
}

// ---------------------------------------------------------------------------
// Path of a site's directory
// ---------------------------------------------------------------------------
/// `Path::join` of one more component, on Unix: an absolute component
/// replaces the base; otherwise a separator is added unless the base is
/// empty or already ends with one.
pub open spec fn path_join(base: Seq<char>, p: Seq<char>) -> Seq<char> {
    if p.len() > 0 && p[0] == '/' {
        p
    } else if base.len() == 0 {
        p
    } else if base.last() == '/' {
        base + p
    } else {
        base.push('/') + p
    }
}

fn join_path(base: &str, p: &str) -> (r: String)
    ensures
        r@ == path_join(base@, p@),
{
    let pc = chars_of(p);
    if pc.len() > 0 && pc[0] == '/' {
        return String::from_str(p);
    }
    let bc = chars_of(base);
    if bc.len() == 0 {
        return String::from_str(p);
    }
    let mut r = String::from_str(base);
    if bc[bc.len() - 1] != '/' {
        r.push('/');
    }
    r.append(p);
    r
}

// ---------------------------------------------------------------------------
// Host names
// ---------------------------------------------------------------------------
/// What precedes the first `c` (all of `s` when there is none).
pub open spec fn before_first(s: Seq<char>, c: char) -> Seq<char>
    decreases s.len(),
{
    if s.len() == 0 {
        s
    } else if s[0] == c {
        seq![]
    } else {
        seq![s[0]] + before_first(s.drop_first(), c)
    }
}

fn prefix_before(s: &Vec<char>, c: char) -> (r: Vec<char>)
    ensures
        r@ == before_first(s@, c),
{
    let mut r: Vec<char> = Vec::new();
    let mut i: usize = 0;
    assert(s@.subrange(0, s.len() as int) =~= s@);
    assert(r@ + s@ =~= s@);
    while i < s.len() && s[i] != c
        invariant
            i <= s.len(),
            r@ == s@.take(i as int),
            forall|k: int| 0 <= k < i ==> s@[k] != c,
            before_first(s@, c) == r@ + before_first(s@.subrange(i as int, s.len() as int), c),
        decreases s.len() - i,
    {
        let ghost rest = s@.subrange(i as int, s.len() as int);
        assert(rest.drop_first() =~= s@.subrange(i + 1, s.len() as int));
        r.push(s[i]);
        i += 1;
        assert(r@ =~= s@.take(i as int));
        assert(r@ + before_first(s@.subrange(i as int, s.len() as int), c) =~= s@.take(i - 1) + (
        seq![rest[0]] + before_first(rest.drop_first(), c)));
    }
    let ghost rest = s@.subrange(i as int, s.len() as int);
    if i < s.len() {
        assert(before_first(rest, c) =~= Seq::<char>::empty());
    } else {
        assert(rest =~= Seq::<char>::empty());
    }
    assert(r@ + before_first(rest, c) =~= r@);
    r
}

/// The subdomain a request's `Host` header names, if it is a valid one
/// directly under `base` (the port is ignored, case is folded).
pub open spec fn host_subdomain(host: Seq<char>, base: Seq<char>) -> Option<Seq<char>> {
    let h = ascii_lower(before_first(host, ':'));
    let suffix = seq!['.'] + base;
    if !ends_with(h, suffix) {
        None
    } else {
        let sub = h.subrange(0, h.len() - suffix.len());
        if sub.contains('.') || !valid_subdomain(sub) {
            None
        } else {
            Some(sub)
        }
    }
}

// ---------------------------------------------------------------------------
// The registry
// ---------------------------------------------------------------------------
/// Login: the subdomain (trimmed, ASCII-lowercased) is registered and the
/// token (trimmed) is the one recorded for it; the result is the
/// normalized subdomain.
pub open spec fn login_spec(reg: Map<Seq<char>, RecordView>, sub: Seq<char>, token: Seq<char>) -> Option<
    Seq<char>,
> {
    let s = ascii_lower(trim(sub));
    if reg.contains_key(s) && reg[s].token == trim(token) {
        Some(s)
    } else {
        None
    }
}

/// A file of a site's directory as the file system reports it.
pub struct DirEntryInfo {
    pub name: String,
    pub len: u64,
    pub is_file: bool,
}

pub struct DirEntryView {
    pub name: Seq<char>,
    pub len: u64,
    pub is_file: bool,
}

impl View for DirEntryInfo {
    type V = DirEntryView;

    open spec fn view(&self) -> DirEntryView {
        DirEntryView { name: self.name@, len: self.len, is_file: self.is_file }
    }
}

/// The total size of the regular files of a directory listing
/// (subdirectories and other entries count nothing).
pub open spec fn total_size(entries: Seq<DirEntryView>) -> nat
    decreases entries.len(),
{
    if entries.len() == 0 {
        0
    } else if entries.last().is_file {
        total_size(entries.drop_last()) + (entries.last().len as nat)
    } else {
        total_size(entries.drop_last())
    }
}

/// The regular files of a listing, as (name, size).
pub open spec fn file_set(entries: Seq<DirEntryView>) -> Set<(Seq<char>, u64)> {
    Set::new(
        |p: (Seq<char>, u64)|
            exists|i: int|
                0 <= i < entries.len() && entries[i].is_file && #[trigger] entries[i].name == p.0
                    && entries[i].len == p.1,
    )
}

pub open spec fn name_lt() -> spec_fn((Seq<char>, u64), (Seq<char>, u64)) -> bool {
    |a: (Seq<char>, u64), b: (Seq<char>, u64)| str_lt(a.0, b.0)
}

/// The regular files of a listing, by name.
pub open spec fn file_listing(entries: Seq<DirEntryView>) -> Seq<(Seq<char>, u64)> {
    choose|s: Seq<(Seq<char>, u64)>|
        strictly_sorted(s, name_lt()) && forall|p: (Seq<char>, u64)|
            s.contains(p) <==> file_set(entries).contains(p)
}

pub open spec fn sub_lt() -> spec_fn(Seq<char>, Seq<char>) -> bool {
    |a: Seq<char>, b: Seq<char>| str_lt(a, b)
}

pub open spec fn is_sub_order(s: Seq<Seq<char>>, reg: Map<Seq<char>, RecordView>) -> bool {
    &&& strictly_sorted(s, sub_lt())
    &&& forall|k: Seq<char>| s.contains(k) <==> reg.contains_key(k)
}

/// Every registered subdomain, in order.
pub open spec fn sub_order(reg: Map<Seq<char>, RecordView>) -> Seq<Seq<char>> {
    choose|s: Seq<Seq<char>>| is_sub_order(s, reg)
}

/// One site of the administration overview.
pub struct AdminRow {
    pub sub: String,
    pub info: SiteInfo,
    pub visits: u64,
}

proof fn lemma_str_order()
    ensures
        is_strict_order(sub_lt()),
{
    assert forall|x: Seq<char>| !#[trigger] sub_lt()(x, x) by {
        lemma_str_lt_irreflexive(x);
    }
    assert forall|x: Seq<char>, y: Seq<char>, z: Seq<char>| #[trigger] sub_lt()(x, y) && #[trigger] sub_lt()(
        y,
        z,
    ) implies sub_lt()(x, z) by {
        lemma_str_lt_transitive(x, y, z);
    }
}

proof fn lemma_name_order()
    ensures
        is_strict_order(name_lt()),
{
    assert forall|x: (Seq<char>, u64)| !#[trigger] name_lt()(x, x) by {
        lemma_str_lt_irreflexive(x.0);
    }
    assert forall|x: (Seq<char>, u64), y: (Seq<char>, u64), z: (Seq<char>, u64)| #[trigger] name_lt()(
        x,
        y,
    ) && #[trigger] name_lt()(y, z) implies name_lt()(x, z) by {
        lemma_str_lt_transitive(x.0, y.0, z.0);
    }
}

/// Files and total size of a site's directory, from what the file system
/// listed: the regular files sorted by name, and the sum of their sizes.
pub fn dir_listing(entries: &Vec<DirEntryInfo>) -> (r: (Vec<(String, u64)>, u64))
    requires
        forall|i: int, j: int|
            0 <= i < entries@.len() && 0 <= j < entries@.len() && i != j ==> entries@[i].name@
                != entries@[j].name@,
        total_size(entries@.map_values(|e: DirEntryInfo| e@)) <= u64::MAX,
    ensures
        r.1 == total_size(entries@.map_values(|e: DirEntryInfo| e@)),
        r.0@.map_values(|f: (String, u64)| (f.0@, f.1)) == file_listing(
            entries@.map_values(|e: DirEntryInfo| e@),
        ),
{
    let ghost ev = entries@.map_values(|e: DirEntryInfo| e@);
    let mut total: u64 = 0;
    let mut cands: Vec<Candidate> = Vec::new();
    let mut i: usize = 0;
    while i < entries.len()
        invariant
            i <= entries@.len(),
            ev == entries@.map_values(|e: DirEntryInfo| e@),
            total_size(ev) <= u64::MAX,
            total == total_size(ev.take(i as int)),
            forall|a: int|
                0 <= a < cands@.len() ==> {
                    let c = #[trigger] cands@[a]@;
                    &&& c.pos < i
                    &&& c.score == 0
                    &&& c.created_at == 0
                    &&& c.sub == ev[c.pos as int].name
                    &&& ev[c.pos as int].is_file
                },
            forall|a: int, b: int| 0 <= a < b < cands@.len() ==> cands@[a]@.pos < cands@[b]@.pos,
            forall|p: int|
                0 <= p < i && #[trigger] ev[p].is_file ==> exists|a: int|
                    0 <= a < cands@.len() && cands@[a]@.pos == p,
        decreases entries.len() - i,
    {
        proof {
            assert(ev.take(i + 1).drop_last() =~= ev.take(i as int));
            lemma_total_size_prefix(ev, i + 1);
        }
        if entries[i].is_file {
            total = total + entries[i].len;
            let ghost before = cands@;
            let c = Candidate { score: 0, created_at: 0, sub: chars_of(entries[i].name.as_str()), pos: i };
            cands.push(c);
            assert forall|p: int|
                0 <= p < i + 1 && #[trigger] ev[p].is_file implies exists|a: int|
                0 <= a < cands@.len() && cands@[a]@.pos == p by {
                if p < i {
                    let a = choose|a: int| 0 <= a < before.len() && before[a]@.pos == p;
                    assert(cands@[a] == before[a]);
                } else {
                    assert(cands@[cands@.len() - 1]@.pos == p);
                }
            }
        }
        i += 1;
    }
    assert(ev.take(entries@.len() as int) =~= ev);
    proof {
        assert forall|a: int, b: int|
            0 <= a < cands@.len() && 0 <= b < cands@.len() && a != b implies cands@[a]@.sub
            != cands@[b]@.sub by {
            if a < b {
                assert(cands@[a]@.pos < cands@[b]@.pos);
            } else {
                assert(cands@[b]@.pos < cands@[a]@.pos);
            }
        }
    }
    let ghost pool = views(cands@);
    let sorted = rank_candidates(cands);
    let mut files: Vec<(String, u64)> = Vec::new();
    let mut k: usize = 0;
    while k < sorted.len()
        invariant
            k <= sorted@.len(),
            ev == entries@.map_values(|e: DirEntryInfo| e@),
            entries@.len() == ev.len(),
            forall|x: CandidateView| views(sorted@).contains(x) <==> pool.contains(x),
            forall|a: int|
                0 <= a < pool.len() ==> {
                    let c = #[trigger] pool[a];
                    &&& c.pos < entries@.len()
                    &&& c.sub == ev[c.pos as int].name
                },
            files@.len() == k,
            forall|x: int|
                0 <= x < k ==> #[trigger] files@[x].0@ == ev[sorted@[x]@.pos as int].name
                    && files@[x].1 == ev[sorted@[x]@.pos as int].len,
        decreases sorted.len() - k,
    {
        let pos = sorted[k].pos;
        proof {
            assert(views(sorted@)[k as int] == sorted@[k as int]@);
            assert(views(sorted@).contains(sorted@[k as int]@));
            assert(pool.contains(sorted@[k as int]@));
            let a = choose|a: int| 0 <= a < pool.len() && pool[a] == sorted@[k as int]@;
            assert(pool[a].pos < entries@.len());
        }
        let name = entries[pos].name.clone();
        files.push((name, entries[pos].len));
        k += 1;
    }
    proof {
        lemma_name_order();
        let out = files@.map_values(|f: (String, u64)| (f.0@, f.1));
        assert forall|x: int|
            0 <= x < sorted@.len() implies {
                let c = #[trigger] views(sorted@)[x];
                &&& c.pos < entries@.len()
                &&& c.score == 0
                &&& c.created_at == 0
                &&& c.sub == ev[c.pos as int].name
                &&& ev[c.pos as int].is_file
                &&& out[x] == (ev[c.pos as int].name, ev[c.pos as int].len)
            } by {
            assert(views(sorted@).contains(views(sorted@)[x]));
            let a = choose|a: int| 0 <= a < pool.len() && pool[a] == views(sorted@)[x];
            assert(pool[a] == cands@[a]@);
        }
        assert forall|x: int, y: int| 0 <= x < y < out.len() implies #[trigger] name_lt()(
            out[x],
            out[y],
        ) by {
            assert(cand_lt()(views(sorted@)[x], views(sorted@)[y]));
        }
        assert forall|p: (Seq<char>, u64)| out.contains(p) <==> file_set(ev).contains(p) by {
            if out.contains(p) {
                let x = choose|x: int| 0 <= x < out.len() && out[x] == p;
                let c = views(sorted@)[x];
                assert(ev[c.pos as int].name == p.0);
            }
            if file_set(ev).contains(p) {
                let q = choose|q: int|
                    0 <= q < ev.len() && ev[q].is_file && #[trigger] ev[q].name == p.0 && ev[q].len
                        == p.1;
                let a = choose|a: int| 0 <= a < cands@.len() && cands@[a]@.pos == q;
                assert(pool[a] == cands@[a]@);
                assert(pool.contains(cands@[a]@));
                assert(views(sorted@).contains(cands@[a]@));
                let x = choose|x: int| 0 <= x < sorted@.len() && views(sorted@)[x] == cands@[a]@;
                assert(out[x] == p);
            }
        }
        assert(strictly_sorted(out, name_lt()) && forall|p: (Seq<char>, u64)|
            out.contains(p) <==> file_set(ev).contains(p));
        let chosen = file_listing(ev);
        lemma_sorted_unique(out, chosen, name_lt());
    }
    (files, total)
}

proof fn lemma_total_size_prefix(ev: Seq<DirEntryView>, i: int)
    requires
        0 <= i <= ev.len(),
    ensures
        total_size(ev.take(i)) <= total_size(ev),
    decreases ev.len(),
{
    if i < ev.len() {
        assert(ev.drop_last().take(i) =~= ev.take(i));
        lemma_total_size_prefix(ev.drop_last(), i);
    } else {
        assert(ev.take(i) =~= ev);
    }
}

/// The total size of a site's files (see `dir_listing`).
pub fn dir_size(entries: &Vec<DirEntryInfo>) -> (r: u64)
    requires
        forall|i: int, j: int|
            0 <= i < entries@.len() && 0 <= j < entries@.len() && i != j ==> entries@[i].name@
                != entries@[j].name@,
        total_size(entries@.map_values(|e: DirEntryInfo| e@)) <= u64::MAX,
    ensures
        r == total_size(entries@.map_values(|e: DirEntryInfo| e@)),
{
    dir_listing(entries).1
}

pub struct Store {
    data_dir: String,
    base_domain: String,
    quota_bytes: u64,
    sites: Vec<(String, SiteRecord)>,
    registry: Ghost<Map<Seq<char>, RecordView>>,
}

/// The registry that a sequence of records gives when inserted in order
/// (a later record of the same subdomain replaces an earlier one).
pub open spec fn records_map(s: Seq<(Seq<char>, RecordView)>) -> Map<Seq<char>, RecordView>
    decreases s.len(),
{
    if s.len() == 0 {
        Map::empty()
    } else {
        records_map(s.drop_last()).insert(s.last().0, s.last().1)
    }
}

impl Store {
    /// The records, by subdomain.
    pub closed spec fn registry(&self) -> Map<Seq<char>, RecordView> {
        self.registry@
    }

    pub closed spec fn data_dir_view(&self) -> Seq<char> {
        self.data_dir@
    }

    /// The base domain every site is a subdomain of.
    pub closed spec fn base(&self) -> Seq<char> {
        self.base_domain@
    }

    /// The storage quota of each site, in bytes.
    pub closed spec fn quota(&self) -> u64 {
        self.quota_bytes
    }

    /// Same base domain, quota and data directory.
    pub open spec fn same_settings(&self, other: &Store) -> bool {
        &&& self.base() == other.base()
        &&& self.quota() == other.quota()
        &&& self.data_dir_view() == other.data_dir_view()
    }

    pub fn base_domain(&self) -> (r: &str)
        ensures
            r@ == self.base(),
    {
        self.base_domain.as_str()
    }

    pub fn quota_bytes(&self) -> (r: u64)
        ensures
            r == self.quota(),
    {
        self.quota_bytes
    }

    closed spec fn key(&self, i: int) -> Seq<char> {
        self.sites@[i].0@
    }

    pub closed spec fn wf(&self) -> bool {
        &&& forall|i: int, j: int|
            0 <= i < self.sites@.len() && 0 <= j < self.sites@.len() && i != j ==> self.key(i)
                != self.key(j)
        &&& forall|i: int|
            0 <= i < self.sites@.len() ==> #[trigger] self.registry@.contains_key(self.key(i))
                && self.registry@[self.key(i)] == self.sites@[i].1@
        &&& forall|k: Seq<char>|
            #[trigger] self.registry@.contains_key(k) ==> exists|i: int|
                0 <= i < self.sites@.len() && self.key(i) == k
    }

    /// Position of `sub` in the record vector.
    fn find(&self, sub: &String) -> (r: Option<usize>)
        requires
            self.wf(),
        ensures
            match r {
                Some(i) => i < self.sites@.len() && self.key(i as int) == sub@
                    && self.registry().contains_key(sub@) && self.registry()[sub@]
                    == self.sites@[i as int].1@,
                None => !self.registry().contains_key(sub@),
            },
    {
        let mut i: usize = 0;
        while i < self.sites.len()
            invariant
                self.wf(),
                i <= self.sites@.len(),
                forall|k: int| 0 <= k < i ==> self.key(k) != sub@,
            decreases self.sites.len() - i,
        {
            if self.sites[i].0 == *sub {
                assert(self.registry@.contains_key(self.key(i as int)));
                return Some(i);
            }
            i += 1;
        }
        proof {
            if self.registry@.contains_key(sub@) {
                let j = choose|j: int| 0 <= j < self.sites@.len() && self.key(j) == sub@;
                assert(self.key(j) != sub@);
            }
        }
        None
    }

    /// An empty registry.
    pub fn empty(data_dir: &str, base_domain: &str, quota_bytes: u64) -> (s: Store)
        ensures
            s.wf(),
            s.registry() == Map::<Seq<char>, RecordView>::empty(),
            s.base() == base_domain@,
            s.quota() == quota_bytes,
            s.data_dir_view() == data_dir@,
    {
        Store {
            data_dir: String::from_str(data_dir),
            base_domain: String::from_str(base_domain),
            quota_bytes,
            sites: Vec::new(),
            registry: Ghost(Map::empty()),
        }
    }

    /// Insert or replace the record of `sub`.
    fn put(&mut self, sub: String, rec: SiteRecord)
        requires
            old(self).wf(),
        ensures
            final(self).wf(),
            final(self).registry() == old(self).registry().insert(sub@, rec@),
            final(self).same_settings(old(self)),
    {
        let ghost key = sub@;
        let ghost rv = rec@;
        match self.find(&sub) {
            Some(i) => {
                self.sites.set(i, (sub, rec));
                proof {
                    self.registry@ = self.registry@.insert(key, rv);
                }
                assert(self.key(i as int) == key);
                assert forall|a: int| 0 <= a < self.sites@.len() && a != i implies self.key(a)
                    == old(self).key(a) && self.sites@[a] == old(self).sites@[a] by {}
                assert forall|a: int, b: int|
                    0 <= a < self.sites@.len() && 0 <= b < self.sites@.len() && a
                        != b implies self.key(a) != self.key(b) by {
                    assert(old(self).key(a) != old(self).key(b));
                }
                assert forall|a: int| 0 <= a < self.sites@.len() implies #[trigger]
                    self.registry@.contains_key(self.key(a)) && self.registry@[self.key(a)]
                    == self.sites@[a].1@ by {
                    if a != i {
                        assert(old(self).registry@.contains_key(old(self).key(a)));
                    }
                }
                assert forall|k: Seq<char>| #[trigger]
                    self.registry@.contains_key(k) implies exists|j: int|
                    0 <= j < self.sites@.len() && self.key(j) == k by {
                    if k != key {
                        let j = choose|j: int|
                            0 <= j < old(self).sites@.len() && old(self).key(j) == k;
                        assert(self.key(j) == k);
                    } else {
                        assert(self.key(i as int) == k);
                    }
                }
            },
            None => {
                self.sites.push((sub, rec));
                proof {
                    self.registry@ = self.registry@.insert(key, rv);
                }
                let ghost n = self.sites@.len() - 1;
                assert(self.key(n) == key);
                assert forall|a: int| 0 <= a < n implies self.key(a) == old(self).key(a) && self.key(
                    a,
                ) != key by {
                    assert(old(self).registry@.contains_key(old(self).key(a)));
                }
                assert forall|a: int| 0 <= a < self.sites@.len() implies #[trigger]
                    self.registry@.contains_key(self.key(a)) && self.registry@[self.key(a)]
                    == self.sites@[a].1@ by {
                    if a != n {
                        assert(old(self).registry@.contains_key(old(self).key(a)));
                    }
                }
                assert forall|k: Seq<char>| #[trigger]
                    self.registry@.contains_key(k) implies exists|j: int|
                    0 <= j < self.sites@.len() && self.key(j) == k by {
                    if k != key {
                        let j = choose|j: int|
                            0 <= j < old(self).sites@.len() && old(self).key(j) == k;
                        assert(self.key(j) == k);
                    }
                }
            },
        }
    }

    /// A registry holding the given records (as read back from storage).
    pub fn load(data_dir: &str, base_domain: &str, quota_bytes: u64, records: Vec<
        (String, SiteRecord),
    >) -> (s: Store)
        ensures
            s.wf(),
            s.registry() == records_map(records@.map_values(|e: (String, SiteRecord)| (e.0@, e.1@))),
            s.base() == base_domain@,
            s.quota() == quota_bytes,
            s.data_dir_view() == data_dir@,
    {
        let ghost all = records@.map_values(|e: (String, SiteRecord)| (e.0@, e.1@));
        let mut s = Store::empty(data_dir, base_domain, quota_bytes);
        let mut recs = records;
        let mut rest: Vec<(String, SiteRecord)> = Vec::new();
        // consume in order: reverse into `rest`, then pop
        while recs.len() > 0
            invariant
                rest@ + recs@.reverse() =~= records@.reverse(),
            decreases recs.len(),
        {
            let e = recs.pop().unwrap();
            rest.push(e);
        }
        assert(rest@ =~= records@.reverse());
        let ghost total = records@.len();
        while rest.len() > 0
            invariant
                s.wf(),
                rest@.len() <= total,
                total == records@.len(),
                rest@ =~= records@.reverse().take(rest@.len() as int),
                all == records@.map_values(|e: (String, SiteRecord)| (e.0@, e.1@)),
                s.registry() == records_map(all.take(total - rest@.len())),
                s.base() == base_domain@,
                s.quota() == quota_bytes,
                s.data_dir_view() == data_dir@,
            decreases rest.len(),
        {
            let ghost done = total - rest@.len();
            let e = rest.pop().unwrap();
            assert(e == records@[done]);
            assert(all.take(done + 1).drop_last() =~= all.take(done));
            s.put(e.0, e.1);
        }
        assert(all.take(total as int) =~= all);
        s
    }

    /// All records, each with its subdomain, no subdomain twice.
    pub fn records(&self) -> (r: Vec<(String, SiteRecord)>)
        requires
            self.wf(),
        ensures
            r@.len() == self.registry().dom().len(),
            forall|i: int, j: int|
                0 <= i < r@.len() && 0 <= j < r@.len() && i != j ==> r@[i].0@ != r@[j].0@,
            forall|i: int|
                0 <= i < r@.len() ==> #[trigger] self.registry().contains_key(r@[i].0@)
                    && self.registry()[r@[i].0@] == r@[i].1@,
            forall|k: Seq<char>|
                #[trigger] self.registry().contains_key(k) ==> exists|i: int|
                    0 <= i < r@.len() && r@[i].0@ == k,
    {
        let mut r: Vec<(String, SiteRecord)> = Vec::new();
        let mut i: usize = 0;
        while i < self.sites.len()
            invariant
                self.wf(),
                i <= self.sites@.len(),
                r@.len() == i,
                forall|k: int| 0 <= k < i ==> #[trigger] r@[k].0@ == self.key(k) && r@[k].1@
                    == self.sites@[k].1@,
            decreases self.sites.len() - i,
        {
            let e = &self.sites[i];
            let k = e.0.clone();
            let v = e.1.duplicate();
            r.push((k, v));
            assert(r@[i as int].0@ == self.key(i as int));
            i += 1;
        }
        proof {
            self.lemma_len();
        }
        assert forall|k: Seq<char>| #[trigger]
            self.registry().contains_key(k) implies exists|i: int|
            0 <= i < r@.len() && r@[i].0@ == k by {
            let j = choose|j: int| 0 <= j < self.sites@.len() && self.key(j) == k;
            assert(r@[j].0@ == k);
        }
        r
    }

    proof fn lemma_len(&self)
        requires
            self.wf(),
        ensures
            self.registry().dom().len() == self.sites@.len(),
            self.registry().dom().finite(),
    {
        let keys = Seq::new(self.sites@.len(), |i: int| self.key(i));
        assert(keys.no_duplicates());
        assert(keys.to_set() =~= self.registry@.dom()) by {
            assert forall|k: Seq<char>| keys.to_set().contains(k) implies self.registry@.contains_key(
                k,
            ) by {
                let i = choose|i: int| 0 <= i < keys.len() && keys[i] == k;
                assert(self.registry@.contains_key(self.key(i)));
            }
            assert forall|k: Seq<char>| self.registry@.contains_key(k) implies keys.to_set().contains(
                k,
            ) by {
                let i = choose|i: int| 0 <= i < self.sites@.len() && self.key(i) == k;
                assert(keys[i] == k);
            }
        }
        keys.unique_seq_to_set();
    }

    /// The directory of a site: `<data_dir>/sites/<sub>`.
    pub fn site_dir(&self, sub: &str) -> (r: String)
        ensures
            r@ == path_join(path_join(self.data_dir_view(), "sites"@), sub@),
    {
        let sites = join_path(self.data_dir.as_str(), "sites");
        join_path(sites.as_str(), sub)
    }

    /// The subdomain addressed by a `Host` header, if it is a valid one of
    /// this platform's base domain.
    pub fn subdomain_from_host(&self, host: &str) -> (r: Option<String>)
        ensures
            match r {
                Some(s) => host_subdomain(host@, self.base()) == Some(s@),
                None => host_subdomain(host@, self.base()) is None,
            },
    {
        let hc = chars_of(host);
        let first = prefix_before(&hc, ':');
        let h = ascii_lowercase(&first);
        let base = chars_of(self.base_domain.as_str());
        let mut suffix: Vec<char> = Vec::new();
        suffix.push('.');
        let mut k: usize = 0;
        while k < base.len()
            invariant
                k <= base.len(),
                suffix@ == seq!['.'] + base@.take(k as int),
            decreases base.len() - k,
        {
            suffix.push(base[k]);
            k += 1;
            assert(suffix@ =~= seq!['.'] + base@.take(k as int));
        }
        assert(base@.take(base.len() as int) =~= base@);
        if suffix.len() > h.len() {
            return None;
        }
        let cut = h.len() - suffix.len();
        let mut tail: Vec<char> = Vec::new();
        let mut sub: Vec<char> = Vec::new();
        let mut j: usize = 0;
        while j < h.len()
            invariant
                j <= h.len(),
                cut + suffix.len() == h.len(),
                j <= cut ==> sub@ == h@.subrange(0, j as int) && tail@.len() == 0,
                j > cut ==> sub@ == h@.subrange(0, cut as int) && tail@ == h@.subrange(
                    cut as int,
                    j as int,
                ),
            decreases h.len() - j,
        {
            if j < cut {
                sub.push(h[j]);
            } else {
                tail.push(h[j]);
            }
            j += 1;
            assert(sub@ =~= h@.subrange(0, if j <= cut { j as int } else { cut as int }));
            if j > cut {
                assert(tail@ =~= h@.subrange(cut as int, j as int));
            }
        }
        if suffix.len() == 0 {
            assert(false);
        }
        if !seq_eq(&tail, &suffix) {
            return None;
        }
        assert(sub@ == h@.subrange(0, h@.len() - suffix@.len()));
        let mut has_dot = false;
        let mut m: usize = 0;
        while m < sub.len()
            invariant
                m <= sub.len(),
                has_dot == (exists|q: int| 0 <= q < m && sub@[q] == '.'),
            decreases sub.len() - m,
        {
            if sub[m] == '.' {
                has_dot = true;
            }
            m += 1;
        }
        let sub_s = string_of(&sub);
        if has_dot || validate_subdomain(sub_s.as_str()).is_err() {
            return None;
        }
        Some(sub_s)
    }

    /// Whether `sub` is registered.
    pub fn site_exists(&self, sub: &str) -> (r: bool)
        requires
            self.wf(),
        ensures
            r == self.registry().contains_key(sub@),
    {
        let s = String::from_str(sub);
        self.find(&s).is_some()
    }

    /// Name and description of a site; empty strings for an unknown one.
    pub fn get_meta(&self, sub: &str) -> (r: (String, String))
        requires
            self.wf(),
        ensures
            self.registry().contains_key(sub@) ==> r.0@ == self.registry()[sub@].name && r.1@
                == self.registry()[sub@].description,
            !self.registry().contains_key(sub@) ==> r.0@.len() == 0 && r.1@.len() == 0,
    {
        let s = String::from_str(sub);
        match self.find(&s) {
            Some(i) => (self.sites[i].1.name.clone(), self.sites[i].1.description.clone()),
            None => (String::new(), String::new()),
        }
    }

    /// Visit count of a site; zero for an unknown one.
    pub fn get_visits(&self, sub: &str) -> (r: u64)
        requires
            self.wf(),
        ensures
            r == (if self.registry().contains_key(sub@) {
                self.registry()[sub@].visits
            } else {
                0
            }),
    {
        let s = String::from_str(sub);
        match self.find(&s) {
            Some(i) => self.sites[i].1.visits,
            None => 0,
        }
    }

    /// Count one served request of a registered site.
    pub fn record_traffic(&mut self, sub: &str)
        requires
            old(self).wf(),
            old(self).registry().contains_key(sub@) ==> old(self).registry()[sub@].visits
                < u64::MAX,
        ensures
            final(self).wf(),
            final(self).same_settings(old(self)),
            final(self).registry() == (if old(self).registry().contains_key(sub@) {
                let r = old(self).registry()[sub@];
                old(self).registry().insert(sub@, RecordView { visits: (r.visits + 1) as u64, ..r })
            } else {
                old(self).registry()
            }),
    {
        let s = String::from_str(sub);
        match self.find(&s) {
            Some(i) => {
                let mut rec = self.sites[i].1.duplicate();
                rec.visits = rec.visits + 1;
                self.put(s, rec);
            },
            None => {},
        }
    }

    /// Replace the name and description of a registered site (cleaned;
    /// a blank name falls back to the subdomain). Unknown sites are left
    /// alone.
    pub fn update_meta(&mut self, sub: &str, name: &str, description: &str)
        requires
            old(self).wf(),
        ensures
            final(self).wf(),
            final(self).same_settings(old(self)),
            final(self).registry() == (if old(self).registry().contains_key(sub@) {
                let r = old(self).registry()[sub@];
                old(self).registry().insert(
                    sub@,
                    RecordView {
                        name: clean_meta_spec(name@, sub@),
                        description: clean_meta_spec(description@, ""@),
                        ..r
                    },
                )
            } else {
                old(self).registry()
            }),
    {
        let s = String::from_str(sub);
        match self.find(&s) {
            Some(i) => {
                let mut rec = self.sites[i].1.duplicate();
                rec.name = clean_meta(name, sub);
                rec.description = clean_meta(description, "");
                self.put(s, rec);
            },
            None => {},
        }
    }

    /// Check subdomain and token; on success the normalized subdomain.
    pub fn login(&self, sub: &str, token: &str) -> (r: Option<String>)
        requires
            self.wf(),
        ensures
            match (r, login_spec(self.registry(), sub@, token@)) {
                (Some(x), Some(y)) => x@ == y,
                (None, None) => true,
                _ => false,
            },
    {
        let sc = chars_of(sub);
        let st = trim_chars(&sc);
        let sl = ascii_lowercase(&st);
        let s = string_of(&sl);
        let tc = chars_of(token);
        let tt = trim_chars(&tc);
        let t = string_of(&tt);
        match self.find(&s) {
            Some(i) => {
                if self.sites[i].1.token == t {
                    Some(s)
                } else {
                    None
                }
            },
            None => None,
        }
    }

    /// Register a new site with the given token and creation time.
    pub fn signup_with(
        &mut self,
        raw_sub: &str,
        name: &str,
        description: &str,
        token: String,
        created_at: i64,
    ) -> (r: Result<(String, String), String>)
        requires
            old(self).wf(),
        ensures
            final(self).wf(),
            final(self).same_settings(old(self)),
            ({
                let s = ascii_lower(trim(raw_sub@));
                match subdomain_check(s) {
                    Err(e) => r matches Err(m) && m@ == e && final(self).registry() == old(
                        self,
                    ).registry(),
                    Ok(_) => if old(self).registry().contains_key(s) {
                        r matches Err(m) && m@ == "sottodominio già occupato"@ && final(self).registry()
                            == old(self).registry()
                    } else {
                        r matches Ok((x, t)) && x@ == s && t@ == token@ && final(self).registry() == old(
                            self,
                        ).registry().insert(
                            s,
                            RecordView {
                                token: token@,
                                created_at,
                                name: clean_meta_spec(name@, s),
                                description: clean_meta_spec(description@, ""@),
                                visits: 0,
                            },
                        )
                    },
                }
            }),
    {
        let sc = chars_of(raw_sub);
        let st = trim_chars(&sc);
        let sl = ascii_lowercase(&st);
        let sub = string_of(&sl);
        if let Err(reason) = validate_subdomain(sub.as_str()) {
            return Err(reason.to_string());
        }
        if self.find(&sub).is_some() {
            return Err("sottodominio già occupato".to_string());
        }
        let rec = SiteRecord {
            token: token.clone(),
            created_at,
            name: clean_meta(name, sub.as_str()),
            description: clean_meta(description, ""),
            visits: 0,
        };
        self.put(sub.clone(), rec);
        Ok((sub, token))
    }

    /// Register a new site under a fresh random token, created now.
    /// Returns the normalized subdomain and the token.
    pub fn signup(&mut self, raw_sub: &str, name: &str, description: &str) -> (r: Result<
        (String, String),
        String,
    >)
        requires
            old(self).wf(),
        ensures
            final(self).wf(),
            final(self).same_settings(old(self)),
            ({
                let s = ascii_lower(trim(raw_sub@));
                match subdomain_check(s) {
                    Err(e) => r matches Err(m) && m@ == e && final(self).registry() == old(
                        self,
                    ).registry(),
                    Ok(_) => if old(self).registry().contains_key(s) {
                        r matches Err(m) && m@ == "sottodominio già occupato"@ && final(self).registry()
                            == old(self).registry()
                    } else {
                        r matches Ok((x, t)) && x@ == s && is_v4_uuid_text(t@)
                            && uuid_str_parses(t@) && final(self).registry() == old(self).registry().insert(
                            s,
                            RecordView {
                                token: t@,
                                created_at: final(self).registry()[s].created_at,
                                name: clean_meta_spec(name@, s),
                                description: clean_meta_spec(description@, ""@),
                                visits: 0,
                            },
                        )
                    },
                }
            }),
    {
        let token = new_uuid_text();
        let now = now_unix();
        self.signup_with(raw_sub, name, description, token, now)
    }

    /// Give a registered site the given token.
    pub fn replace_token(&mut self, sub: &str, token: String) -> (r: Result<String, String>)
        requires
            old(self).wf(),
        ensures
            final(self).wf(),
            final(self).same_settings(old(self)),
            old(self).registry().contains_key(sub@) ==> (r matches Ok(t) && t@ == token@
                && final(self).registry() == old(self).registry().insert(
                sub@,
                RecordView { token: token@, ..old(self).registry()[sub@] },
            )),
            !old(self).registry().contains_key(sub@) ==> (r matches Err(m) && m@
                == "sito inesistente"@ && final(self).registry() == old(self).registry()),
    {
        let s = String::from_str(sub);
        match self.find(&s) {
            Some(i) => {
                let mut rec = self.sites[i].1.duplicate();
                rec.token = token.clone();
                self.put(s, rec);
                Ok(token)
            },
            None => Err("sito inesistente".to_string()),
        }
    }

    /// Give a registered site a fresh random token and return it.
    pub fn reset_token(&mut self, sub: &str) -> (r: Result<String, String>)
        requires
            old(self).wf(),
        ensures
            final(self).wf(),
            final(self).same_settings(old(self)),
            old(self).registry().contains_key(sub@) ==> (r matches Ok(t)
                && is_v4_uuid_text(t@) && uuid_str_parses(t@) && final(self).registry() == old(
                self,
            ).registry().insert(sub@, RecordView { token: t@, ..old(self).registry()[sub@] })),
            !old(self).registry().contains_key(sub@) ==> (r matches Err(m) && m@
                == "sito inesistente"@ && final(self).registry() == old(self).registry()),
    {
        let token = new_uuid_text();
        self.replace_token(sub, token)
    }

    /// Remove a site from the registry.
    pub fn delete_site(&mut self, sub: &str) -> (r: Result<(), String>)
        requires
            old(self).wf(),
        ensures
            final(self).wf(),
            final(self).same_settings(old(self)),
            old(self).registry().contains_key(sub@) ==> r is Ok && final(self).registry() == old(
                self,
            ).registry().remove(sub@),
            !old(self).registry().contains_key(sub@) ==> (r matches Err(m) && m@
                == "sito inesistente"@ && final(self).registry() == old(self).registry()),
    {
        let s = String::from_str(sub);
        match self.find(&s) {
            Some(i) => {
                let ghost key = s@;
                let ghost pre = self.sites@;
                self.sites.remove(i);
                proof {
                    self.registry@ = self.registry@.remove(key);
                }
                assert forall|a: int| 0 <= a < self.sites@.len() implies self.sites@[a] == (if a
                    < i {
                    pre[a]
                } else {
                    pre[a + 1]
                }) by {}
                assert forall|a: int, b: int|
                    0 <= a < self.sites@.len() && 0 <= b < self.sites@.len() && a
                        != b implies self.key(a) != self.key(b) by {
                    let a2 = if a < i {
                        a
                    } else {
                        a + 1
                    };
                    let b2 = if b < i {
                        b
                    } else {
                        b + 1
                    };
                    assert(self.key(a) == old(self).key(a2));
                    assert(self.key(b) == old(self).key(b2));
                }
                assert forall|a: int| 0 <= a < self.sites@.len() implies #[trigger]
                    self.registry@.contains_key(self.key(a)) && self.registry@[self.key(a)]
                    == self.sites@[a].1@ by {
                    let a2 = if a < i {
                        a
                    } else {
                        a + 1
                    };
                    assert(self.key(a) == old(self).key(a2));
                    assert(old(self).key(a2) != old(self).key(i as int));
                    assert(old(self).registry@.contains_key(old(self).key(a2)));
                }
                assert forall|k: Seq<char>| #[trigger]
                    self.registry@.contains_key(k) implies exists|j: int|
                    0 <= j < self.sites@.len() && self.key(j) == k by {
                    let j = choose|j: int|
                        0 <= j < old(self).sites@.len() && old(self).key(j) == k;
                    assert(j != i);
                    if j < i {
                        assert(self.key(j) == k);
                    } else {
                        assert(self.key(j - 1) == k);
                    }
                }
                Ok(())
            },
            None => Err("sito inesistente".to_string()),
        }
    }
}


// ---------------------------------------------------------------------------
// Search
// ---------------------------------------------------------------------------
/// How well one (lowercased) query word matches a site: an exact name
/// match, a word within the name, the description, or the domain.
pub open spec fn word_hit(name: Seq<char>, desc: Seq<char>, domain: Seq<char>, w: Seq<char>) -> Option<
    nat,
> {
    if name == w {
        Some(0)
    } else if contains_seq(name, w) {
        Some(1)
    } else if contains_seq(desc, w) {
        Some(2)
    } else if contains_seq(domain, w) {
        Some(3)
    } else {
        None
    }
}

/// The score of a site for a query (lower is better): the sum of the
/// hits of its words, none when some word matches nowhere.
pub open spec fn score_spec(name: Seq<char>, desc: Seq<char>, domain: Seq<char>, ws: Seq<Seq<char>>) -> Option<nat>
    decreases ws.len(),
{
    if ws.len() == 0 {
        Some(0)
    } else {
        match (score_spec(name, desc, domain, ws.drop_last()), word_hit(name, desc, domain, ws.last())) {
            (Some(t), Some(h)) => Some(t + h),
            _ => None,
        }
    }
}

/// A query word lowercased as `str::to_lowercase` does it: for ASCII text
/// that is `to_ascii_lowercase`.
pub open spec fn word_lower(w: Seq<char>) -> Seq<char> {
    if is_ascii_text(w) {
        ascii_lower(w)
    } else {
        unicode_lowercase(w)
    }
}

/// The words of a query, lowercased.
pub open spec fn lowered_words(query: Seq<char>) -> Seq<Seq<char>> {
    words(query).map_values(|w: Seq<char>| word_lower(w))
}

/// The score of a listing entry for query words (see `score_spec`); the
/// entry's texts and the words are lowercased first.
pub open spec fn doc_score(info: InfoView, ws: Seq<Seq<char>>) -> Option<nat> {
    score_spec(
        unicode_lowercase(info.name),
        unicode_lowercase(info.description),
        unicode_lowercase(info.domain),
        ws.map_values(|w: Seq<char>| word_lower(w)),
    )
}

/// The score of a registered site for lowercased query words.
pub open spec fn site_score(
    reg: Map<Seq<char>, RecordView>,
    base: Seq<char>,
    wl: Seq<Seq<char>>,
    k: Seq<char>,
) -> Option<nat> {
    score_spec(
        unicode_lowercase(reg[k].name),
        unicode_lowercase(reg[k].description),
        unicode_lowercase(domain_of(k, base)),
        wl,
    )
}

/// Search order: better score, then newer, then by subdomain.
pub open spec fn ranked_before(
    reg: Map<Seq<char>, RecordView>,
    base: Seq<char>,
    wl: Seq<Seq<char>>,
    a: Seq<char>,
    b: Seq<char>,
) -> bool {
    let sa = site_score(reg, base, wl, a).unwrap();
    let sb = site_score(reg, base, wl, b).unwrap();
    ||| sa < sb
    ||| sa == sb && reg[a].created_at > reg[b].created_at
    ||| sa == sb && reg[a].created_at == reg[b].created_at && str_lt(a, b)
}

pub open spec fn rank_lt(reg: Map<Seq<char>, RecordView>, base: Seq<char>, wl: Seq<Seq<char>>) -> spec_fn(
    Seq<char>,
    Seq<char>,
) -> bool {
    |a: Seq<char>, b: Seq<char>| ranked_before(reg, base, wl, a, b)
}

/// The registered sites that match every word.
pub open spec fn matching_sites(
    reg: Map<Seq<char>, RecordView>,
    base: Seq<char>,
    wl: Seq<Seq<char>>,
) -> Set<Seq<char>> {
    Set::new(|k: Seq<char>| reg.contains_key(k) && site_score(reg, base, wl, k) is Some)
}

pub open spec fn is_ranking(
    s: Seq<Seq<char>>,
    reg: Map<Seq<char>, RecordView>,
    base: Seq<char>,
    wl: Seq<Seq<char>>,
) -> bool {
    &&& strictly_sorted(s, rank_lt(reg, base, wl))
    &&& forall|k: Seq<char>| s.contains(k) <==> matching_sites(reg, base, wl).contains(k)
}

/// The matching sites in search order.
pub open spec fn ranking(reg: Map<Seq<char>, RecordView>, base: Seq<char>, wl: Seq<Seq<char>>) -> Seq<
    Seq<char>,
> {
    choose|s: Seq<Seq<char>>| is_ranking(s, reg, base, wl)
}

pub open spec fn min_len(limit: int, n: int) -> int {
    if limit < n {
        limit
    } else {
        n
    }
}

/// What a search returns: the first `limit` matching sites in search
/// order, as listing entries.
pub open spec fn search_spec(
    reg: Map<Seq<char>, RecordView>,
    base: Seq<char>,
    query: Seq<char>,
    limit: int,
) -> Seq<InfoView> {
    let order = ranking(reg, base, lowered_words(query));
    order.take(min_len(limit, order.len() as int)).map_values(
        |k: Seq<char>| info_of(k, reg[k], base),
    )
}

/// Listing order: newer first, then by subdomain.
pub open spec fn listed_before(reg: Map<Seq<char>, RecordView>, a: Seq<char>, b: Seq<char>) -> bool {
    ||| reg[a].created_at > reg[b].created_at
    ||| reg[a].created_at == reg[b].created_at && str_lt(a, b)
}

pub open spec fn list_lt(reg: Map<Seq<char>, RecordView>) -> spec_fn(Seq<char>, Seq<char>) -> bool {
    |a: Seq<char>, b: Seq<char>| listed_before(reg, a, b)
}

pub open spec fn is_listing(s: Seq<Seq<char>>, reg: Map<Seq<char>, RecordView>) -> bool {
    &&& strictly_sorted(s, list_lt(reg))
    &&& forall|k: Seq<char>| s.contains(k) <==> reg.contains_key(k)
}

/// Every registered site, newest first.
pub open spec fn listing_order(reg: Map<Seq<char>, RecordView>) -> Seq<Seq<char>> {
    choose|s: Seq<Seq<char>>| is_listing(s, reg)
}

/// What the recent-sites listing returns: the `n` newest sites.
pub open spec fn recent_spec(reg: Map<Seq<char>, RecordView>, base: Seq<char>, n: int) -> Seq<
    InfoView,
> {
    let order = listing_order(reg);
    order.take(min_len(n, order.len() as int)).map_values(|k: Seq<char>| info_of(k, reg[k], base))
}

pub proof fn lemma_rank_order(reg: Map<Seq<char>, RecordView>, base: Seq<char>, wl: Seq<Seq<char>>)
    ensures
        is_strict_order(rank_lt(reg, base, wl)),
        is_total(rank_lt(reg, base, wl)),
{
    let lt = rank_lt(reg, base, wl);
    assert forall|x: Seq<char>| !#[trigger] lt(x, x) by {
        lemma_str_lt_irreflexive(x);
    }
    assert forall|x: Seq<char>, y: Seq<char>, z: Seq<char>| #[trigger] lt(x, y) && #[trigger] lt(
        y,
        z,
    ) implies lt(x, z) by {
        if str_lt(x, y) && str_lt(y, z) {
            lemma_str_lt_transitive(x, y, z);
        }
    }
    assert forall|x: Seq<char>, y: Seq<char>| x != y implies #[trigger] lt(x, y) || lt(y, x) by {
        lemma_str_lt_total(x, y);
    }
}

pub proof fn lemma_list_order(reg: Map<Seq<char>, RecordView>)
    ensures
        is_strict_order(list_lt(reg)),
        is_total(list_lt(reg)),
{
    let lt = list_lt(reg);
    assert forall|x: Seq<char>| !#[trigger] lt(x, x) by {
        lemma_str_lt_irreflexive(x);
    }
    assert forall|x: Seq<char>, y: Seq<char>, z: Seq<char>| #[trigger] lt(x, y) && #[trigger] lt(
        y,
        z,
    ) implies lt(x, z) by {
        if str_lt(x, y) && str_lt(y, z) {
            lemma_str_lt_transitive(x, y, z);
        }
    }
    assert forall|x: Seq<char>, y: Seq<char>| x != y implies #[trigger] lt(x, y) || lt(y, x) by {
        lemma_str_lt_total(x, y);
    }
}

proof fn lemma_score_bound(name: Seq<char>, desc: Seq<char>, domain: Seq<char>, ws: Seq<Seq<char>>)
    ensures
        score_spec(name, desc, domain, ws) matches Some(t) ==> t <= 3 * ws.len(),
    decreases ws.len(),
{
    if ws.len() > 0 {
        lemma_score_bound(name, desc, domain, ws.drop_last());
    }
}

proof fn lemma_score_none_extends(name: Seq<char>, desc: Seq<char>, domain: Seq<char>, ws: Seq<Seq<char>>, i: int)
    requires
        0 <= i <= ws.len(),
        score_spec(name, desc, domain, ws.take(i)) is None,
    ensures
        score_spec(name, desc, domain, ws) is None,
    decreases ws.len(),
{
    if i == ws.len() {
        assert(ws.take(i) =~= ws);
    } else {
        assert(ws.drop_last().take(i) =~= ws.take(i));
        lemma_score_none_extends(name, desc, domain, ws.drop_last(), i);
    }
}

/// The score of a site from its lowercased name, description and domain
/// and the lowercased query words.
pub fn score_lowered(name: &Vec<char>, desc: &Vec<char>, domain: &Vec<char>, ws: &Vec<Vec<char>>) -> (r: Option<u32>)
    requires
        ws@.len() <= 1431655765,
    ensures
        match (r, score_spec(name@, desc@, domain@, ws@.map_values(|w: Vec<char>| w@))) {
            (Some(x), Some(y)) => x == y,
            (None, None) => true,
            _ => false,
        },
{
    let ghost all = ws@.map_values(|w: Vec<char>| w@);
    let mut total: u32 = 0;
    let mut i: usize = 0;
    while i < ws.len()
        invariant
            i <= ws@.len(),
            ws@.len() <= 1431655765,
            all == ws@.map_values(|w: Vec<char>| w@),
            score_spec(name@, desc@, domain@, all.take(i as int)) == Some(total as nat),
            total <= 3 * i,
        decreases ws.len() - i,
    {
        let w = &ws[i];
        assert(all.take(i + 1).drop_last() =~= all.take(i as int));
        assert(all.take(i + 1).last() == w@);
        let hit: u32 = if seq_eq(name, w) {
            0
        } else if contains_chars(name, w) {
            1
        } else if contains_chars(desc, w) {
            2
        } else if contains_chars(domain, w) {
            3
        } else {
            proof {
                lemma_score_none_extends(name@, desc@, domain@, all, i + 1);
            }
            return None;
        };
        total = total + hit;
        i += 1;
    }
    assert(all.take(ws.len() as int) =~= all);
    Some(total)
}

proof fn lemma_score_concat(name: Seq<char>, desc: Seq<char>, domain: Seq<char>, a: Seq<Seq<char>>, b: Seq<Seq<char>>)
    ensures
        score_spec(name, desc, domain, a + b) == match (
            score_spec(name, desc, domain, a),
            score_spec(name, desc, domain, b),
        ) {
            (Some(x), Some(y)) => Some(x + y),
            _ => None,
        },
    decreases b.len(),
{
    if b.len() == 0 {
        assert(a + b =~= a);
    } else {
        assert((a + b).drop_last() =~= a + b.drop_last());
        assert((a + b).last() == b.last());
        lemma_score_concat(name, desc, domain, a, b.drop_last());
    }
}

proof fn lemma_doc_score_perm(info: InfoView, a: Seq<Seq<char>>, b: Seq<Seq<char>>)
    requires
        a.to_multiset() == b.to_multiset(),
    ensures
        doc_score(info, a) == doc_score(info, b),
    decreases a.len(),
{
    broadcast use vstd::seq_lib::group_to_multiset_ensures;

    let n = unicode_lowercase(info.name);
    let d = unicode_lowercase(info.description);
    let m = unicode_lowercase(info.domain);
    if a.len() == 0 {
        assert(a.to_multiset().len() == 0);
        assert(b.len() == b.to_multiset().len());
        assert(a =~= b);
    } else {
        let x = a.last();
        let a1 = a.drop_last();
        assert(a =~= a1.push(x));
        assert(a.to_multiset() == a1.to_multiset().insert(x));
        assert(b.to_multiset().count(x) > 0);
        assert(b.contains(x));
        let j = choose|j: int| 0 <= j < b.len() && b[j] == x;
        let b1 = b.remove(j);
        assert(b1.to_multiset() == b.to_multiset().remove(x));
        assert(a1.to_multiset() =~= b1.to_multiset());
        lemma_doc_score_perm(info, a1, b1);
        let y = word_lower(x);
        let ma = a.map_values(|w: Seq<char>| word_lower(w));
        let ma1 = a1.map_values(|w: Seq<char>| word_lower(w));
        assert(ma.drop_last() =~= ma1);
        assert(ma.last() == y);
        let t = b.take(j).map_values(|w: Seq<char>| word_lower(w));
        let u = b.skip(j + 1).map_values(|w: Seq<char>| word_lower(w));
        let single = seq![y];
        assert(b.map_values(|w: Seq<char>| word_lower(w)) =~= t + (single + u));
        assert(b1.map_values(|w: Seq<char>| word_lower(w)) =~= t + u);
        assert(single.drop_last() =~= Seq::<Seq<char>>::empty());
        lemma_score_concat(n, d, m, t, single + u);
        lemma_score_concat(n, d, m, single, u);
        lemma_score_concat(n, d, m, t, u);
        let h = word_hit(n, d, m, y);
        assert(single.last() == y);
        assert(score_spec(n, d, m, single.drop_last()) == Some(0nat));
        assert(score_spec(n, d, m, single) == match h {
            Some(v) => Some(0 + v),
            None => None::<nat>,
        });
        assert(score_spec(n, d, m, ma) == match (score_spec(n, d, m, ma1), h) {
            (Some(p), Some(v)) => Some(p + v),
            _ => None::<nat>,
        });
        assert(doc_score(info, a) == score_spec(n, d, m, ma));
        assert(doc_score(info, a1) == score_spec(n, d, m, ma1));
        assert(doc_score(info, b) == score_spec(n, d, m, t + (single + u)));
        assert(doc_score(info, b1) == score_spec(n, d, m, t + u));
    }
}

/// How one query word scores against a site, by where its lowercased
/// form occurs in the lowercased name, description and domain: 0 when it
/// is the whole name, 1 when it occurs in the name, else 2 when it occurs
/// in the description (whether or not also in the domain), else 3 when it
/// occurs in the domain only; no score when it occurs nowhere.
pub proof fn law_word_match_quality(info: InfoView, w: Seq<char>)
    ensures
        ({
            let n = unicode_lowercase(info.name);
            let d = unicode_lowercase(info.description);
            let m = unicode_lowercase(info.domain);
            let lw = word_lower(w);
            let in_name = exists|i: int|
                0 <= i && i + lw.len() <= n.len() && #[trigger] n.subrange(i, i + lw.len()) == lw;
            let in_desc = exists|i: int|
                0 <= i && i + lw.len() <= d.len() && #[trigger] d.subrange(i, i + lw.len()) == lw;
            let in_domain = exists|i: int|
                0 <= i && i + lw.len() <= m.len() && #[trigger] m.subrange(i, i + lw.len()) == lw;
            doc_score(info, seq![w]) == if n == lw {
                Some(0nat)
            } else if in_name {
                Some(1nat)
            } else if in_desc {
                Some(2nat)
            } else if in_domain {
                Some(3nat)
            } else {
                None
            }
        }),
{
    let n = unicode_lowercase(info.name);
    let d = unicode_lowercase(info.description);
    let m = unicode_lowercase(info.domain);
    let ws = seq![w].map_values(|x: Seq<char>| word_lower(x));
    assert(ws =~= seq![word_lower(w)]);
    assert(ws.drop_last() =~= Seq::<Seq<char>>::empty());
    assert(score_spec(n, d, m, ws.drop_last()) == Some(0nat));
}

/// The order of the query words does not change a site's score: any
/// rearrangement of the same words scores the same.
pub proof fn law_score_ignores_word_order(info: InfoView, a: Seq<Seq<char>>, b: Seq<Seq<char>>)
    requires
        a.to_multiset() == b.to_multiset(),
    ensures
        doc_score(info, a) == doc_score(info, b),
{
    lemma_doc_score_perm(info, a, b);
}

/// The ASCII case of the query words does not change a site's score.
pub proof fn law_score_ignores_ascii_case(info: InfoView, ws: Seq<Seq<char>>)
    requires
        forall|i: int| 0 <= i < ws.len() ==> is_ascii_text(#[trigger] ws[i]),
    ensures
        doc_score(info, ws.map_values(|w: Seq<char>| ascii_upper(w))) == doc_score(info, ws),
{
    let up = ws.map_values(|w: Seq<char>| ascii_upper(w));
    assert(up.map_values(|w: Seq<char>| word_lower(w)) =~= ws.map_values(
        |w: Seq<char>| word_lower(w),
    )) by {
        assert forall|i: int| 0 <= i < ws.len() implies word_lower(#[trigger] up[i]) == word_lower(
            ws[i],
        ) by {
            lemma_ascii_upper_then_lower(ws[i]);
        }
    }
}

/// More query words never make a site match better: if the longer query
/// matches, so does the shorter one, with a score no worse.
pub proof fn law_more_words_score_no_better(info: InfoView, ws: Seq<Seq<char>>, more: Seq<Seq<char>>)
    ensures
        doc_score(info, ws + more) matches Some(s) ==> (doc_score(info, ws) matches Some(s0)
            && s0 <= s),
{
    assert((ws + more).map_values(|w: Seq<char>| word_lower(w)) =~= ws.map_values(
        |w: Seq<char>| word_lower(w),
    ) + more.map_values(|w: Seq<char>| word_lower(w)));
    lemma_score_concat(
        unicode_lowercase(info.name),
        unicode_lowercase(info.description),
        unicode_lowercase(info.domain),
        ws.map_values(|w: Seq<char>| word_lower(w)),
        more.map_values(|w: Seq<char>| word_lower(w)),
    );
}

/// Score a site against query words: `None` unless every word matches
/// somewhere. Comparison ignores case (Unicode lowercase).
pub fn score_doc(info: &SiteInfo, words: &Vec<String>) -> (r: Option<u32>)
    requires
        words@.len() <= 1431655765,
    ensures
        match (r, doc_score(info@, words@.map_values(|w: String| w@))) {
            (Some(x), Some(y)) => x == y,
            (None, None) => true,
            _ => false,
        },
{
    if words.len() == 0 {
        return Some(0);
    }
    let name = chars_of(to_lowercase(info.name.as_str()).as_str());
    let desc = chars_of(to_lowercase(info.description.as_str()).as_str());
    let domain = chars_of(to_lowercase(info.domain.as_str()).as_str());
    let mut ws: Vec<Vec<char>> = Vec::new();
    let mut i: usize = 0;
    while i < words.len()
        invariant
            i <= words@.len(),
            ws@.len() == i,
            forall|k: int| 0 <= k < i ==> #[trigger] ws@[k]@ == word_lower(words@[k]@),
        decreases words.len() - i,
    {
        let l = to_lowercase(words[i].as_str());
        ws.push(chars_of(l.as_str()));
        i += 1;
    }
    assert(ws@.map_values(|w: Vec<char>| w@) =~= words@.map_values(|w: String| w@).map_values(
        |w: Seq<char>| word_lower(w),
    ));
    score_lowered(&name, &desc, &domain, &ws)
}

impl Store {
    /// The listing entry of the record at position `i`.
    fn entry_info(&self, i: usize) -> (r: SiteInfo)
        requires
            self.wf(),
            i < self.sites@.len(),
        ensures
            r@ == info_of(self.key(i as int), self.registry()[self.key(i as int)], self.base()),
    {
        proof {
            assert(self.registry@.contains_key(self.key(i as int)));
        }
        let e = &self.sites[i];
        let mut domain = e.0.clone();
        domain.push('.');
        domain.append(self.base_domain.as_str());
        SiteInfo {
            domain,
            name: e.1.name.clone(),
            description: e.1.description.clone(),
            created_at: e.1.created_at,
        }
    }

    /// Sites matching every word of `query`, best first (exact name, then
    /// name, description, domain; newer first among equals), at most
    /// `limit` of them.
    pub fn search(&self, query: &str, limit: usize) -> (r: Vec<SiteInfo>)
        requires
            self.wf(),
            words(query@).len() <= 1431655765,
        ensures
            r@.map_values(|i: SiteInfo| i@) == search_spec(self.registry(), self.base(), query@, limit as int),
    {
        let qc = chars_of(query);
        let ws = split_ws(&qc);
        let mut qwords: Vec<String> = Vec::new();
        let mut i: usize = 0;
        while i < ws.len()
            invariant
                i <= ws@.len(),
                ws@.len() == words(query@).len(),
                forall|k: int| 0 <= k < ws@.len() ==> #[trigger] ws@[k]@ == words(query@)[k],
                qwords@.len() == i,
                forall|k: int| 0 <= k < i ==> #[trigger] qwords@[k]@ == words(query@)[k],
            decreases ws.len() - i,
        {
            qwords.push(string_of(&ws[i]));
            i += 1;
        }
        let ghost wl = lowered_words(query@);
        assert(qwords@.map_values(|w: String| w@).map_values(|w: Seq<char>| word_lower(w)) =~= wl);
        let ghost reg = self.registry();
        let ghost base = self.base();
        let mut cands: Vec<Candidate> = Vec::new();
        let mut j: usize = 0;
        while j < self.sites.len()
            invariant
                self.wf(),
                reg == self.registry(),
                base == self.base(),
                qwords@.len() <= 1431655765,
                qwords@.map_values(|w: String| w@).map_values(|w: Seq<char>| word_lower(w)) == wl,
                j <= self.sites@.len(),
                forall|a: int|
                    0 <= a < cands@.len() ==> {
                        let c = #[trigger] cands@[a]@;
                        &&& c.pos < j
                        &&& c.sub == self.key(c.pos as int)
                        &&& site_score(reg, base, wl, c.sub) == Some(c.score as nat)
                        &&& c.created_at == reg[c.sub].created_at
                    },
                forall|a: int, b: int| 0 <= a < b < cands@.len() ==> cands@[a]@.pos < cands@[b]@.pos,
                forall|p: int|
                    0 <= p < j && #[trigger] site_score(reg, base, wl, self.key(p)) is Some ==> exists|
                        a: int,
                    | 0 <= a < cands@.len() && cands@[a]@.pos == p,
            decreases self.sites.len() - j,
        {
            let info = self.entry_info(j);
            let ghost before = cands@;
            proof {
                assert(self.registry@.contains_key(self.key(j as int)));
            }
            match score_doc(&info, &qwords) {
                Some(sc) => {
                    let sub = chars_of(self.sites[j].0.as_str());
                    let c = Candidate { score: sc, created_at: info.created_at, sub, pos: j };
                    cands.push(c);
                    assert(cands@[cands@.len() - 1]@.pos == j);
                    assert forall|p: int|
                        0 <= p < j + 1 && #[trigger] site_score(reg, base, wl, self.key(p))
                            is Some implies exists|a: int|
                        0 <= a < cands@.len() && cands@[a]@.pos == p by {
                        if p < j {
                            let a = choose|a: int| 0 <= a < before.len() && before[a]@.pos == p;
                            assert(cands@[a] == before[a]);
                        } else {
                            assert(cands@[cands@.len() - 1]@.pos == p);
                        }
                    }
                },
                None => {
                    assert(site_score(reg, base, wl, self.key(j as int)) is None);
                },
            }
            j += 1;
        }
        proof {
            assert forall|a: int, b: int|
                0 <= a < cands@.len() && 0 <= b < cands@.len() && a != b implies cands@[a]@.sub
                != cands@[b]@.sub by {
                if a < b {
                    assert(cands@[a]@.pos < cands@[b]@.pos);
                } else {
                    assert(cands@[b]@.pos < cands@[a]@.pos);
                }
            }
        }
        let ghost pool = views(cands@);
        let sorted = rank_candidates(cands);
        let ghost order = views(sorted@).map_values(|c: CandidateView| c.sub);
        proof {
            lemma_rank_order(reg, base, wl);
            let lt = rank_lt(reg, base, wl);
            assert forall|x: int| 0 <= x < sorted@.len() implies {
                let c = #[trigger] views(sorted@)[x];
                &&& c.pos < self.sites@.len()
                &&& c.sub == self.key(c.pos as int)
                &&& site_score(reg, base, wl, c.sub) == Some(c.score as nat)
                &&& c.created_at == reg[c.sub].created_at
            } by {
                assert(views(sorted@).contains(views(sorted@)[x]));
                let a = choose|a: int| 0 <= a < pool.len() && pool[a] == views(sorted@)[x];
                assert(pool[a] == cands@[a]@);
            }
            assert forall|x: int, y: int| 0 <= x < y < order.len() implies #[trigger] lt(
                order[x],
                order[y],
            ) by {
                assert(cand_lt()(views(sorted@)[x], views(sorted@)[y]));
                let cx = views(sorted@)[x];
                let cy = views(sorted@)[y];
                assert(self.registry@.contains_key(self.key(cx.pos as int)));
            }
            assert forall|k: Seq<char>| order.contains(k) <==> matching_sites(reg, base, wl).contains(
                k,
            ) by {
                if order.contains(k) {
                    let x = choose|x: int| 0 <= x < order.len() && order[x] == k;
                    let c = views(sorted@)[x];
                    assert(self.registry@.contains_key(self.key(c.pos as int)));
                }
                if matching_sites(reg, base, wl).contains(k) {
                    let p = choose|p: int| 0 <= p < self.sites@.len() && self.key(p) == k;
                    assert(site_score(reg, base, wl, self.key(p)) is Some);
                    let a = choose|a: int| 0 <= a < cands@.len() && cands@[a]@.pos == p;
                    assert(pool[a] == cands@[a]@);
                    assert(pool.contains(cands@[a]@));
                    assert(views(sorted@).contains(cands@[a]@));
                    let x = choose|x: int| 0 <= x < sorted@.len() && views(sorted@)[x] == cands@[a]@;
                    assert(order[x] == k);
                }
            }
            assert(is_ranking(order, reg, base, wl));
            let chosen = ranking(reg, base, wl);
            lemma_sorted_unique(order, chosen, lt);
        }
        let mut out: Vec<SiteInfo> = Vec::new();
        let mut k: usize = 0;
        while k < sorted.len() && k < limit
            invariant
                self.wf(),
                reg == self.registry(),
                base == self.base(),
                k <= sorted@.len(),
                k <= limit,
                order.len() == sorted@.len(),
                order == views(sorted@).map_values(|c: CandidateView| c.sub),
                forall|x: int| 0 <= x < sorted@.len() ==> {
                    let c = #[trigger] views(sorted@)[x];
                    &&& c.pos < self.sites@.len()
                    &&& c.sub == self.key(c.pos as int)
                },
                out@.len() == k,
                forall|x: int| 0 <= x < k ==> #[trigger] out@[x]@ == info_of(order[x], reg[order[x]], base),
            decreases sorted.len() - k,
        {
            let c = &sorted[k];
            assert(views(sorted@)[k as int] == sorted@[k as int]@);
            let info = self.entry_info(c.pos);
            out.push(info);
            k += 1;
        }
        proof {
            let order2 = ranking(reg, base, wl);
            assert(order2 == order);
            let n = min_len(limit as int, order.len() as int);
            assert(k == n);
            assert(out@.map_values(|i: SiteInfo| i@) =~= order.take(n).map_values(
                |s: Seq<char>| info_of(s, reg[s], base),
            ));
        }
        out
    }

    /// The domain of a subdomain of this platform.
    pub fn site_domain(&self, sub: &str) -> (r: String)
        ensures
            r@ == domain_of(sub@, self.base()),
    {
        let mut d = String::from_str(sub);
        d.push('.');
        d.append(self.base_domain.as_str());
        d
    }

    /// Every site with its listing entry and visit count, by subdomain.
    pub fn admin_rows(&self) -> (r: Vec<AdminRow>)
        requires
            self.wf(),
        ensures
            r@.len() == sub_order(self.registry()).len(),
            forall|i: int|
                0 <= i < r@.len() ==> {
                    let k = sub_order(self.registry())[i];
                    &&& #[trigger] r@[i].sub@ == k
                    &&& r@[i].info@ == info_of(k, self.registry()[k], self.base())
                    &&& r@[i].visits == self.registry()[k].visits
                },
    {
        let ghost reg = self.registry();
        let ghost base = self.base();
        let mut cands: Vec<Candidate> = Vec::new();
        let mut j: usize = 0;
        while j < self.sites.len()
            invariant
                self.wf(),
                reg == self.registry(),
                j <= self.sites@.len(),
                cands@.len() == j,
                forall|a: int|
                    0 <= a < j ==> {
                        let c = #[trigger] cands@[a]@;
                        &&& c.pos == a
                        &&& c.score == 0
                        &&& c.created_at == 0
                        &&& c.sub == self.key(a)
                    },
            decreases self.sites.len() - j,
        {
            let sub = chars_of(self.sites[j].0.as_str());
            let c = Candidate { score: 0, created_at: 0, sub, pos: j };
            cands.push(c);
            j += 1;
        }
        let ghost pool = views(cands@);
        let sorted = rank_candidates(cands);
        let ghost order = views(sorted@).map_values(|c: CandidateView| c.sub);
        proof {
            lemma_str_order();
            let lt = sub_lt();
            assert forall|x: int| 0 <= x < sorted@.len() implies {
                let c = #[trigger] views(sorted@)[x];
                &&& c.pos < self.sites@.len()
                &&& c.score == 0
                &&& c.created_at == 0
                &&& c.sub == self.key(c.pos as int)
            } by {
                assert(views(sorted@).contains(views(sorted@)[x]));
                let a = choose|a: int| 0 <= a < pool.len() && pool[a] == views(sorted@)[x];
                assert(pool[a] == cands@[a]@);
            }
            assert forall|x: int, y: int| 0 <= x < y < order.len() implies #[trigger] lt(
                order[x],
                order[y],
            ) by {
                assert(cand_lt()(views(sorted@)[x], views(sorted@)[y]));
            }
            assert forall|k: Seq<char>| order.contains(k) <==> reg.contains_key(k) by {
                if order.contains(k) {
                    let x = choose|x: int| 0 <= x < order.len() && order[x] == k;
                    let c = views(sorted@)[x];
                    assert(self.registry@.contains_key(self.key(c.pos as int)));
                }
                if reg.contains_key(k) {
                    let p = choose|p: int| 0 <= p < self.sites@.len() && self.key(p) == k;
                    assert(pool[p] == cands@[p]@);
                    assert(pool.contains(cands@[p]@));
                    assert(views(sorted@).contains(cands@[p]@));
                    let x = choose|x: int| 0 <= x < sorted@.len() && views(sorted@)[x] == cands@[p]@;
                    assert(order[x] == k);
                }
            }
            assert(is_sub_order(order, reg));
            let chosen = sub_order(reg);
            lemma_sorted_unique(order, chosen, lt);
        }
        let mut out: Vec<AdminRow> = Vec::new();
        let mut k: usize = 0;
        while k < sorted.len()
            invariant
                self.wf(),
                reg == self.registry(),
                base == self.base(),
                k <= sorted@.len(),
                order.len() == sorted@.len(),
                order == views(sorted@).map_values(|c: CandidateView| c.sub),
                forall|x: int| 0 <= x < sorted@.len() ==> {
                    let c = #[trigger] views(sorted@)[x];
                    &&& c.pos < self.sites@.len()
                    &&& c.sub == self.key(c.pos as int)
                },
                out@.len() == k,
                forall|x: int|
                    0 <= x < k ==> {
                        &&& #[trigger] out@[x].sub@ == order[x]
                        &&& out@[x].info@ == info_of(order[x], reg[order[x]], base)
                        &&& out@[x].visits == reg[order[x]].visits
                    },
            decreases sorted.len() - k,
        {
            let pos = sorted[k].pos;
            assert(views(sorted@)[k as int] == sorted@[k as int]@);
            proof {
                assert(self.registry@.contains_key(self.key(pos as int)));
            }
            let info = self.entry_info(pos);
            let row = AdminRow {
                sub: self.sites[pos].0.clone(),
                info,
                visits: self.sites[pos].1.visits,
            };
            out.push(row);
            k += 1;
        }
        out
    }

    /// The `n` most recently created sites, newest first.
    pub fn recent_sites(&self, n: usize) -> (r: Vec<SiteInfo>)
        requires
            self.wf(),
        ensures
            r@.map_values(|i: SiteInfo| i@) == recent_spec(self.registry(), self.base(), n as int),
    {
        let ghost reg = self.registry();
        let ghost base = self.base();
        let mut cands: Vec<Candidate> = Vec::new();
        let mut j: usize = 0;
        while j < self.sites.len()
            invariant
                self.wf(),
                reg == self.registry(),
                j <= self.sites@.len(),
                cands@.len() == j,
                forall|a: int|
                    0 <= a < j ==> {
                        let c = #[trigger] cands@[a]@;
                        &&& c.pos == a
                        &&& c.score == 0
                        &&& c.sub == self.key(a)
                        &&& c.created_at == reg[c.sub].created_at
                    },
            decreases self.sites.len() - j,
        {
            proof {
                assert(self.registry@.contains_key(self.key(j as int)));
            }
            let sub = chars_of(self.sites[j].0.as_str());
            let c = Candidate { score: 0, created_at: self.sites[j].1.created_at, sub, pos: j };
            cands.push(c);
            j += 1;
        }
        let ghost pool = views(cands@);
        let sorted = rank_candidates(cands);
        let ghost order = views(sorted@).map_values(|c: CandidateView| c.sub);
        proof {
            lemma_list_order(reg);
            let lt = list_lt(reg);
            assert forall|x: int| 0 <= x < sorted@.len() implies {
                let c = #[trigger] views(sorted@)[x];
                &&& c.pos < self.sites@.len()
                &&& c.score == 0
                &&& c.sub == self.key(c.pos as int)
                &&& c.created_at == reg[c.sub].created_at
            } by {
                assert(views(sorted@).contains(views(sorted@)[x]));
                let a = choose|a: int| 0 <= a < pool.len() && pool[a] == views(sorted@)[x];
                assert(pool[a] == cands@[a]@);
            }
            assert forall|x: int, y: int| 0 <= x < y < order.len() implies #[trigger] lt(
                order[x],
                order[y],
            ) by {
                assert(cand_lt()(views(sorted@)[x], views(sorted@)[y]));
            }
            assert forall|k: Seq<char>| order.contains(k) <==> reg.contains_key(k) by {
                if order.contains(k) {
                    let x = choose|x: int| 0 <= x < order.len() && order[x] == k;
                    let c = views(sorted@)[x];
                    assert(self.registry@.contains_key(self.key(c.pos as int)));
                }
                if reg.contains_key(k) {
                    let p = choose|p: int| 0 <= p < self.sites@.len() && self.key(p) == k;
                    assert(pool[p] == cands@[p]@);
                    assert(pool.contains(cands@[p]@));
                    assert(views(sorted@).contains(cands@[p]@));
                    let x = choose|x: int| 0 <= x < sorted@.len() && views(sorted@)[x] == cands@[p]@;
                    assert(order[x] == k);
                }
            }
            assert(is_listing(order, reg));
            let chosen = listing_order(reg);
            lemma_sorted_unique(order, chosen, lt);
        }
        let mut out: Vec<SiteInfo> = Vec::new();
        let mut k: usize = 0;
        while k < sorted.len() && k < n
            invariant
                self.wf(),
                reg == self.registry(),
                base == self.base(),
                k <= sorted@.len(),
                k <= n,
                order.len() == sorted@.len(),
                order == views(sorted@).map_values(|c: CandidateView| c.sub),
                forall|x: int| 0 <= x < sorted@.len() ==> {
                    let c = #[trigger] views(sorted@)[x];
                    &&& c.pos < self.sites@.len()
                    &&& c.sub == self.key(c.pos as int)
                },
                out@.len() == k,
                forall|x: int| 0 <= x < k ==> #[trigger] out@[x]@ == info_of(order[x], reg[order[x]], base),
            decreases sorted.len() - k,
        {
            let c = &sorted[k];
            assert(views(sorted@)[k as int] == sorted@[k as int]@);
            let info = self.entry_info(c.pos);
            out.push(info);
            k += 1;
        }
        proof {
            let m = min_len(n as int, order.len() as int);
            assert(out@.map_values(|i: SiteInfo| i@) =~= order.take(m).map_values(
                |s: Seq<char>| info_of(s, reg[s], base),
            ));
        }
        out
    }
}


// ---------------------------------------------------------------------------
// Laws of the registry
// ---------------------------------------------------------------------------
/// A valid subdomain is already trimmed and lowercase, and holds no
/// whitespace, dot or colon.
pub proof fn lemma_subdomain_is_normal(s: Seq<char>)
    requires
        valid_subdomain(s),
    ensures
        ascii_lower(trim(s)) == s,
        forall|i: int| 0 <= i < s.len() ==> !is_ws(#[trigger] s[i]) && s[i] != '.' && s[i] != ':',
{
    assert(subdomain_char_ok(s[0]));
    assert(subdomain_char_ok(s.last()));
    assert(trim_start(s) == s);
    assert(trim_end(s) == s);
    assert forall|i: int| 0 <= i < s.len() implies !is_ws(#[trigger] s[i]) && s[i] != '.' && s[i]
        != ':' by {
        assert(subdomain_char_ok(s[i]));
    }
    assert(ascii_lower(s) =~= s) by {
        assert forall|i: int| 0 <= i < s.len() implies ascii_lower(s)[i] == s[i] by {
            assert(subdomain_char_ok(s[i]));
        }
    }
}

proof fn lemma_uuid_text_is_trimmed(t: Seq<char>)
    requires
        is_uuid_text(t),
    ensures
        trim(t) == t,
{
    assert(is_lower_hex(t[0]));
    assert(is_lower_hex(t[35]));
    assert(trim_start(t) == t);
    assert(trim_end(t) == t);
}

/// A site just signed up can log in with its subdomain and the token it
/// was given.
pub proof fn law_signup_then_login(reg: Map<Seq<char>, RecordView>, s: Seq<char>, rec: RecordView)
    requires
        valid_subdomain(s),
        is_uuid_text(rec.token),
    ensures
        login_spec(reg.insert(s, rec), s, rec.token) == Some(s),
{
    lemma_subdomain_is_normal(s);
    lemma_uuid_text_is_trimmed(rec.token);
}

/// The tokens that signup and key reset hand out (version-4 UUID texts)
/// are never the nil UUID.
pub proof fn law_tokens_are_never_nil(t: Seq<char>)
    requires
        is_v4_uuid_text(t),
    ensures
        t != "00000000-0000-0000-0000-000000000000"@,
{
    reveal_strlit("00000000-0000-0000-0000-000000000000");
    assert("00000000-0000-0000-0000-000000000000"@[14] == '0');
}

/// After a key reset the new token logs in and a different old one does
/// not.
pub proof fn law_reset_token_replaces_login(
    reg: Map<Seq<char>, RecordView>,
    s: Seq<char>,
    old_token: Seq<char>,
    new_token: Seq<char>,
)
    requires
        reg.contains_key(s),
        valid_subdomain(s),
        is_uuid_text(new_token),
        trim(old_token) != new_token,
    ensures
        ({
            let after = reg.insert(s, RecordView { token: new_token, ..reg[s] });
            &&& login_spec(after, s, new_token) == Some(s)
            &&& login_spec(after, s, old_token) is None
        }),
{
    lemma_subdomain_is_normal(s);
    lemma_uuid_text_is_trimmed(new_token);
}

/// A deleted site no longer logs in, whatever the token.
pub proof fn law_deleted_site_cannot_login(
    reg: Map<Seq<char>, RecordView>,
    s: Seq<char>,
    sub: Seq<char>,
    token: Seq<char>,
)
    requires
        ascii_lower(trim(sub)) == s,
    ensures
        login_spec(reg.remove(s), sub, token) is None,
        !reg.remove(s).contains_key(s),
{
}

/// Records that list each registered site once, as `records` returns
/// them, give back the same registry when loaded: the registry survives a
/// reload.
pub proof fn law_reload_restores_registry(
    reg: Map<Seq<char>, RecordView>,
    entries: Seq<(Seq<char>, RecordView)>,
)
    requires
        forall|i: int, j: int|
            0 <= i < entries.len() && 0 <= j < entries.len() && i != j ==> entries[i].0
                != entries[j].0,
        forall|i: int|
            0 <= i < entries.len() ==> #[trigger] reg.contains_key(entries[i].0) && reg[entries[i].0]
                == entries[i].1,
        forall|k: Seq<char>|
            #[trigger] reg.contains_key(k) ==> exists|i: int| 0 <= i < entries.len() && entries[i].0 == k,
    ensures
        records_map(entries) == reg,
{
    lemma_records_map_distinct(entries);
    assert(records_map(entries) =~= reg) by {
        assert forall|k: Seq<char>| records_map(entries).contains_key(k) <==> reg.contains_key(k) by {
            if reg.contains_key(k) {
                let i = choose|i: int| 0 <= i < entries.len() && entries[i].0 == k;
            }
            if records_map(entries).contains_key(k) {
                let i = choose|i: int| 0 <= i < entries.len() && entries[i].0 == k;
                assert(reg.contains_key(entries[i].0));
            }
        }
        assert forall|k: Seq<char>| #[trigger] records_map(entries).contains_key(k) implies records_map(
            entries,
        )[k] == reg[k] by {
            let i = choose|i: int| 0 <= i < entries.len() && entries[i].0 == k;
            assert(reg.contains_key(entries[i].0));
        }
    }
}

proof fn lemma_records_map_distinct(entries: Seq<(Seq<char>, RecordView)>)
    requires
        forall|i: int, j: int|
            0 <= i < entries.len() && 0 <= j < entries.len() && i != j ==> entries[i].0
                != entries[j].0,
    ensures
        forall|k: Seq<char>|
            #[trigger] records_map(entries).contains_key(k) <==> exists|i: int|
                0 <= i < entries.len() && entries[i].0 == k,
        forall|i: int|
            0 <= i < entries.len() ==> #[trigger] records_map(entries)[entries[i].0] == entries[i].1,
    decreases entries.len(),
{
    if entries.len() > 0 {
        let init = entries.drop_last();
        lemma_records_map_distinct(init);
        let n = entries.len() - 1;
        assert forall|k: Seq<char>|
            #[trigger] records_map(entries).contains_key(k) <==> exists|i: int|
                0 <= i < entries.len() && entries[i].0 == k by {
            assert(records_map(entries) == records_map(init).insert(entries[n].0, entries[n].1));
            if records_map(entries).contains_key(k) && k != entries[n].0 {
                assert(records_map(init).contains_key(k));
                let i = choose|i: int| 0 <= i < init.len() && init[i].0 == k;
                assert(entries[i].0 == k);
            }
            if exists|i: int| 0 <= i < entries.len() && entries[i].0 == k {
                let i = choose|i: int| 0 <= i < entries.len() && entries[i].0 == k;
                if i < n {
                    assert(init[i].0 == k);
                }
            }
        }
        assert forall|i: int| 0 <= i < entries.len() implies #[trigger] records_map(
            entries,
        )[entries[i].0] == entries[i].1 by {
            assert(records_map(entries) == records_map(init).insert(entries[n].0, entries[n].1));
            if i < n {
                assert(init[i] == entries[i]);
                assert(entries[i].0 != entries[n].0);
            }
        }
    }
}

/// A site's own domain, as listings show it, is dispatched back to the
/// site (when the base domain is lowercase and has no port separator).
pub proof fn law_domain_dispatches_to_site(s: Seq<char>, base: Seq<char>)
    requires
        valid_subdomain(s),
        ascii_lower(base) == base,
        !base.contains(':'),
    ensures
        host_subdomain(domain_of(s, base), base) == Some(s),
{
    lemma_subdomain_is_normal(s);
    let d = domain_of(s, base);
    assert forall|i: int| 0 <= i < d.len() implies d[i] != ':' by {
        if i < s.len() {
        } else if i > s.len() {
            assert(d[i] == base[i - s.len() - 1]);
        }
    }
    lemma_before_first_absent(d, ':');
    assert(ascii_lower(d) =~= d) by {
        assert forall|i: int| 0 <= i < d.len() implies ascii_lower(d)[i] == d[i] by {
            if i < s.len() {
                assert(subdomain_char_ok(s[i]));
            } else if i > s.len() {
                assert(d[i] == base[i - s.len() - 1]);
                assert(ascii_lower(base)[i - s.len() - 1] == base[i - s.len() - 1]);
            }
        }
    }
    let suffix = seq!['.'] + base;
    assert(d.subrange(d.len() - suffix.len(), d.len() as int) =~= suffix);
    assert(d.subrange(0, d.len() - suffix.len()) =~= s);
}

proof fn lemma_before_first_absent(s: Seq<char>, c: char)
    requires
        forall|i: int| 0 <= i < s.len() ==> s[i] != c,
    ensures
        before_first(s, c) == s,
    decreases s.len(),
{
    if s.len() > 0 {
        lemma_before_first_absent(s.drop_first(), c);
        assert(s =~= seq![s[0]] + s.drop_first());
    }
}

proof fn lemma_score_some_all_words(name: Seq<char>, desc: Seq<char>, domain: Seq<char>, ws: Seq<Seq<char>>)
    requires
        score_spec(name, desc, domain, ws) is Some,
    ensures
        forall|i: int| 0 <= i < ws.len() ==> #[trigger] word_hit(name, desc, domain, ws[i]) is Some,
    decreases ws.len(),
{
    if ws.len() > 0 {
        lemma_score_some_all_words(name, desc, domain, ws.drop_last());
        assert forall|i: int| 0 <= i < ws.len() implies #[trigger] word_hit(name, desc, domain, ws[i]) is Some by {
            if i < ws.len() - 1 {
                assert(ws.drop_last()[i] == ws[i]);
            }
        }
    }
}

/// Every search result is a registered site that every word of the query
/// matches: in the name, the description or the domain (ignoring case).
pub proof fn law_search_results_match_every_word(store: &Store, query: Seq<char>, limit: int, i: int)
    requires
        store.wf(),
        0 <= limit,
        0 <= i < search_spec(store.registry(), store.base(), query, limit).len(),
    ensures
        ({
            let reg = store.registry();
            let base = store.base();
            let k = ranking(reg, base, lowered_words(query))[i];
            &&& reg.contains_key(k)
            &&& search_spec(reg, base, query, limit)[i] == info_of(k, reg[k], base)
            &&& forall|w: int|
                0 <= w < lowered_words(query).len() ==> #[trigger] word_hit(
                    unicode_lowercase(reg[k].name),
                    unicode_lowercase(reg[k].description),
                    unicode_lowercase(domain_of(k, base)),
                    lowered_words(query)[w],
                ) is Some
        }),
{
    let reg = store.registry();
    let base = store.base();
    let wl = lowered_words(query);
    store.lemma_len();
    lemma_rank_order(reg, base, wl);
    let set = matching_sites(reg, base, wl);
    assert(set.subset_of(reg.dom()));
    vstd::set_lib::lemma_len_subset(set, reg.dom());
    let witness = lemma_sorted_exists(set, rank_lt(reg, base, wl));
    assert(is_ranking(witness, reg, base, wl));
    let order = ranking(reg, base, wl);
    assert(is_ranking(order, reg, base, wl));
    assert(i < order.len());
    let k = order[i];
    assert(order.contains(k));
    assert(set.contains(k));
    lemma_score_some_all_words(
        unicode_lowercase(reg[k].name),
        unicode_lowercase(reg[k].description),
        unicode_lowercase(domain_of(k, base)),
        wl,
    );
}

proof fn lemma_ranking_is_ranking(store: &Store, wl: Seq<Seq<char>>)
    requires
        store.wf(),
    ensures
        is_ranking(ranking(store.registry(), store.base(), wl), store.registry(), store.base(), wl),
        is_strict_order(rank_lt(store.registry(), store.base(), wl)),
{
    let reg = store.registry();
    let base = store.base();
    store.lemma_len();
    lemma_rank_order(reg, base, wl);
    let set = matching_sites(reg, base, wl);
    assert(set.subset_of(reg.dom()));
    vstd::set_lib::lemma_len_subset(set, reg.dom());
    let witness = lemma_sorted_exists(set, rank_lt(reg, base, wl));
    assert(is_ranking(witness, reg, base, wl));
}

/// Search results come in search order: a better score first, then the
/// newer site, then the smaller subdomain.
pub proof fn law_search_results_in_rank_order(store: &Store, query: Seq<char>, limit: int, i: int, j: int)
    requires
        store.wf(),
        0 <= limit,
        0 <= i < j < search_spec(store.registry(), store.base(), query, limit).len(),
    ensures
        ({
            let reg = store.registry();
            let base = store.base();
            let wl = lowered_words(query);
            let order = ranking(reg, base, wl);
            &&& search_spec(reg, base, query, limit)[i] == info_of(order[i], reg[order[i]], base)
            &&& search_spec(reg, base, query, limit)[j] == info_of(order[j], reg[order[j]], base)
            &&& ranked_before(reg, base, wl, order[i], order[j])
        }),
{
    let reg = store.registry();
    let base = store.base();
    let wl = lowered_words(query);
    lemma_ranking_is_ranking(store, wl);
    let order = ranking(reg, base, wl);
    assert(rank_lt(reg, base, wl)(order[i], order[j]));
}

/// A registered site that every word of the query matches is in the
/// search order, after exactly the sites that rank before it; so it is
/// returned whenever fewer than `limit` sites rank before it.
pub proof fn law_search_finds_every_match(store: &Store, query: Seq<char>, limit: int, k: Seq<char>)
    requires
        store.wf(),
        0 <= limit,
        store.registry().contains_key(k),
        site_score(store.registry(), store.base(), lowered_words(query), k) is Some,
    ensures
        ({
            let reg = store.registry();
            let base = store.base();
            let wl = lowered_words(query);
            let order = ranking(reg, base, wl);
            exists|p: int|
                0 <= p < order.len() && order[p] == k
                    && (forall|x: int| 0 <= x < p ==> ranked_before(reg, base, wl, #[trigger] order[x], k))
                    && (p < limit ==> search_spec(reg, base, query, limit)[p] == info_of(k, reg[k], base))
        }),
{
    let reg = store.registry();
    let base = store.base();
    let wl = lowered_words(query);
    lemma_ranking_is_ranking(store, wl);
    let order = ranking(reg, base, wl);
    assert(matching_sites(reg, base, wl).contains(k));
    assert(order.contains(k));
    let p = choose|p: int| 0 <= p < order.len() && order[p] == k;
    assert forall|x: int| 0 <= x < p implies ranked_before(reg, base, wl, #[trigger] order[x], k) by {
        assert(rank_lt(reg, base, wl)(order[x], order[p]));
    }
    if p < limit {
        let n = min_len(limit, order.len() as int);
        assert(order.take(n)[p] == k);
    }
}

/// The recent-sites listing holds the newest sites, newest first (equal
/// creation times by subdomain), and is only cut short by `n`.
pub proof fn law_recent_sites_newest_first(store: &Store, n: int, i: int, j: int)
    requires
        store.wf(),
        0 <= n,
        0 <= i < j < recent_spec(store.registry(), store.base(), n).len(),
    ensures
        ({
            let reg = store.registry();
            let base = store.base();
            let order = listing_order(reg);
            &&& recent_spec(reg, base, n)[i] == info_of(order[i], reg[order[i]], base)
            &&& recent_spec(reg, base, n)[j] == info_of(order[j], reg[order[j]], base)
            &&& reg.contains_key(order[i])
            &&& reg.contains_key(order[j])
            &&& listed_before(reg, order[i], order[j])
        }),
{
    let reg = store.registry();
    store.lemma_len();
    lemma_list_order(reg);
    let witness = lemma_sorted_exists(reg.dom(), list_lt(reg));
    assert(is_listing(witness, reg));
    let order = listing_order(reg);
    assert(is_listing(order, reg));
    assert(list_lt(reg)(order[i], order[j]));
    assert(order.contains(order[i]));
    assert(order.contains(order[j]));
}

/// An empty query (no words) lists every site, in the same order and
/// number as the recent-sites listing.
pub proof fn law_empty_query_lists_recent(store: &Store, query: Seq<char>, n: int)
    requires
        store.wf(),
        words(query).len() == 0,
    ensures
        search_spec(store.registry(), store.base(), query, n) == recent_spec(
            store.registry(),
            store.base(),
            n,
        ),
{
    let reg = store.registry();
    let base = store.base();
    let wl = lowered_words(query);
    assert(wl =~= Seq::<Seq<char>>::empty());
    store.lemma_len();
    lemma_list_order(reg);
    lemma_rank_order(reg, base, wl);
    let witness = lemma_sorted_exists(reg.dom(), list_lt(reg));
    assert(is_listing(witness, reg));
    let listing = listing_order(reg);
    assert(is_listing(listing, reg));
    assert forall|k: Seq<char>| matching_sites(reg, base, wl).contains(k) <==> reg.contains_key(k) by {}
    assert(is_ranking(listing, reg, base, wl)) by {
        let lt = rank_lt(reg, base, wl);
        assert forall|i: int, j: int| 0 <= i < j < listing.len() implies #[trigger] lt(
            listing[i],
            listing[j],
        ) by {
            assert(list_lt(reg)(listing[i], listing[j]));
        }
    }
    let order = ranking(reg, base, wl);
    assert(is_ranking(order, reg, base, wl));
    lemma_sorted_unique(order, listing, rank_lt(reg, base, wl));
}

/// A cleaned name or description is the fallback, or else a non-empty
/// text of at most 120 characters without control characters and without
/// surrounding whitespace.
pub proof fn law_clean_meta_shape(input: Seq<char>, fallback: Seq<char>)
    ensures
        ({
            let r = clean_meta_spec(input, fallback);
            ||| r == fallback
            ||| {
                &&& 0 < r.len() <= 120
                &&& forall|i: int| 0 <= i < r.len() ==> !is_control(#[trigger] r[i])
                &&& !is_ws(r[0])
                &&& !is_ws(r.last())
            }
        }),
{
    let joined = join(words(input), ' ');
    let visible = joined.filter(|c: char| !is_control(c));
    let cut = if visible.len() <= 120 {
        visible
    } else {
        visible.take(120)
    };
    assert forall|i: int| 0 <= i < cut.len() implies !is_control(#[trigger] cut[i]) by {
        assert(visible.contains(cut[i])) by {
            assert(visible[i] == cut[i]);
        }
        joined.lemma_filter_contains_rev(|c: char| !is_control(c), cut[i]);
    }
    lemma_trim_shape(cut);
}

proof fn lemma_trim_start_shape(s: Seq<char>)
    ensures
        exists|a: int| 0 <= a <= s.len() && trim_start(s) == s.subrange(a, s.len() as int),
        trim_start(s).len() > 0 ==> !is_ws(trim_start(s)[0]),
    decreases s.len(),
{
    if s.len() > 0 && is_ws(s[0]) {
        lemma_trim_start_shape(s.drop_first());
        let a = choose|a: int|
            0 <= a <= s.drop_first().len() && trim_start(s.drop_first()) == s.drop_first().subrange(
                a,
                s.drop_first().len() as int,
            );
        assert(s.drop_first().subrange(a, s.drop_first().len() as int) =~= s.subrange(
            a + 1,
            s.len() as int,
        ));
    } else {
        assert(s.subrange(0, s.len() as int) =~= s);
    }
}

proof fn lemma_trim_end_shape(s: Seq<char>)
    ensures
        exists|b: int| 0 <= b <= s.len() && trim_end(s) == s.subrange(0, b),
        trim_end(s).len() > 0 ==> !is_ws(trim_end(s).last()) && !is_ws(trim_end(s)[0]) || is_ws(
            s[0],
        ),
    decreases s.len(),
{
    if s.len() > 0 && is_ws(s.last()) {
        lemma_trim_end_shape(s.drop_last());
        let b = choose|b: int|
            0 <= b <= s.drop_last().len() && trim_end(s.drop_last()) == s.drop_last().subrange(0, b);
        assert(s.drop_last().subrange(0, b) =~= s.subrange(0, b));
        if trim_end(s).len() > 0 {
            assert(s.drop_last()[0] == s[0]);
        }
    } else {
        assert(s.subrange(0, s.len() as int) =~= s);
    }
}

proof fn lemma_trim_shape(s: Seq<char>)
    requires
        forall|i: int| 0 <= i < s.len() ==> !is_control(#[trigger] s[i]),
        s.len() <= 120,
    ensures
        trim(s).len() <= 120,
        forall|i: int| 0 <= i < trim(s).len() ==> !is_control(#[trigger] trim(s)[i]),
        trim(s).len() > 0 ==> !is_ws(trim(s)[0]) && !is_ws(trim(s).last()),
{
    lemma_trim_start_shape(s);
    let t = trim_start(s);
    let a = choose|a: int| 0 <= a <= s.len() && t == s.subrange(a, s.len() as int);
    lemma_trim_end_shape(t);
    let b = choose|b: int| 0 <= b <= t.len() && trim_end(t) == t.subrange(0, b);
    assert forall|i: int| 0 <= i < trim(s).len() implies !is_control(#[trigger] trim(s)[i]) by {
        assert(trim(s)[i] == s[a + i]);
    }
    if trim(s).len() > 0 {
        assert(trim(s)[0] == t[0]);
    }
}

} // verus!
