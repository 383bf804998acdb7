//! Serving a user site: which file a request path names, what counts as a
//! visit, and which reply a request gets.
use vstd::prelude::*;

use crate::auth::split_on;
use crate::outside::{decode_path, guess_mime, mime_guess_first, percent_decoded};
use crate::store::Store;
use crate::text::{chars_of, string_of};

verus! {

/// The non-empty, non-`.` segments of a path.
pub open spec fn path_segments(path: Seq<char>) -> Seq<Seq<char>> {
    split_on(path, '/').filter(|s: Seq<char>| s.len() > 0 && s != seq!['.'])
}

/// The file a (decoded) request path names: `index.html` for the root,
/// the single segment otherwise; nothing for `..` or nested paths, since
/// sites are flat.
pub open spec fn flat_target_spec(path: Seq<char>) -> Option<Seq<char>> {
    let segs = path_segments(path);
    if segs.len() == 0 {
        Some("index.html"@)
    } else if segs.len() == 1 && segs[0] != seq!['.', '.'] {
        Some(segs[0])
    } else {
        None
    }
}

proof fn lemma_split_pieces_lack_sep(s: Seq<char>, c: char)
    ensures
        forall|i: int, j: int|
            0 <= i < split_on(s, c).len() && 0 <= j < split_on(s, c)[i].len() ==> #[trigger] split_on(
                s,
                c,
            )[i][j] != c,
    decreases s.len(),
{
    if s.len() > 0 {
        lemma_split_pieces_lack_sep(s.drop_last(), c);
        crate::auth::lemma_split_on_nonempty(s.drop_last(), c);
    }
}

/// A request path never names a file outside the site's own flat
/// directory: the target is a single path component, never `.` or `..`.
pub proof fn law_flat_target_is_one_component(path: Seq<char>)
    requires
        flat_target_spec(path) is Some,
    ensures
        ({
            let t = flat_target_spec(path).unwrap();
            &&& forall|j: int| 0 <= j < t.len() ==> #[trigger] t[j] != '/'
            &&& t.len() > 0
            &&& t != seq!['.']
            &&& t != seq!['.', '.']
        }),
{
    reveal_strlit("index.html");
    let segs = path_segments(path);
    if segs.len() == 0 {
        let t = "index.html"@;
        assert(t.len() == 10);
        assert(t[0] == 'i');
        assert(forall|j: int| 0 <= j < t.len() ==> #[trigger] t[j] != '/');
    }
    if segs.len() == 1 {
        let pred = |s: Seq<char>| s.len() > 0 && s != seq!['.'];
        assert(segs.contains(segs[0]));
        split_on(path, '/').lemma_filter_contains_rev(pred, segs[0]);
        split_on(path, '/').lemma_filter_pred(pred, 0);
        lemma_split_pieces_lack_sep(path, '/');
        let i = choose|i: int|
            0 <= i < split_on(path, '/').len() && split_on(path, '/')[i] == segs[0];
        assert forall|j: int| 0 <= j < segs[0].len() implies #[trigger] segs[0][j] != '/' by {
            assert(split_on(path, '/')[i][j] != '/');
        }
    }
}

/// The file a decoded request path names (see `flat_target_spec`).
pub fn flat_target(path: &str) -> (r: Option<String>)
    ensures
        match r {
            Some(t) => flat_target_spec(path@) == Some(t@),
            None => flat_target_spec(path@) is None,
        },
{
    let s = chars_of(path);
    let ghost pred = |x: Seq<char>| x.len() > 0 && x != seq!['.'];
    let ghost mut done: Seq<Seq<char>> = seq![];
    let mut cur: Vec<char> = Vec::new();
    // the kept segments so far: their number (up to 2) and the first one
    let mut kept: usize = 0;
    let mut first: Vec<char> = Vec::new();
    let mut i: usize = 0;
    while i < s.len()
        invariant
            i <= s.len(),
            pred == (|x: Seq<char>| x.len() > 0 && x != seq!['.']),
            split_on(s@.take(i as int), '/') == done.push(cur@),
            kept == (if done.filter(pred).len() >= 2 {
                2
            } else {
                done.filter(pred).len()
            }),
            kept >= 1 ==> first@ == done.filter(pred)[0],
        decreases s.len() - i,
    {
        let c = s[i];
        assert(s@.take(i + 1).drop_last() =~= s@.take(i as int));
        assert(s@.take(i + 1).last() == c);
        if c == '/' {
            let keep = cur.len() > 0 && !(cur.len() == 1 && cur[0] == '.');
            proof {
                if cur@ == seq!['.'] {
                    assert(cur@.len() == 1 && cur@[0] == '.');
                }
                if cur@.len() == 1 && cur@[0] == '.' {
                    assert(cur@ =~= seq!['.']);
                }
                assert(keep == pred(cur@));
                let prev = done;
                done = done.push(cur@);
                assert(done.drop_last() =~= prev);
                assert(done.last() == cur@);
                reveal(Seq::filter);
                if keep {
                    assert(done.filter(pred) == prev.filter(pred).push(cur@));
                } else {
                    assert(done.filter(pred) == prev.filter(pred));
                }
            }
            if keep {
                if kept == 0 {
                    first = cur.clone();
                }
                if kept < 2 {
                    kept += 1;
                }
            }
            cur = Vec::new();
            assert(split_on(s@.take(i + 1), '/') =~= done.push(cur@));
        } else {
            cur.push(c);
            assert(split_on(s@.take(i + 1), '/') =~= done.push(cur@));
        }
        i += 1;
    }
    assert(s@.take(s.len() as int) =~= s@);
    let keep = cur.len() > 0 && !(cur.len() == 1 && cur[0] == '.');
    proof {
        if cur@ == seq!['.'] {
            assert(cur@.len() == 1 && cur@[0] == '.');
        }
        if cur@.len() == 1 && cur@[0] == '.' {
            assert(cur@ =~= seq!['.']);
        }
        let all = done.push(cur@);
        assert(all.drop_last() =~= done);
        assert(all.last() == cur@);
        reveal(Seq::filter);
        if keep {
            assert(all.filter(pred) == done.filter(pred).push(cur@));
        } else {
            assert(all.filter(pred) == done.filter(pred));
        }
        assert(path_segments(path@) == all.filter(pred));
    }
    if keep {
        if kept == 0 {
            first = cur.clone();
        }
        if kept < 2 {
            kept += 1;
        }
    }
    if kept == 0 {
        return Some(String::from_str("index.html"));
    }
    if kept >= 2 {
        return None;
    }
    if first.len() == 2 && first[0] == '.' && first[1] == '.' {
        assert(first@ =~= seq!['.', '.']);
        return None;
    }
    proof {
        if first@ == seq!['.', '.'] {
            assert(first@.len() == 2 && first@[0] == '.' && first@[1] == '.');
        }
    }
    Some(string_of(&first))
}

/// The file a raw, percent-encoded request path names.
pub fn site_target(path: &str) -> (r: Option<String>)
    ensures
        match r {
            Some(t) => flat_target_spec(percent_decoded(path@)) == Some(t@),
            None => flat_target_spec(percent_decoded(path@)) is None,
        },
{
    let decoded = decode_path(path);
    flat_target(decoded.as_str())
}

/// The `Content-Type` of a served file: what `mime_guess` gives for its
/// name, `application/octet-stream` when it knows none.
pub open spec fn content_type_spec(name: Seq<char>) -> Seq<char> {
    match mime_guess_first(name) {
        Some(m) => m,
        None => "application/octet-stream"@,
    }
}

pub fn content_type(name: &str) -> (r: String)
    ensures
        r@ == content_type_spec(name@),
{
    match guess_mime(name) {
        Some(m) => m,
        None => String::from_str("application/octet-stream"),
    }
}

/// What a request for a user site resolves to before any file is read.
pub enum SiteRequest {
    /// The platform's 404 page.
    NotFound,
    /// The named file of the site's directory.
    File(String),
}

/// Start serving `path` of site `sub`, whose directory does or does not
/// exist: a registered site with a directory counts a visit, whatever
/// comes of the request; then the path is resolved to a file name.
pub fn begin_serve(store: &mut Store, sub: &str, path: &str, site_dir_exists: bool) -> (r: SiteRequest)
    requires
        old(store).wf(),
        old(store).registry().contains_key(sub@) ==> old(store).registry()[sub@].visits < u64::MAX,
    ensures
        final(store).wf(),
        final(store).same_settings(old(store)),
        ({
            let counted = old(store).registry().contains_key(sub@) && site_dir_exists;
            &&& counted ==> final(store).registry() == old(store).registry().insert(
                sub@,
                crate::store::RecordView {
                    visits: (old(store).registry()[sub@].visits + 1) as u64,
                    ..old(store).registry()[sub@]
                },
            )
            &&& !counted ==> final(store).registry() == old(store).registry()
            &&& match r {
                SiteRequest::NotFound => !counted || flat_target_spec(percent_decoded(path@)) is None,
                SiteRequest::File(name) => counted && flat_target_spec(percent_decoded(path@))
                    == Some(name@),
            }
        }),
{
    if !store.site_exists(sub) || !site_dir_exists {
        return SiteRequest::NotFound;
    }
    store.record_traffic(sub);
    match site_target(path) {
        Some(name) => SiteRequest::File(name),
        None => SiteRequest::NotFound,
    }
}

/// The reply to a site request once the file system has answered.
pub enum SiteReply {
    /// 200 with the file's bytes and this content type.
    File(String),
    /// 404 with the site's own `404.html`.
    CustomNotFound,
    /// The platform's 404 page.
    NotFound,
}

/// Choose the reply: the file when it is a regular file that could be
/// read; else the site's own `404.html` when it exists and could be read;
/// else the platform's 404.
pub fn serve_reply(name: &str, target_read: bool, target_is_file: bool, custom_404_read: bool) -> (r: SiteReply)
    ensures
        target_is_file && target_read ==> (r matches SiteReply::File(ct) && ct@ == content_type_spec(
            name@,
        )),
        target_is_file && !target_read ==> r is NotFound,
        !target_is_file && custom_404_read ==> r is CustomNotFound,
        !target_is_file && !custom_404_read ==> r is NotFound,
{
    if !target_is_file {
        if custom_404_read {
            return SiteReply::CustomNotFound;
        }
        return SiteReply::NotFound;
    }
    if target_read {
        SiteReply::File(content_type(name))
    } else {
        SiteReply::NotFound
    }
}

} // verus!
