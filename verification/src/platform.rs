//! The platform as a whole: its settings, which requests go to a user
//! site, and which frontend asset a request names.
use vstd::prelude::*;

use crate::auth::split_on;
use crate::outside::{parses_as_uuid, uuid_str_parses};
use crate::store::{host_subdomain, Store};
use crate::text::{chars_of, decimal, decimal_digits, string_of, trim, trim_chars};

verus! {

/// The running platform: the registry, where the frontend lives, and the
/// admin key when the admin panel is enabled.
pub struct App {
    pub store: Store,
    pub assets_dir: String,
    pub admin_key: Option<String>,
}

/// A byte count in whole mebibytes, for display.
pub fn human_bytes(bytes: u64) -> (r: String)
    ensures
        r@ == decimal((bytes / 1048576) as nat) + " MB"@,
{
    let mb = bytes / 1048576;
    let digits = decimal_digits(mb);
    let mut r = string_of(&digits);
    r.append(" MB");
    r
}

/// The per-site quota in bytes for a quota in mebibytes (1024 when unset).
pub fn quota_bytes_from_mb(mb: Option<u64>) -> (r: u64)
    requires
        mb matches Some(m) ==> m * 1048576 <= u64::MAX,
    ensures
        r == match mb {
            Some(m) => m * 1048576,
            None => 1073741824,
        },
{
    let m = match mb {
        Some(m) => m,
        None => 1024,
    };
    m * 1024 * 1024
}

/// What the admin-key setting enables.
pub enum AdminKey {
    /// The panel is on, guarded by this key (as configured, untrimmed).
    Enabled(String),
    /// A key was configured but is not a UUID: the panel is off.
    Rejected,
    /// No key configured: the panel is off.
    Unset,
}

/// Decide the admin panel from the configured key: enabled only for a
/// value that, trimmed, is non-empty and parses as a UUID.
pub fn admin_key_setting(raw: Option<&str>) -> (r: AdminKey)
    ensures
        match raw {
            None => r is Unset,
            Some(v) => if trim(v@).len() == 0 {
                r is Unset
            } else if uuid_str_parses(trim(v@)) {
                r matches AdminKey::Enabled(k) && k@ == v@
            } else {
                r is Rejected
            },
        },
{
    match raw {
        None => AdminKey::Unset,
        Some(v) => {
            let c = chars_of(v);
            let t = trim_chars(&c);
            if t.len() == 0 {
                return AdminKey::Unset;
            }
            let ts = string_of(&t);
            if parses_as_uuid(ts.as_str()) {
                AdminKey::Enabled(String::from_str(v))
            } else {
                AdminKey::Rejected
            }
        },
    }
}

/// Where a request goes.
pub enum Dispatch {
    /// Static files of this user site.
    Site(String),
    /// A user site asked with a method other than GET or HEAD.
    MethodNotAllowed,
    /// The platform's own pages and API.
    Platform,
}

/// `s` without its leading slashes.
pub open spec fn strip_leading_slashes(s: Seq<char>) -> Seq<char>
    decreases s.len(),
{
    if s.len() > 0 && s[0] == '/' {
        strip_leading_slashes(s.drop_first())
    } else {
        s
    }
}

/// A segment a frontend asset path may not have: empty or hidden.
pub open spec fn bad_segment(seg: Seq<char>) -> bool {
    seg.len() == 0 || seg[0] == '.'
}

/// The file name a request path asks for: the path without its leading
/// slashes, `index.html` for the root.
pub open spec fn requested_name(path: Seq<char>) -> Seq<char> {
    let stripped = strip_leading_slashes(path);
    if stripped.len() == 0 {
        "index.html"@
    } else {
        stripped
    }
}

/// Whether some '/'-separated segment of `name` is empty or hidden.
pub open spec fn has_bad_segment_spec(name: Seq<char>) -> bool {
    exists|i: int| 0 <= i < split_on(name, '/').len() && bad_segment(#[trigger] split_on(name, '/')[i])
}

/// The frontend file a request path names: `index.html` for the root;
/// nothing for a path with an empty or hidden segment, nor for the admin
/// page while the panel is off.
pub open spec fn asset_spec(path: Seq<char>, admin_enabled: bool) -> Option<Seq<char>> {
    let name = requested_name(path);
    if has_bad_segment_spec(name) {
        None
    } else if name == "admin.html"@ && !admin_enabled {
        None
    } else {
        Some(name)
    }
}

/// Whether some '/'-separated segment of `s` is empty or starts with a dot.
fn has_bad_segment(s: &Vec<char>) -> (r: bool)
    ensures
        r == has_bad_segment_spec(s@),
{
    let ghost mut done: Seq<Seq<char>> = seq![];
    let mut cur_len: usize = 0;
    let mut cur_first: char = ' ';
    let mut bad = false;
    let mut i: usize = 0;
    while i < s.len()
        invariant
            i <= s.len(),
            cur_len <= i,
            split_on(s@.take(i as int), '/').len() == done.len() + 1,
            forall|k: int| 0 <= k < done.len() ==> #[trigger] split_on(s@.take(i as int), '/')[k]
                == done[k],
            split_on(s@.take(i as int), '/').last().len() == cur_len,
            cur_len > 0 ==> split_on(s@.take(i as int), '/').last()[0] == cur_first,
            bad == exists|k: int| 0 <= k < done.len() && bad_segment(#[trigger] done[k]),
        decreases s.len() - i,
    {
        let c = s[i];
        let ghost pre = split_on(s@.take(i as int), '/');
        assert(s@.take(i + 1).drop_last() =~= s@.take(i as int));
        assert(s@.take(i + 1).last() == c);
        if c == '/' {
            let seg_bad = cur_len == 0 || cur_first == '.';
            proof {
                let cur = pre.last();
                assert(seg_bad == bad_segment(cur));
                let prev = done;
                done = done.push(cur);
                assert forall|k: int| 0 <= k < done.len() implies #[trigger] split_on(
                    s@.take(i + 1),
                    '/',
                )[k] == done[k] by {
                    if k < prev.len() {
                        assert(pre[k] == prev[k]);
                    }
                }
                if seg_bad {
                    assert(bad_segment(done[done.len() - 1]));
                }
                if bad {
                    let k = choose|k: int| 0 <= k < prev.len() && bad_segment(#[trigger] prev[k]);
                    assert(done[k] == prev[k]);
                }
                if exists|k: int| 0 <= k < done.len() && bad_segment(#[trigger] done[k]) {
                    let k = choose|k: int| 0 <= k < done.len() && bad_segment(#[trigger] done[k]);
                    if k < prev.len() {
                        assert(done[k] == prev[k]);
                    }
                }
            }
            bad = bad || seg_bad;
            cur_len = 0;
        } else {
            proof {
                crate::auth::lemma_split_on_nonempty(s@.take(i as int), '/');
                let post = split_on(s@.take(i + 1), '/');
                assert(post == pre.drop_last().push(pre.last().push(c)));
                assert forall|k: int| 0 <= k < done.len() implies #[trigger] post[k] == done[k] by {
                    assert(pre[k] == done[k]);
                }
            }
            if cur_len == 0 {
                cur_first = c;
            }
            cur_len += 1;
        }
        i += 1;
    }
    assert(s@.take(s.len() as int) =~= s@);
    let last_bad = cur_len == 0 || cur_first == '.';
    proof {
        let all = split_on(s@, '/');
        assert(last_bad == bad_segment(all.last()));
        if exists|k: int| 0 <= k < all.len() && bad_segment(#[trigger] all[k]) {
            let k = choose|k: int| 0 <= k < all.len() && bad_segment(#[trigger] all[k]);
            if k < done.len() {
                assert(done[k] == all[k]);
            }
        }
        if bad {
            let k = choose|k: int| 0 <= k < done.len() && bad_segment(#[trigger] done[k]);
            assert(all[k] == done[k]);
        }
        if last_bad {
            assert(bad_segment(all[all.len() - 1]));
        }
    }
    bad || last_bad
}

impl App {
    /// Where a request with this `Host` header goes: the user site it
    /// names (GET and HEAD only), or the platform.
    pub fn dispatch(&self, host: &str, get_or_head: bool) -> (r: Dispatch)
        ensures
            match host_subdomain(host@, self.store.base()) {
                Some(s) => if get_or_head {
                    r matches Dispatch::Site(x) && x@ == s
                } else {
                    r is MethodNotAllowed
                },
                None => r is Platform,
            },
    {
        match self.store.subdomain_from_host(host) {
            Some(sub) => {
                if get_or_head {
                    Dispatch::Site(sub)
                } else {
                    Dispatch::MethodNotAllowed
                }
            },
            None => Dispatch::Platform,
        }
    }

    /// The frontend file a request path names (see `asset_spec`).
    pub fn asset_name(&self, path: &str) -> (r: Option<String>)
        ensures
            match r {
                Some(n) => asset_spec(path@, self.admin_key is Some) == Some(n@),
                None => asset_spec(path@, self.admin_key is Some) is None,
            },
    {
        let c = chars_of(path);
        let mut start: usize = 0;
        assert(c@.subrange(0, c.len() as int) =~= c@);
        while start < c.len() && c[start] == '/'
            invariant
                start <= c.len(),
                strip_leading_slashes(c@) == strip_leading_slashes(c@.subrange(start as int, c.len() as int)),
            decreases c.len() - start,
        {
            let ghost rest = c@.subrange(start as int, c.len() as int);
            assert(rest.drop_first() =~= c@.subrange(start + 1, c.len() as int));
            start += 1;
        }
        proof {
            let rest = c@.subrange(start as int, c.len() as int);
            assert(strip_leading_slashes(rest) == rest);
        }
        let mut name: Vec<char> = Vec::new();
        let mut j: usize = start;
        while j < c.len()
            invariant
                start <= j <= c.len(),
                name@ == c@.subrange(start as int, j as int),
                strip_leading_slashes(c@) == c@.subrange(start as int, c.len() as int),
            decreases c.len() - j,
        {
            name.push(c[j]);
            j += 1;
            assert(name@ =~= c@.subrange(start as int, j as int));
        }
        let ghost stripped = strip_leading_slashes(path@);
        assert(name@ == stripped);
        if name.len() == 0 {
            name = chars_of("index.html");
        }
        assert(name@ == requested_name(path@));
        if has_bad_segment(&name) {
            return None;
        }
        let admin = chars_of("admin.html");
        let is_admin_page = crate::text::seq_eq(&name, &admin);
        if is_admin_page && self.admin_key.is_none() {
            return None;
        }
        Some(string_of(&name))
    }
}

} // verus!
