//! Session cookies: `hcity=<sub>:<token>` names the site and its key; a
//! session is valid iff the token is the one registered for the subdomain.
use vstd::prelude::*;

use crate::store::{login_spec, Store};
use crate::text::{
    chars_of, is_ws, lemma_trim_end_concat, lemma_trim_of_trim_end, starts_with, starts_with_chars,
    string_of, trim, trim_chars, trim_end, trim_start,
};

verus! {

/// `str::split` on one character: the pieces between separators (one
/// piece for a string without separator, one empty piece for "").
pub open spec fn split_on(s: Seq<char>, c: char) -> Seq<Seq<char>>
    decreases s.len(),
{
    if s.len() == 0 {
        seq![seq![]]
    } else {
        let p = split_on(s.drop_last(), c);
        if s.last() == c {
            p.push(seq![])
        } else {
            p.drop_last().push(p.last().push(s.last()))
        }
    }
}

pub proof fn lemma_split_on_nonempty(s: Seq<char>, c: char)
    ensures
        split_on(s, c).len() > 0,
    decreases s.len(),
{
    if s.len() > 0 {
        lemma_split_on_nonempty(s.drop_last(), c);
    }
}

/// The value of a `name=value` cookie pair, once the pair is trimmed.
pub open spec fn pair_value(pair: Seq<char>, name: Seq<char>) -> Option<Seq<char>> {
    let t = trim(pair);
    let prefix = name.push('=');
    if starts_with(t, prefix) {
        Some(t.subrange(prefix.len() as int, t.len() as int))
    } else {
        None
    }
}

/// The value of the last pair with the given name.
pub open spec fn cookie_lookup(pairs: Seq<Seq<char>>, name: Seq<char>) -> Option<Seq<char>>
    decreases pairs.len(),
{
    if pairs.len() == 0 {
        None
    } else {
        match pair_value(pairs.last(), name) {
            Some(v) => Some(v),
            None => cookie_lookup(pairs.drop_last(), name),
        }
    }
}

/// The value of cookie `name` in a `Cookie` header, if any.
pub open spec fn cookie_value_spec(header: Option<Seq<char>>, name: Seq<char>) -> Option<Seq<char>> {
    match header {
        Some(h) => cookie_lookup(split_on(h, ';'), name),
        None => None,
    }
}

/// `str::split_once` on one character.
pub open spec fn split_once_spec(s: Seq<char>, c: char) -> Option<(Seq<char>, Seq<char>)> {
    if s.contains(c) {
        let head = crate::store::before_first(s, c);
        Some((head, s.subrange(head.len() + 1int, s.len() as int)))
    } else {
        None
    }
}

/// The user a `Cookie` header authenticates: its `hcity` cookie split at
/// the first colon into subdomain and token, checked by login.
pub open spec fn current_user_spec(
    header: Option<Seq<char>>,
    reg: Map<Seq<char>, crate::store::RecordView>,
) -> Option<Seq<char>> {
    match cookie_value_spec(header, "hcity"@) {
        Some(v) => match split_once_spec(v, ':') {
            Some((sub, token)) => login_spec(reg, sub, token),
            None => None,
        },
        None => None,
    }
}

/// The session cookie text for a site and its token.
pub open spec fn session_cookie(sub: Seq<char>, token: Seq<char>) -> Seq<char> {
    "hcity="@ + sub + ":"@ + token + "; Path=/; HttpOnly; SameSite=Lax; Max-Age=2592000"@
}

/// The `Set-Cookie` value that logs a site in.
pub fn make_cookie(sub: &str, token: &str) -> (r: String)
    ensures
        r@ == session_cookie(sub@, token@),
{
    let mut r = String::from_str("hcity=");
    r.append(sub);
    r.append(":");
    r.append(token);
    r.append("; Path=/; HttpOnly; SameSite=Lax; Max-Age=2592000");
    r
}

/// The `Set-Cookie` value that clears cookie `name`.
pub fn expired_cookie(name: &str) -> (r: String)
    ensures
        r@ == name@ + "=; Path=/; HttpOnly; SameSite=Lax; Max-Age=0"@,
{
    let mut r = String::from_str(name);
    r.append("=; Path=/; HttpOnly; SameSite=Lax; Max-Age=0");
    r
}

/// The `Set-Cookie` value of the admin session for the given admin key.
pub fn admin_cookie(key: &str) -> (r: String)
    ensures
        r@ == "hcity_admin="@ + key@ + "; Path=/; HttpOnly; SameSite=Lax; Max-Age=2592000"@,
{
    let mut r = String::from_str("hcity_admin=");
    r.append(key);
    r.append("; Path=/; HttpOnly; SameSite=Lax; Max-Age=2592000");
    r
}

fn pair_value_chars(pair: &Vec<char>, name: &Vec<char>) -> (r: Option<Vec<char>>)
    ensures
        match r {
            Some(v) => pair_value(pair@, name@) == Some(v@),
            None => pair_value(pair@, name@) is None,
        },
{
    let t = trim_chars(pair);
    let mut prefix = name.clone();
    prefix.push('=');
    assert(prefix@ == name@.push('='));
    if !starts_with_chars(&t, &prefix) {
        return None;
    }
    let mut v: Vec<char> = Vec::new();
    let mut i: usize = prefix.len();
    while i < t.len()
        invariant
            prefix@.len() <= i <= t@.len(),
            v@ == t@.subrange(prefix@.len() as int, i as int),
        decreases t.len() - i,
    {
        v.push(t[i]);
        i += 1;
        assert(v@ =~= t@.subrange(prefix@.len() as int, i as int));
    }
    Some(v)
}

/// The value of cookie `name` in the request's `Cookie` header (the last
/// one of that name wins).
pub fn cookie_value(header: Option<&str>, name: &str) -> (r: Option<String>)
    ensures
        match r {
            Some(v) => cookie_value_spec(
                match header {
                    Some(h) => Some(h@),
                    None => None,
                },
                name@,
            ) == Some(v@),
            None => cookie_value_spec(
                match header {
                    Some(h) => Some(h@),
                    None => None,
                },
                name@,
            ) is None,
        },
{
    let h = match header {
        Some(h) => h,
        None => return None,
    };
    let s = chars_of(h);
    let nm = chars_of(name);
    let ghost mut done: Seq<Seq<char>> = seq![];
    let mut cur: Vec<char> = Vec::new();
    let mut found: Option<Vec<char>> = None;
    let mut i: usize = 0;
    while i < s.len()
        invariant
            i <= s.len(),
            split_on(s@.take(i as int), ';') == done.push(cur@),
            match found {
                Some(v) => cookie_lookup(done, nm@) == Some(v@),
                None => cookie_lookup(done, nm@) is None,
            },
        decreases s.len() - i,
    {
        let c = s[i];
        assert(s@.take(i + 1).drop_last() =~= s@.take(i as int));
        assert(s@.take(i + 1).last() == c);
        if c == ';' {
            match pair_value_chars(&cur, &nm) {
                Some(v) => {
                    found = Some(v);
                },
                None => {},
            }
            proof {
                let prev = done;
                done = done.push(cur@);
                assert(done.drop_last() =~= prev);
                assert(done.last() == cur@);
            }
            cur = Vec::new();
            assert(split_on(s@.take(i + 1), ';') =~= done.push(cur@));
        } else {
            cur.push(c);
            assert(split_on(s@.take(i + 1), ';') =~= done.push(cur@));
        }
        i += 1;
    }
    assert(s@.take(s.len() as int) =~= s@);
    assert(done.push(cur@).drop_last() =~= done);
    assert(done.push(cur@).last() == cur@);
    match pair_value_chars(&cur, &nm) {
        Some(v) => Some(string_of(&v)),
        None => match found {
            Some(v) => Some(string_of(&v)),
            None => None,
        },
    }
}

fn split_once_colon(v: &Vec<char>) -> (r: Option<(String, String)>)
    ensures
        match r {
            Some((a, b)) => split_once_spec(v@, ':') == Some((a@, b@)),
            None => split_once_spec(v@, ':') is None,
        },
{
    let mut i: usize = 0;
    while i < v.len() && v[i] != ':'
        invariant
            i <= v.len(),
            forall|k: int| 0 <= k < i ==> v@[k] != ':',
        decreases v.len() - i,
    {
        i += 1;
    }
    if i == v.len() {
        return None;
    }
    let mut head: Vec<char> = Vec::new();
    let mut tail: Vec<char> = Vec::new();
    let mut j: usize = 0;
    while j < v.len()
        invariant
            i < v.len(),
            j <= v.len(),
            j <= i ==> head@ == v@.take(j as int) && tail@.len() == 0,
            j > i ==> head@ == v@.take(i as int) && tail@ == v@.subrange(i + 1, j as int),
        decreases v.len() - j,
    {
        if j < i {
            head.push(v[j]);
            assert(head@ =~= v@.take(j + 1));
        } else if j > i {
            tail.push(v[j]);
            assert(tail@ =~= v@.subrange(i + 1, j + 1));
        } else {
            assert(v@.subrange(i + 1, i + 1) =~= Seq::<char>::empty());
        }
        j += 1;
    }
    proof {
        assert(v@.contains(':')) by {
            assert(v@[i as int] == ':');
        }
        lemma_before_first_prefix(v@, ':', i as int);
    }
    Some((string_of(&head), string_of(&tail)))
}

proof fn lemma_before_first_prefix(s: Seq<char>, c: char, i: int)
    requires
        0 <= i < s.len(),
        s[i] == c,
        forall|k: int| 0 <= k < i ==> s[k] != c,
    ensures
        crate::store::before_first(s, c) == s.take(i),
    decreases i,
{
    if i > 0 {
        lemma_before_first_prefix(s.drop_first(), c, i - 1);
        assert(s.take(i) =~= seq![s[0]] + s.drop_first().take(i - 1));
    } else {
        assert(s.take(0) =~= Seq::<char>::empty());
    }
}

/// The subdomain of the logged-in user, if the request's `Cookie` header
/// carries a valid `hcity` session.
pub fn current_user(header: Option<&str>, store: &Store) -> (r: Option<String>)
    requires
        store.wf(),
    ensures
        match r {
            Some(u) => current_user_spec(
                match header {
                    Some(h) => Some(h@),
                    None => None,
                },
                store.registry(),
            ) == Some(u@),
            None => current_user_spec(
                match header {
                    Some(h) => Some(h@),
                    None => None,
                },
                store.registry(),
            ) is None,
        },
{
    let value = match cookie_value(header, "hcity") {
        Some(v) => v,
        None => return None,
    };
    let vc = chars_of(value.as_str());
    match split_once_colon(&vc) {
        Some((sub, token)) => store.login(sub.as_str(), token.as_str()),
        None => None,
    }
}


proof fn lemma_split_no_sep(x: Seq<char>, c: char)
    requires
        !x.contains(c),
    ensures
        split_on(x, c) == seq![x],
    decreases x.len(),
{
    if x.len() > 0 {
        assert(!x.drop_last().contains(c)) by {
            if x.drop_last().contains(c) {
                let i = choose|i: int| 0 <= i < x.drop_last().len() && x.drop_last()[i] == c;
                assert(x[i] == c);
            }
        }
        lemma_split_no_sep(x.drop_last(), c);
        assert(x[x.len() - 1] != c);
        assert(x.drop_last().push(x.last()) =~= x);
        assert(seq![x.drop_last()].drop_last().push(seq![x.drop_last()].last().push(x.last()))
            =~= seq![x]);
    } else {
        assert(x =~= Seq::<char>::empty());
    }
}

proof fn lemma_split_concat(a: Seq<char>, y: Seq<char>, c: char)
    ensures
        split_on(a.push(c) + y, c) == split_on(a, c) + split_on(y, c),
    decreases y.len(),
{
    if y.len() == 0 {
        assert(a.push(c) + y =~= a.push(c));
        assert(a.push(c).drop_last() =~= a);
        assert(split_on(a, c).push(seq![]) =~= split_on(a, c) + seq![seq![]]);
    } else {
        let whole = a.push(c) + y;
        assert(whole.drop_last() =~= a.push(c) + y.drop_last());
        assert(whole.last() == y.last());
        lemma_split_concat(a, y.drop_last(), c);
        lemma_split_on_nonempty(y.drop_last(), c);
        let p = split_on(a, c);
        let q = split_on(y.drop_last(), c);
        if y.last() == c {
            assert((p + q).push(seq![]) =~= p + q.push(seq![]));
        } else {
            assert((p + q).drop_last() =~= p + q.drop_last());
            assert((p + q).last() == q.last());
            assert((p + q).drop_last().push((p + q).last().push(y.last())) =~= p + q.drop_last().push(
                q.last().push(y.last()),
            ));
        }
    }
}

proof fn lemma_trimmed_piece_starts_with(p: Seq<char>, first: char)
    requires
        p.len() >= 2,
        p[0] == ' ',
        p[1] == first,
        !is_ws(first),
        !is_ws(p.last()),
    ensures
        trim(p).len() > 0,
        trim(p)[0] == first,
{
    assert(trim_start(p.drop_first()) == p.drop_first());
    assert(trim_start(p) == p.drop_first());
    assert(p.drop_first().last() == p.last());
    assert(trim_end(p.drop_first()) == p.drop_first());
}

/// The session cookie a site is given logs that site in: parsed back from
/// a `Cookie` header it authenticates exactly as a login with the same
/// subdomain and token would.
pub proof fn law_session_cookie_authenticates(
    reg: Map<Seq<char>, crate::store::RecordView>,
    sub: Seq<char>,
    token: Seq<char>,
)
    requires
        !sub.contains(';'),
        !sub.contains(':'),
        !token.contains(';'),
    ensures
        current_user_spec(Some(session_cookie(sub, token)), reg) == login_spec(reg, sub, token),
{
    reveal_strlit("hcity=");
    reveal_strlit("hcity");
    reveal_strlit(":");
    reveal_strlit("; Path=/; HttpOnly; SameSite=Lax; Max-Age=2592000");
    let head = "hcity="@ + sub + ":"@;
    let a = head + token;
    let p1 = seq![' ', 'P', 'a', 't', 'h', '=', '/'];
    let p2 = seq![' ', 'H', 't', 't', 'p', 'O', 'n', 'l', 'y'];
    let p3 = seq![' ', 'S', 'a', 'm', 'e', 'S', 'i', 't', 'e', '=', 'L', 'a', 'x'];
    let p4 = seq![' ', 'M', 'a', 'x', '-', 'A', 'g', 'e', '=', '2', '5', '9', '2', '0', '0', '0'];
    let t4 = p4;
    let t3 = p3.push(';') + t4;
    let t2 = p2.push(';') + t3;
    let t1 = p1.push(';') + t2;
    assert(session_cookie(sub, token) =~= a.push(';') + t1);
    // the pieces hold no separator
    assert(!a.contains(';')) by {
        if a.contains(';') {
            let i = choose|i: int| 0 <= i < a.len() && a[i] == ';';
            if 6 <= i < 6 + sub.len() {
                assert(sub[i - 6] == ';');
            } else if i >= 7 + sub.len() {
                assert(token[i - 7 - sub.len()] == ';');
            }
        }
    }
    assert(!p1.contains(';'));
    assert(!p2.contains(';'));
    assert(!p3.contains(';'));
    assert(!p4.contains(';'));
    lemma_split_no_sep(a, ';');
    lemma_split_no_sep(p1, ';');
    lemma_split_no_sep(p2, ';');
    lemma_split_no_sep(p3, ';');
    lemma_split_no_sep(p4, ';');
    lemma_split_concat(p3, t4, ';');
    lemma_split_concat(p2, t3, ';');
    lemma_split_concat(p1, t2, ';');
    lemma_split_concat(a, t1, ';');
    let segs = seq![a, p1, p2, p3, p4];
    assert(split_on(session_cookie(sub, token), ';') =~= segs);
    // the trailing attributes are not the session cookie
    let name = "hcity"@;
    assert(name.push('=') =~= "hcity="@);
    lemma_trimmed_piece_starts_with(p1, 'P');
    lemma_trimmed_piece_starts_with(p2, 'H');
    lemma_trimmed_piece_starts_with(p3, 'S');
    lemma_trimmed_piece_starts_with(p4, 'M');
    assert(pair_value(p4, name) is None) by {
        assert(trim(p4)[0] != name.push('=')[0]);
        if starts_with(trim(p4), name.push('=')) {
            assert(trim(p4).subrange(0, 6)[0] == trim(p4)[0]);
        }
    }
    assert(pair_value(p3, name) is None) by {
        if starts_with(trim(p3), name.push('=')) {
            assert(trim(p3).subrange(0, 6)[0] == trim(p3)[0]);
        }
    }
    assert(pair_value(p2, name) is None) by {
        if starts_with(trim(p2), name.push('=')) {
            assert(trim(p2).subrange(0, 6)[0] == trim(p2)[0]);
        }
    }
    assert(pair_value(p1, name) is None) by {
        if starts_with(trim(p1), name.push('=')) {
            assert(trim(p1).subrange(0, 6)[0] == trim(p1)[0]);
        }
    }
    // the first pair carries the value
    assert(trim_start(a) == a);
    lemma_trim_end_concat(head, token);
    let ta = head + trim_end(token);
    assert(trim(a) == ta);
    assert(ta.subrange(0, 6) =~= "hcity="@);
    let v = ta.subrange(6, ta.len() as int);
    assert(v =~= sub + ":"@ + trim_end(token));
    assert(pair_value(a, name) == Some(v));
    assert(segs.drop_last() =~= seq![a, p1, p2, p3]);
    assert(seq![a, p1, p2, p3].drop_last() =~= seq![a, p1, p2]);
    assert(seq![a, p1, p2].drop_last() =~= seq![a, p1]);
    assert(seq![a, p1].drop_last() =~= seq![a]);
    assert(seq![a].drop_last() =~= Seq::<Seq<char>>::empty());
    assert(cookie_lookup(seq![a], name) == Some(v));
    assert(seq![a, p1].last() == p1);
    assert(cookie_lookup(seq![a, p1], name) == Some(v));
    assert(seq![a, p1, p2].last() == p2);
    assert(cookie_lookup(seq![a, p1, p2], name) == Some(v));
    assert(seq![a, p1, p2, p3].last() == p3);
    assert(cookie_lookup(seq![a, p1, p2, p3], name) == Some(v));
    assert(segs.last() == p4);
    assert(cookie_lookup(segs, name) == Some(v));
    // split at the first colon: subdomain and token
    let i = sub.len() as int;
    assert(v[i] == ':');
    assert forall|k: int| 0 <= k < i implies v[k] != ':' by {
        assert(v[k] == sub[k]);
        assert(sub.contains(sub[k]));
    }
    lemma_before_first_prefix(v, ':', i);
    assert(v.take(i) =~= sub);
    assert(v.contains(':'));
    assert(v.subrange(i + 1, v.len() as int) =~= trim_end(token));
    assert(split_once_spec(v, ':') == Some((sub, trim_end(token))));
    lemma_trim_of_trim_end(token);
}

} // verus!
