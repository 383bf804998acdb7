//! File names that users may upload and delete. Sites are flat: a name is
//! a single path component of a restricted alphabet.
use vstd::prelude::*;

use crate::text::{
    ascii_lower, ascii_lowercase, char_is_ascii_alnum, chars_of, is_ascii_alnum, seq_eq, string_of,
};

verus! {

/// Characters a stored file name may hold.
pub open spec fn name_char_ok(c: char) -> bool {
    is_ascii_alnum(c) || c == '.' || c == '-' || c == '_' || c == '(' || c == ')' || c == '+'
        || c == ' '
}

pub open spec fn name_ok(s: Seq<char>) -> bool {
    s.len() > 0 && forall|i: int| 0 <= i < s.len() ==> name_char_ok(#[trigger] s[i])
}

/// Index of the last occurrence of `c` in `s`, or -1.
pub open spec fn last_index_of(s: Seq<char>, c: char) -> int
    decreases s.len(),
{
    if s.len() == 0 {
        -1
    } else if s.last() == c {
        s.len() - 1
    } else {
        last_index_of(s.drop_last(), c)
    }
}

/// The extension of a single path component, as `Path::extension` gives it:
/// none for `..`, for a name without a dot, or for a name whose only dot
/// is its first character.
pub open spec fn file_extension(s: Seq<char>) -> Option<Seq<char>> {
    let i = last_index_of(s, '.');
    if s == seq!['.', '.'] || i <= 0 {
        None
    } else {
        Some(s.subrange(i + 1, s.len() as int))
    }
}

/// The extensions accepted for upload, compared in lower case.
pub open spec fn listed_extension(e: Seq<char>) -> bool {
    ||| e == "html"@
    ||| e == "htm"@
    ||| e == "css"@
    ||| e == "png"@
    ||| e == "jpg"@
    ||| e == "jpeg"@
    ||| e == "gif"@
    ||| e == "webp"@
    ||| e == "svg"@
    ||| e == "ico"@
}

pub open spec fn allowed_extension(name: Seq<char>) -> bool {
    match file_extension(name) {
        Some(e) => listed_extension(ascii_lower(e)),
        None => false,
    }
}

pub open spec fn is_separator(c: char) -> bool {
    c == '/' || c == '\\'
}

/// What follows the last `/` or `\` of a raw client-side path.
pub open spec fn last_component(s: Seq<char>) -> Seq<char>
    decreases s.len(),
{
    if s.len() == 0 {
        s
    } else if is_separator(s.last()) {
        seq![]
    } else {
        last_component(s.drop_last()).push(s.last())
    }
}

/// The name under which an uploaded file is stored, if it is accepted.
pub open spec fn upload_name(raw: Seq<char>) -> Option<Seq<char>> {
    let base = last_component(raw);
    if (base.len() > 0 && base[0] == '.') || !name_ok(base) || !allowed_extension(base) {
        None
    } else {
        Some(base)
    }
}

/// The name of a stored file a request may refer to, if it is acceptable.
pub open spec fn stored_name(raw: Seq<char>) -> Option<Seq<char>> {
    if raw.len() == 0 || raw[0] == '.' || !name_ok(raw) {
        None
    } else {
        Some(raw)
    }
}

fn char_name_ok(c: char) -> (b: bool)
    ensures
        b == name_char_ok(c),
{
    char_is_ascii_alnum(c) || c == '.' || c == '-' || c == '_' || c == '(' || c == ')' || c
        == '+' || c == ' '
}

fn name_ok_chars(s: &Vec<char>) -> (b: bool)
    ensures
        b == name_ok(s@),
{
    if s.len() == 0 {
        return false;
    }
    let mut i: usize = 0;
    while i < s.len()
        invariant
            i <= s.len(),
            forall|k: int| 0 <= k < i ==> name_char_ok(#[trigger] s@[k]),
        decreases s.len() - i,
    {
        if !char_name_ok(s[i]) {
            return false;
        }
        i += 1;
    }
    true
}

fn last_index(s: &Vec<char>, c: char) -> (r: Option<usize>)
    ensures
        match r {
            Some(i) => i == last_index_of(s@, c) && i < s.len(),
            None => last_index_of(s@, c) == -1,
        },
{
    let mut n: usize = s.len();
    assert(s@.take(s.len() as int) =~= s@);
    while n > 0 && s[n - 1] != c
        invariant
            n <= s.len(),
            last_index_of(s@, c) == last_index_of(s@.take(n as int), c),
        decreases n,
    {
        assert(s@.take(n as int).drop_last() =~= s@.take(n - 1));
        n -= 1;
    }
    assert(s@.take(s.len() as int) =~= s@);
    if n == 0 {
        assert(s@.take(0) =~= Seq::<char>::empty());
        None
    } else {
        Some(n - 1)
    }
}

fn eq_str(a: &Vec<char>, lit: &str) -> (b: bool)
    ensures
        b == (a@ == lit@),
{
    let l = chars_of(lit);
    seq_eq(a, &l)
}

fn listed_extension_chars(e: &Vec<char>) -> (b: bool)
    ensures
        b == listed_extension(e@),
{
    eq_str(e, "html") || eq_str(e, "htm") || eq_str(e, "css") || eq_str(e, "png") || eq_str(
        e,
        "jpg",
    ) || eq_str(e, "jpeg") || eq_str(e, "gif") || eq_str(e, "webp") || eq_str(e, "svg")
        || eq_str(e, "ico")
}

/// Whether a single path component carries an accepted extension.
fn is_allowed_extension(name: &Vec<char>) -> (b: bool)
    ensures
        b == allowed_extension(name@),
{
    let dotdot = name.len() == 2 && name[0] == '.' && name[1] == '.';
    if dotdot {
        assert(name@ =~= seq!['.', '.']);
        return false;
    }
    assert(name@ != seq!['.', '.']);
    match last_index(name, '.') {
        None => false,
        Some(i) => {
            if i == 0 {
                return false;
            }
            let mut ext: Vec<char> = Vec::new();
            let mut j: usize = i + 1;
            while j < name.len()
                invariant
                    i + 1 <= j <= name.len(),
                    ext@ == name@.subrange(i + 1, j as int),
                decreases name.len() - j,
            {
                ext.push(name[j]);
                j += 1;
                assert(ext@ =~= name@.subrange(i + 1, j as int));
            }
            let lower = ascii_lowercase(&ext);
            listed_extension_chars(&lower)
        },
    }
}

/// The name an uploaded file is stored under: the last component of the
/// client's path (either separator), if it does not start with a dot, uses
/// only the allowed characters and has an accepted extension.
pub fn clean_upload_name(raw: &str) -> (r: Option<String>)
    ensures
        match r {
            Some(s) => upload_name(raw@) == Some(s@),
            None => upload_name(raw@) is None,
        },
{
    let chars = chars_of(raw);
    let mut start: usize = chars.len();
    assert(chars@.take(chars.len() as int) =~= chars@);
    assert(last_component(chars@) + chars@.subrange(chars.len() as int, chars.len() as int)
        =~= last_component(chars@));
    while start > 0 && chars[start - 1] != '/' && chars[start - 1] != '\\'
        invariant
            start <= chars.len(),
            last_component(chars@) == last_component(chars@.take(start as int)) + chars@.subrange(
                start as int,
                chars.len() as int,
            ),
        decreases start,
    {
        let ghost pre = chars@.take(start as int);
        assert(pre.drop_last() =~= chars@.take(start - 1));
        assert(chars@.subrange(start - 1, chars.len() as int) =~= seq![pre.last()]
            + chars@.subrange(start as int, chars.len() as int));
        assert(last_component(chars@.take(start - 1)).push(pre.last()) + chars@.subrange(
            start as int,
            chars.len() as int,
        ) =~= last_component(chars@.take(start - 1)) + chars@.subrange(
            start - 1,
            chars.len() as int,
        ));
        start -= 1;
    }
    assert(chars@.take(chars.len() as int) =~= chars@);
    assert(chars@.subrange(chars.len() as int, chars.len() as int) =~= Seq::<char>::empty());
    assert(last_component(chars@) =~= last_component(chars@.take(chars.len() as int)));
    if start > 0 {
        assert(last_component(chars@.take(start as int)) =~= Seq::<char>::empty());
    } else {
        assert(chars@.take(0) =~= Seq::<char>::empty());
    }
    let mut base: Vec<char> = Vec::new();
    let mut j: usize = start;
    while j < chars.len()
        invariant
            start <= j <= chars.len(),
            base@ == chars@.subrange(start as int, j as int),
        decreases chars.len() - j,
    {
        base.push(chars[j]);
        j += 1;
        assert(base@ =~= chars@.subrange(start as int, j as int));
    }
    assert(base@ =~= last_component(raw@));
    if (base.len() > 0 && base[0] == '.') || !name_ok_chars(&base) {
        return None;
    }
    if !is_allowed_extension(&base) {
        return None;
    }
    Some(string_of(&base))
}

/// The name of a stored file a request refers to: rejected when empty,
/// starting with a dot, or using a character outside the allowed set.
pub fn safe_file_name(raw: &str) -> (r: Option<String>)
    ensures
        match r {
            Some(s) => stored_name(raw@) == Some(s@),
            None => stored_name(raw@) is None,
        },
{
    let chars = chars_of(raw);
    if chars.len() == 0 || chars[0] == '.' || !name_ok_chars(&chars) {
        return None;
    }
    Some(raw.to_string())
}

/// Whatever an upload is stored under can later be named for deletion:
/// an accepted upload name is always an acceptable stored file name, and
/// it is a single path component.
pub proof fn law_upload_names_are_stored_names(raw: Seq<char>)
    requires
        upload_name(raw) is Some,
    ensures
        stored_name(upload_name(raw).unwrap()) == upload_name(raw),
        forall|i: int|
            0 <= i < upload_name(raw).unwrap().len() ==> !is_separator(
                #[trigger] upload_name(raw).unwrap()[i],
            ),
{
    let n = upload_name(raw).unwrap();
    assert forall|i: int| 0 <= i < n.len() implies !is_separator(#[trigger] n[i]) by {
        assert(name_char_ok(n[i]));
    }
}

proof fn lemma_last_component_plain(s: Seq<char>)
    requires
        forall|i: int| 0 <= i < s.len() ==> !is_separator(#[trigger] s[i]),
    ensures
        last_component(s) == s,
    decreases s.len(),
{
    if s.len() > 0 {
        assert(!is_separator(s[s.len() - 1]));
        lemma_last_component_plain(s.drop_last());
        assert(s.drop_last().push(s.last()) =~= s);
    }
}

proof fn lemma_last_index_after(x: Seq<char>, y: Seq<char>, c: char)
    requires
        x.len() > 0,
        x.last() == c,
        forall|i: int| 0 <= i < y.len() ==> #[trigger] y[i] != c,
    ensures
        last_index_of(x + y, c) == x.len() - 1,
    decreases y.len(),
{
    if y.len() == 0 {
        assert(x + y =~= x);
    } else {
        assert((x + y).drop_last() =~= x + y.drop_last());
        assert((x + y).last() == y.last());
        assert(y.last() != c);
        lemma_last_index_after(x, y.drop_last(), c);
    }
}

/// The extension that decides an upload is what follows the last dot of
/// the name: a name of allowed characters that does not start with a dot
/// (and may hold other dots), followed by a dot and an extension, is
/// accepted as it is exactly when that extension, in lower case, is one of
/// the listed ones.
pub proof fn law_extension_after_last_dot(b: Seq<char>, e: Seq<char>)
    requires
        b.len() > 0,
        b[0] != '.',
        forall|i: int| 0 <= i < b.len() ==> name_char_ok(#[trigger] b[i]),
        forall|i: int| 0 <= i < e.len() ==> is_ascii_alnum(#[trigger] e[i]),
    ensures
        upload_name(b + seq!['.'] + e) == (if listed_extension(ascii_lower(e)) {
            Some(b + seq!['.'] + e)
        } else {
            None::<Seq<char>>
        }),
{
    let x = b.push('.');
    let n = x + e;
    assert(b + seq!['.'] + e =~= n);
    assert forall|i: int| 0 <= i < n.len() implies name_char_ok(#[trigger] n[i]) by {
        if i < b.len() {
            assert(n[i] == b[i]);
        } else if i > b.len() {
            assert(n[i] == e[i - b.len() - 1]);
        }
    }
    assert forall|i: int| 0 <= i < n.len() implies !is_separator(#[trigger] n[i]) by {
        assert(name_char_ok(n[i]));
    }
    lemma_last_component_plain(n);
    assert forall|i: int| 0 <= i < e.len() implies #[trigger] e[i] != '.' by {
        assert(is_ascii_alnum(e[i]));
    }
    lemma_last_index_after(x, e, '.');
    assert(n[0] == b[0]);
    assert(n != seq!['.', '.']) by {
        if n == seq!['.', '.'] {
            assert(n[0] == '.');
        }
    }
    assert(n.subrange(b.len() + 1int, n.len() as int) =~= e);
}

} // verus!
