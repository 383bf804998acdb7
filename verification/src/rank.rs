//! Ordering of listings and search hits: strict total orders, the unique
//! sequence they sort a set into, and an insertion sort that builds it.
use vstd::prelude::*;

use crate::text::{
    lemma_str_lt_irreflexive, lemma_str_lt_total, lemma_str_lt_transitive, str_lt,
};

verus! {

pub open spec fn strictly_sorted<A>(s: Seq<A>, lt: spec_fn(A, A) -> bool) -> bool {
    forall|i: int, j: int| 0 <= i < j < s.len() ==> #[trigger] lt(s[i], s[j])
}

pub open spec fn is_strict_order<A>(lt: spec_fn(A, A) -> bool) -> bool {
    &&& forall|x: A| !#[trigger] lt(x, x)
    &&& forall|x: A, y: A, z: A| #[trigger] lt(x, y) && #[trigger] lt(y, z) ==> lt(x, z)
}

pub open spec fn is_total<A>(lt: spec_fn(A, A) -> bool) -> bool {
    forall|x: A, y: A| x != y ==> #[trigger] lt(x, y) || lt(y, x)
}

/// Two sequences strictly sorted by the same order, holding the same
/// elements, are equal.
pub proof fn lemma_sorted_unique<A>(s1: Seq<A>, s2: Seq<A>, lt: spec_fn(A, A) -> bool)
    requires
        is_strict_order(lt),
        strictly_sorted(s1, lt),
        strictly_sorted(s2, lt),
        forall|x: A| s1.contains(x) <==> s2.contains(x),
    ensures
        s1 == s2,
    decreases s1.len(),
{
    if s1.len() == 0 {
        if s2.len() > 0 {
            assert(s2.contains(s2[0]));
        }
        assert(s1 =~= s2);
    } else {
        assert(s1.contains(s1[0]));
        let k = choose|k: int| 0 <= k < s2.len() && s2[k] == s1[0];
        assert(s2.contains(s2[0]));
        let m = choose|m: int| 0 <= m < s1.len() && s1[m] == s2[0];
        if k > 0 {
            assert(lt(s2[0], s2[k]));
            if m > 0 {
                assert(lt(s1[0], s1[m]));
                assert(lt(s1[0], s1[0]));
            } else {
                assert(lt(s1[0], s1[0]));
            }
        }
        assert(s2[0] == s1[0]);
        let t1 = s1.drop_first();
        let t2 = s2.drop_first();
        assert forall|i: int, j: int| 0 <= i < j < t1.len() implies #[trigger] lt(t1[i], t1[j]) by {
            assert(lt(s1[i + 1], s1[j + 1]));
        }
        assert forall|i: int, j: int| 0 <= i < j < t2.len() implies #[trigger] lt(t2[i], t2[j]) by {
            assert(lt(s2[i + 1], s2[j + 1]));
        }
        assert forall|x: A| t1.contains(x) implies t2.contains(x) by {
            let i = choose|i: int| 0 <= i < t1.len() && t1[i] == x;
            assert(s1.contains(x));
            let j = choose|j: int| 0 <= j < s2.len() && s2[j] == x;
            assert(lt(s1[0], s1[i + 1]));
            if j == 0 {
                assert(lt(x, x));
            }
            assert(t2[j - 1] == x);
        }
        assert forall|x: A| t2.contains(x) implies t1.contains(x) by {
            let j = choose|j: int| 0 <= j < t2.len() && t2[j] == x;
            assert(s2.contains(x));
            let i = choose|i: int| 0 <= i < s1.len() && s1[i] == x;
            assert(lt(s2[0], s2[j + 1]));
            if i == 0 {
                assert(lt(x, x));
            }
            assert(t1[i - 1] == x);
        }
        lemma_sorted_unique(t1, t2, lt);
        assert(s1 =~= seq![s1[0]] + t1);
        assert(s2 =~= seq![s2[0]] + t2);
    }
}

/// `x` put into its place in a strictly sorted sequence that lacks it.
pub proof fn lemma_insert_sorted<A>(t: Seq<A>, x: A, lt: spec_fn(A, A) -> bool) -> (s: Seq<A>)
    requires
        is_strict_order(lt),
        is_total(lt),
        strictly_sorted(t, lt),
        !t.contains(x),
    ensures
        strictly_sorted(s, lt),
        forall|y: A| s.contains(y) <==> (t.contains(y) || y == x),
    decreases t.len(),
{
    if t.len() == 0 {
        let s = seq![x];
        assert forall|y: A| s.contains(y) <==> (t.contains(y) || y == x) by {
            if s.contains(y) {
                let i = choose|i: int| 0 <= i < s.len() && s[i] == y;
            }
            if y == x {
                assert(s[0] == y);
            }
        }
        s
    } else if lt(x, t[0]) {
        let s = seq![x] + t;
        assert forall|i: int, j: int| 0 <= i < j < s.len() implies #[trigger] lt(s[i], s[j]) by {
            if i == 0 {
                if j > 1 {
                    assert(lt(t[0], t[j - 1]));
                }
            } else {
                assert(lt(t[i - 1], t[j - 1]));
            }
        }
        assert forall|y: A| s.contains(y) <==> (t.contains(y) || y == x) by {
            if s.contains(y) {
                let i = choose|i: int| 0 <= i < s.len() && s[i] == y;
                if i > 0 {
                    assert(t[i - 1] == y);
                }
            }
            if t.contains(y) {
                let i = choose|i: int| 0 <= i < t.len() && t[i] == y;
                assert(s[i + 1] == y);
            }
            if y == x {
                assert(s[0] == y);
            }
        }
        s
    } else {
        assert(t.contains(t[0]));
        assert(lt(t[0], x));
        let rest = t.drop_first();
        assert forall|i: int, j: int| 0 <= i < j < rest.len() implies #[trigger] lt(
            rest[i],
            rest[j],
        ) by {
            assert(lt(t[i + 1], t[j + 1]));
        }
        assert(!rest.contains(x)) by {
            if rest.contains(x) {
                let i = choose|i: int| 0 <= i < rest.len() && rest[i] == x;
                assert(t[i + 1] == x);
            }
        }
        let r = lemma_insert_sorted(rest, x, lt);
        let s = seq![t[0]] + r;
        assert forall|i: int, j: int| 0 <= i < j < s.len() implies #[trigger] lt(s[i], s[j]) by {
            if i == 0 {
                assert(r.contains(s[j]));
                if s[j] == x {
                } else {
                    let k = choose|k: int| 0 <= k < rest.len() && rest[k] == s[j];
                    assert(lt(t[0], t[k + 1]));
                }
            } else {
                assert(lt(r[i - 1], r[j - 1]));
            }
        }
        assert forall|y: A| s.contains(y) <==> (t.contains(y) || y == x) by {
            if s.contains(y) {
                let i = choose|i: int| 0 <= i < s.len() && s[i] == y;
                if i > 0 {
                    assert(r.contains(y));
                    if y != x {
                        let k = choose|k: int| 0 <= k < rest.len() && rest[k] == y;
                        assert(t[k + 1] == y);
                    }
                } else {
                    assert(t[0] == y);
                }
            }
            if t.contains(y) {
                let i = choose|i: int| 0 <= i < t.len() && t[i] == y;
                if i == 0 {
                    assert(s[0] == y);
                } else {
                    assert(rest[i - 1] == y);
                    assert(r.contains(y));
                    let k = choose|k: int| 0 <= k < r.len() && r[k] == y;
                    assert(s[k + 1] == y);
                }
            }
            if y == x {
                assert(r.contains(y));
                let k = choose|k: int| 0 <= k < r.len() && r[k] == y;
                assert(s[k + 1] == y);
            }
        }
        s
    }
}

/// Every finite set has a sequence that lists it in a strict total order.
pub proof fn lemma_sorted_exists<A>(set: Set<A>, lt: spec_fn(A, A) -> bool) -> (s: Seq<A>)
    requires
        set.finite(),
        is_strict_order(lt),
        is_total(lt),
    ensures
        strictly_sorted(s, lt),
        forall|y: A| s.contains(y) <==> set.contains(y),
    decreases set.len(),
{
    if set.len() == 0 {
        assert(set =~= Set::<A>::empty());
        Seq::<A>::empty()
    } else {
        let x = set.choose();
        let t = lemma_sorted_exists(set.remove(x), lt);
        lemma_insert_sorted(t, x, lt)
    }
}

// ---------------------------------------------------------------------------
// Candidates for a listing
// ---------------------------------------------------------------------------
/// A site about to be listed: its score (lower is better), creation time
/// and subdomain, and where its entry sits in the registry.
pub struct Candidate {
    pub score: u32,
    pub created_at: i64,
    pub sub: Vec<char>,
    pub pos: usize,
}

pub struct CandidateView {
    pub score: u32,
    pub created_at: i64,
    pub sub: Seq<char>,
    pub pos: usize,
}

impl View for Candidate {
    type V = CandidateView;

    open spec fn view(&self) -> CandidateView {
        CandidateView { score: self.score, created_at: self.created_at, sub: self.sub@, pos: self.pos }
    }
}

/// Better score first, then newer, then by subdomain.
pub open spec fn cand_before(a: CandidateView, b: CandidateView) -> bool {
    ||| a.score < b.score
    ||| a.score == b.score && a.created_at > b.created_at
    ||| a.score == b.score && a.created_at == b.created_at && str_lt(a.sub, b.sub)
}

pub open spec fn cand_lt() -> spec_fn(CandidateView, CandidateView) -> bool {
    |a: CandidateView, b: CandidateView| cand_before(a, b)
}

proof fn lemma_cand_order()
    ensures
        forall|a: CandidateView| !#[trigger] cand_before(a, a),
        forall|a: CandidateView, b: CandidateView, c: CandidateView| #[trigger]
            cand_before(a, b) && #[trigger] cand_before(b, c) ==> cand_before(a, c),
        forall|a: CandidateView, b: CandidateView|
            a.sub != b.sub ==> #[trigger] cand_before(a, b) || cand_before(b, a),
{
    assert forall|a: CandidateView| !#[trigger] cand_before(a, a) by {
        lemma_str_lt_irreflexive(a.sub);
    }
    assert forall|a: CandidateView, b: CandidateView, c: CandidateView| #[trigger]
        cand_before(a, b) && #[trigger] cand_before(b, c) implies cand_before(a, c) by {
        if str_lt(a.sub, b.sub) && str_lt(b.sub, c.sub) {
            lemma_str_lt_transitive(a.sub, b.sub, c.sub);
        }
    }
    assert forall|a: CandidateView, b: CandidateView|
        a.sub != b.sub implies #[trigger] cand_before(a, b) || cand_before(b, a) by {
        lemma_str_lt_total(a.sub, b.sub);
    }
}

/// Lexicographic comparison of two character sequences.
fn chars_lt(a: &Vec<char>, b: &Vec<char>) -> (r: bool)
    ensures
        r == str_lt(a@, b@),
{
    let mut i: usize = 0;
    assert(a@.subrange(0, a.len() as int) =~= a@);
    assert(b@.subrange(0, b.len() as int) =~= b@);
    while i < a.len() && i < b.len() && a[i] == b[i]
        invariant
            i <= a.len(),
            i <= b.len(),
            str_lt(a@, b@) == str_lt(a@.subrange(i as int, a.len() as int), b@.subrange(
                i as int,
                b.len() as int,
            )),
        decreases a.len() - i,
    {
        let ghost x = a@.subrange(i as int, a.len() as int);
        let ghost y = b@.subrange(i as int, b.len() as int);
        assert(x.drop_first() =~= a@.subrange(i + 1, a.len() as int));
        assert(y.drop_first() =~= b@.subrange(i + 1, b.len() as int));
        i += 1;
    }
    let ghost x = a@.subrange(i as int, a.len() as int);
    let ghost y = b@.subrange(i as int, b.len() as int);
    if i == a.len() {
        i < b.len()
    } else if i == b.len() {
        false
    } else {
        assert(x[0] == a@[i as int] && y[0] == b@[i as int]);
        a[i] < b[i]
    }
}

fn before(a: &Candidate, b: &Candidate) -> (r: bool)
    ensures
        r == cand_before(a@, b@),
{
    if a.score != b.score {
        return a.score < b.score;
    }
    if a.created_at != b.created_at {
        return a.created_at > b.created_at;
    }
    chars_lt(&a.sub, &b.sub)
}

pub open spec fn views(s: Seq<Candidate>) -> Seq<CandidateView> {
    s.map_values(|c: Candidate| c@)
}

/// Sort candidates of distinct subdomains by `cand_before`.
pub fn rank_candidates(items: Vec<Candidate>) -> (r: Vec<Candidate>)
    requires
        forall|i: int, j: int|
            0 <= i < items@.len() && 0 <= j < items@.len() && i != j ==> items@[i]@.sub
                != items@[j]@.sub,
    ensures
        r@.len() == items@.len(),
        strictly_sorted(views(r@), cand_lt()),
        forall|x: CandidateView| views(r@).contains(x) <==> views(items@).contains(x),
{
    proof {
        lemma_cand_order();
    }
    let ghost all = views(items@);
    let mut src = items;
    let mut out: Vec<Candidate> = Vec::new();
    // take items from the back; the order they arrive in does not matter
    while src.len() > 0
        invariant
            out@.len() + src@.len() == all.len(),
            views(src@) == all.take(src@.len() as int),
            forall|i: int, j: int| 0 <= i < j < out@.len() ==> cand_before(out@[i]@, out@[j]@),
            forall|x: CandidateView|
                views(out@).contains(x) <==> all.subrange(src@.len() as int, all.len() as int).contains(
                    x,
                ),
            forall|i: int, j: int|
                0 <= i < all.len() && 0 <= j < all.len() && i != j ==> all[i].sub != all[j].sub,
            forall|a: CandidateView| !#[trigger] cand_before(a, a),
            forall|a: CandidateView, b: CandidateView, c: CandidateView| #[trigger]
                cand_before(a, b) && #[trigger] cand_before(b, c) ==> cand_before(a, c),
            forall|a: CandidateView, b: CandidateView|
                a.sub != b.sub ==> #[trigger] cand_before(a, b) || cand_before(b, a),
        decreases src@.len(),
    {
        let ghost n = src@.len();
        let ghost old_src = src@;
        let item = src.pop().unwrap();
        assert(views(old_src)[n - 1] == old_src[n - 1]@);
        assert(item@ == all[n - 1]);
        assert(views(src@) =~= all.take(n - 1));
        let mut p: usize = 0;
        while p < out.len() && !before(&item, &out[p])
            invariant
                p <= out@.len(),
                forall|k: int| 0 <= k < p ==> !cand_before(item@, #[trigger] out@[k]@),
            decreases out@.len() - p,
        {
            p += 1;
        }
        // `item`'s subdomain differs from everything placed so far
        assert forall|k: int| 0 <= k < out@.len() implies out@[k]@.sub != item@.sub by {
            assert(views(out@).contains(out@[k]@)) by {
                assert(views(out@)[k] == out@[k]@);
            }
            let q = choose|q: int|
                0 <= q < all.len() - n && all.subrange(n as int, all.len() as int)[q] == out@[k]@;
            assert(all[n + q] == out@[k]@);
        }
        let ghost old_out = out@;
        out.insert(p, item);
        assert forall|i: int, j: int| 0 <= i < j < out@.len() implies cand_before(
            out@[i]@,
            out@[j]@,
        ) by {
            if j < p {
                assert(out@[i] == old_out[i] && out@[j] == old_out[j]);
            } else if j == p {
                assert(out@[j] == item);
                assert(out@[i] == old_out[i]);
                assert(!cand_before(item@, old_out[i]@));
            } else if i == p {
                assert(out@[i] == item);
                assert(out@[j] == old_out[j - 1]);
                assert(cand_before(item@, old_out[p as int]@));
                if j - 1 > p {
                    assert(cand_before(old_out[p as int]@, old_out[j - 1]@));
                }
            } else if i < p {
                assert(out@[i] == old_out[i] && out@[j] == old_out[j - 1]);
            } else {
                assert(out@[i] == old_out[i - 1] && out@[j] == old_out[j - 1]);
            }
        }
        assert forall|x: CandidateView|
            views(out@).contains(x) <==> all.subrange(n - 1, all.len() as int).contains(x) by {
            let tail = all.subrange(n as int, all.len() as int);
            let tail2 = all.subrange(n - 1, all.len() as int);
            assert(tail2 =~= seq![all[n - 1]] + tail);
            if views(out@).contains(x) {
                let i = choose|i: int| 0 <= i < out@.len() && views(out@)[i] == x;
                if i == p {
                    assert(tail2[0] == x);
                } else {
                    let i2 = if i < p {
                        i
                    } else {
                        i - 1
                    };
                    assert(views(old_out)[i2] == x);
                    assert(views(old_out).contains(x));
                    assert(tail.contains(x));
                    let q = choose|q: int| 0 <= q < tail.len() && tail[q] == x;
                    assert(tail2[q + 1] == x);
                }
            }
            if tail2.contains(x) {
                let q = choose|q: int| 0 <= q < tail2.len() && tail2[q] == x;
                if q == 0 {
                    assert(views(out@)[p as int] == x);
                } else {
                    assert(tail[q - 1] == x);
                    assert(views(old_out).contains(x));
                    let i = choose|i: int| 0 <= i < old_out.len() && views(old_out)[i] == x;
                    if i < p {
                        assert(views(out@)[i] == x);
                    } else {
                        assert(views(out@)[i + 1] == x);
                    }
                }
            }
        }
    }
    assert(all.subrange(0, all.len() as int) =~= all);
    assert forall|i: int, j: int| 0 <= i < j < views(out@).len() implies #[trigger] cand_lt()(
        views(out@)[i],
        views(out@)[j],
    ) by {
        assert(cand_before(out@[i]@, out@[j]@));
    }
    out
}

} // verus!
