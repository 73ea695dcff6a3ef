//! Lexicographic ordering of byte strings, sorted insertion and
//! deduplication, and merging of key-sorted association lists.
//!
//! Part iteration order, the sequence of sort values of a grouped view and
//! the sequence of report stems are all "sorted ascending, duplicates
//! removed" in the byte-wise lexicographic order defined here.  Because a
//! strictly sorted sequence is determined by its set of members
//! ([`lemma_strictly_sorted_unique`]), every such sequence is independent of
//! the order in which its elements were collected.

use vstd::prelude::*;
use crate::text::bytes_eq;

verus! {

/// Byte-wise lexicographic "strictly less than".  A proper prefix is less
/// than the longer string.
pub open spec fn lex_lt(a: Seq<u8>, b: Seq<u8>) -> bool
    decreases a.len(),
{
    if b.len() == 0 {
        false
    } else if a.len() == 0 {
        true
    } else if a[0] < b[0] {
        true
    } else if a[0] > b[0] {
        false
    } else {
        lex_lt(a.drop_first(), b.drop_first())
    }
}

pub proof fn lemma_lex_lt_irreflexive(a: Seq<u8>)
    ensures
        !lex_lt(a, a),
    decreases a.len(),
{
    if a.len() > 0 {
        lemma_lex_lt_irreflexive(a.drop_first());
    }
}

/// Two byte strings that are not ordered either way are equal.
pub proof fn lemma_lex_lt_connected(a: Seq<u8>, b: Seq<u8>)
    ensures
        !lex_lt(a, b) && !lex_lt(b, a) ==> a == b,
    decreases a.len(),
{
    if a.len() == 0 && b.len() == 0 {
        assert(a =~= b);
    } else if a.len() > 0 && b.len() > 0 && a[0] == b[0] {
        lemma_lex_lt_connected(a.drop_first(), b.drop_first());
        if !lex_lt(a, b) && !lex_lt(b, a) {
            assert(a.drop_first() == b.drop_first());
            assert forall|i: int| 0 <= i < a.len() implies a[i] == b[i] by {
                if i > 0 {
                    assert(a.drop_first()[i - 1] == b.drop_first()[i - 1]);
                }
            }
            assert(a =~= b);
        }
    }
}

pub proof fn lemma_lex_lt_transitive(a: Seq<u8>, b: Seq<u8>, c: Seq<u8>)
    requires
        lex_lt(a, b),
        lex_lt(b, c),
    ensures
        lex_lt(a, c),
    decreases a.len(),
{
    if a.len() > 0 && b.len() > 0 && c.len() > 0 && a[0] == b[0] && b[0] == c[0] {
        lemma_lex_lt_transitive(a.drop_first(), b.drop_first(), c.drop_first());
    }
}

/// Ordering is unaffected by a common prefix.
pub proof fn lemma_lex_lt_common_prefix(a: Seq<u8>, b: Seq<u8>, k: int)
    requires
        0 <= k <= a.len(),
        k <= b.len(),
        forall|i: int| 0 <= i < k ==> a[i] == b[i],
    ensures
        lex_lt(a, b) == lex_lt(a.skip(k), b.skip(k)),
    decreases k,
{
    if k == 0 {
        assert(a.skip(0) =~= a);
        assert(b.skip(0) =~= b);
    } else {
        assert(a.len() > 0 && b.len() > 0 && a[0] == b[0]);
        lemma_lex_lt_common_prefix(a.drop_first(), b.drop_first(), k - 1);
        assert(a.drop_first().skip(k - 1) =~= a.skip(k));
        assert(b.drop_first().skip(k - 1) =~= b.skip(k));
    }
}

/// Whether `a` is lexicographically strictly below `b`.
#[verifier::loop_isolation(false)]
pub fn lex_lt_bytes(a: &Vec<u8>, b: &Vec<u8>) -> (r: bool)
    ensures
        r == lex_lt(a@, b@),
{
    let min = if a.len() < b.len() {
        a.len()
    } else {
        b.len()
    };
    let mut k: usize = 0;
    while k < min
        invariant
            k <= min,
            min == if a@.len() < b@.len() {
                a@.len()
            } else {
                b@.len()
            },
            forall|i: int| 0 <= i < k ==> a@[i] == b@[i],
        decreases min - k,
    {
        proof {
            lemma_lex_lt_common_prefix(a@, b@, k as int);
        }
        if a[k] < b[k] {
            assert(a@.skip(k as int)[0] == a@[k as int]);
            assert(b@.skip(k as int)[0] == b@[k as int]);
            return true;
        }
        if a[k] > b[k] {
            assert(a@.skip(k as int)[0] == a@[k as int]);
            assert(b@.skip(k as int)[0] == b@[k as int]);
            return false;
        }
        k += 1;
    }
    proof {
        lemma_lex_lt_common_prefix(a@, b@, min as int);
    }
    a.len() < b.len()
}

/// Membership in a concatenation.
pub proof fn lemma_concat_contains<A>(a: Seq<A>, b: Seq<A>, y: A)
    ensures
        (a + b).contains(y) <==> a.contains(y) || b.contains(y),
{
    if a.contains(y) {
        let i = choose|i: int| 0 <= i < a.len() && a[i] == y;
        assert((a + b)[i] == y);
    }
    if b.contains(y) {
        let i = choose|i: int| 0 <= i < b.len() && b[i] == y;
        assert((a + b)[a.len() + i] == y);
    }
    if (a + b).contains(y) {
        let i = choose|i: int| 0 <= i < (a + b).len() && (a + b)[i] == y;
        if i < a.len() {
            assert(a[i] == y);
        } else {
            assert(b[i - a.len()] == y);
        }
    }
}

/// Views of a sequence of byte vectors.
pub open spec fn views(s: Seq<Vec<u8>>) -> Seq<Seq<u8>> {
    s.map_values(|v: Vec<u8>| v@)
}

/// Strictly ascending in lexicographic order (hence duplicate-free).
pub open spec fn strictly_sorted(s: Seq<Seq<u8>>) -> bool {
    forall|i: int, j: int| 0 <= i < j < s.len() ==> lex_lt(s[i], s[j])
}

/// `x` inserted into the sorted sequence `s`; `s` itself if already present.
pub open spec fn sorted_insert(s: Seq<Seq<u8>>, x: Seq<u8>) -> Seq<Seq<u8>>
    decreases s.len(),
{
    if s.len() == 0 {
        seq![x]
    } else if x == s[0] {
        s
    } else if lex_lt(x, s[0]) {
        seq![x] + s
    } else {
        seq![s[0]] + sorted_insert(s.drop_first(), x)
    }
}

/// Sorted insertion preserves strict sortedness and adds exactly `x` to the
/// members.
pub proof fn lemma_sorted_insert(s: Seq<Seq<u8>>, x: Seq<u8>)
    requires
        strictly_sorted(s),
    ensures
        strictly_sorted(sorted_insert(s, x)),
        forall|y: Seq<u8>| #[trigger] sorted_insert(s, x).contains(y) <==> s.contains(y) || y == x,
    decreases s.len(),
{
    let r = sorted_insert(s, x);
    if s.len() == 0 {
        assert(r =~= seq![x]);
        assert(r[0] == x);
        assert forall|y: Seq<u8>| #[trigger] r.contains(y) implies s.contains(y) || y == x by {}
        assert(r.contains(x));
    } else if x == s[0] {
        assert(s.contains(s[0]));
    } else if lex_lt(x, s[0]) {
        assert forall|i: int, j: int| 0 <= i < j < r.len() implies lex_lt(r[i], r[j]) by {
            if i == 0 {
                if j > 1 {
                    lemma_lex_lt_transitive(x, s[0], s[j - 1]);
                }
            }
        }
        assert forall|y: Seq<u8>| #[trigger] r.contains(y) implies s.contains(y) || y == x by {
            let i = choose|i: int| 0 <= i < r.len() && r[i] == y;
            if i > 0 {
                assert(s[i - 1] == y);
            }
        }
        assert forall|y: Seq<u8>| s.contains(y) || y == x implies #[trigger] r.contains(y) by {
            if s.contains(y) {
                let i = choose|i: int| 0 <= i < s.len() && s[i] == y;
                assert(r[i + 1] == y);
            } else {
                assert(r[0] == y);
            }
        }
    } else {
        // s[0] is strictly below x here.
        lemma_lex_lt_connected(x, s[0]);
        assert(lex_lt(s[0], x));
        let t = s.drop_first();
        assert(strictly_sorted(t)) by {
            assert forall|i: int, j: int| 0 <= i < j < t.len() implies lex_lt(t[i], t[j]) by {
                assert(t[i] == s[i + 1]);
                assert(t[j] == s[j + 1]);
            }
        }
        lemma_sorted_insert(t, x);
        let rt = sorted_insert(t, x);
        assert(r =~= seq![s[0]] + rt);
        assert forall|i: int, j: int| 0 <= i < j < r.len() implies lex_lt(r[i], r[j]) by {
            if i == 0 {
                let y = r[j];
                assert(rt[j - 1] == y);
                assert(rt.contains(y));
                if t.contains(y) {
                    let k = choose|k: int| 0 <= k < t.len() && t[k] == y;
                    assert(t[k] == s[k + 1]);
                    assert(lex_lt(s[0], s[k + 1]));
                } else {
                    assert(y == x);
                }
            } else {
                assert(r[i] == rt[i - 1]);
                assert(r[j] == rt[j - 1]);
            }
        }
        assert forall|y: Seq<u8>| #[trigger] r.contains(y) implies s.contains(y) || y == x by {
            let i = choose|i: int| 0 <= i < r.len() && r[i] == y;
            if i == 0 {
                assert(s[0] == y);
            } else {
                assert(rt[i - 1] == y);
                assert(rt.contains(y));
                if t.contains(y) {
                    let k = choose|k: int| 0 <= k < t.len() && t[k] == y;
                    assert(s[k + 1] == y);
                }
            }
        }
        assert forall|y: Seq<u8>| s.contains(y) || y == x implies #[trigger] r.contains(y) by {
            if s.contains(y) {
                let i = choose|i: int| 0 <= i < s.len() && s[i] == y;
                if i == 0 {
                    assert(r[0] == y);
                } else {
                    assert(t[i - 1] == y);
                    assert(t.contains(y));
                    assert(rt.contains(y));
                    let k = choose|k: int| 0 <= k < rt.len() && rt[k] == y;
                    assert(r[k + 1] == y);
                }
            } else {
                assert(rt.contains(x));
                let k = choose|k: int| 0 <= k < rt.len() && rt[k] == x;
                assert(r[k + 1] == y);
            }
        }
    }
}

/// Where `sorted_insert` lands: at the first position whose element is not
/// below `x`.
pub proof fn lemma_sorted_insert_at(s: Seq<Seq<u8>>, x: Seq<u8>, p: int)
    requires
        strictly_sorted(s),
        0 <= p <= s.len(),
        forall|i: int| 0 <= i < p ==> lex_lt(s[i], x),
        p < s.len() ==> !lex_lt(s[p], x),
    ensures
        sorted_insert(s, x) == if p < s.len() && s[p] == x {
            s
        } else {
            s.subrange(0, p) + seq![x] + s.subrange(p, s.len() as int)
        },
    decreases s.len(),
{
    if s.len() == 0 {
        assert(sorted_insert(s, x) =~= s.subrange(0, p) + seq![x] + s.subrange(
            p,
            s.len() as int,
        ));
    } else if p == 0 {
        if s[0] == x {
        } else {
            lemma_lex_lt_connected(x, s[0]);
            assert(lex_lt(x, s[0]));
            assert(sorted_insert(s, x) =~= s.subrange(0, 0) + seq![x] + s.subrange(
                0,
                s.len() as int,
            ));
        }
    } else {
        // p >= 1, so s[0] is below x: not equal, not above.
        lemma_lex_lt_irreflexive(x);
        if lex_lt(x, s[0]) {
            lemma_lex_lt_transitive(s[0], x, s[0]);
            lemma_lex_lt_irreflexive(s[0]);
        }
        assert(x != s[0]);
        assert(!lex_lt(x, s[0]));
        let t = s.drop_first();
        assert(strictly_sorted(t)) by {
            assert forall|i: int, j: int| 0 <= i < j < t.len() implies lex_lt(t[i], t[j]) by {
                assert(t[i] == s[i + 1]);
                assert(t[j] == s[j + 1]);
            }
        }
        assert forall|i: int| 0 <= i < p - 1 implies lex_lt(t[i], x) by {
            assert(t[i] == s[i + 1]);
        }
        assert(p - 1 < t.len() ==> !lex_lt(t[p - 1], x)) by {
            if p - 1 < t.len() {
                assert(t[p - 1] == s[p]);
            }
        }
        lemma_sorted_insert_at(t, x, p - 1);
        if p < s.len() && s[p] == x {
            assert(t[p - 1] == x);
            assert(sorted_insert(s, x) =~= seq![s[0]] + t);
            assert(sorted_insert(s, x) =~= s);
        } else {
            assert(sorted_insert(s, x) =~= seq![s[0]] + (t.subrange(0, p - 1) + seq![x]
                + t.subrange(p - 1, t.len() as int)));
            assert forall|i: int| 0 <= i < p - 1 implies #[trigger] t.subrange(0, p - 1)[i] == s[
                i + 1
            ] by {}
            assert(sorted_insert(s, x) =~= s.subrange(0, p) + seq![x] + s.subrange(
                p,
                s.len() as int,
            ));
        }
    }
}

/// Fold of `sorted_insert` over `s`, starting from `acc`.
pub open spec fn sort_dedup_from(acc: Seq<Seq<u8>>, s: Seq<Seq<u8>>) -> Seq<Seq<u8>>
    decreases s.len(),
{
    if s.len() == 0 {
        acc
    } else {
        sort_dedup_from(sorted_insert(acc, s[0]), s.drop_first())
    }
}

/// The members of `s`, sorted ascending with duplicates removed.
pub open spec fn spec_sort_dedup(s: Seq<Seq<u8>>) -> Seq<Seq<u8>> {
    sort_dedup_from(Seq::empty(), s)
}

pub proof fn lemma_sort_dedup_from_snoc(acc: Seq<Seq<u8>>, s: Seq<Seq<u8>>, x: Seq<u8>)
    ensures
        sort_dedup_from(acc, s.push(x)) == sorted_insert(sort_dedup_from(acc, s), x),
    decreases s.len(),
{
    reveal_with_fuel(sort_dedup_from, 3);
    if s.len() == 0 {
        assert(s.push(x)[0] == x);
        assert(s.push(x).drop_first() =~= Seq::<Seq<u8>>::empty());
    } else {
        assert(s.push(x)[0] == s[0]);
        assert(s.push(x).drop_first() =~= s.drop_first().push(x));
        lemma_sort_dedup_from_snoc(sorted_insert(acc, s[0]), s.drop_first(), x);
        assert(sort_dedup_from(acc, s.push(x)) == sort_dedup_from(
            sorted_insert(acc, s[0]),
            s.drop_first().push(x),
        ));
        assert(sort_dedup_from(acc, s) == sort_dedup_from(
            sorted_insert(acc, s[0]),
            s.drop_first(),
        ));
    }
}

/// The fold preserves sortedness; its members are those of `acc` and `s`.
pub proof fn lemma_sort_dedup_from(acc: Seq<Seq<u8>>, s: Seq<Seq<u8>>)
    requires
        strictly_sorted(acc),
    ensures
        strictly_sorted(sort_dedup_from(acc, s)),
        forall|y: Seq<u8>| #[trigger] sort_dedup_from(acc, s).contains(y) <==> acc.contains(y)
            || s.contains(y),
    decreases s.len(),
{
    if s.len() == 0 {
    } else {
        lemma_sorted_insert(acc, s[0]);
        lemma_sort_dedup_from(sorted_insert(acc, s[0]), s.drop_first());
        let t = s.drop_first();
        assert forall|y: Seq<u8>| s.contains(y) implies y == s[0] || t.contains(y) by {
            let i = choose|i: int| 0 <= i < s.len() && s[i] == y;
            if i > 0 {
                assert(t[i - 1] == y);
            }
        }
        assert forall|y: Seq<u8>| t.contains(y) implies s.contains(y) by {
            let i = choose|i: int| 0 <= i < t.len() && t[i] == y;
            assert(s[i + 1] == y);
        }
        assert(s.contains(s[0]));
    }
}

/// A strictly sorted sequence is determined by its members.
pub proof fn lemma_strictly_sorted_unique(a: Seq<Seq<u8>>, b: Seq<Seq<u8>>)
    requires
        strictly_sorted(a),
        strictly_sorted(b),
        forall|y: Seq<u8>| #[trigger] a.contains(y) <==> b.contains(y),
    ensures
        a == b,
    decreases a.len(),
{
    if a.len() == 0 {
        if b.len() > 0 {
            assert(b.contains(b[0]));
            assert(a.contains(b[0]));
        } else {
            assert(a =~= b);
        }
    } else if b.len() == 0 {
        assert(a.contains(a[0]));
        assert(b.contains(a[0]));
    } else {
        assert(a.contains(a[0]));
        assert(b.contains(b[0]));
        assert(b.contains(a[0]));
        assert(a.contains(b[0]));
        assert(a[0] == b[0]) by {
            let k = choose|k: int| 0 <= k < b.len() && b[k] == a[0];
            let l = choose|l: int| 0 <= l < a.len() && a[l] == b[0];
            if k > 0 && l > 0 {
                assert(lex_lt(b[0], b[k]));
                assert(lex_lt(a[0], a[l]));
                lemma_lex_lt_transitive(a[0], b[0], a[0]);
                lemma_lex_lt_irreflexive(a[0]);
            }
        }
        let ta = a.drop_first();
        let tb = b.drop_first();
        assert(strictly_sorted(ta)) by {
            assert forall|i: int, j: int| 0 <= i < j < ta.len() implies lex_lt(ta[i], ta[j]) by {
                assert(ta[i] == a[i + 1]);
                assert(ta[j] == a[j + 1]);
            }
        }
        assert(strictly_sorted(tb)) by {
            assert forall|i: int, j: int| 0 <= i < j < tb.len() implies lex_lt(tb[i], tb[j]) by {
                assert(tb[i] == b[i + 1]);
                assert(tb[j] == b[j + 1]);
            }
        }
        assert forall|y: Seq<u8>| #[trigger] ta.contains(y) implies tb.contains(y) by {
            let i = choose|i: int| 0 <= i < ta.len() && ta[i] == y;
            assert(a[i + 1] == y);
            assert(a.contains(y));
            assert(b.contains(y));
            let k = choose|k: int| 0 <= k < b.len() && b[k] == y;
            if k == 0 {
                // then y == a[0], but a[0] is strictly below a[i + 1] == y
                lemma_lex_lt_irreflexive(y);
            }
            assert(tb[k - 1] == y);
        }
        assert forall|y: Seq<u8>| #[trigger] tb.contains(y) implies ta.contains(y) by {
            let i = choose|i: int| 0 <= i < tb.len() && tb[i] == y;
            assert(b[i + 1] == y);
            assert(b.contains(y));
            assert(a.contains(y));
            let k = choose|k: int| 0 <= k < a.len() && a[k] == y;
            if k == 0 {
                lemma_lex_lt_irreflexive(y);
            }
            assert(ta[k - 1] == y);
        }
        lemma_strictly_sorted_unique(ta, tb);
        assert forall|i: int| 0 <= i < a.len() implies a[i] == b[i] by {
            if i > 0 {
                assert(ta[i - 1] == tb[i - 1]);
            }
        }
        assert(a =~= b);
    }
}

/// Views of a sequence of (key, value) byte-vector pairs.
pub open spec fn pair_views(s: Seq<(Vec<u8>, Vec<u8>)>) -> Seq<(Seq<u8>, Seq<u8>)> {
    s.map_values(|p: (Vec<u8>, Vec<u8>)| (p.0@, p.1@))
}

/// Keys strictly ascending in lexicographic order.
pub open spec fn sorted_keys(s: Seq<(Seq<u8>, Seq<u8>)>) -> bool {
    forall|i: int, j: int| 0 <= i < j < s.len() ==> lex_lt(s[i].0, s[j].0)
}

/// Merge of two key-sorted association lists.  On a key present in both,
/// the entry of `u` wins.
pub open spec fn merge_assoc(p: Seq<(Seq<u8>, Seq<u8>)>, u: Seq<(Seq<u8>, Seq<u8>)>) -> Seq<
    (Seq<u8>, Seq<u8>),
>
    decreases p.len() + u.len(),
{
    if p.len() == 0 {
        u
    } else if u.len() == 0 {
        p
    } else if p[0].0 == u[0].0 {
        seq![u[0]] + merge_assoc(p.drop_first(), u.drop_first())
    } else if lex_lt(p[0].0, u[0].0) {
        seq![p[0]] + merge_assoc(p.drop_first(), u)
    } else {
        seq![u[0]] + merge_assoc(p, u.drop_first())
    }
}

/// The value of the first entry with key `k`, if any.
pub open spec fn assoc_get(s: Seq<(Seq<u8>, Seq<u8>)>, k: Seq<u8>) -> Option<Seq<u8>>
    decreases s.len(),
{
    if s.len() == 0 {
        None
    } else if s[0].0 == k {
        Some(s[0].1)
    } else {
        assoc_get(s.drop_first(), k)
    }
}

/// A key below every key of a sorted association list is absent from it.
pub proof fn lemma_assoc_get_below(s: Seq<(Seq<u8>, Seq<u8>)>, k: Seq<u8>)
    requires
        sorted_keys(s),
        s.len() > 0 ==> lex_lt(k, s[0].0),
    ensures
        assoc_get(s, k) is None,
    decreases s.len(),
{
    if s.len() > 0 {
        lemma_lex_lt_irreflexive(k);
        assert(s[0].0 != k);
        let t = s.drop_first();
        assert forall|i: int, j: int| 0 <= i < j < t.len() implies lex_lt(t[i].0, t[j].0) by {
            assert(t[i] == s[i + 1]);
            assert(t[j] == s[j + 1]);
        }
        if t.len() > 0 {
            assert(t[0] == s[1]);
            lemma_lex_lt_transitive(k, s[0].0, s[1].0);
        }
        lemma_assoc_get_below(t, k);
    }
}

/// Law: looking a key up in the merge of two key-sorted association lists
/// yields the entry of `u` where `u` defines the key — the user map
/// overrides the project map — and the entry of `p` otherwise.
pub proof fn lemma_merge_assoc_get(
    p: Seq<(Seq<u8>, Seq<u8>)>,
    u: Seq<(Seq<u8>, Seq<u8>)>,
    k: Seq<u8>,
)
    requires
        sorted_keys(p),
        sorted_keys(u),
    ensures
        assoc_get(merge_assoc(p, u), k) == (match assoc_get(u, k) {
            Some(v) => Some(v),
            None => assoc_get(p, k),
        }),
    decreases p.len() + u.len(),
{
    if p.len() == 0 {
    } else if u.len() == 0 {
    } else {
        let pt = p.drop_first();
        let ut = u.drop_first();
        assert forall|i: int, j: int| 0 <= i < j < pt.len() implies lex_lt(pt[i].0, pt[j].0) by {
            assert(pt[i] == p[i + 1]);
            assert(pt[j] == p[j + 1]);
        }
        assert forall|i: int, j: int| 0 <= i < j < ut.len() implies lex_lt(ut[i].0, ut[j].0) by {
            assert(ut[i] == u[i + 1]);
            assert(ut[j] == u[j + 1]);
        }
        if p[0].0 == u[0].0 {
            let m = seq![u[0]] + merge_assoc(pt, ut);
            assert(merge_assoc(p, u) == m);
            assert(m[0] == u[0]);
            assert(m.drop_first() =~= merge_assoc(pt, ut));
            if u[0].0 == k {
            } else {
                lemma_merge_assoc_get(pt, ut, k);
            }
        } else if lex_lt(p[0].0, u[0].0) {
            let m = seq![p[0]] + merge_assoc(pt, u);
            assert(merge_assoc(p, u) == m);
            assert(m[0] == p[0]);
            assert(m.drop_first() =~= merge_assoc(pt, u));
            if p[0].0 == k {
                // k is strictly below every key of u, so u does not define it
                lemma_assoc_get_below(u, k);
            } else {
                lemma_merge_assoc_get(pt, u, k);
            }
        } else {
            lemma_lex_lt_connected(p[0].0, u[0].0);
            assert(lex_lt(u[0].0, p[0].0));
            let m = seq![u[0]] + merge_assoc(p, ut);
            assert(merge_assoc(p, u) == m);
            assert(m[0] == u[0]);
            assert(m.drop_first() =~= merge_assoc(p, ut));
            if u[0].0 == k {
            } else {
                lemma_merge_assoc_get(p, ut, k);
            }
        }
    }
}

/// Merge two key-sorted association lists into a fresh one; on a key
/// present in both, the entry of `u` wins.
#[verifier::loop_isolation(false)]
pub fn merge_assoc_vec(p: &Vec<(Vec<u8>, Vec<u8>)>, u: &Vec<(Vec<u8>, Vec<u8>)>) -> (r: Vec<
    (Vec<u8>, Vec<u8>),
>)
    ensures
        pair_views(r@) == merge_assoc(pair_views(p@), pair_views(u@)),
{
    let ghost pv = pair_views(p@);
    let ghost uv = pair_views(u@);
    let mut out: Vec<(Vec<u8>, Vec<u8>)> = Vec::new();
    let mut i: usize = 0;
    let mut j: usize = 0;
    proof {
        assert(pv.skip(0) =~= pv);
        assert(uv.skip(0) =~= uv);
        assert(Seq::<(Seq<u8>, Seq<u8>)>::empty() + merge_assoc(pv, uv) =~= merge_assoc(pv, uv));
    }
    while i < p.len() || j < u.len()
        invariant
            i <= p.len(),
            j <= u.len(),
            merge_assoc(pv, uv) == pair_views(out@) + merge_assoc(
                pv.skip(i as int),
                uv.skip(j as int),
            ),
        decreases p.len() - i + u.len() - j,
    {
        let ghost pr = pv.skip(i as int);
        let ghost ur = uv.skip(j as int);
        proof {
            if i < p.len() {
                assert(pr[0] == pv[i as int]);
                assert(pr.drop_first() =~= pv.skip(i + 1));
            }
            if j < u.len() {
                assert(ur[0] == uv[j as int]);
                assert(ur.drop_first() =~= uv.skip(j + 1));
            }
        }
        if i >= p.len() {
            let entry = (crate::text::copy_bytes(&u[j].0), crate::text::copy_bytes(&u[j].1));
            proof {
                assert(pr =~= Seq::<(Seq<u8>, Seq<u8>)>::empty());
                assert(merge_assoc(pr, ur) == ur);
                assert(ur =~= seq![ur[0]] + ur.drop_first());
                assert(merge_assoc(pr, ur.drop_first()) == ur.drop_first());
            }
            out.push(entry);
            j += 1;
        } else if j >= u.len() {
            let entry = (crate::text::copy_bytes(&p[i].0), crate::text::copy_bytes(&p[i].1));
            proof {
                assert(ur =~= Seq::<(Seq<u8>, Seq<u8>)>::empty());
                assert(merge_assoc(pr, ur) == pr);
                assert(pr =~= seq![pr[0]] + pr.drop_first());
                assert(merge_assoc(pr.drop_first(), ur) == pr.drop_first());
            }
            out.push(entry);
            i += 1;
        } else if bytes_eq(&p[i].0, &u[j].0) {
            // same key: the user entry replaces the project entry
            let entry = (crate::text::copy_bytes(&u[j].0), crate::text::copy_bytes(&u[j].1));
            proof {
                assert(merge_assoc(pr, ur) == seq![ur[0]] + merge_assoc(
                    pr.drop_first(),
                    ur.drop_first(),
                ));
            }
            out.push(entry);
            i += 1;
            j += 1;
        } else if lex_lt_bytes(&p[i].0, &u[j].0) {
            let entry = (crate::text::copy_bytes(&p[i].0), crate::text::copy_bytes(&p[i].1));
            proof {
                assert(merge_assoc(pr, ur) == seq![pr[0]] + merge_assoc(pr.drop_first(), ur));
            }
            out.push(entry);
            i += 1;
        } else {
            let entry = (crate::text::copy_bytes(&u[j].0), crate::text::copy_bytes(&u[j].1));
            proof {
                assert(merge_assoc(pr, ur) == seq![ur[0]] + merge_assoc(pr, ur.drop_first()));
            }
            out.push(entry);
            j += 1;
        }
        assert(merge_assoc(pv, uv) =~= pair_views(out@) + merge_assoc(
            pv.skip(i as int),
            uv.skip(j as int),
        ));
    }
    assert(pv.skip(i as int) =~= Seq::<(Seq<u8>, Seq<u8>)>::empty());
    assert(uv.skip(j as int) =~= Seq::<(Seq<u8>, Seq<u8>)>::empty());
    assert(pair_views(out@) =~= merge_assoc(pv, uv));
    out
}

/// Insert a copy of `x` into the sorted vector `out` unless already present.
#[verifier::loop_isolation(false)]
pub fn insert_sorted(out: &mut Vec<Vec<u8>>, x: Vec<u8>)
    requires
        strictly_sorted(views(old(out)@)),
    ensures
        views(final(out)@) == sorted_insert(views(old(out)@), x@),
        strictly_sorted(views(final(out)@)),
{
    let ghost s = views(out@);
    let mut p: usize = 0;
    while p < out.len() && lex_lt_bytes(&out[p], &x)
        invariant
            p <= out.len(),
            forall|i: int| 0 <= i < p ==> lex_lt(s[i], x@),
        decreases out.len() - p,
    {
        p += 1;
    }
    proof {
        lemma_sorted_insert_at(s, x@, p as int);
        lemma_sorted_insert(s, x@);
    }
    if p < out.len() && bytes_eq(&out[p], &x) {
        assert(s[p as int] == x@);
    } else {
        out.insert(p, x);
        assert(views(out@) =~= s.subrange(0, p as int) + seq![x@] + s.subrange(
            p as int,
            s.len() as int,
        ));
    }
}

/// Copies of the members of `input`, sorted ascending, duplicates removed.
#[verifier::loop_isolation(false)]
pub fn sort_dedup(input: &Vec<Vec<u8>>) -> (r: Vec<Vec<u8>>)
    ensures
        views(r@) == spec_sort_dedup(views(input@)),
        strictly_sorted(views(r@)),
        forall|y: Seq<u8>| #[trigger] views(r@).contains(y) <==> views(input@).contains(y),
{
    let mut out: Vec<Vec<u8>> = Vec::new();
    let mut i: usize = 0;
    proof {
        assert(views(input@).subrange(0, 0) =~= Seq::<Seq<u8>>::empty());
    }
    while i < input.len()
        invariant
            i <= input.len(),
            strictly_sorted(views(out@)),
            views(out@) == sort_dedup_from(Seq::empty(), views(input@).subrange(0, i as int)),
        decreases input.len() - i,
    {
        let x = crate::text::subvec(&input[i], 0, input[i].len());
        proof {
            assert(x@ =~= input@[i as int]@);
            lemma_sort_dedup_from_snoc(
                Seq::empty(),
                views(input@).subrange(0, i as int),
                views(input@)[i as int],
            );
            assert(views(input@).subrange(0, i + 1) =~= views(input@).subrange(
                0,
                i as int,
            ).push(views(input@)[i as int]));
        }
        insert_sorted(&mut out, x);
        i += 1;
    }
    proof {
        assert(views(input@).subrange(0, input@.len() as int) =~= views(input@));
        lemma_sort_dedup_from(Seq::empty(), views(input@));
    }
    out
}

} // verus!
