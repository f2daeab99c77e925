//! Comparison keys, duplicate removal, and sorting of entries.

use crate::expand::{expand_chars, expand_spec, Environment};
use crate::text::{
    chars_of, lemma_lex_asymmetric, lemma_lex_total, lemma_lex_transitive, less_chars, lex_less,
    lower_chars, lowercase, same_chars, string_of, sub_chars, texts, trim, trim_chars,
};
use vstd::prelude::*;
use vstd::set_lib::{lemma_int_range, lemma_set_subset_finite, lemma_subset_equality, set_int_range};

verus! {

/// `s` with every `/` replaced by `\`.
pub open spec fn backslashed(s: Seq<char>) -> Seq<char> {
    Seq::new(
        s.len(),
        |i: int|
            if s[i] == '/' {
                '\\'
            } else {
                s[i]
            },
    )
}

/// `s` without the `\` characters at its end.
pub open spec fn without_trailing_backslashes(s: Seq<char>) -> Seq<char>
    decreases s.len(),
{
    if s.len() > 0 && s.last() == '\\' {
        without_trailing_backslashes(s.drop_last())
    } else {
        s
    }
}

/// The key by which two entries are the same path: the entry expanded, with
/// `\` for `/`, trimmed, in lowercase, without trailing `\`.
pub open spec fn compare_key(s: Seq<char>, env: Map<Seq<char>, Seq<char>>) -> Seq<char> {
    without_trailing_backslashes(lowercase(trim(backslashed(expand_spec(s, env)))))
}

/// Whether an entry before position `i` has the key of the entry at `i`.
pub open spec fn seen_before(xs: Seq<Seq<char>>, env: Map<Seq<char>, Seq<char>>, i: int) -> bool {
    exists|j: int| 0 <= j < i && compare_key(#[trigger] xs[j], env) == compare_key(xs[i], env)
}

/// The entries of `xs` whose key no earlier entry has, in order.
pub open spec fn dedupe_spec(xs: Seq<Seq<char>>, env: Map<Seq<char>, Seq<char>>) -> Seq<Seq<char>>
    decreases xs.len(),
{
    if xs.len() == 0 {
        Seq::empty()
    } else if seen_before(xs, env, xs.len() - 1) {
        dedupe_spec(xs.drop_last(), env)
    } else {
        dedupe_spec(xs.drop_last(), env).push(xs.last())
    }
}

/// Whether no two entries of `xs` have the same key.
pub open spec fn distinct_keys(xs: Seq<Seq<char>>, env: Map<Seq<char>, Seq<char>>) -> bool {
    forall|i: int, j: int|
        0 <= i < j < xs.len() ==> compare_key(#[trigger] xs[i], env) != compare_key(
            #[trigger] xs[j],
            env,
        )
}

/// Every entry that `dedupe_spec` keeps is an entry of `xs`, no two of them
/// have the same key, and every key of `xs` is the key of one of them.
pub proof fn lemma_dedupe_shape(xs: Seq<Seq<char>>, env: Map<Seq<char>, Seq<char>>)
    ensures
        dedupe_spec(xs, env).len() <= xs.len(),
        forall|k: int|
            0 <= k < dedupe_spec(xs, env).len() ==> xs.contains(#[trigger] dedupe_spec(xs, env)[k]),
        distinct_keys(dedupe_spec(xs, env), env),
        forall|i: int|
            0 <= i < xs.len() ==> exists|k: int|
                0 <= k < dedupe_spec(xs, env).len() && compare_key(
                    #[trigger] dedupe_spec(xs, env)[k],
                    env,
                ) == compare_key(#[trigger] xs[i], env),
    decreases xs.len(),
{
    if xs.len() > 0 {
        let front = xs.drop_last();
        let d = dedupe_spec(front, env);
        let r = dedupe_spec(xs, env);
        let last = xs.len() - 1;
        lemma_dedupe_shape(front, env);
        assert forall|k: int| 0 <= k < r.len() implies xs.contains(#[trigger] r[k]) by {
            if k < d.len() {
                assert(front.contains(d[k]));
                let j = choose|j: int| 0 <= j < front.len() && front[j] == d[k];
                assert(xs[j] == d[k]);
            } else {
                assert(xs[last] == r[k]);
            }
        }
        assert(distinct_keys(r, env)) by {
            assert forall|i: int, j: int| 0 <= i < j < r.len() implies compare_key(
                #[trigger] r[i],
                env,
            ) != compare_key(#[trigger] r[j], env) by {
                if j == d.len() {
                    assert(front.contains(d[i]));
                    let m = choose|m: int| 0 <= m < front.len() && front[m] == d[i];
                    assert(xs[m] == d[i]);
                }
            }
        }
        assert forall|i: int| 0 <= i < xs.len() implies exists|k: int|
            0 <= k < r.len() && compare_key(#[trigger] r[k], env) == compare_key(
                #[trigger] xs[i],
                env,
            ) by {
            if i < last {
                assert(front[i] == xs[i]);
                let k = choose|k: int|
                    0 <= k < d.len() && compare_key(#[trigger] d[k], env) == compare_key(
                        front[i],
                        env,
                    );
                assert(r[k] == d[k]);
            } else if seen_before(xs, env, last) {
                let j = choose|j: int|
                    0 <= j < last && compare_key(#[trigger] xs[j], env) == compare_key(
                        xs[last],
                        env,
                    );
                assert(front[j] == xs[j]);
                let k = choose|k: int|
                    0 <= k < d.len() && compare_key(#[trigger] d[k], env) == compare_key(
                        front[j],
                        env,
                    );
                assert(r[k] == d[k]);
            } else {
                assert(r[d.len() as int] == xs[i]);
            }
        }
    }
}

/// The positions of the entries that `dedupe_spec` keeps, ascending.
pub open spec fn kept_positions(xs: Seq<Seq<char>>, env: Map<Seq<char>, Seq<char>>) -> Seq<int>
    decreases xs.len(),
{
    if xs.len() == 0 {
        Seq::empty()
    } else if seen_before(xs, env, xs.len() - 1) {
        kept_positions(xs.drop_last(), env)
    } else {
        kept_positions(xs.drop_last(), env).push(xs.len() - 1)
    }
}

/// Whether an earlier entry has the key of the entry at `i` does not depend
/// on what follows position `i`.
proof fn lemma_seen_before_prefix(xs: Seq<Seq<char>>, env: Map<Seq<char>, Seq<char>>, i: int)
    requires
        0 <= i < xs.len() - 1,
    ensures
        seen_before(xs.drop_last(), env, i) == seen_before(xs, env, i),
{
    let front = xs.drop_last();
    if seen_before(front, env, i) {
        let j = choose|j: int|
            0 <= j < i && compare_key(#[trigger] front[j], env) == compare_key(front[i], env);
        assert(xs[j] == front[j] && xs[i] == front[i]);
    }
    if seen_before(xs, env, i) {
        let j = choose|j: int|
            0 <= j < i && compare_key(#[trigger] xs[j], env) == compare_key(xs[i], env);
        assert(xs[j] == front[j] && xs[i] == front[i]);
    }
}

/// Duplicate removal keeps exactly the first entry of each key, in the order
/// of the list: the kept entries are the entries at the positions at which a
/// key occurs for the first time, in ascending order of position.
pub proof fn lemma_dedupe_keeps_first_occurrences(
    xs: Seq<Seq<char>>,
    env: Map<Seq<char>, Seq<char>>,
)
    ensures
        kept_positions(xs, env).len() == dedupe_spec(xs, env).len(),
        forall|k: int|
            0 <= k < kept_positions(xs, env).len() ==> {
                let p = #[trigger] kept_positions(xs, env)[k];
                0 <= p < xs.len() && dedupe_spec(xs, env)[k] == xs[p] && !seen_before(xs, env, p)
            },
        forall|k: int, l: int|
            0 <= k < l < kept_positions(xs, env).len() ==> kept_positions(xs, env)[k]
                < kept_positions(xs, env)[l],
        forall|i: int|
            0 <= i < xs.len() && !seen_before(xs, env, i) ==> kept_positions(xs, env).contains(i),
    decreases xs.len(),
{
    if xs.len() > 0 {
        let front = xs.drop_last();
        let last = xs.len() - 1;
        let at = kept_positions(xs, env);
        let at0 = kept_positions(front, env);
        let d = dedupe_spec(xs, env);
        let d0 = dedupe_spec(front, env);
        lemma_dedupe_keeps_first_occurrences(front, env);
        assert forall|k: int| 0 <= k < at.len() implies {
            let p = #[trigger] at[k];
            0 <= p < xs.len() && d[k] == xs[p] && !seen_before(xs, env, p)
        } by {
            if k < at0.len() {
                let p = at0[k];
                assert(at[k] == p);
                assert(d[k] == d0[k]);
                assert(front[p] == xs[p]);
                lemma_seen_before_prefix(xs, env, p);
            }
        }
        assert forall|k: int, l: int| 0 <= k < l < at.len() implies at[k] < at[l] by {
            assert(at[k] == at0[k]);
            if l < at0.len() {
                assert(at[l] == at0[l]);
            }
        }
        assert forall|i: int| 0 <= i < xs.len() && !seen_before(xs, env, i) implies at.contains(
            i,
        ) by {
            if i < last {
                lemma_seen_before_prefix(xs, env, i);
                assert(at0.contains(i));
                let k = choose|k: int| 0 <= k < at0.len() && at0[k] == i;
                assert(at[k] == i);
            } else {
                assert(at[at0.len() as int] == i);
            }
        }
    }
}

/// A list without two entries of the same key is left as it is.
pub proof fn lemma_dedupe_of_distinct(xs: Seq<Seq<char>>, env: Map<Seq<char>, Seq<char>>)
    requires
        distinct_keys(xs, env),
    ensures
        dedupe_spec(xs, env) == xs,
    decreases xs.len(),
{
    if xs.len() > 0 {
        let front = xs.drop_last();
        assert(distinct_keys(front, env)) by {
            assert forall|i: int, j: int| 0 <= i < j < front.len() implies compare_key(
                #[trigger] front[i],
                env,
            ) != compare_key(#[trigger] front[j], env) by {
                assert(front[i] == xs[i] && front[j] == xs[j]);
            }
        }
        lemma_dedupe_of_distinct(front, env);
        assert(front.push(xs.last()) =~= xs);
    } else {
        assert(xs =~= Seq::<Seq<char>>::empty());
    }
}

/// Removing duplicates twice is removing them once.
pub proof fn lemma_dedupe_idempotent(xs: Seq<Seq<char>>, env: Map<Seq<char>, Seq<char>>)
    ensures
        dedupe_spec(dedupe_spec(xs, env), env) == dedupe_spec(xs, env),
{
    lemma_dedupe_shape(xs, env);
    lemma_dedupe_of_distinct(dedupe_spec(xs, env), env);
}

/// The key of an entry for duplicate detection: the entry with its tokens
/// expanded against `env`, `/` replaced by `\`, trimmed, turned to lowercase,
/// and without the `\` characters at its end.
pub fn normalize_for_compare(path: &str, env: &Environment) -> (key: String)
    ensures
        key@ == compare_key(path@, env@),
{
    let v = chars_of(path);
    let key = key_chars(&v, env);
    string_of(&key)
}

/// `normalize_for_compare` on characters.
fn key_chars(v: &Vec<char>, env: &Environment) -> (key: Vec<char>)
    ensures
        key@ == compare_key(v@, env@),
{
    let expanded = expand_chars(v, env);
    let mut slashed: Vec<char> = Vec::new();
    let mut i: usize = 0;
    while i < expanded.len()
        invariant
            i <= expanded.len(),
            slashed@ == backslashed(expanded@).take(i as int),
        decreases expanded.len() - i,
    {
        let c = expanded[i];
        slashed.push(if c == '/' {
            '\\'
        } else {
            c
        });
        proof {
            assert(slashed@ =~= backslashed(expanded@).take(i + 1));
        }
        i += 1;
    }
    proof {
        assert(backslashed(expanded@).take(expanded.len() as int) =~= backslashed(expanded@));
    }
    let trimmed = trim_chars(&slashed);
    let low = lower_chars(&trimmed);
    let mut m: usize = low.len();
    proof {
        assert(low@.take(m as int) =~= low@);
    }
    while m > 0 && low[m - 1] == '\\'
        invariant
            m <= low.len(),
            without_trailing_backslashes(low@) == without_trailing_backslashes(low@.take(m as int)),
        decreases m,
    {
        proof {
            assert(low@.take(m as int).drop_last() =~= low@.take(m - 1));
        }
        m -= 1;
    }
    sub_chars(&low, 0, m)
}

/// Removes duplicates: keeps an entry if and only if no earlier entry has
/// its comparison key. The kept entries stay in their order, with their own
/// text.
pub fn dedupe(parts: &[String], env: &Environment) -> (kept: Vec<String>)
    ensures
        texts(kept@) == dedupe_spec(texts(parts@), env@),
        kept@.len() <= parts@.len(),
        distinct_keys(texts(kept@), env@),
{
    let ghost xs = texts(parts@);
    let mut keys: Vec<Vec<char>> = Vec::new();
    let mut kept: Vec<String> = Vec::new();
    let mut i: usize = 0;
    proof {
        assert(xs.take(0) =~= Seq::<Seq<char>>::empty());
        assert(texts(kept@) =~= Seq::<Seq<char>>::empty());
    }
    while i < parts.len()
        invariant
            xs == texts(parts@),
            i <= parts.len(),
            keys@.len() == i,
            forall|j: int| 0 <= j < i ==> (#[trigger] keys@[j])@ == compare_key(xs[j], env@),
            texts(kept@) == dedupe_spec(xs.take(i as int), env@),
        decreases parts.len() - i,
    {
        let v = chars_of(parts[i].as_str());
        let key = key_chars(&v, env);
        let mut seen = false;
        let mut j: usize = 0;
        while j < i && !seen
            invariant
                j <= i,
                i < parts.len(),
                keys@.len() == i,
                xs == texts(parts@),
                key@ == compare_key(xs[i as int], env@),
                forall|k: int| 0 <= k < i ==> (#[trigger] keys@[k])@ == compare_key(xs[k], env@),
                seen ==> seen_before(xs.take(i + 1), env@, i as int),
                !seen ==> forall|k: int|
                    0 <= k < j ==> compare_key(#[trigger] xs[k], env@) != key@,
            decreases i - j + if seen { 0int } else { 1int },
        {
            if same_chars(&keys[j], &key) {
                seen = true;
                proof {
                    let t = xs.take(i + 1);
                    assert(t[j as int] == xs[j as int]);
                    assert(compare_key(t[j as int], env@) == compare_key(t[i as int], env@));
                }
            } else {
                j += 1;
            }
        }
        let ghost before = texts(kept@);
        proof {
            let t = xs.take(i + 1);
            assert(t.drop_last() =~= xs.take(i as int));
            assert(t.last() == xs[i as int]);
            if !seen {
                assert(!seen_before(t, env@, i as int)) by {
                    if seen_before(t, env@, i as int) {
                        let k = choose|k: int|
                            0 <= k < i && compare_key(#[trigger] t[k], env@) == compare_key(
                                t[i as int],
                                env@,
                            );
                        assert(t[k] == xs[k]);
                    }
                }
            }
        }
        if !seen {
            kept.push(parts[i].clone());
            proof {
                assert(texts(kept@) =~= before.push(xs[i as int]));
            }
        }
        keys.push(key);
        i += 1;
    }
    proof {
        assert(xs.take(parts.len() as int) =~= xs);
        lemma_dedupe_shape(xs, env@);
    }
    kept
}

/// Whether the entry with key `ka` at position `ia` of the unsorted list
/// has to stand before the one with key `kb` at position `ib`: its key comes
/// first, or the keys are equal and it stood first.
pub open spec fn stands_before(ka: Seq<char>, ia: int, kb: Seq<char>, ib: int) -> bool {
    lex_less(ka, kb) || (ka == kb && ia < ib)
}

/// Whether `after` is `before` sorted by lowercase text, with `from[i]` the
/// position in `before` of the entry at `i` in `after`. Entries with equal
/// lowercase text keep their order.
pub open spec fn sorted_from(
    before: Seq<Seq<char>>,
    after: Seq<Seq<char>>,
    from: Seq<int>,
) -> bool {
    &&& after.len() == before.len()
    &&& from.len() == before.len()
    &&& forall|i: int|
        0 <= i < from.len() ==> 0 <= #[trigger] from[i] < before.len() && after[i]
            == before[from[i]]
    &&& forall|i: int, j: int|
        0 <= i < j < from.len() ==> stands_before(
            lowercase(before[#[trigger] from[i]]),
            from[i],
            lowercase(before[#[trigger] from[j]]),
            from[j],
        )
}

/// Whether `after` is `before` in the order of a stable sort by lowercase
/// text.
pub open spec fn stably_sorted(before: Seq<Seq<char>>, after: Seq<Seq<char>>) -> bool {
    exists|from: Seq<int>| sorted_from(before, after, from)
}

/// `stands_before` is a strict total order on the entries of a list: no
/// entry stands before itself, of two entries exactly one stands before the
/// other, and the order is transitive.
pub proof fn lemma_stands_before_order(
    ka: Seq<char>,
    ia: int,
    kb: Seq<char>,
    ib: int,
    kc: Seq<char>,
    ic: int,
)
    ensures
        !stands_before(ka, ia, ka, ia),
        !(stands_before(ka, ia, kb, ib) && stands_before(kb, ib, ka, ia)),
        stands_before(ka, ia, kb, ib) || stands_before(kb, ib, ka, ia) || (ka == kb && ia == ib),
        stands_before(ka, ia, kb, ib) && stands_before(kb, ib, kc, ic) ==> stands_before(
            ka,
            ia,
            kc,
            ic,
        ),
{
    lemma_lex_asymmetric(ka, kb);
    lemma_lex_asymmetric(kb, ka);
    lemma_lex_total(ka, kb);
    if lex_less(ka, kb) && lex_less(kb, kc) {
        lemma_lex_transitive(ka, kb, kc);
    }
}

/// In the order of a sort every position of the unsorted list occurs, and
/// none occurs twice.
pub proof fn lemma_sorted_from_is_permutation(
    before: Seq<Seq<char>>,
    after: Seq<Seq<char>>,
    from: Seq<int>,
)
    requires
        sorted_from(before, after, from),
    ensures
        from.no_duplicates(),
        forall|p: int| 0 <= p < before.len() ==> from.contains(p),
{
    let n = before.len() as int;
    assert forall|i: int, j: int|
        0 <= i < from.len() && 0 <= j < from.len() && i != j implies from[i] != from[j] by {
        let x = lowercase(before[from[i]]);
        let y = lowercase(before[from[j]]);
        lemma_stands_before_order(x, from[i], y, from[j], x, from[i]);
        if i < j {
            assert(stands_before(x, from[i], y, from[j]));
        } else {
            assert(stands_before(y, from[j], x, from[i]));
        }
    }
    from.unique_seq_to_set();
    lemma_int_range(0, n);
    let s = from.to_set();
    let r = set_int_range(0, n);
    assert(s.subset_of(r)) by {
        assert forall|a: int| s.contains(a) implies r.contains(a) by {
            let i = choose|i: int| 0 <= i < from.len() && from[i] == a;
            assert(0 <= from[i] < n);
        }
    }
    lemma_set_subset_finite(r, s);
    lemma_subset_equality(s, r);
    assert forall|p: int| 0 <= p < before.len() implies from.contains(p) by {
        assert(r.contains(p));
        assert(s.contains(p));
    }
}

/// Two orders of a sort of the same list agree on their first `k` positions.
proof fn lemma_orders_agree(
    before: Seq<Seq<char>>,
    a1: Seq<Seq<char>>,
    f1: Seq<int>,
    a2: Seq<Seq<char>>,
    f2: Seq<int>,
    k: int,
)
    requires
        sorted_from(before, a1, f1),
        sorted_from(before, a2, f2),
        0 <= k <= before.len(),
    ensures
        forall|m: int| 0 <= m < k ==> f1[m] == f2[m],
    decreases k,
{
    if k > 0 {
        lemma_orders_agree(before, a1, f1, a2, f2, k - 1);
        let j = k - 1;
        if f1[j] != f2[j] {
            lemma_sorted_from_is_permutation(before, a1, f1);
            lemma_sorted_from_is_permutation(before, a2, f2);
            let x = lowercase(before[f1[j]]);
            let y = lowercase(before[f2[j]]);
            lemma_stands_before_order(x, f1[j], y, f2[j], x, f1[j]);
            if stands_before(x, f1[j], y, f2[j]) {
                assert(f2.contains(f1[j]));
                let m = choose|m: int| 0 <= m < f2.len() && f2[m] == f1[j];
                if m > j {
                    assert(stands_before(y, f2[j], lowercase(before[f2[m]]), f2[m]));
                } else {
                    assert(f1[m] == f2[m]);
                    assert(f1[m] == f1[j]);
                }
            } else {
                assert(stands_before(y, f2[j], x, f1[j]));
                assert(f1.contains(f2[j]));
                let m = choose|m: int| 0 <= m < f1.len() && f1[m] == f2[j];
                if m > j {
                    assert(stands_before(x, f1[j], lowercase(before[f1[m]]), f1[m]));
                } else {
                    assert(f1[m] == f2[m]);
                    assert(f2[m] == f2[j]);
                }
            }
        }
    }
}

/// A list has one stable sort: two lists that are both the list sorted are
/// the same list.
pub proof fn lemma_stable_sort_unique(
    before: Seq<Seq<char>>,
    a1: Seq<Seq<char>>,
    a2: Seq<Seq<char>>,
)
    requires
        stably_sorted(before, a1),
        stably_sorted(before, a2),
    ensures
        a1 == a2,
{
    let f1 = choose|from: Seq<int>| sorted_from(before, a1, from);
    let f2 = choose|from: Seq<int>| sorted_from(before, a2, from);
    lemma_orders_agree(before, a1, f1, a2, f2, before.len() as int);
    assert forall|i: int| 0 <= i < a1.len() implies a1[i] == a2[i] by {
        assert(f1[i] == f2[i]);
    }
    assert(a1 =~= a2);
}

/// Sorting leaves a sorted list as it is.
pub proof fn lemma_sort_idempotent(
    before: Seq<Seq<char>>,
    once: Seq<Seq<char>>,
    twice: Seq<Seq<char>>,
)
    requires
        stably_sorted(before, once),
        stably_sorted(once, twice),
    ensures
        twice == once,
{
    let f = choose|from: Seq<int>| sorted_from(before, once, from);
    let same = Seq::new(once.len(), |i: int| i);
    assert(sorted_from(once, once, same)) by {
        assert forall|i: int, j: int| 0 <= i < j < same.len() implies stands_before(
            lowercase(once[#[trigger] same[i]]),
            same[i],
            lowercase(once[#[trigger] same[j]]),
            same[j],
        ) by {
            assert(stands_before(
                lowercase(before[f[i]]),
                f[i],
                lowercase(before[f[j]]),
                f[j],
            ));
        }
    }
    lemma_stable_sort_unique(once, once, twice);
}

/// Sorts the entries by their lowercase text, in lexicographic order of code
/// points. The sort is stable: entries with the same lowercase text keep
/// their order. Only case is folded; slashes and tokens are compared as
/// written.
pub fn sort_case_insensitive(parts: &mut [String])
    ensures
        stably_sorted(texts(old(parts)@), texts(final(parts)@)),
        final(parts)@.len() == old(parts)@.len(),
{
    let ghost xs = texts(parts@);
    let n = parts.len();
    let mut keys: Vec<Vec<char>> = Vec::new();
    let mut i: usize = 0;
    while i < n
        invariant
            n == parts.len(),
            xs == texts(parts@),
            i <= n,
            keys@.len() == i,
            forall|j: int| 0 <= j < i ==> (#[trigger] keys@[j])@ == lowercase(xs[j]),
        decreases n - i,
    {
        let v = chars_of(parts[i].as_str());
        keys.push(lower_chars(&v));
        i += 1;
    }
    let mut order: Vec<usize> = Vec::new();
    let mut k: usize = 0;
    while k < n
        invariant
            n == parts.len(),
            xs == texts(parts@),
            k <= n,
            keys@.len() == n,
            forall|j: int| 0 <= j < n ==> (#[trigger] keys@[j])@ == lowercase(xs[j]),
            order@.len() == k,
            forall|a: int| 0 <= a < k ==> #[trigger] order@[a] < k,
            forall|a: int, b: int|
                0 <= a < b < k ==> stands_before(
                    lowercase(xs[#[trigger] order@[a] as int]),
                    order@[a] as int,
                    lowercase(xs[#[trigger] order@[b] as int]),
                    order@[b] as int,
                ),
        decreases n - k,
    {
        let mut pos: usize = k;
        while pos > 0 && less_chars(&keys[k], &keys[order[pos - 1]])
            invariant
                pos <= k < n,
                keys@.len() == n,
                order@.len() == k,
                forall|a: int| 0 <= a < k ==> #[trigger] order@[a] < k,
                forall|j: int| 0 <= j < n ==> (#[trigger] keys@[j])@ == lowercase(xs[j]),
                forall|b: int|
                    pos <= b < k ==> lex_less(
                        lowercase(xs[k as int]),
                        lowercase(xs[#[trigger] order@[b] as int]),
                    ),
            decreases pos,
        {
            pos -= 1;
        }
        let ghost prev = order@;
        order.insert(pos, k);
        proof {
            let kk = lowercase(xs[k as int]);
            assert forall|a: int, b: int| 0 <= a < b < k + 1 implies stands_before(
                lowercase(xs[#[trigger] order@[a] as int]),
                order@[a] as int,
                lowercase(xs[#[trigger] order@[b] as int]),
                order@[b] as int,
            ) by {
                if b < pos {
                    assert(order@[a] == prev[a] && order@[b] == prev[b]);
                } else if b == pos {
                    assert(order@[a] == prev[a]);
                    let ka = lowercase(xs[prev[a] as int]);
                    let kp = lowercase(xs[prev[pos - 1] as int]);
                    lemma_lex_total(kp, kk);
                    if a < pos - 1 {
                        assert(stands_before(ka, prev[a] as int, kp, prev[pos - 1] as int));
                        if lex_less(ka, kp) && lex_less(kp, kk) {
                            lemma_lex_transitive(ka, kp, kk);
                        }
                    }
                } else if a < pos {
                    assert(order@[a] == prev[a] && order@[b] == prev[b - 1]);
                } else if a == pos {
                    assert(order@[b] == prev[b - 1]);
                } else {
                    assert(order@[a] == prev[a - 1] && order@[b] == prev[b - 1]);
                }
            }
            assert forall|a: int| 0 <= a < k + 1 implies #[trigger] order@[a] < k + 1 by {
                if a < pos {
                    assert(order@[a] == prev[a]);
                } else if a > pos {
                    assert(order@[a] == prev[a - 1]);
                }
            }
        }
        k += 1;
    }
    let mut sorted: Vec<String> = Vec::new();
    let mut m: usize = 0;
    while m < n
        invariant
            n == parts.len(),
            xs == texts(parts@),
            m <= n,
            order@.len() == n,
            forall|a: int| 0 <= a < n ==> #[trigger] order@[a] < n,
            sorted@.len() == m,
            forall|a: int| 0 <= a < m ==> (#[trigger] sorted@[a])@ == xs[order@[a] as int],
        decreases n - m,
    {
        sorted.push(parts[order[m]].clone());
        m += 1;
    }
    let mut w: usize = 0;
    while w < n
        invariant
            n == parts.len(),
            w <= n,
            sorted@.len() == n,
            forall|a: int| 0 <= a < w ==> (#[trigger] parts@[a])@ == sorted@[a]@,
        decreases n - w,
    {
        parts[w] = sorted[w].clone();
        w += 1;
    }
    proof {
        let from = Seq::new(n as nat, |a: int| order@[a] as int);
        assert(texts(parts@) =~= texts(sorted@));
        assert(sorted_from(xs, texts(parts@), from));
    }
}

} // verus!
