//! `%NAME%` tokens: finding them, and replacing them by the values of
//! environment variables.
//!
//! A token is a `%`, one or more characters other than `%`, and a `%`. The
//! environment is a value that the caller fills in: a map from variable names
//! to their values.

use crate::text::{chars_of, push_chars, same_chars, string_of, sub_chars, texts};
use vstd::prelude::*;

verus! {

/// The character that opens and closes a token.
pub const PERCENT: char = '%';

/// The variables that tokens are resolved against: each name with the value
/// it was last bound to.
pub struct Environment {
    vars: Vec<(Vec<char>, Vec<char>)>,
}

/// The map that the first `n` bindings make, a later one replacing an earlier
/// one of the same name.
pub open spec fn bindings(vars: Seq<(Vec<char>, Vec<char>)>, n: nat) -> Map<Seq<char>, Seq<char>>
    decreases n,
{
    if n == 0 {
        Map::empty()
    } else {
        bindings(vars, (n - 1) as nat).insert(vars[n - 1].0@, vars[n - 1].1@)
    }
}

/// The first `n` bindings do not depend on what follows them.
proof fn lemma_bindings_prefix(
    a: Seq<(Vec<char>, Vec<char>)>,
    b: Seq<(Vec<char>, Vec<char>)>,
    n: nat,
)
    requires
        n <= a.len(),
        n <= b.len(),
        forall|i: int| 0 <= i < n ==> a[i] == b[i],
    ensures
        bindings(a, n) == bindings(b, n),
    decreases n,
{
    if n > 0 {
        lemma_bindings_prefix(a, b, (n - 1) as nat);
    }
}

impl View for Environment {
    type V = Map<Seq<char>, Seq<char>>;

    closed spec fn view(&self) -> Map<Seq<char>, Seq<char>> {
        bindings(self.vars@, self.vars@.len())
    }
}

impl Environment {
    /// An environment without variables.
    pub fn new() -> (env: Environment)
        ensures
            env@ == Map::<Seq<char>, Seq<char>>::empty(),
    {
        Environment { vars: Vec::new() }
    }

    /// Binds `name` to `value`, in place of what it was bound to.
    pub fn set(&mut self, name: &str, value: &str)
        ensures
            final(self)@ == old(self)@.insert(name@, value@),
    {
        let n = chars_of(name);
        let v = chars_of(value);
        let ghost before = self.vars@;
        self.vars.push((n, v));
        proof {
            lemma_bindings_prefix(before, self.vars@, before.len());
        }
    }

    /// The value that `name` is bound to, if it is bound.
    pub fn get(&self, name: &str) -> (value: Option<String>)
        ensures
            match value {
                Some(v) => self@.contains_key(name@) && self@[name@] == v@,
                None => !self@.contains_key(name@),
            },
    {
        let n = chars_of(name);
        match self.lookup(&n) {
            Some(v) => Some(string_of(&v)),
            None => None,
        }
    }

    /// The value that `name` is bound to, if it is bound.
    pub(crate) fn lookup(&self, name: &Vec<char>) -> (value: Option<Vec<char>>)
        ensures
            match value {
                Some(v) => self@.contains_key(name@) && self@[name@] == v@,
                None => !self@.contains_key(name@),
            },
    {
        let mut k: usize = self.vars.len();
        while k > 0
            invariant
                k <= self.vars.len(),
                self@.contains_key(name@) == bindings(self.vars@, k as nat).contains_key(name@),
                self@.contains_key(name@) ==> self@[name@] == bindings(self.vars@, k as nat)[name@],
            decreases k,
        {
            if same_chars(&self.vars[k - 1].0, name) {
                let v = &self.vars[k - 1].1;
                return Some(sub_chars(v, 0, v.len()));
            }
            k -= 1;
        }
        None
    }
}

/// The position of the first `%` of `s` at or after `from`, or the length of
/// `s` if there is none.
pub open spec fn next_percent(s: Seq<char>, from: int) -> int
    decreases s.len() - from,
{
    if from >= s.len() {
        s.len() as int
    } else if s[from] == PERCENT {
        from
    } else {
        next_percent(s, from + 1)
    }
}

/// Whether a well-formed token opens at `i` and closes at `j`: both hold a
/// `%`, at least one character stands between them, and none of those is a
/// `%`.
pub open spec fn token_at(s: Seq<char>, i: int, j: int) -> bool {
    &&& 0 <= i
    &&& i + 1 < j < s.len()
    &&& s[i] == PERCENT
    &&& s[j] == PERCENT
    &&& forall|k: int| i < k < j ==> s[k] != PERCENT
}

/// Whether `s` holds at least one well-formed token.
pub open spec fn has_token(s: Seq<char>) -> bool {
    exists|i: int, j: int| token_at(s, i, j)
}

/// Whether `s` starts with a well-formed token.
pub open spec fn starts_with_token(s: Seq<char>) -> bool {
    s.len() > 0 && s[0] == PERCENT && 1 < next_percent(s, 1) < s.len()
}

/// The length of the token that `s` starts with, both `%` counted.
pub open spec fn token_len(s: Seq<char>) -> int {
    next_percent(s, 1) + 1
}

/// The name inside the token that `s` starts with.
pub open spec fn token_name(s: Seq<char>) -> Seq<char> {
    s.subrange(1, next_percent(s, 1))
}

/// `s` with its tokens resolved, in one pass from left to right: a
/// well-formed token whose name is bound in `env` is replaced by the value,
/// and everything else is copied. A replaced value is not looked through again.
pub open spec fn expand_spec(s: Seq<char>, env: Map<Seq<char>, Seq<char>>) -> Seq<char>
    decreases s.len(),
{
    if s.len() == 0 {
        Seq::empty()
    } else if starts_with_token(s) {
        let n = token_len(s);
        let head = if env.contains_key(token_name(s)) {
            env[token_name(s)]
        } else {
            s.take(n)
        };
        head + expand_spec(s.skip(n), env)
    } else {
        seq![s[0]] + expand_spec(s.drop_first(), env)
    }
}

/// The names of the tokens that `expand_spec` looks up, in order.
pub open spec fn token_names_spec(s: Seq<char>) -> Seq<Seq<char>>
    decreases s.len(),
{
    if s.len() == 0 {
        Seq::empty()
    } else if starts_with_token(s) {
        seq![token_name(s)] + token_names_spec(s.skip(token_len(s)))
    } else {
        token_names_spec(s.drop_first())
    }
}

/// `next_percent` is the position at which a scan for `%` stops.
pub proof fn lemma_next_percent(s: Seq<char>, from: int, j: int)
    requires
        0 <= from <= j <= s.len(),
        forall|k: int| from <= k < j ==> s[k] != PERCENT,
        j < s.len() ==> s[j] == PERCENT,
    ensures
        next_percent(s, from) == j,
    decreases j - from,
{
    if from < j {
        lemma_next_percent(s, from + 1, j);
    }
}

/// `next_percent` stops at a `%` or at the end, and passes no `%`.
pub proof fn lemma_next_percent_shape(s: Seq<char>, from: int)
    requires
        0 <= from <= s.len(),
    ensures
        from <= next_percent(s, from) <= s.len(),
        next_percent(s, from) < s.len() ==> s[next_percent(s, from)] == PERCENT,
        forall|k: int| from <= k < next_percent(s, from) ==> s[k] != PERCENT,
    decreases s.len() - from,
{
    if from < s.len() && s[from] != PERCENT {
        lemma_next_percent_shape(s, from + 1);
    }
}

/// A text without tokens expands to itself.
pub proof fn lemma_expand_without_token(s: Seq<char>, env: Map<Seq<char>, Seq<char>>)
    requires
        !has_token(s),
    ensures
        expand_spec(s, env) == s,
    decreases s.len(),
{
    if s.len() > 0 {
        if starts_with_token(s) {
            lemma_next_percent_shape(s, 1);
            assert(token_at(s, 0, next_percent(s, 1)));
        }
        let t = s.drop_first();
        assert(!has_token(t)) by {
            if has_token(t) {
                let (i, j) = choose|i: int, j: int| token_at(t, i, j);
                assert(token_at(s, i + 1, j + 1)) by {
                    assert forall|k: int| i + 1 < k < j + 1 implies s[k] != PERCENT by {
                        assert(t[k - 1] == s[k]);
                    }
                }
            }
        }
        lemma_expand_without_token(t, env);
        assert(seq![s[0]] + t =~= s);
    }
}

/// The expansion of a text depends on the environment only through the names
/// of its tokens: two environments that agree on those give the same text.
pub proof fn lemma_expand_reads_token_names(
    s: Seq<char>,
    e1: Map<Seq<char>, Seq<char>>,
    e2: Map<Seq<char>, Seq<char>>,
)
    requires
        forall|i: int|
            0 <= i < token_names_spec(s).len() ==> {
                let name = #[trigger] token_names_spec(s)[i];
                e1.contains_key(name) == e2.contains_key(name) && (e1.contains_key(name)
                    ==> e1[name] == e2[name])
            },
    ensures
        expand_spec(s, e1) == expand_spec(s, e2),
    decreases s.len(),
{
    if s.len() > 0 {
        let names = token_names_spec(s);
        if starts_with_token(s) {
            let t = s.skip(token_len(s));
            let rest = token_names_spec(t);
            assert(names[0] == token_name(s));
            assert forall|i: int| 0 <= i < rest.len() implies {
                let name = #[trigger] rest[i];
                e1.contains_key(name) == e2.contains_key(name) && (e1.contains_key(name)
                    ==> e1[name] == e2[name])
            } by {
                assert(rest[i] == names[i + 1]);
            }
            lemma_expand_reads_token_names(t, e1, e2);
        } else {
            lemma_expand_reads_token_names(s.drop_first(), e1, e2);
        }
    }
}

/// Whether the text holds at least one well-formed `%NAME%` token, with a
/// name of at least one character. Whether the variable is set plays no part.
pub fn has_env_token(value: &str) -> (found: bool)
    ensures
        found == has_token(value@),
{
    let v = chars_of(value);
    let n = v.len();
    let mut i: usize = 0;
    while i < n
        invariant
            n == v.len(),
            v@ == value@,
            i <= n,
            forall|a: int, b: int| 0 <= a < i ==> !token_at(v@, a, b),
        decreases n - i,
    {
        if v[i] == PERCENT {
            let mut j: usize = i + 1;
            while j < n && v[j] != PERCENT
                invariant
                    n == v.len(),
                    i < j <= n,
                    forall|k: int| i < k < j ==> v@[k] != PERCENT,
                decreases n - j,
            {
                j += 1;
            }
            if j < n && j > i + 1 {
                proof {
                    assert(token_at(v@, i as int, j as int));
                    assert(has_token(v@));
                }
                return true;
            }
        }
        i += 1;
    }
    proof {
        assert forall|a: int, b: int| !token_at(v@, a, b) by {}
    }
    false
}

/// The position of the first `%` after position `i`, or the length of `v`.
fn scan_token(v: &Vec<char>, i: usize) -> (j: usize)
    requires
        i < v.len(),
    ensures
        i < j <= v.len(),
        j - i == next_percent(v@.skip(i as int), 1),
{
    let n = v.len();
    let mut j: usize = i + 1;
    while j < n && v[j] != PERCENT
        invariant
            n == v.len(),
            i < j <= n,
            forall|k: int| i < k < j ==> v@[k] != PERCENT,
        decreases n - j,
    {
        j += 1;
    }
    proof {
        let s = v@.skip(i as int);
        assert forall|k: int| 1 <= k < j - i implies s[k] != PERCENT by {
            assert(s[k] == v@[k + i]);
        }
        lemma_next_percent(s, 1, j - i);
    }
    j
}

/// Resolves the `%NAME%` tokens of a text against `env`, in one pass from
/// left to right. A well-formed token whose name is bound is replaced by the
/// value; one whose name is not bound stays as it is, percent signs
/// included; so does a `%` without a partner, and `%%`. A value put in is not
/// expanded again.
pub fn expand_env_vars(input: &str, env: &Environment) -> (output: String)
    ensures
        output@ == expand_spec(input@, env@),
{
    let v = chars_of(input);
    let out = expand_chars(&v, env);
    string_of(&out)
}

/// `expand_env_vars` on characters.
pub(crate) fn expand_chars(v: &Vec<char>, env: &Environment) -> (out: Vec<char>)
    ensures
        out@ == expand_spec(v@, env@),
{
    let n = v.len();
    let mut out: Vec<char> = Vec::new();
    let mut i: usize = 0;
    proof {
        assert(v@.skip(0) =~= v@);
        assert(out@ + expand_spec(v@, env@) =~= expand_spec(v@, env@));
    }
    while i < n
        invariant
            n == v.len(),
            i <= n,
            out@ + expand_spec(v@.skip(i as int), env@) == expand_spec(v@, env@),
        decreases n - i,
    {
        let ghost s = v@.skip(i as int);
        let ghost before = out@;
        if v[i] == PERCENT {
            let j = scan_token(v, i);
            if j < n && j > i + 1 {
                let name = sub_chars(v, i + 1, j);
                proof {
                    assert(starts_with_token(s));
                    assert(token_name(s) =~= name@);
                    assert(s.take(j + 1 - i) =~= v@.subrange(i as int, j + 1));
                    assert(s.skip(j + 1 - i) =~= v@.skip(j + 1));
                }
                match env.lookup(&name) {
                    Some(value) => {
                        push_chars(&mut out, &value);
                    },
                    None => {
                        let token = sub_chars(v, i, j + 1);
                        push_chars(&mut out, &token);
                    },
                }
                proof {
                    let head = if env@.contains_key(token_name(s)) {
                        env@[token_name(s)]
                    } else {
                        s.take(token_len(s))
                    };
                    assert(out@ == before + head);
                    assert(out@ + expand_spec(v@.skip(j + 1), env@) =~= before + expand_spec(
                        s,
                        env@,
                    ));
                }
                i = j + 1;
                continue ;
            }
        }
        out.push(v[i]);
        proof {
            assert(!starts_with_token(s));
            assert(s.drop_first() =~= v@.skip(i + 1));
            assert(out@ + expand_spec(v@.skip(i + 1), env@) =~= before + expand_spec(s, env@));
        }
        i += 1;
    }
    proof {
        assert(expand_spec(v@.skip(n as int), env@) =~= Seq::<char>::empty());
        assert(out@ + Seq::<char>::empty() =~= out@);
    }
    out
}

/// The names of the tokens that `expand_env_vars` looks up in `input`, in
/// order: what an environment has to hold for the text to be expanded.
pub fn token_names(input: &str) -> (names: Vec<String>)
    ensures
        texts(names@) == token_names_spec(input@),
{
    let v = chars_of(input);
    let n = v.len();
    let mut names: Vec<String> = Vec::new();
    let mut i: usize = 0;
    proof {
        assert(v@.skip(0) =~= v@);
        assert(texts(names@) =~= Seq::<Seq<char>>::empty());
        assert(Seq::<Seq<char>>::empty() + token_names_spec(v@) =~= token_names_spec(v@));
    }
    while i < n
        invariant
            n == v.len(),
            i <= n,
            texts(names@) + token_names_spec(v@.skip(i as int)) == token_names_spec(
                v@,
            ),
        decreases n - i,
    {
        let ghost s = v@.skip(i as int);
        let ghost before = texts(names@);
        if v[i] == PERCENT {
            let j = scan_token(&v, i);
            if j < n && j > i + 1 {
                let name = sub_chars(&v, i + 1, j);
                proof {
                    assert(starts_with_token(s));
                    assert(token_name(s) =~= name@);
                    assert(s.skip(j + 1 - i) =~= v@.skip(j + 1));
                }
                names.push(string_of(&name));
                proof {
                    assert(texts(names@) =~= before.push(name@));
                    assert(before.push(name@) + token_names_spec(v@.skip(j + 1)) =~= before
                        + token_names_spec(s));
                }
                i = j + 1;
                continue ;
            }
        }
        proof {
            assert(!starts_with_token(s));
            assert(s.drop_first() =~= v@.skip(i + 1));
        }
        i += 1;
    }
    proof {
        assert(token_names_spec(v@.skip(n as int)) =~= Seq::<Seq<char>>::empty());
        assert(texts(names@) + Seq::<Seq<char>>::empty() =~= texts(
            names@,
        ));
    }
    names
}

} // verus!
