//! The wildcard permission parser.
//!
//! A permission string is split into at most three `:`-separated parts
//! (domain, actions, targets); the action and target parts are split on `,`.
//! Every part is trimmed of surrounding whitespace; an empty domain (or the
//! literal `*`) normalizes to `*`, and an empty or absent part normalizes to
//! the singleton token set `{*}`. Parsing never fails.

use vstd::prelude::*;
use vstd::string::StrSliceExecFns;
use vstd::string::StringExecFns;
use crate::authz::{star, views_of, contains_token, distinct_tokens, PermModel, Permission};
use crate::authz::{tokens_contain, spec_implies, superset_of};

verus! {

/// The characters treated as trimmable whitespace.
pub open spec fn is_space(c: char) -> bool {
    c == ' ' || c == '\t' || c == '\n' || c == '\r'
}

/// Drops leading whitespace.
pub open spec fn trim_start_rec(s: Seq<char>) -> Seq<char>
    decreases s.len(),
{
    if s.len() > 0 && is_space(s[0]) {
        trim_start_rec(s.drop_first())
    } else {
        s
    }
}

/// Drops trailing whitespace.
pub open spec fn trim_end_rec(s: Seq<char>) -> Seq<char>
    decreases s.len(),
{
    if s.len() > 0 && is_space(s.last()) {
        trim_end_rec(s.drop_last())
    } else {
        s
    }
}

/// Drops surrounding whitespace.
pub open spec fn trim_spec(s: Seq<char>) -> Seq<char> {
    trim_end_rec(trim_start_rec(s))
}

/// Splits `s` on the delimiter `d`. Always yields at least one part; `n`
/// delimiters yield `n + 1` parts, each free of `d`.
pub open spec fn split_on(s: Seq<char>, d: char) -> Seq<Seq<char>>
    decreases s.len(),
{
    if s.len() == 0 {
        seq![Seq::<char>::empty()]
    } else if s[0] == d {
        seq![Seq::<char>::empty()] + split_on(s.drop_first(), d)
    } else {
        let rest = split_on(s.drop_first(), d);
        seq![seq![s[0]] + rest[0]] + rest.drop_first()
    }
}

/// Collapses duplicate tokens, keeping the first occurrence of each.
pub open spec fn dedup_tokens(toks: Seq<Seq<char>>) -> Seq<Seq<char>>
    decreases toks.len(),
{
    if toks.len() == 0 {
        Seq::empty()
    } else {
        let rest = dedup_tokens(toks.drop_last());
        if contains_token(rest, toks.last()) {
            rest
        } else {
            rest.push(toks.last())
        }
    }
}

/// Normalizes a trimmed domain part: empty or `*` becomes `*`.
pub open spec fn norm_domain(t: Seq<char>) -> Seq<char> {
    if t.len() == 0 || t == star() {
        star()
    } else {
        t
    }
}

/// Normalizes a trimmed actions or targets part: empty becomes `{*}`,
/// otherwise the part is split on `,`, each token trimmed, and duplicates
/// collapsed.
pub open spec fn norm_part(part: Seq<char>) -> Seq<Seq<char>> {
    if part.len() == 0 {
        seq![star()]
    } else {
        dedup_tokens(split_on(part, ',').map_values(|t: Seq<char>| trim_spec(t)))
    }
}

/// What parsing a wildcard permission string yields: the first three
/// `:`-separated parts are trimmed and normalized; any further parts are
/// ignored.
pub open spec fn parse_spec(s: Seq<char>) -> PermModel {
    let parts = split_on(s, ':').map_values(|t: Seq<char>| trim_spec(t));
    PermModel {
        domain: norm_domain(parts[0]),
        actions: if parts.len() >= 2 {
            norm_part(parts[1])
        } else {
            seq![star()]
        },
        targets: if parts.len() >= 3 {
            norm_part(parts[2])
        } else {
            seq![star()]
        },
    }
}

/// A split where no delimiter occurs is the whole input as one part.
proof fn lemma_split_all_clear(s: Seq<char>, d: char)
    requires
        forall|k: int| 0 <= k < s.len() ==> s[k] != d,
    ensures
        split_on(s, d) == seq![s],
    decreases s.len(),
{
    if s.len() == 0 {
        assert(s =~= Seq::<char>::empty());
    } else {
        lemma_split_all_clear(s.drop_first(), d);
        let rest = split_on(s.drop_first(), d);
        assert(seq![s[0]] + rest[0] =~= s);
        assert(split_on(s, d) =~~= seq![s]);
    }
}

/// Splitting at the first delimiter peels off the prefix as one part.
proof fn lemma_split_at_first(s: Seq<char>, d: char, i: int)
    requires
        0 <= i < s.len(),
        s[i] == d,
        forall|k: int| 0 <= k < i ==> s[k] != d,
    ensures
        split_on(s, d) == seq![s.take(i)] + split_on(s.skip(i + 1), d),
    decreases i,
{
    if i == 0 {
        assert(s.take(0) =~= Seq::<char>::empty());
        assert(s.drop_first() =~= s.skip(1));
        assert(split_on(s, d) =~~= seq![s.take(0)] + split_on(s.skip(1), d));
    } else {
        let tail = s.drop_first();
        lemma_split_at_first(tail, d, i - 1);
        let rest = split_on(tail, d);
        assert(tail.skip(i) =~= s.skip(i + 1));
        assert(rest == seq![tail.take(i - 1)] + split_on(s.skip(i + 1), d));
        assert(seq![s[0]] + rest[0] =~= s.take(i));
        assert(rest.drop_first() =~~= split_on(s.skip(i + 1), d));
        assert(split_on(s, d) =~~= seq![s.take(i)] + split_on(s.skip(i + 1), d));
    }
}

/// Collapsing duplicates leaves no duplicates.
proof fn lemma_dedup_distinct(toks: Seq<Seq<char>>)
    ensures
        distinct_tokens(dedup_tokens(toks)),
    decreases toks.len(),
{
    if toks.len() == 0 {
    } else {
        lemma_dedup_distinct(toks.drop_last());
        let rest = dedup_tokens(toks.drop_last());
        if !contains_token(rest, toks.last()) {
            let r2 = rest.push(toks.last());
            assert forall|i: int, j: int| 0 <= i < j < r2.len() implies r2[i] != r2[j] by {
                if j == r2.len() - 1 {
                    if r2[i] == r2[j] {
                        assert(0 <= i < rest.len() && rest[i] == toks.last());
                    }
                }
            }
        }
    }
}

/// Collapsing duplicates of a non-empty token list keeps at least one token.
proof fn lemma_dedup_nonempty(toks: Seq<Seq<char>>)
    requires
        toks.len() > 0,
    ensures
        dedup_tokens(toks).len() > 0,
    decreases toks.len(),
{
    if toks.len() > 1 {
        lemma_dedup_nonempty(toks.drop_last());
    }
}

/// Normalization invariant: every parse yields a non-empty domain and
/// non-empty, duplicate-free action and target token sets.
pub proof fn lemma_parse_wf(s: Seq<char>)
    ensures
        parse_spec(s).wf(),
{
    let parts = split_on(s, ':').map_values(|t: Seq<char>| trim_spec(t));
    lemma_norm_part_wf(parts[0]);
    if parts.len() >= 2 {
        lemma_norm_part_wf(parts[1]);
    }
    if parts.len() >= 3 {
        lemma_norm_part_wf(parts[2]);
    }
}

/// A normalized part is non-empty and duplicate-free.
proof fn lemma_norm_part_wf(part: Seq<char>)
    ensures
        norm_part(part).len() > 0,
        distinct_tokens(norm_part(part)),
{
    if part.len() == 0 {
    } else {
        let toks = split_on(part, ',').map_values(|t: Seq<char>| trim_spec(t));
        lemma_dedup_nonempty(toks);
        lemma_dedup_distinct(toks);
    }
}

/// The fully-wildcard permission `parse("")` authorizes every permission,
/// while it is authorized by `p` exactly when every checked dimension of
/// `p` is itself wildcarded: the domain is `*` and both token sets contain
/// `*`.
pub proof fn lemma_full_wildcard(p: PermModel)
    ensures
        spec_implies(parse_spec(Seq::<char>::empty()), p),
        spec_implies(p, parse_spec(Seq::<char>::empty())) <==> (p.domain == star()
            && contains_token(p.actions, star()) && contains_token(p.targets, star())),
{
    let w = parse_spec(Seq::<char>::empty());
    let parts = split_on(Seq::<char>::empty(), ':').map_values(|t: Seq<char>| trim_spec(t));
    assert(split_on(Seq::<char>::empty(), ':') =~~= seq![Seq::<char>::empty()]);
    assert(parts.len() == 1);
    assert(parts[0] == trim_spec(Seq::<char>::empty()));
    assert(w.domain == star());
    assert(w.actions == seq![star()]);
    assert(w.targets == seq![star()]);
    assert(contains_token(seq![star()], star())) by {
        assert(seq![star()][0] == star());
    }
    assert(superset_of(p.actions, seq![star()]) <==> contains_token(p.actions, star())) by {
        lemma_superset_of_singleton(p.actions, star());
    }
    assert(superset_of(p.targets, seq![star()]) <==> contains_token(p.targets, star())) by {
        lemma_superset_of_singleton(p.targets, star());
    }
}

/// Being a superset of a singleton is exactly containing its one token.
proof fn lemma_superset_of_singleton(a: Seq<Seq<char>>, t: Seq<char>)
    ensures
        superset_of(a, seq![t]) <==> contains_token(a, t),
{
    if superset_of(a, seq![t]) {
        assert(contains_token(a, seq![t][0]));
    }
    if contains_token(a, t) {
        assert forall|i: int| 0 <= i < seq![t].len() implies contains_token(
            a,
            #[trigger] seq![t][i],
        ) by {
            assert(seq![t][i] == t);
        }
    }
}

/// Whether the character is trimmable whitespace.
pub fn is_space_char(c: char) -> (r: bool)
    ensures
        r == is_space(c),
{
    c == ' ' || c == '\t' || c == '\n' || c == '\r'
}

/// Trims surrounding whitespace from a string.
pub fn trim_str(s: &str) -> (t: String)
    ensures
        t@ == trim_spec(s@),
{
    let n = s.unicode_len();
    let mut a: usize = 0;
    proof {
        assert(s@.skip(0) =~= s@);
    }
    while a < n && is_space_char(s.get_char(a))
        invariant
            a <= n,
            n == s@.len(),
            trim_start_rec(s@) == trim_start_rec(s@.skip(a as int)),
        decreases n - a,
    {
        proof {
            assert(s@.skip(a as int)[0] == s@[a as int]);
            assert(s@.skip(a as int).drop_first() =~= s@.skip(a as int + 1));
        }
        a += 1;
    }
    proof {
        if a < n {
            assert(s@.skip(a as int)[0] == s@[a as int]);
        }
        assert(trim_start_rec(s@.skip(a as int)) == s@.skip(a as int));
    }
    let mut b: usize = n;
    while b > a && is_space_char(s.get_char(b - 1))
        invariant
            a <= b <= n,
            n == s@.len(),
            trim_start_rec(s@) == s@.skip(a as int),
            trim_end_rec(s@.skip(a as int)) == trim_end_rec(s@.subrange(a as int, b as int)),
        decreases b,
    {
        proof {
            let cur = s@.subrange(a as int, b as int);
            assert(cur.last() == s@[b - 1]);
            assert(cur.drop_last() =~= s@.subrange(a as int, b as int - 1));
        }
        b -= 1;
    }
    proof {
        let cur = s@.subrange(a as int, b as int);
        if b > a {
            assert(cur.last() == s@[b - 1]);
        }
        assert(trim_end_rec(cur) == cur);
        assert(s@.skip(a as int) =~= s@.subrange(a as int, n as int));
    }
    let r = s.substring_char(a, b);
    String::from_str(r)
}

/// Splits a string on the delimiter character, keeping every part verbatim.
pub fn split_str(s: &str, d: char) -> (parts: Vec<String>)
    ensures
        views_of(parts@) == split_on(s@, d),
{
    let n = s.unicode_len();
    let mut parts: Vec<String> = Vec::new();
    let mut start: usize = 0;
    let mut i: usize = 0;
    proof {
        assert(s@.skip(0) =~= s@);
        assert(views_of(parts@) =~~= Seq::<Seq<char>>::empty());
        assert(views_of(parts@) + split_on(s@, d) =~~= split_on(s@, d));
    }
    while i < n
        invariant
            start <= i <= n,
            n == s@.len(),
            split_on(s@, d) == views_of(parts@) + split_on(s@.skip(start as int), d),
            forall|k: int| start <= k < i ==> s@[k] != d,
        decreases n - i,
    {
        if s.get_char(i) == d {
            let tok = String::from_str(s.substring_char(start, i));
            proof {
                let suf = s@.skip(start as int);
                lemma_split_at_first(suf, d, i - start);
                assert(suf.take(i - start) =~= s@.subrange(start as int, i as int));
                assert(suf.skip(i - start + 1) =~= s@.skip(i + 1));
                assert(views_of(parts@.push(tok)) =~~= views_of(parts@).push(tok@));
                assert(views_of(parts@) + split_on(suf, d) =~~= views_of(parts@.push(tok))
                    + split_on(s@.skip(i + 1), d));
            }
            parts.push(tok);
            start = i + 1;
        }
        i += 1;
    }
    let tok = String::from_str(s.substring_char(start, n));
    proof {
        let suf = s@.skip(start as int);
        lemma_split_all_clear(suf, d);
        assert(suf =~= s@.subrange(start as int, n as int));
        assert(views_of(parts@.push(tok)) =~~= views_of(parts@).push(tok@));
        assert(views_of(parts@) + split_on(suf, d) =~~= views_of(parts@.push(tok)));
    }
    parts.push(tok);
    proof {
        assert(views_of(parts@) =~~= split_on(s@, d));
    }
    parts
}

/// A one-element vector holding the wildcard token.
fn star_vec() -> (r: Vec<String>)
    ensures
        views_of(r@) == seq![star()],
{
    let mut v: Vec<String> = Vec::new();
    v.push(String::from_str("*"));
    proof {
        reveal_strlit("*");
        assert("*"@ =~= star());
        assert(views_of(v@) =~~= seq![star()]);
    }
    v
}

impl Permission {
    /// Normalizes one already-trimmed actions or targets part: an absent or
    /// empty part becomes `{*}`; otherwise the part is split on `,`, each
    /// token trimmed, and duplicates collapsed.
    pub fn part_from_str(s: Option<&str>) -> (r: Vec<String>)
        ensures
            views_of(r@) == norm_part(
                match s {
                    Some(p) => p@,
                    None => Seq::<char>::empty(),
                },
            ),
    {
        match s {
            None => star_vec(),
            Some(p) => {
                if p.is_empty() {
                    star_vec()
                } else {
                    let toks = split_str(p, ',');
                    let ghost tv = split_on(p@, ',').map_values(|t: Seq<char>| trim_spec(t));
                    let mut out: Vec<String> = Vec::new();
                    let mut k: usize = 0;
                    while k < toks.len()
                        invariant
                            k <= toks@.len(),
                            views_of(toks@) == split_on(p@, ','),
                            tv == split_on(p@, ',').map_values(|t: Seq<char>| trim_spec(t)),
                            views_of(out@) == dedup_tokens(tv.take(k as int)),
                        decreases toks@.len() - k,
                    {
                        let t = trim_str(toks[k].as_str());
                        proof {
                            assert(t@ == tv[k as int]);
                            assert(tv.take(k as int + 1).drop_last() =~~= tv.take(k as int));
                            assert(tv.take(k as int + 1).last() == tv[k as int]);
                        }
                        if !tokens_contain(&out, t.as_str()) {
                            proof {
                                assert(views_of(out@.push(t)) =~~= views_of(out@).push(t@));
                            }
                            out.push(t);
                        }
                        k += 1;
                    }
                    proof {
                        assert(tv.take(toks@.len() as int) =~~= tv);
                    }
                    out
                }
            },
        }
    }

    /// Splits a wildcard permission string into its normalized domain,
    /// actions and targets.
    fn init_parts(wildcard_perm: &str) -> (r: (String, Vec<String>, Vec<String>))
        ensures
            r.0@ == parse_spec(wildcard_perm@).domain,
            views_of(r.1@) == parse_spec(wildcard_perm@).actions,
            views_of(r.2@) == parse_spec(wildcard_perm@).targets,
    {
        let parts = split_str(wildcard_perm, ':');
        let ghost tv = split_on(wildcard_perm@, ':').map_values(|t: Seq<char>| trim_spec(t));
        let d0 = trim_str(parts[0].as_str());
        let domain = if d0.as_str().is_empty() || crate::authz::is_star(d0.as_str()) {
            proof {
                reveal_strlit("*");
                assert("*"@ =~= star());
            }
            String::from_str("*")
        } else {
            d0
        };
        let actions = if parts.len() >= 2 {
            let p1 = trim_str(parts[1].as_str());
            Permission::part_from_str(Some(p1.as_str()))
        } else {
            Permission::part_from_str(None)
        };
        let targets = if parts.len() >= 3 {
            let p2 = trim_str(parts[2].as_str());
            Permission::part_from_str(Some(p2.as_str()))
        } else {
            Permission::part_from_str(None)
        };
        (domain, actions, targets)
    }

    /// Parses a wildcard permission string. Never fails: every string,
    /// including the empty one, normalizes to a well-formed permission.
    pub fn new(wildcard_perm: &str) -> (perm: Permission)
        ensures
            perm@ == parse_spec(wildcard_perm@),
            perm@.wf(),
    {
        let (domain, actions, targets) = Permission::init_parts(wildcard_perm);
        let perm = Permission { domain, actions, targets };
        proof {
            lemma_parse_wf(wildcard_perm@);
            assert(perm@ =~~= parse_spec(wildcard_perm@));
        }
        perm
    }
}

} // verus!
