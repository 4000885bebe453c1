//! The serialization adapter.
//!
//! Permissions travel as a canonical structured text: a list of records,
//! each with a `domain` string field and `actions` / `targets` list-of-string
//! fields, e.g. `[{"domain":"d1","actions":["a1","a2"],"targets":["*"]}]`.
//! Inside a string, `"` and `\` are escaped with a backslash; every other
//! character stands for itself. `encode` emits this form; `decode` accepts
//! it and fails with [`MalformedInput`] on any payload that does not parse,
//! in particular one missing a field or with a field of the wrong shape.
//!
//! The encoder and decoder are each stated as a spec function; the proved
//! round-trip law says that decoding an encoding yields the original
//! sequence of permissions, field for field.

use vstd::prelude::*;
use vstd::string::StrSliceExecFns;
use vstd::string::StringExecFns;
use crate::authz::{views_of, models_of, PermModel, Permission};

verus! {

/// The decoding error: the payload is not a well-formed permission encoding.
#[derive(Debug, PartialEq, Eq)]
pub struct MalformedInput;

// ---------------------------------------------------------------------------
// The encoding, as spec functions.
// ---------------------------------------------------------------------------

/// How one character is written inside a quoted string.
pub open spec fn esc_char(c: char) -> Seq<char> {
    if c == '"' || c == '\\' {
        seq!['\\', c]
    } else {
        seq![c]
    }
}

/// How a token is written inside a quoted string: each character escaped.
pub open spec fn esc(t: Seq<char>) -> Seq<char>
    decreases t.len(),
{
    if t.len() == 0 {
        Seq::<char>::empty()
    } else {
        esc_char(t[0]) + esc(t.drop_first())
    }
}

/// A quoted token.
pub open spec fn enc_token(t: Seq<char>) -> Seq<char> {
    seq!['"'] + esc(t) + seq!['"']
}

/// The second and later tokens of a list, each preceded by a comma.
pub open spec fn enc_more_tokens(ts: Seq<Seq<char>>) -> Seq<char>
    decreases ts.len(),
{
    if ts.len() == 0 {
        Seq::<char>::empty()
    } else {
        seq![','] + enc_token(ts[0]) + enc_more_tokens(ts.drop_first())
    }
}

/// The body of a token list, after the opening bracket.
pub open spec fn enc_token_list_body(ts: Seq<Seq<char>>) -> Seq<char> {
    if ts.len() == 0 {
        seq![']']
    } else {
        enc_token(ts[0]) + enc_more_tokens(ts.drop_first()) + seq![']']
    }
}

/// A bracketed token list.
pub open spec fn enc_token_list(ts: Seq<Seq<char>>) -> Seq<char> {
    seq!['['] + enc_token_list_body(ts)
}

/// The `domain` field key, with its leading quote and trailing colon.
pub open spec fn key_domain() -> Seq<char> {
    seq!['"', 'd', 'o', 'm', 'a', 'i', 'n', '"', ':']
}

/// The `actions` field key, with the comma that separates it from `domain`.
pub open spec fn key_actions() -> Seq<char> {
    seq![',', '"', 'a', 'c', 't', 'i', 'o', 'n', 's', '"', ':']
}

/// The `targets` field key, with the comma that separates it from `actions`.
pub open spec fn key_targets() -> Seq<char> {
    seq![',', '"', 't', 'a', 'r', 'g', 'e', 't', 's', '"', ':']
}

/// The body of one record, after the opening brace.
pub open spec fn enc_record_body(p: PermModel) -> Seq<char> {
    key_domain() + enc_token(p.domain) + key_actions() + enc_token_list(p.actions)
        + key_targets() + enc_token_list(p.targets) + seq!['}']
}

/// One record.
pub open spec fn enc_record(p: PermModel) -> Seq<char> {
    seq!['{'] + enc_record_body(p)
}

/// The second and later records, each preceded by a comma.
pub open spec fn enc_more_records(ps: Seq<PermModel>) -> Seq<char>
    decreases ps.len(),
{
    if ps.len() == 0 {
        Seq::<char>::empty()
    } else {
        seq![','] + enc_record(ps[0]) + enc_more_records(ps.drop_first())
    }
}

/// The whole payload: a bracketed list of records.
pub open spec fn enc_perms(ps: Seq<PermModel>) -> Seq<char> {
    if ps.len() == 0 {
        seq!['[', ']']
    } else {
        seq!['['] + enc_record(ps[0]) + enc_more_records(ps.drop_first()) + seq![']']
    }
}

// ---------------------------------------------------------------------------
// The decoder, as spec functions. Each takes the text from the cursor on and
// yields the decoded value and the remaining text, or nothing on a payload
// that does not parse.
// ---------------------------------------------------------------------------

/// Decodes a quoted token from just after its opening quote.
pub open spec fn dec_token(u: Seq<char>) -> Option<(Seq<char>, Seq<char>)>
    decreases u.len(),
{
    if u.len() == 0 {
        None
    } else if u[0] == '"' {
        Some((Seq::<char>::empty(), u.drop_first()))
    } else if u[0] == '\\' {
        if u.len() >= 2 {
            match dec_token(u.skip(2)) {
                Some(tr) => Some((seq![u[1]] + tr.0, tr.1)),
                None => None,
            }
        } else {
            None
        }
    } else {
        match dec_token(u.drop_first()) {
            Some(tr) => Some((seq![u[0]] + tr.0, tr.1)),
            None => None,
        }
    }
}

/// A decoded token leaves a strictly shorter remainder.
proof fn lemma_dec_token_shrinks(u: Seq<char>)
    ensures
        dec_token(u) matches Some(tr) ==> tr.1.len() < u.len(),
    decreases u.len(),
{
    if u.len() == 0 {
    } else if u[0] == '"' {
    } else if u[0] == '\\' {
        if u.len() >= 2 {
            lemma_dec_token_shrinks(u.skip(2));
        }
    } else {
        lemma_dec_token_shrinks(u.drop_first());
    }
}

/// Decodes the rest of a token list, from just after a complete token:
/// either the closing bracket, or a comma and a further quoted token.
pub open spec fn dec_more_tokens(u: Seq<char>) -> Option<(Seq<Seq<char>>, Seq<char>)>
    decreases u.len(),
    via dec_more_tokens_dec
{
    if u.len() == 0 {
        None
    } else if u[0] == ']' {
        Some((Seq::<Seq<char>>::empty(), u.drop_first()))
    } else if u[0] == ',' && u.len() >= 2 && u[1] == '"' {
        match dec_token(u.skip(2)) {
            Some(tr) => match dec_more_tokens(tr.1) {
                Some(mr) => Some((seq![tr.0] + mr.0, mr.1)),
                None => None,
            },
            None => None,
        }
    } else {
        None
    }
}

#[via_fn]
proof fn dec_more_tokens_dec(u: Seq<char>) {
    if u.len() >= 2 && u[0] == ',' && u[1] == '"' {
        lemma_dec_token_shrinks(u.skip(2));
    }
}

/// A decoded token-list tail leaves a strictly shorter remainder.
proof fn lemma_dec_more_tokens_shrinks(u: Seq<char>)
    ensures
        dec_more_tokens(u) matches Some(mr) ==> mr.1.len() < u.len(),
    decreases u.len(),
{
    if u.len() >= 2 && u[0] == ',' && u[1] == '"' {
        lemma_dec_token_shrinks(u.skip(2));
        match dec_token(u.skip(2)) {
            Some(tr) => lemma_dec_more_tokens_shrinks(tr.1),
            None => (),
        }
    }
}

/// Decodes a token list from just after its opening bracket.
pub open spec fn dec_token_list(u: Seq<char>) -> Option<(Seq<Seq<char>>, Seq<char>)> {
    if u.len() == 0 {
        None
    } else if u[0] == ']' {
        Some((Seq::<Seq<char>>::empty(), u.drop_first()))
    } else if u[0] == '"' {
        match dec_token(u.drop_first()) {
            Some(tr) => match dec_more_tokens(tr.1) {
                Some(mr) => Some((seq![tr.0] + mr.0, mr.1)),
                None => None,
            },
            None => None,
        }
    } else {
        None
    }
}

/// A decoded token list leaves a strictly shorter remainder.
proof fn lemma_dec_token_list_shrinks(u: Seq<char>)
    ensures
        dec_token_list(u) matches Some(lr) ==> lr.1.len() < u.len(),
{
    if u.len() >= 1 && u[0] == '"' {
        lemma_dec_token_shrinks(u.drop_first());
        match dec_token(u.drop_first()) {
            Some(tr) => lemma_dec_more_tokens_shrinks(tr.1),
            None => (),
        }
    }
}

/// Whether `u` begins with the characters of `p`.
pub open spec fn starts_with(u: Seq<char>, p: Seq<char>) -> bool {
    u.len() >= p.len() && u.take(p.len() as int) == p
}

/// Decodes one record from just after its opening brace: the three fixed
/// keys with a quoted domain, a bracketed action list and a bracketed
/// target list, then the closing brace.
pub open spec fn dec_record(u: Seq<char>) -> Option<(PermModel, Seq<char>)> {
    if starts_with(u, key_domain()) {
        let u1 = u.skip(key_domain().len() as int);
        if u1.len() >= 1 && u1[0] == '"' {
            match dec_token(u1.drop_first()) {
                Some(tr) => {
                    let u2 = tr.1;
                    if starts_with(u2, key_actions()) {
                        let u3 = u2.skip(key_actions().len() as int);
                        if u3.len() >= 1 && u3[0] == '[' {
                            match dec_token_list(u3.drop_first()) {
                                Some(ar) => {
                                    let u4 = ar.1;
                                    if starts_with(u4, key_targets()) {
                                        let u5 = u4.skip(key_targets().len() as int);
                                        if u5.len() >= 1 && u5[0] == '[' {
                                            match dec_token_list(u5.drop_first()) {
                                                Some(gr) => {
                                                    let u6 = gr.1;
                                                    if u6.len() >= 1 && u6[0] == '}' {
                                                        Some(
                                                            (
                                                                PermModel {
                                                                    domain: tr.0,
                                                                    actions: ar.0,
                                                                    targets: gr.0,
                                                                },
                                                                u6.drop_first(),
                                                            ),
                                                        )
                                                    } else {
                                                        None
                                                    }
                                                },
                                                None => None,
                                            }
                                        } else {
                                            None
                                        }
                                    } else {
                                        None
                                    }
                                },
                                None => None,
                            }
                        } else {
                            None
                        }
                    } else {
                        None
                    }
                },
                None => None,
            }
        } else {
            None
        }
    } else {
        None
    }
}

/// A decoded record leaves a strictly shorter remainder.
proof fn lemma_dec_record_shrinks(u: Seq<char>)
    ensures
        dec_record(u) matches Some(pr) ==> pr.1.len() < u.len(),
{
    if starts_with(u, key_domain()) {
        let u1 = u.skip(key_domain().len() as int);
        if u1.len() >= 1 && u1[0] == '"' {
            lemma_dec_token_shrinks(u1.drop_first());
            match dec_token(u1.drop_first()) {
                Some(tr) => {
                    let u2 = tr.1;
                    if starts_with(u2, key_actions()) {
                        let u3 = u2.skip(key_actions().len() as int);
                        if u3.len() >= 1 && u3[0] == '[' {
                            lemma_dec_token_list_shrinks(u3.drop_first());
                            match dec_token_list(u3.drop_first()) {
                                Some(ar) => {
                                    let u4 = ar.1;
                                    if starts_with(u4, key_targets()) {
                                        let u5 = u4.skip(key_targets().len() as int);
                                        if u5.len() >= 1 && u5[0] == '[' {
                                            lemma_dec_token_list_shrinks(u5.drop_first());
                                        }
                                    }
                                },
                                None => (),
                            }
                        }
                    }
                },
                None => (),
            }
        }
    }
}

/// Decodes the rest of the record list, from just after a complete record.
pub open spec fn dec_more_records(u: Seq<char>) -> Option<(Seq<PermModel>, Seq<char>)>
    decreases u.len(),
    via dec_more_records_dec
{
    if u.len() == 0 {
        None
    } else if u[0] == ']' {
        Some((Seq::<PermModel>::empty(), u.drop_first()))
    } else if u[0] == ',' && u.len() >= 2 && u[1] == '{' {
        match dec_record(u.skip(2)) {
            Some(pr) => match dec_more_records(pr.1) {
                Some(mr) => Some((seq![pr.0] + mr.0, mr.1)),
                None => None,
            },
            None => None,
        }
    } else {
        None
    }
}

#[via_fn]
proof fn dec_more_records_dec(u: Seq<char>) {
    if u.len() >= 2 && u[0] == ',' && u[1] == '{' {
        lemma_dec_record_shrinks(u.skip(2));
    }
}

/// Decodes a whole payload: a bracketed record list and nothing after it.
pub open spec fn dec_perms(u: Seq<char>) -> Option<Seq<PermModel>> {
    if u.len() >= 1 && u[0] == '[' {
        let u1 = u.drop_first();
        if u1.len() >= 1 && u1[0] == ']' {
            if u1.len() == 1 {
                Some(Seq::<PermModel>::empty())
            } else {
                None
            }
        } else if u1.len() >= 1 && u1[0] == '{' {
            match dec_record(u1.drop_first()) {
                Some(pr) => match dec_more_records(pr.1) {
                    Some(mr) => if mr.1.len() == 0 {
                        Some(seq![pr.0] + mr.0)
                    } else {
                        None
                    },
                    None => None,
                },
                None => None,
            }
        } else {
            None
        }
    } else {
        None
    }
}

// ---------------------------------------------------------------------------
// The round trip: decoding an encoding yields the original.
// ---------------------------------------------------------------------------

/// Decoding a quoted token from its encoding yields the token and the rest.
proof fn lemma_rt_token(t: Seq<char>, rest: Seq<char>)
    ensures
        dec_token(esc(t) + seq!['"'] + rest) == Some((t, rest)),
    decreases t.len(),
{
    let u = esc(t) + seq!['"'] + rest;
    if t.len() == 0 {
        assert(u.drop_first() =~= rest);
    } else if t[0] == '"' || t[0] == '\\' {
        assert(u[0] == '\\' && u[1] == t[0]);
        assert(u.skip(2) =~= esc(t.drop_first()) + seq!['"'] + rest);
        lemma_rt_token(t.drop_first(), rest);
        assert(seq![u[1]] + t.drop_first() =~= t);
    } else {
        assert(u[0] == t[0]);
        assert(u.drop_first() =~= esc(t.drop_first()) + seq!['"'] + rest);
        lemma_rt_token(t.drop_first(), rest);
        assert(seq![u[0]] + t.drop_first() =~= t);
    }
}

/// Decoding a token-list tail from its encoding yields the tokens and the
/// rest.
proof fn lemma_rt_more_tokens(ts: Seq<Seq<char>>, rest: Seq<char>)
    ensures
        dec_more_tokens(enc_more_tokens(ts) + seq![']'] + rest) == Some((ts, rest)),
    decreases ts.len(),
{
    let u = enc_more_tokens(ts) + seq![']'] + rest;
    if ts.len() == 0 {
        assert(u[0] == ']');
        assert(u.drop_first() =~= rest);
        assert(ts =~~= Seq::<Seq<char>>::empty());
    } else {
        assert(u[0] == ',' && u[1] == '"');
        assert(u.skip(2) =~= esc(ts[0]) + seq!['"'] + (enc_more_tokens(ts.drop_first())
            + seq![']'] + rest));
        lemma_rt_token(ts[0], enc_more_tokens(ts.drop_first()) + seq![']'] + rest);
        lemma_rt_more_tokens(ts.drop_first(), rest);
        assert(seq![ts[0]] + ts.drop_first() =~~= ts);
    }
}

/// Decoding a token list from its encoded body yields the tokens and the
/// rest.
proof fn lemma_rt_token_list(ts: Seq<Seq<char>>, rest: Seq<char>)
    ensures
        dec_token_list(enc_token_list_body(ts) + rest) == Some((ts, rest)),
{
    let u = enc_token_list_body(ts) + rest;
    if ts.len() == 0 {
        assert(u[0] == ']');
        assert(u.drop_first() =~= rest);
        assert(ts =~~= Seq::<Seq<char>>::empty());
    } else {
        assert(u[0] == '"');
        assert(u.drop_first() =~= esc(ts[0]) + seq!['"'] + (enc_more_tokens(ts.drop_first())
            + seq![']'] + rest));
        lemma_rt_token(ts[0], enc_more_tokens(ts.drop_first()) + seq![']'] + rest);
        lemma_rt_more_tokens(ts.drop_first(), rest);
        assert(seq![ts[0]] + ts.drop_first() =~~= ts);
    }
}

/// Decoding a record from its encoded body yields the permission model and
/// the rest.
#[verifier::rlimit(100)]
proof fn lemma_rt_record(p: PermModel, rest: Seq<char>)
    ensures
        dec_record(enc_record_body(p) + rest) == Some((p, rest)),
{
    let u = enc_record_body(p) + rest;
    let after_dom = key_actions() + enc_token_list(p.actions) + key_targets()
        + enc_token_list(p.targets) + seq!['}'] + rest;
    assert(u.take(key_domain().len() as int) =~= key_domain());
    let u1 = u.skip(key_domain().len() as int);
    assert(u1 =~= enc_token(p.domain) + after_dom);
    assert(u1[0] == '"');
    assert(u1.drop_first() =~= esc(p.domain) + seq!['"'] + after_dom);
    lemma_rt_token(p.domain, after_dom);
    let u2 = after_dom;
    assert(u2.take(key_actions().len() as int) =~= key_actions());
    let after_acts = key_targets() + enc_token_list(p.targets) + seq!['}'] + rest;
    let u3 = u2.skip(key_actions().len() as int);
    assert(u3 =~= enc_token_list(p.actions) + after_acts);
    assert(u3[0] == '[');
    assert(u3.drop_first() =~= enc_token_list_body(p.actions) + after_acts);
    lemma_rt_token_list(p.actions, after_acts);
    let u4 = after_acts;
    assert(u4.take(key_targets().len() as int) =~= key_targets());
    let after_tgts = seq!['}'] + rest;
    let u5 = u4.skip(key_targets().len() as int);
    assert(u5 =~= enc_token_list(p.targets) + after_tgts);
    assert(u5[0] == '[');
    assert(u5.drop_first() =~= enc_token_list_body(p.targets) + after_tgts);
    lemma_rt_token_list(p.targets, after_tgts);
    let u6 = after_tgts;
    assert(u6[0] == '}');
    assert(u6.drop_first() =~= rest);
}

/// Decoding a record-list tail from its encoding yields the models and the
/// rest.
#[verifier::rlimit(100)]
proof fn lemma_rt_more_records(ps: Seq<PermModel>, rest: Seq<char>)
    ensures
        dec_more_records(enc_more_records(ps) + seq![']'] + rest) == Some((ps, rest)),
    decreases ps.len(),
{
    let u = enc_more_records(ps) + seq![']'] + rest;
    if ps.len() == 0 {
        assert(u[0] == ']');
        assert(u.drop_first() =~= rest);
        assert(ps =~= Seq::<PermModel>::empty());
    } else {
        assert(u[0] == ',' && u[1] == '{');
        assert(u.skip(2) =~= enc_record_body(ps[0]) + (enc_more_records(ps.drop_first())
            + seq![']'] + rest));
        lemma_rt_record(ps[0], enc_more_records(ps.drop_first()) + seq![']'] + rest);
        lemma_rt_more_records(ps.drop_first(), rest);
        assert(seq![ps[0]] + ps.drop_first() =~= ps);
    }
}

/// The round-trip law: decoding an encoded sequence of permission models
/// yields exactly that sequence, whatever the models hold.
#[verifier::rlimit(100)]
pub proof fn lemma_decode_encode(ps: Seq<PermModel>)
    ensures
        dec_perms(enc_perms(ps)) == Some(ps),
{
    let u = enc_perms(ps);
    if ps.len() == 0 {
        assert(u.len() == 2 && u[0] == '[' && u[1] == ']');
        assert(u.drop_first().len() == 1 && u.drop_first()[0] == ']');
        assert(ps =~= Seq::<PermModel>::empty());
    } else {
        assert(u[0] == '[');
        let u1 = u.drop_first();
        assert(u1 =~= enc_record(ps[0]) + enc_more_records(ps.drop_first()) + seq![']']);
        assert(u1[0] == '{');
        assert(u1[0] != ']');
        assert(u1.drop_first() =~= enc_record_body(ps[0]) + (enc_more_records(ps.drop_first())
            + seq![']'] + Seq::<char>::empty()));
        lemma_rt_record(ps[0], enc_more_records(ps.drop_first()) + seq![']'] + Seq::<char>::empty());
        lemma_rt_more_records(ps.drop_first(), Seq::<char>::empty());
        assert(seq![ps[0]] + ps.drop_first() =~= ps);
    }
}


// ---------------------------------------------------------------------------
// The executable encoder.
// ---------------------------------------------------------------------------

/// Relies on String::push: appends exactly the given character.
#[verifier::external_body]
fn push_char(s: &mut String, c: char)
    ensures
        final(s)@ == old(s)@.push(c),
{
    s.push(c);
}

/// Escaping a token one character at a time appends one escaped character.
proof fn lemma_esc_snoc(t: Seq<char>, c: char)
    ensures
        esc(t.push(c)) == esc(t) + esc_char(c),
    decreases t.len(),
{
    if t.len() == 0 {
        assert(t.push(c)[0] == c);
        assert(t.push(c).drop_first() =~= Seq::<char>::empty());
        assert(esc(Seq::<char>::empty()) == Seq::<char>::empty());
        assert(esc(t.push(c)) =~= esc(t) + esc_char(c));
    } else {
        assert(t.push(c)[0] == t[0]);
        assert(t.push(c).drop_first() =~= t.drop_first().push(c));
        lemma_esc_snoc(t.drop_first(), c);
        assert(esc(t.push(c)) =~= esc(t) + esc_char(c));
    }
}

/// Extending a token-list tail appends one comma-led token.
proof fn lemma_enc_more_tokens_snoc(ts: Seq<Seq<char>>, t: Seq<char>)
    ensures
        enc_more_tokens(ts.push(t)) == enc_more_tokens(ts) + seq![','] + enc_token(t),
    decreases ts.len(),
{
    if ts.len() == 0 {
        assert(ts.push(t)[0] == t);
        assert(ts.push(t).drop_first() =~~= Seq::<Seq<char>>::empty());
        assert(enc_more_tokens(Seq::<Seq<char>>::empty()) == Seq::<char>::empty());
        assert(enc_more_tokens(ts.push(t)) =~= enc_more_tokens(ts) + seq![','] + enc_token(t));
    } else {
        assert(ts.push(t)[0] == ts[0]);
        assert(ts.push(t).drop_first() =~~= ts.drop_first().push(t));
        lemma_enc_more_tokens_snoc(ts.drop_first(), t);
        assert(enc_more_tokens(ts.push(t)) =~= enc_more_tokens(ts) + seq![','] + enc_token(t));
    }
}

/// Extending a record-list tail appends one comma-led record.
proof fn lemma_enc_more_records_snoc(ps: Seq<PermModel>, p: PermModel)
    ensures
        enc_more_records(ps.push(p)) == enc_more_records(ps) + seq![','] + enc_record(p),
    decreases ps.len(),
{
    if ps.len() == 0 {
        assert(ps.push(p)[0] == p);
        assert(ps.push(p).drop_first() =~= Seq::<PermModel>::empty());
        assert(enc_more_records(Seq::<PermModel>::empty()) == Seq::<char>::empty());
        assert(enc_more_records(ps.push(p)) =~= enc_more_records(ps) + seq![','] + enc_record(p));
    } else {
        assert(ps.push(p)[0] == ps[0]);
        assert(ps.push(p).drop_first() =~= ps.drop_first().push(p));
        lemma_enc_more_records_snoc(ps.drop_first(), p);
        assert(enc_more_records(ps.push(p)) =~= enc_more_records(ps) + seq![','] + enc_record(p));
    }
}

/// Appends one quoted, escaped token.
fn encode_token_into(out: &mut String, t: &str)
    ensures
        final(out)@ == old(out)@ + enc_token(t@),
{
    push_char(out, '"');
    let n = t.unicode_len();
    let mut i: usize = 0;
    proof {
        assert(esc(t@.take(0)) =~= Seq::<char>::empty());
        assert(out@ =~= old(out)@ + seq!['"'] + esc(t@.take(0)));
    }
    while i < n
        invariant
            i <= n,
            n == t@.len(),
            out@ == old(out)@ + seq!['"'] + esc(t@.take(i as int)),
        decreases n - i,
    {
        let c = t.get_char(i);
        if c == '"' || c == '\\' {
            push_char(out, '\\');
        }
        push_char(out, c);
        proof {
            lemma_esc_snoc(t@.take(i as int), c);
            assert(t@.take(i as int + 1) =~= t@.take(i as int).push(c));
            assert(out@ =~= old(out)@ + seq!['"'] + esc(t@.take(i as int + 1)));
        }
        i += 1;
    }
    push_char(out, '"');
    proof {
        assert(t@.take(n as int) =~= t@);
        assert(out@ =~= old(out)@ + enc_token(t@));
    }
}

/// Appends one bracketed token list.
fn encode_list_into(out: &mut String, ts: &Vec<String>)
    ensures
        final(out)@ == old(out)@ + enc_token_list(views_of(ts@)),
{
    let ghost m = views_of(ts@);
    push_char(out, '[');
    if ts.len() == 0 {
        push_char(out, ']');
        proof {
            assert(out@ =~= old(out)@ + enc_token_list(m));
        }
        return ;
    }
    encode_token_into(out, ts[0].as_str());
    proof {
        assert(m.subrange(1, 1) =~~= Seq::<Seq<char>>::empty());
        assert(out@ =~= old(out)@ + seq!['['] + enc_token(m[0]) + enc_more_tokens(
            m.subrange(1, 1),
        ));
    }
    let mut k: usize = 1;
    while k < ts.len()
        invariant
            1 <= k <= ts@.len(),
            m == views_of(ts@),
            out@ == old(out)@ + seq!['['] + enc_token(m[0]) + enc_more_tokens(
                m.subrange(1, k as int),
            ),
        decreases ts@.len() - k,
    {
        push_char(out, ',');
        encode_token_into(out, ts[k].as_str());
        proof {
            lemma_enc_more_tokens_snoc(m.subrange(1, k as int), m[k as int]);
            assert(m.subrange(1, k as int + 1) =~~= m.subrange(1, k as int).push(m[k as int]));
            assert(out@ =~= old(out)@ + seq!['['] + enc_token(m[0]) + enc_more_tokens(
                m.subrange(1, k as int + 1),
            ));
        }
        k += 1;
    }
    push_char(out, ']');
    proof {
        assert(m.subrange(1, m.len() as int) =~~= m.drop_first());
        assert(out@ =~= old(out)@ + enc_token_list(m));
    }
}

/// Appends one record.
fn encode_record_into(out: &mut String, p: &Permission)
    ensures
        final(out)@ == old(out)@ + enc_record(p@),
{
    push_char(out, '{');
    out.append("\"domain\":");
    proof {
        reveal_strlit("\"domain\":");
        assert("\"domain\":"@ =~= key_domain());
        assert(out@ =~= old(out)@ + seq!['{'] + key_domain());
    }
    encode_token_into(out, p.domain.as_str());
    out.append(",\"actions\":");
    proof {
        reveal_strlit(",\"actions\":");
        assert(",\"actions\":"@ =~= key_actions());
    }
    encode_list_into(out, &p.actions);
    out.append(",\"targets\":");
    proof {
        reveal_strlit(",\"targets\":");
        assert(",\"targets\":"@ =~= key_targets());
    }
    encode_list_into(out, &p.targets);
    push_char(out, '}');
    proof {
        assert(out@ =~= old(out)@ + enc_record(p@));
    }
}

/// Encodes a sequence of permissions as the canonical structured text.
#[verifier::rlimit(100)]
pub fn encode(perms: &Vec<Permission>) -> (r: String)
    ensures
        r@ == enc_perms(models_of(perms@)),
{
    let ghost m = models_of(perms@);
    let mut out = String::new();
    push_char(&mut out, '[');
    if perms.len() == 0 {
        push_char(&mut out, ']');
        proof {
            assert(out@ =~= enc_perms(m));
        }
        return out;
    }
    encode_record_into(&mut out, &perms[0]);
    proof {
        assert(m.subrange(1, 1) =~= Seq::<PermModel>::empty());
        assert(out@ =~= seq!['['] + enc_record(m[0]) + enc_more_records(m.subrange(1, 1)));
    }
    let mut k: usize = 1;
    while k < perms.len()
        invariant
            1 <= k <= perms@.len(),
            m == models_of(perms@),
            out@ == seq!['['] + enc_record(m[0]) + enc_more_records(m.subrange(1, k as int)),
        decreases perms@.len() - k,
    {
        push_char(&mut out, ',');
        encode_record_into(&mut out, &perms[k]);
        proof {
            lemma_enc_more_records_snoc(m.subrange(1, k as int), m[k as int]);
            assert(m.subrange(1, k as int + 1) =~= m.subrange(1, k as int).push(m[k as int]));
            assert(out@ =~= seq!['['] + enc_record(m[0]) + enc_more_records(
                m.subrange(1, k as int + 1),
            ));
        }
        k += 1;
    }
    push_char(&mut out, ']');
    proof {
        assert(m.subrange(1, m.len() as int) =~= m.drop_first());
        assert(out@ =~= enc_perms(m));
    }
    out
}


// ---------------------------------------------------------------------------
// The executable decoder.
// ---------------------------------------------------------------------------

/// The characters of a string, for indexed scanning.
fn chars_of(s: &str) -> (v: Vec<char>)
    ensures
        v@ == s@,
{
    let n = s.unicode_len();
    let mut v: Vec<char> = Vec::new();
    let mut i: usize = 0;
    while i < n
        invariant
            i <= n,
            n == s@.len(),
            v@ == s@.take(i as int),
        decreases n - i,
    {
        v.push(s.get_char(i));
        proof {
            assert(s@.take(i as int + 1) =~= s@.take(i as int).push(s@[i as int]));
        }
        i += 1;
    }
    proof {
        assert(s@.take(n as int) =~= s@);
    }
    v
}

/// Scans one quoted token from position `i`, just after the opening quote.
fn d_token(s: &Vec<char>, i: usize) -> (r: Option<(String, usize)>)
    requires
        i <= s@.len(),
    ensures
        match r {
            Some(tj) => tj.1 <= s@.len() && dec_token(s@.skip(i as int)) == Some(
                (tj.0@, s@.skip(tj.1 as int)),
            ),
            None => dec_token(s@.skip(i as int)) is None,
        },
{
    let mut out = String::new();
    let mut p: usize = i;
    loop
        invariant
            i <= p <= s@.len(),
            match dec_token(s@.skip(p as int)) {
                Some(tr) => dec_token(s@.skip(i as int)) == Some((out@ + tr.0, tr.1)),
                None => dec_token(s@.skip(i as int)) is None,
            },
        decreases s@.len() - p,
    {
        if p >= s.len() {
            proof {
                assert(s@.skip(p as int).len() == 0);
            }
            return None;
        }
        let c = s[p];
        proof {
            assert(s@.skip(p as int)[0] == c);
            assert(s@.skip(p as int).drop_first() =~= s@.skip(p as int + 1));
        }
        if c == '"' {
            proof {
                assert(out@ + Seq::<char>::empty() =~= out@);
            }
            return Some((out, p + 1));
        } else if c == '\\' {
            if p + 1 >= s.len() {
                return None;
            }
            let c2 = s[p + 1];
            proof {
                assert(s@.skip(p as int)[1] == c2);
                assert(s@.skip(p as int).skip(2) =~= s@.skip(p as int + 2));
            }
            let ghost out0 = out@;
            push_char(&mut out, c2);
            proof {
                match dec_token(s@.skip(p as int + 2)) {
                    Some(tr) => {
                        assert(dec_token(s@.skip(p as int)) == Some((seq![c2] + tr.0, tr.1)));
                        assert(out@ + tr.0 =~= out0 + (seq![c2] + tr.0));
                    },
                    None => {},
                }
            }
            p = p + 2;
        } else {
            let ghost out0 = out@;
            push_char(&mut out, c);
            proof {
                match dec_token(s@.skip(p as int + 1)) {
                    Some(tr) => {
                        assert(dec_token(s@.skip(p as int)) == Some((seq![c] + tr.0, tr.1)));
                        assert(out@ + tr.0 =~= out0 + (seq![c] + tr.0));
                    },
                    None => {},
                }
            }
            p = p + 1;
        }
    }
}

/// Scans the rest of a token list from position `i`, just after a token.
fn d_more_tokens_x(s: &Vec<char>, i: usize) -> (r: Option<(Vec<String>, usize)>)
    requires
        i <= s@.len(),
    ensures
        match r {
            Some(vj) => vj.1 <= s@.len() && dec_more_tokens(s@.skip(i as int)) == Some(
                (views_of(vj.0@), s@.skip(vj.1 as int)),
            ),
            None => dec_more_tokens(s@.skip(i as int)) is None,
        },
    decreases s@.len() - i,
{
    if i >= s.len() {
        proof {
            assert(s@.skip(i as int).len() == 0);
        }
        return None;
    }
    let c = s[i];
    proof {
        assert(s@.skip(i as int)[0] == c);
        assert(s@.skip(i as int).drop_first() =~= s@.skip(i as int + 1));
    }
    if c == ']' {
        let v: Vec<String> = Vec::new();
        proof {
            assert(views_of(v@) =~~= Seq::<Seq<char>>::empty());
        }
        return Some((v, i + 1));
    }
    if c != ',' {
        return None;
    }
    if i + 1 >= s.len() {
        proof {
            assert(s@.skip(i as int).len() < 2);
        }
        return None;
    }
    let c2 = s[i + 1];
    proof {
        assert(s@.skip(i as int)[1] == c2);
        assert(s@.skip(i as int).skip(2) =~= s@.skip(i as int + 2));
    }
    if c2 != '"' {
        return None;
    }
    match d_token(s, i + 2) {
        None => None,
        Some((t, j)) => {
            proof {
                lemma_dec_token_shrinks(s@.skip(i as int + 2));
            }
            match d_more_tokens_x(s, j) {
                None => None,
                Some((v, j2)) => {
                    let mut v2 = v;
                    let ghost vs = views_of(v2@);
                    v2.insert(0, t);
                    proof {
                        assert(views_of(v2@) =~~= seq![t@] + vs);
                    }
                    Some((v2, j2))
                },
            }
        },
    }
}

/// Scans a token list from position `i`, just after the opening bracket.
fn d_list(s: &Vec<char>, i: usize) -> (r: Option<(Vec<String>, usize)>)
    requires
        i <= s@.len(),
    ensures
        match r {
            Some(vj) => vj.1 <= s@.len() && dec_token_list(s@.skip(i as int)) == Some(
                (views_of(vj.0@), s@.skip(vj.1 as int)),
            ),
            None => dec_token_list(s@.skip(i as int)) is None,
        },
{
    if i >= s.len() {
        proof {
            assert(s@.skip(i as int).len() == 0);
        }
        return None;
    }
    let c = s[i];
    proof {
        assert(s@.skip(i as int)[0] == c);
        assert(s@.skip(i as int).drop_first() =~= s@.skip(i as int + 1));
    }
    if c == ']' {
        let v: Vec<String> = Vec::new();
        proof {
            assert(views_of(v@) =~~= Seq::<Seq<char>>::empty());
        }
        return Some((v, i + 1));
    }
    if c != '"' {
        return None;
    }
    match d_token(s, i + 1) {
        None => None,
        Some((t, j)) => match d_more_tokens_x(s, j) {
            None => None,
            Some((v, j2)) => {
                let mut v2 = v;
                let ghost vs = views_of(v2@);
                v2.insert(0, t);
                proof {
                    assert(views_of(v2@) =~~= seq![t@] + vs);
                }
                Some((v2, j2))
            },
        },
    }
}

/// Whether the characters at position `i` begin with the key `k`.
fn expect_lit(s: &Vec<char>, i: usize, k: &Vec<char>) -> (r: bool)
    requires
        i <= s@.len(),
    ensures
        r == starts_with(s@.skip(i as int), k@),
{
    let n = s.len();
    let klen = k.len();
    if n - i < klen {
        proof {
            assert(s@.skip(i as int).len() < k@.len());
        }
        return false;
    }
    let mut j: usize = 0;
    while j < klen
        invariant
            j <= klen,
            n == s@.len(),
            klen == k@.len(),
            i + klen <= n,
            forall|q: int| 0 <= q < j ==> s@.skip(i as int)[q] == k@[q],
        decreases klen - j,
    {
        if s[i + j] != k[j] {
            proof {
                assert(s@.skip(i as int)[j as int] == s@[i + j]);
                assert(s@.skip(i as int).take(k@.len() as int)[j as int] != k@[j as int]);
            }
            return false;
        }
        proof {
            assert(s@.skip(i as int)[j as int] == s@[i + j]);
        }
        j += 1;
    }
    proof {
        assert(s@.skip(i as int).take(k@.len() as int) =~= k@);
    }
    true
}

/// The `domain` key, as characters.
fn key_domain_vec() -> (k: Vec<char>)
    ensures
        k@ == key_domain(),
{
    let k: Vec<char> = vec!['"', 'd', 'o', 'm', 'a', 'i', 'n', '"', ':'];
    proof {
        assert(k@ =~= key_domain());
    }
    k
}

/// The `actions` key, as characters.
fn key_actions_vec() -> (k: Vec<char>)
    ensures
        k@ == key_actions(),
{
    let k: Vec<char> = vec![',', '"', 'a', 'c', 't', 'i', 'o', 'n', 's', '"', ':'];
    proof {
        assert(k@ =~= key_actions());
    }
    k
}

/// The `targets` key, as characters.
fn key_targets_vec() -> (k: Vec<char>)
    ensures
        k@ == key_targets(),
{
    let k: Vec<char> = vec![',', '"', 't', 'a', 'r', 'g', 'e', 't', 's', '"', ':'];
    proof {
        assert(k@ =~= key_targets());
    }
    k
}

/// Scans one record from position `i`, just after the opening brace.
#[verifier::rlimit(100)]
fn d_record(s: &Vec<char>, i: usize) -> (r: Option<(Permission, usize)>)
    requires
        i <= s@.len(),
    ensures
        match r {
            Some(pj) => pj.1 <= s@.len() && dec_record(s@.skip(i as int)) == Some(
                (pj.0@, s@.skip(pj.1 as int)),
            ),
            None => dec_record(s@.skip(i as int)) is None,
        },
{
    let ghost u = s@.skip(i as int);
    let n = s.len();
    let kd = key_domain_vec();
    if !expect_lit(s, i, &kd) {
        return None;
    }
    proof {
        assert(s@.skip(i as int).len() >= key_domain().len());
    }
    let i1 = i + kd.len();
    proof {
        assert(u.skip(key_domain().len() as int) =~= s@.skip(i1 as int));
    }
    if i1 >= n {
        proof {
            assert(s@.skip(i1 as int).len() == 0);
        }
        return None;
    }
    proof {
        assert(s@.skip(i1 as int)[0] == s@[i1 as int]);
        assert(s@.skip(i1 as int).drop_first() =~= s@.skip(i1 as int + 1));
    }
    if s[i1] != '"' {
        return None;
    }
    let (dom, i2) = match d_token(s, i1 + 1) {
        Some(x) => x,
        None => {
            return None;
        },
    };
    let ka = key_actions_vec();
    if !expect_lit(s, i2, &ka) {
        return None;
    }
    proof {
        assert(s@.skip(i2 as int).len() >= key_actions().len());
    }
    let i3 = i2 + ka.len();
    proof {
        assert(s@.skip(i2 as int).skip(key_actions().len() as int) =~= s@.skip(i3 as int));
    }
    if i3 >= n {
        proof {
            assert(s@.skip(i3 as int).len() == 0);
        }
        return None;
    }
    proof {
        assert(s@.skip(i3 as int)[0] == s@[i3 as int]);
        assert(s@.skip(i3 as int).drop_first() =~= s@.skip(i3 as int + 1));
    }
    if s[i3] != '[' {
        return None;
    }
    let (acts, i4) = match d_list(s, i3 + 1) {
        Some(x) => x,
        None => {
            return None;
        },
    };
    let kt = key_targets_vec();
    if !expect_lit(s, i4, &kt) {
        return None;
    }
    proof {
        assert(s@.skip(i4 as int).len() >= key_targets().len());
    }
    let i5 = i4 + kt.len();
    proof {
        assert(s@.skip(i4 as int).skip(key_targets().len() as int) =~= s@.skip(i5 as int));
    }
    if i5 >= n {
        proof {
            assert(s@.skip(i5 as int).len() == 0);
        }
        return None;
    }
    proof {
        assert(s@.skip(i5 as int)[0] == s@[i5 as int]);
        assert(s@.skip(i5 as int).drop_first() =~= s@.skip(i5 as int + 1));
    }
    if s[i5] != '[' {
        return None;
    }
    let (tgts, i6) = match d_list(s, i5 + 1) {
        Some(x) => x,
        None => {
            return None;
        },
    };
    if i6 >= n {
        proof {
            assert(s@.skip(i6 as int).len() == 0);
        }
        return None;
    }
    proof {
        assert(s@.skip(i6 as int)[0] == s@[i6 as int]);
        assert(s@.skip(i6 as int).drop_first() =~= s@.skip(i6 as int + 1));
    }
    if s[i6] != '}' {
        return None;
    }
    let perm = Permission { domain: dom, actions: acts, targets: tgts };
    Some((perm, i6 + 1))
}

/// Scans the rest of the record list from position `i`, just after a record.
fn d_more_records_x(s: &Vec<char>, i: usize) -> (r: Option<(Vec<Permission>, usize)>)
    requires
        i <= s@.len(),
    ensures
        match r {
            Some(vj) => vj.1 <= s@.len() && dec_more_records(s@.skip(i as int)) == Some(
                (models_of(vj.0@), s@.skip(vj.1 as int)),
            ),
            None => dec_more_records(s@.skip(i as int)) is None,
        },
    decreases s@.len() - i,
{
    if i >= s.len() {
        proof {
            assert(s@.skip(i as int).len() == 0);
        }
        return None;
    }
    let c = s[i];
    proof {
        assert(s@.skip(i as int)[0] == c);
        assert(s@.skip(i as int).drop_first() =~= s@.skip(i as int + 1));
    }
    if c == ']' {
        let v: Vec<Permission> = Vec::new();
        proof {
            assert(models_of(v@) =~~= Seq::<PermModel>::empty());
        }
        return Some((v, i + 1));
    }
    if c != ',' {
        return None;
    }
    if i + 1 >= s.len() {
        proof {
            assert(s@.skip(i as int).len() < 2);
        }
        return None;
    }
    let c2 = s[i + 1];
    proof {
        assert(s@.skip(i as int)[1] == c2);
        assert(s@.skip(i as int).skip(2) =~= s@.skip(i as int + 2));
    }
    if c2 != '{' {
        return None;
    }
    match d_record(s, i + 2) {
        None => None,
        Some((p, j)) => {
            proof {
                lemma_dec_record_shrinks(s@.skip(i as int + 2));
            }
            match d_more_records_x(s, j) {
                None => None,
                Some((v, j2)) => {
                    let mut v2 = v;
                    let ghost ms = models_of(v2@);
                    v2.insert(0, p);
                    proof {
                        assert(models_of(v2@) =~~= seq![v2@[0]@] + ms);
                    }
                    Some((v2, j2))
                },
            }
        },
    }
}

/// Decodes a payload into permissions. Yields exactly the permissions whose
/// canonical encoding the payload is; fails with [`MalformedInput`] on every
/// other payload, in particular one missing a field or with a field of the
/// wrong shape.
pub fn decode(payload: &str) -> (r: Result<Vec<Permission>, MalformedInput>)
    ensures
        match r {
            Ok(v) => dec_perms(payload@) == Some(models_of(v@)),
            Err(_) => dec_perms(payload@) is None,
        },
{
    let s = chars_of(payload);
    if s.len() < 1 {
        return Err(MalformedInput);
    }
    proof {
        assert(s@[0] == payload@[0]);
    }
    if s[0] != '[' {
        return Err(MalformedInput);
    }
    proof {
        assert(payload@.drop_first() =~= s@.skip(1));
    }
    if s.len() >= 2 && s[1] == ']' {
        proof {
            assert(s@.skip(1)[0] == s@[1]);
        }
        if s.len() == 2 {
            let v: Vec<Permission> = Vec::new();
            proof {
                assert(models_of(v@) =~~= Seq::<PermModel>::empty());
            }
            return Ok(v);
        }
        return Err(MalformedInput);
    }
    if s.len() < 2 {
        proof {
            assert(payload@.drop_first().len() == 0);
        }
        return Err(MalformedInput);
    }
    proof {
        assert(s@.skip(1)[0] == s@[1]);
        assert(s@.skip(1).drop_first() =~= s@.skip(2));
    }
    if s[1] != '{' {
        return Err(MalformedInput);
    }
    let (p, j) = match d_record(&s, 2) {
        Some(x) => x,
        None => {
            return Err(MalformedInput);
        },
    };
    let (v, j2) = match d_more_records_x(&s, j) {
        Some(x) => x,
        None => {
            return Err(MalformedInput);
        },
    };
    if j2 != s.len() {
        proof {
            assert(s@.skip(j2 as int).len() > 0);
        }
        return Err(MalformedInput);
    }
    let mut v2 = v;
    let ghost ms = models_of(v2@);
    v2.insert(0, p);
    proof {
        assert(s@.skip(j2 as int).len() == 0);
        assert(models_of(v2@) =~~= seq![v2@[0]@] + ms);
    }
    Ok(v2)
}

} // verus!
