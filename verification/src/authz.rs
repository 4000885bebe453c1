//! The `Permission` data model and the implication engine.
//!
//! A `Permission` is a domain token plus two token sets (actions and
//! targets). The wildcard token `"*"` is an ordinary set member; implication
//! tests it by containment. `implies_from_perm` decides whether one
//! permission (the assigned one) authorizes another (the required one).

use vstd::prelude::*;
use vstd::string::StrSliceExecFns;
use crate::parse::parse_spec;

verus! {

/// The wildcard token, as a sequence of characters.
pub open spec fn star() -> Seq<char> {
    seq!['*']
}

/// The views of a sequence of strings: each token as a sequence of characters.
pub open spec fn views_of(toks: Seq<String>) -> Seq<Seq<char>> {
    Seq::new(toks.len(), |i: int| toks[i]@)
}

/// Mathematical model of a [`Permission`]: the domain token and the two
/// token collections. Token collections are sequences without duplicates;
/// only membership matters to implication.
#[verifier::ext_equal]
pub ghost struct PermModel {
    pub domain: Seq<char>,
    pub actions: Seq<Seq<char>>,
    pub targets: Seq<Seq<char>>,
}

/// Whether token `t` occurs in the token collection `toks`.
pub open spec fn contains_token(toks: Seq<Seq<char>>, t: Seq<char>) -> bool {
    exists|i: int| 0 <= i < toks.len() && toks[i] == t
}

/// Whether every token of `b` occurs in `a` (set-level superset).
pub open spec fn superset_of(a: Seq<Seq<char>>, b: Seq<Seq<char>>) -> bool {
    forall|i: int| 0 <= i < b.len() ==> contains_token(a, #[trigger] b[i])
}

/// Whether the token collection holds no duplicate tokens.
pub open spec fn distinct_tokens(toks: Seq<Seq<char>>) -> bool {
    forall|i: int, j: int| 0 <= i < j < toks.len() ==> toks[i] != toks[j]
}

impl PermModel {
    /// Normalization invariant: the domain and both token collections are
    /// non-empty, and the token collections hold no duplicates.
    pub open spec fn wf(self) -> bool {
        &&& self.domain.len() > 0
        &&& self.actions.len() > 0
        &&& self.targets.len() > 0
        &&& distinct_tokens(self.actions)
        &&& distinct_tokens(self.targets)
    }
}

/// The implication relation: `assigned` authorizes `required` iff the domain
/// is the wildcard or equal to the required domain, and each token set either
/// contains the wildcard or is a superset of the required one.
pub open spec fn spec_implies(assigned: PermModel, required: PermModel) -> bool {
    &&& assigned.domain == star() || assigned.domain == required.domain
    &&& contains_token(assigned.actions, star()) || superset_of(
        assigned.actions,
        required.actions,
    )
    &&& contains_token(assigned.targets, star()) || superset_of(
        assigned.targets,
        required.targets,
    )
}

/// A permission: a domain token plus action and target token sets.
/// Immutable after construction; `Permission::new` parses one from a
/// wildcard permission string.
#[derive(Debug, Clone, PartialEq, Eq)]
pub struct Permission {
    pub domain: String,
    pub actions: Vec<String>,
    pub targets: Vec<String>,
}

impl View for Permission {
    type V = PermModel;

    open spec fn view(&self) -> PermModel {
        PermModel {
            domain: self.domain@,
            actions: views_of(self.actions@),
            targets: views_of(self.targets@),
        }
    }
}

/// Character-by-character string equality, specified over the views.
pub fn str_eq(a: &str, b: &str) -> (r: bool)
    ensures
        r == (a@ == b@),
{
    let n = a.unicode_len();
    if n != b.unicode_len() {
        return false;
    }
    let mut i: usize = 0;
    while i < n
        invariant
            n == a@.len(),
            n == b@.len(),
            i <= n,
            forall|k: int| 0 <= k < i ==> a@[k] == b@[k],
        decreases n - i,
    {
        if a.get_char(i) != b.get_char(i) {
            return false;
        }
        i += 1;
    }
    proof {
        assert(a@ =~= b@);
    }
    true
}

/// Whether the string is exactly the wildcard token.
pub fn is_star(s: &str) -> (r: bool)
    ensures
        r == (s@ == star()),
{
    let n = s.unicode_len();
    if n != 1 {
        return false;
    }
    let c = s.get_char(0);
    if c == '*' {
        proof {
            assert(s@ =~= star());
        }
        true
    } else {
        false
    }
}

/// Whether the token `t` occurs in `toks`, by linear scan.
pub fn tokens_contain(toks: &Vec<String>, t: &str) -> (r: bool)
    ensures
        r == contains_token(views_of(toks@), t@),
{
    let mut i: usize = 0;
    while i < toks.len()
        invariant
            i <= toks@.len(),
            forall|k: int| 0 <= k < i ==> views_of(toks@)[k] != t@,
        decreases toks@.len() - i,
    {
        if str_eq(toks[i].as_str(), t) {
            assert(views_of(toks@)[i as int] == t@);
            return true;
        }
        i += 1;
    }
    false
}

/// Whether every token of `b` occurs in `a`, by linear scans.
pub fn tokens_superset(a: &Vec<String>, b: &Vec<String>) -> (r: bool)
    ensures
        r == superset_of(views_of(a@), views_of(b@)),
{
    let mut i: usize = 0;
    while i < b.len()
        invariant
            i <= b@.len(),
            forall|k: int| 0 <= k < i ==> contains_token(views_of(a@), #[trigger] views_of(b@)[k]),
        decreases b@.len() - i,
    {
        if !tokens_contain(a, b[i].as_str()) {
            assert(!contains_token(views_of(a@), views_of(b@)[i as int]));
            return false;
        }
        i += 1;
    }
    true
}

impl Permission {
    /// Decides whether `self` (the assigned permission) authorizes
    /// `permission` (the required one).
    pub fn implies_from_perm(&self, permission: &Permission) -> (r: bool)
        ensures
            r == spec_implies(self@, permission@),
    {
        if !is_star(self.domain.as_str()) {
            if !str_eq(self.domain.as_str(), permission.domain.as_str()) {
                return false;
            }
        }
        proof {
            reveal_strlit("*");
            assert("*"@ =~= star());
        }
        if !tokens_contain(&self.actions, "*") {
            if !tokens_superset(&self.actions, &permission.actions) {
                return false;
            }
        }
        if !tokens_contain(&self.targets, "*") {
            if !tokens_superset(&self.targets, &permission.targets) {
                return false;
            }
        }
        true
    }
}

/// The models of a sequence of permissions.
pub open spec fn models_of(perms: Seq<Permission>) -> Seq<PermModel> {
    Seq::new(perms.len(), |i: int| perms[i]@)
}

/// The models of a sequence of wildcard permission strings, each parsed.
pub open spec fn parsed_models_of(perms: Seq<&str>) -> Seq<PermModel> {
    Seq::new(perms.len(), |i: int| parse_spec(perms[i]@))
}

/// Whether some permission in the assigned collection authorizes the
/// required one.
pub open spec fn spec_permitted(required: PermModel, assigned: Seq<PermModel>) -> bool {
    exists|i: int| 0 <= i < assigned.len() && spec_implies(assigned[i], required)
}

impl Permission {
    /// Parses the argument and decides whether `self` authorizes it.
    pub fn implies_from_str(&self, wildcard_permission: &str) -> (r: bool)
        ensures
            r == spec_implies(self@, parse_spec(wildcard_permission@)),
    {
        let permission = Permission::new(wildcard_permission);
        self.implies_from_perm(&permission)
    }
}

/// Decides whether any of the assigned wildcard permission strings, each
/// parsed, authorizes the required one; 1 for yes, 0 for no. Stops at the
/// first match; an empty collection yields 0.
pub fn _is_permitted_from_str<'a>(required_perm: &str, assigned_perms: Vec<&'a str>) -> (r: i32)
    ensures
        r == (if spec_permitted(
            parse_spec(required_perm@),
            parsed_models_of(assigned_perms@),
        ) {
            1i32
        } else {
            0i32
        }),
{
    let required_permission = Permission::new(required_perm);
    let mut i: usize = 0;
    while i < assigned_perms.len()
        invariant
            i <= assigned_perms@.len(),
            required_permission@ == parse_spec(required_perm@),
            forall|k: int|
                0 <= k < i ==> !spec_implies(
                    #[trigger] parsed_models_of(assigned_perms@)[k],
                    parse_spec(required_perm@),
                ),
        decreases assigned_perms@.len() - i,
    {
        let assigned_permission = Permission::new(assigned_perms[i]);
        if assigned_permission.implies_from_perm(&required_permission) {
            assert(spec_implies(
                parsed_models_of(assigned_perms@)[i as int],
                parse_spec(required_perm@),
            ));
            return 1;
        }
        i += 1;
    }
    0
}

/// Decides whether any of the assigned permissions authorizes the required
/// one (given as a wildcard permission string); 1 for yes, 0 for no. Stops
/// at the first match; an empty collection yields 0.
pub fn _is_permitted_from_perm(required_perm: &str, assigned_perms: Vec<Permission>) -> (r: i32)
    ensures
        r == (if spec_permitted(parse_spec(required_perm@), models_of(assigned_perms@)) {
            1i32
        } else {
            0i32
        }),
{
    let required_permission = Permission::new(required_perm);
    let mut i: usize = 0;
    while i < assigned_perms.len()
        invariant
            i <= assigned_perms@.len(),
            required_permission@ == parse_spec(required_perm@),
            forall|k: int|
                0 <= k < i ==> !spec_implies(
                    #[trigger] models_of(assigned_perms@)[k],
                    parse_spec(required_perm@),
                ),
        decreases assigned_perms@.len() - i,
    {
        if assigned_perms[i].implies_from_perm(&required_permission) {
            assert(spec_implies(
                models_of(assigned_perms@)[i as int],
                parse_spec(required_perm@),
            ));
            return 1;
        }
        i += 1;
    }
    0
}

/// Decides whether any of the assigned wildcard permission strings, each
/// parsed, authorizes the required one; 1 for yes, 0 for no.
pub fn is_permitted_from_str<'a>(required_perm: &str, assigned_perms: Vec<&'a str>) -> (r: i32)
    ensures
        r == (if spec_permitted(
            parse_spec(required_perm@),
            parsed_models_of(assigned_perms@),
        ) {
            1i32
        } else {
            0i32
        }),
{
    _is_permitted_from_str(required_perm, assigned_perms)
}

/// Decides whether any of the assigned permissions authorizes the required
/// one (given as a wildcard permission string); 1 for yes, 0 for no.
pub fn is_permitted_from_perm(required_perm: &str, assigned_perms: Vec<Permission>) -> (r: i32)
    ensures
        r == (if spec_permitted(parse_spec(required_perm@), models_of(assigned_perms@)) {
            1i32
        } else {
            0i32
        }),
{
    _is_permitted_from_perm(required_perm, assigned_perms)
}

/// An empty assigned collection authorizes nothing, whatever is required.
pub proof fn lemma_empty_assigned(required: PermModel)
    ensures
        !spec_permitted(required, Seq::<PermModel>::empty()),
{
}

/// Implication is reflexive: every permission authorizes itself, since the
/// domain equals itself and every token set is a superset of itself.
pub proof fn lemma_implies_reflexive(p: PermModel)
    ensures
        spec_implies(p, p),
{
    assert forall|i: int| 0 <= i < p.actions.len() implies contains_token(
        p.actions,
        #[trigger] p.actions[i],
    ) by {
        assert(0 <= i < p.actions.len() && p.actions[i] == p.actions[i]);
    }
    assert forall|i: int| 0 <= i < p.targets.len() implies contains_token(
        p.targets,
        #[trigger] p.targets[i],
    ) by {
        assert(0 <= i < p.targets.len() && p.targets[i] == p.targets[i]);
    }
}

} // verus!
