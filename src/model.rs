//! The tree of rules and patterns that the recognizer builds and the printer
//! renders, with its mathematical model.
use vstd::prelude::*;

verus! {

/// A pattern: a terminal, a group, or a repeated group.
#[derive(Debug)]
pub enum Pat {
    /// A sequence matched in order (an alternative or a parenthesised group).
    List(Vec<Pat>),
    /// A repeated unit, with its marker `*`, `+` or `?`.
    Repeat(Vec<Pat>, char),
    /// An identifier (hyphens already turned into underscores) or a string
    /// literal, stored as written.
    Atom(String),
}

/// One named production: its name and its ordered alternatives.
#[derive(Debug)]
pub struct Rule {
    pub name: String,
    pub body: Vec<Pat>,
}

/// The mathematical value of a [`Pat`].
pub enum PatModel {
    List(Seq<PatModel>),
    Repeat(Seq<PatModel>, char),
    Atom(Seq<char>),
}

/// The mathematical value of a [`Rule`].
pub struct RuleModel {
    pub name: Seq<char>,
    pub body: Seq<PatModel>,
}

pub open spec fn pat_model(p: Pat) -> PatModel
    decreases p,
{
    match p {
        Pat::List(v) => PatModel::List(
            Seq::new(v@.len(), |i: int| if 0 <= i < v@.len() { pat_model(v@[i]) } else { arbitrary() }),
        ),
        Pat::Repeat(v, k) => PatModel::Repeat(
            Seq::new(v@.len(), |i: int| if 0 <= i < v@.len() { pat_model(v@[i]) } else { arbitrary() }),
            k,
        ),
        Pat::Atom(s) => PatModel::Atom(s@),
    }
}

pub open spec fn pats_model(ps: Seq<Pat>) -> Seq<PatModel> {
    ps.map_values(|p: Pat| pat_model(p))
}

/// The model of a group or a repeat is built from the models of its children.
pub proof fn lemma_pat_model_children(p: Pat)
    ensures
        p is List ==> pat_model(p) == PatModel::List(pats_model(p->List_0@)),
        p is Repeat ==> pat_model(p) == PatModel::Repeat(pats_model(p->Repeat_0@), p->Repeat_1),
{
    match p {
        Pat::List(v) => {
            assert(pat_model(p)->List_0 =~= pats_model(v@));
        },
        Pat::Repeat(v, k) => {
            assert(pat_model(p)->Repeat_0 =~= pats_model(v@));
        },
        Pat::Atom(_) => {},
    }
}

/// A well-formed rule: a name without hyphens and at least one alternative,
/// each a non-empty group.
pub open spec fn rule_wf(r: RuleModel) -> bool {
    &&& !r.name.contains('-')
    &&& r.body.len() > 0
    &&& forall|k: int|
        0 <= k < r.body.len() ==> (#[trigger] r.body[k] is List && r.body[k]->List_0.len() > 0)
}

pub open spec fn rule_model(r: Rule) -> RuleModel {
    RuleModel { name: r.name@, body: pats_model(r.body@) }
}

pub open spec fn rules_model(rs: Seq<Rule>) -> Seq<RuleModel> {
    rs.map_values(|r: Rule| rule_model(r))
}

} // verus!
