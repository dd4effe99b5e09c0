//! Rendering of rules in the target syntax.
use vstd::prelude::*;
use vstd::string::StringExecFns;
use crate::model::{Pat, PatModel, Rule, RuleModel, lemma_pat_model_children, pat_model, pats_model, rule_model, rules_model};

verus! {

/// Text of a pattern: atoms verbatim, groups in parentheses, and a repeat of
/// a single pattern without parentheses.
pub open spec fn pat_text(p: PatModel) -> Seq<char>
    decreases p, 0nat,
{
    match p {
        PatModel::Atom(s) => s,
        PatModel::List(ps) => seq!['('] + joined(ps, ps.len()) + seq![')'],
        PatModel::Repeat(ps, k) => if ps.len() == 1 {
            pat_text(ps[0]).push(k)
        } else {
            (seq!['('] + joined(ps, ps.len()) + seq![')']).push(k)
        },
    }
}

/// The first `n` patterns of `ps`, rendered and separated by single spaces.
pub open spec fn joined(ps: Seq<PatModel>, n: nat) -> Seq<char>
    decreases ps, n,
{
    if n == 0 || n > ps.len() {
        Seq::empty()
    } else if n == 1 {
        pat_text(ps[0])
    } else {
        joined(ps, (n - 1) as nat).push(' ') + pat_text(ps[n - 1])
    }
}

/// The patterns that one alternative lists: the children of a group, or the
/// pattern itself.
pub open spec fn alt_items(a: PatModel) -> Seq<PatModel> {
    match a {
        PatModel::List(ps) => ps,
        _ => seq![a],
    }
}

/// The first `n` patterns of `ps`, each rendered and followed by a space.
pub open spec fn items_text(ps: Seq<PatModel>, n: nat) -> Seq<char>
    decreases n,
{
    if n == 0 || n > ps.len() {
        Seq::empty()
    } else {
        items_text(ps, (n - 1) as nat) + pat_text(ps[n - 1]).push(' ')
    }
}

/// One line of a rule block for an alternative.
pub open spec fn alt_line(a: PatModel) -> Seq<char> {
    "    "@ + items_text(alt_items(a), alt_items(a).len()) + "=> (),\n"@
}

/// The lines of the first `n` alternatives.
pub open spec fn alts_text(alts: Seq<PatModel>, n: nat) -> Seq<char>
    decreases n,
{
    if n == 0 || n > alts.len() {
        Seq::empty()
    } else {
        alts_text(alts, (n - 1) as nat) + alt_line(alts[n - 1])
    }
}

/// Text of a rule block: `name: () = {`, one line per alternative, `}`.
pub open spec fn rule_text(r: RuleModel) -> Seq<char> {
    r.name + ": () = {\n"@ + alts_text(r.body, r.body.len()) + "}"@
}

/// The first `n` rules, each as a public rule block on its own line.
pub open spec fn rules_text(rs: Seq<RuleModel>, n: nat) -> Seq<char>
    decreases n,
{
    if n == 0 || n > rs.len() {
        Seq::empty()
    } else {
        rules_text(rs, (n - 1) as nat) + "pub "@ + rule_text(rs[n - 1]) + "\n"@
    }
}

/// Text of a whole grammar file.
pub open spec fn grammar_text(rs: Seq<RuleModel>) -> Seq<char> {
    "grammar;\n"@ + rules_text(rs, rs.len())
}

/// A repeat of exactly one pattern is rendered as that pattern and its
/// marker, with no parentheses added; a repeat of any other number of
/// patterns is rendered as a parenthesised group and its marker.
pub proof fn lemma_repeat_grouping(ps: Seq<PatModel>, k: char)
    ensures
        ps.len() == 1 ==> pat_text(PatModel::Repeat(ps, k)) == pat_text(ps[0]).push(k),
        ps.len() != 1 ==> pat_text(PatModel::Repeat(ps, k)) == (seq!['('] + joined(ps, ps.len())
            + seq![')']).push(k),
        ps.len() != 1 ==> ({
            let t = pat_text(PatModel::Repeat(ps, k));
            &&& t.len() >= 3
            &&& t[0] == '('
            &&& t[t.len() - 2] == ')'
            &&& t.last() == k
        }),
{
}

/// The text of the first `n` rules depends on those rules alone.
proof fn lemma_rules_text_prefix(a: Seq<RuleModel>, b: Seq<RuleModel>, n: nat)
    requires
        n <= a.len(),
        n <= b.len(),
        a.subrange(0, n as int) == b.subrange(0, n as int),
    ensures
        rules_text(a, n) == rules_text(b, n),
    decreases n,
{
    if n > 0 {
        assert(a[n - 1] == a.subrange(0, n as int)[n - 1]);
        assert(b[n - 1] == b.subrange(0, n as int)[n - 1]);
        assert(a.subrange(0, n - 1) =~= a.subrange(0, n as int).subrange(0, n - 1));
        assert(b.subrange(0, n - 1) =~= b.subrange(0, n as int).subrange(0, n - 1));
        lemma_rules_text_prefix(a, b, (n - 1) as nat);
    }
}

/// Rendering keeps the order of rules: the rules of `a` and then those of `b`
/// give the text of `a` followed by the text of `b`.
pub proof fn lemma_rules_text_concat(a: Seq<RuleModel>, b: Seq<RuleModel>)
    ensures
        rules_text(a + b, (a + b).len()) == rules_text(a, a.len()) + rules_text(b, b.len()),
    decreases b.len(),
{
    if b.len() == 0 {
        assert(a + b =~= a);
        assert(rules_text(b, 0) =~= Seq::<char>::empty());
        assert(rules_text(a, a.len()) + rules_text(b, b.len()) =~= rules_text(a, a.len()));
    } else {
        let b1 = b.drop_last();
        lemma_rules_text_concat(a, b1);
        let n = (a + b).len();
        assert((a + b).subrange(0, n - 1) =~= (a + b1).subrange(0, n - 1));
        lemma_rules_text_prefix(a + b, a + b1, (n - 1) as nat);
        assert(b.subrange(0, b.len() - 1) =~= b1.subrange(0, b.len() - 1));
        lemma_rules_text_prefix(b, b1, (b.len() - 1) as nat);
        assert((a + b)[n - 1] == b[b.len() - 1]);
        assert(rules_text(a + b, n) =~= rules_text(a, a.len()) + rules_text(b, b.len()));
    }
}

/// The lines of the first `n` alternatives depend on those alternatives alone.
proof fn lemma_alts_text_prefix(a: Seq<PatModel>, b: Seq<PatModel>, n: nat)
    requires
        n <= a.len(),
        n <= b.len(),
        a.subrange(0, n as int) == b.subrange(0, n as int),
    ensures
        alts_text(a, n) == alts_text(b, n),
    decreases n,
{
    if n > 0 {
        assert(a[n - 1] == a.subrange(0, n as int)[n - 1]);
        assert(b[n - 1] == b.subrange(0, n as int)[n - 1]);
        assert(a.subrange(0, n - 1) =~= a.subrange(0, n as int).subrange(0, n - 1));
        assert(b.subrange(0, n - 1) =~= b.subrange(0, n as int).subrange(0, n - 1));
        lemma_alts_text_prefix(a, b, (n - 1) as nat);
    }
}

/// Rendering keeps the order of alternatives: the alternatives of `a` and
/// then those of `b` give the lines of `a` followed by the lines of `b`.
pub proof fn lemma_alts_text_concat(a: Seq<PatModel>, b: Seq<PatModel>)
    ensures
        alts_text(a + b, (a + b).len()) == alts_text(a, a.len()) + alts_text(b, b.len()),
    decreases b.len(),
{
    if b.len() == 0 {
        assert(a + b =~= a);
        assert(alts_text(b, 0) =~= Seq::<char>::empty());
        assert(alts_text(a, a.len()) + alts_text(b, b.len()) =~= alts_text(a, a.len()));
    } else {
        let b1 = b.drop_last();
        lemma_alts_text_concat(a, b1);
        let n = (a + b).len();
        assert((a + b).subrange(0, n - 1) =~= (a + b1).subrange(0, n - 1));
        lemma_alts_text_prefix(a + b, a + b1, (n - 1) as nat);
        assert(b.subrange(0, b.len() - 1) =~= b1.subrange(0, b.len() - 1));
        lemma_alts_text_prefix(b, b1, (b.len() - 1) as nat);
        assert((a + b)[n - 1] == b[b.len() - 1]);
        assert(alts_text(a + b, n) =~= alts_text(a, a.len()) + alts_text(b, b.len()));
    }
}

/// Relies on `String::push`: appends one character.
#[verifier::external_body]
pub(crate) fn push_char(s: &mut String, c: char)
    ensures
        final(s)@ == old(s)@.push(c),
{
    s.push(c)
}

fn write_pat(p: &Pat, out: &mut String)
    ensures
        final(out)@ == old(out)@ + pat_text(pat_model(*p)),
    decreases p,
{
    proof {
        lemma_pat_model_children(*p);
    }
    let ghost o = out@;
    match p {
        Pat::List(ps) => {
            push_char(out, '(');
            write_joined(ps, out);
            push_char(out, ')');
            assert(out@ =~= o + (seq!['('] + joined(pats_model(ps@), ps@.len()) + seq![')']));
        },
        Pat::Repeat(ps, k) => {
            if ps.len() == 1 {
                write_pat(&ps[0], out);
            } else {
                push_char(out, '(');
                write_joined(ps, out);
                push_char(out, ')');
                assert(out@ =~= o + (seq!['('] + joined(pats_model(ps@), ps@.len()) + seq![')']));
            }
            push_char(out, *k);
        },
        Pat::Atom(s) => {
            out.append(s.as_str());
        },
    }
}

fn write_joined(ps: &Vec<Pat>, out: &mut String)
    ensures
        final(out)@ == old(out)@ + joined(pats_model(ps@), ps@.len()),
    decreases ps,
{
    let ghost start = out@;
    let ghost m = pats_model(ps@);
    let mut i: usize = 0;
    while i < ps.len()
        invariant
            i <= ps@.len(),
            m == pats_model(ps@),
            out@ == start + joined(m, i as nat),
        decreases ps@.len() - i,
    {
        if i > 0 {
            push_char(out, ' ');
        }
        write_pat(&ps[i], out);
        i = i + 1;
    }
}
fn write_items(ps: &Vec<Pat>, out: &mut String)
    ensures
        final(out)@ == old(out)@ + items_text(pats_model(ps@), ps@.len()),
{
    let ghost start = out@;
    let ghost m = pats_model(ps@);
    let mut i: usize = 0;
    while i < ps.len()
        invariant
            i <= ps@.len(),
            m == pats_model(ps@),
            out@ == start + items_text(m, i as nat),
        decreases ps@.len() - i,
    {
        write_pat(&ps[i], out);
        push_char(out, ' ');
        i = i + 1;
        assert(out@ =~= start + items_text(m, i as nat));
    }
}

fn write_alt(a: &Pat, out: &mut String)
    ensures
        final(out)@ == old(out)@ + alt_line(pat_model(*a)),
{
    proof {
        lemma_pat_model_children(*a);
    }
    let ghost o = out@;
    out.append("    ");
    match a {
        Pat::List(ps) => {
            write_items(ps, out);
        },
        _ => {
            write_pat(a, out);
            push_char(out, ' ');
            assert(items_text(seq![pat_model(*a)], 0) =~= Seq::<char>::empty());
            assert(items_text(seq![pat_model(*a)], 1) =~= pat_text(pat_model(*a)).push(' '));
        },
    }
    out.append("=> (),\n");
    assert(out@ =~= o + alt_line(pat_model(*a)));
}

fn write_rule(r: &Rule, out: &mut String)
    ensures
        final(out)@ == old(out)@ + rule_text(rule_model(*r)),
{
    let ghost o = out@;
    let ghost m = pats_model(r.body@);
    out.append(r.name.as_str());
    out.append(": () = {\n");
    let ghost mid = out@;
    let mut i: usize = 0;
    while i < r.body.len()
        invariant
            i <= r.body@.len(),
            m == pats_model(r.body@),
            out@ == mid + alts_text(m, i as nat),
        decreases r.body@.len() - i,
    {
        write_alt(&r.body[i], out);
        i = i + 1;
        assert(out@ =~= mid + alts_text(m, i as nat));
    }
    out.append("}");
    assert(out@ =~= o + rule_text(rule_model(*r)));
}

impl Pat {
    /// The pattern in the target syntax.
    pub fn to_string(&self) -> (r: String)
        ensures
            r@ == pat_text(pat_model(*self)),
    {
        let mut out = String::new();
        write_pat(self, &mut out);
        assert(out@ =~= pat_text(pat_model(*self)));
        out
    }
}

impl Rule {
    /// The rule as a block of the target syntax.
    pub fn to_string(&self) -> (r: String)
        ensures
            r@ == rule_text(rule_model(*self)),
    {
        let mut out = String::new();
        write_rule(self, &mut out);
        assert(out@ =~= rule_text(rule_model(*self)));
        out
    }
}

/// A whole grammar file: the `grammar;` header, then each rule, in order, as
/// a public rule block on its own line.
pub fn render(rules: &Vec<Rule>) -> (r: String)
    ensures
        r@ == grammar_text(rules_model(rules@)),
{
    let ghost m = rules_model(rules@);
    let mut out = String::new();
    out.append("grammar;\n");
    let ghost head = out@;
    let mut i: usize = 0;
    while i < rules.len()
        invariant
            i <= rules@.len(),
            m == rules_model(rules@),
            out@ == head + rules_text(m, i as nat),
        decreases rules@.len() - i,
    {
        out.append("pub ");
        write_rule(&rules[i], &mut out);
        out.append("\n");
        i = i + 1;
        assert(out@ =~= head + rules_text(m, i as nat));
    }
    out
}

} // verus!
