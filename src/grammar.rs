//! The source notation as a parsing expression grammar over characters: one
//! spec function per grammar rule, each taking the text, a position and the
//! farthest failure seen so far, and giving the match (end and value) if any
//! and the updated farthest failure.
use vstd::prelude::*;
use vstd::string::StringExecFns;
use crate::model::{PatModel, RuleModel, rule_wf};
use crate::printer::push_char;

verus! {

/// What the recognizer looked for where it failed.
#[derive(Clone, Copy, Debug, PartialEq, Eq, Structural)]
pub enum Expected {
    /// An identifier.
    Ident,
    /// A string literal.
    Str,
    /// One punctuation character.
    Token(char),
    /// The end of the input.
    Eof,
}

/// How an expectation is named in messages: a literal character in quotes.
pub open spec fn expected_text(e: Expected) -> Seq<char> {
    match e {
        Expected::Ident => "ident"@,
        Expected::Str => "string"@,
        Expected::Token(c) => seq!['"', c, '"'],
        Expected::Eof => "EOF"@,
    }
}

impl Expected {
    /// The name of this expectation in messages.
    pub fn description(&self) -> (r: String)
        ensures
            r@ == expected_text(*self),
    {
        let mut r = String::new();
        match self {
            Expected::Ident => r.append("ident"),
            Expected::Str => r.append("string"),
            Expected::Token(c) => {
                push_char(&mut r, '"');
                push_char(&mut r, *c);
                push_char(&mut r, '"');
                assert(r@ =~= seq!['"', *c, '"']);
            },
            Expected::Eof => r.append("EOF"),
        }
        r
    }
}

/// The farthest position at which a match failed, and what was expected there.
pub struct Far {
    pub pos: int,
    pub exp: Set<Expected>,
}

pub open spec fn no_failure() -> Far {
    Far { pos: 0, exp: Set::empty() }
}

/// Records that `e` was expected at `pos`: a farther position replaces what
/// was known, the same position adds to it, a nearer one changes nothing.
pub open spec fn mark(f: Far, pos: int, e: Expected) -> Far {
    if pos > f.pos {
        Far { pos, exp: set![e] }
    } else if pos == f.pos {
        Far { pos, exp: f.exp.insert(e) }
    } else {
        f
    }
}

pub open spec fn is_ws(c: char) -> bool {
    c == ' ' || c == '\t' || c == '\r' || c == '\n'
}

/// Identifier characters: ASCII letters and digits, `-`, `_`, and any
/// character outside ASCII.
pub open spec fn is_ident_char(c: char) -> bool {
    ('a' <= c && c <= 'z') || ('A' <= c && c <= 'Z') || ('0' <= c && c <= '9') || c == '-'
        || c == '_' || c as u32 >= 128
}

/// End of the whitespace that starts at `i`.
pub open spec fn ws_end(s: Seq<char>, i: int) -> int
    decreases s.len() - i,
{
    if 0 <= i < s.len() && is_ws(s[i]) {
        ws_end(s, i + 1)
    } else {
        i
    }
}

/// End of the run of identifier characters that starts at `i`.
pub open spec fn ident_run_end(s: Seq<char>, i: int) -> int
    decreases s.len() - i,
{
    if 0 <= i < s.len() && is_ident_char(s[i]) {
        ident_run_end(s, i + 1)
    } else {
        i
    }
}

/// End of the run of `#` that starts at `i`.
pub open spec fn hash_run_end(s: Seq<char>, i: int) -> int
    decreases s.len() - i,
{
    if 0 <= i < s.len() && s[i] == '#' {
        hash_run_end(s, i + 1)
    } else {
        i
    }
}

/// `r#` or `r"` starts at `i`: the opening of a raw string, never an identifier.
pub open spec fn raw_prefix(s: Seq<char>, i: int) -> bool {
    0 <= i && i + 1 < s.len() && s[i] == 'r' && (s[i + 1] == '#' || s[i + 1] == '"')
}

/// Hyphens turned into underscores.
pub open spec fn normalized(t: Seq<char>) -> Seq<char> {
    t.map_values(|c: char| if c == '-' { '_' } else { c })
}

/// `ident`: a run of identifier characters not opening a raw string; its
/// value is the run with hyphens turned into underscores.
pub open spec fn ident(s: Seq<char>, i: int, f: Far) -> (Option<(int, Seq<char>)>, Far) {
    let e = ident_run_end(s, i);
    if raw_prefix(s, i) || e == i {
        (None, mark(f, i, Expected::Ident))
    } else {
        (Some((e, normalized(s.subrange(i, e)))), f)
    }
}

/// A quote followed by `d` hashes stands at `m`.
pub open spec fn closes_at(s: Seq<char>, m: int, d: int) -> bool {
    0 <= m && m + 1 + d <= s.len() && s[m] == '"' && forall|t: int|
        m < t <= m + d ==> #[trigger] s[t] == '#'
}

/// End of the first closing delimiter at or after `m`, if there is one.
pub open spec fn close_end(s: Seq<char>, m: int, d: int) -> Option<int>
    decreases s.len() - m,
{
    if m < 0 || m >= s.len() {
        None
    } else if closes_at(s, m, d) {
        Some(m + 1 + d)
    } else {
        close_end(s, m + 1, d)
    }
}

/// End of the string literal at `i`: an optional `r`, `d` hashes, a quote,
/// then everything up to the first quote followed by `d` hashes.
pub open spec fn string_end(s: Seq<char>, i: int) -> Option<int> {
    let j = if 0 <= i < s.len() && s[i] == 'r' { i + 1 } else { i };
    let k = hash_run_end(s, j);
    if 0 <= k < s.len() && s[k] == '"' {
        close_end(s, k + 1, k - j)
    } else {
        None
    }
}

/// Optional whitespace then `=` follows position `e`.
pub open spec fn eq_follows(s: Seq<char>, e: int) -> bool {
    let w = ws_end(s, e);
    0 <= w < s.len() && s[w] == '='
}

/// `atom`: a string literal, kept as written, or an identifier that does not
/// start a definition.
pub open spec fn atom(s: Seq<char>, i: int, f: Far) -> (Option<(int, Seq<char>)>, Far) {
    match string_end(s, i) {
        Some(e) => (Some((e, s.subrange(i, e))), f),
        None => {
            let (r, f1) = ident(s, i, mark(f, i, Expected::Str));
            match r {
                Some((e, n)) => if eq_follows(s, e) {
                    (None, f1)
                } else {
                    (Some((e, n)), f1)
                },
                None => (None, f1),
            }
        },
    }
}

/// The character `c` at `i`.
pub open spec fn token(s: Seq<char>, i: int, c: char, f: Far) -> (bool, Far) {
    if 0 <= i < s.len() && s[i] == c {
        (true, f)
    } else {
        (false, mark(f, i, Expected::Token(c)))
    }
}

/// `pat`: the first of these that matches at `i`: an atom; `*` or `+` then
/// a pattern; a parenthesised group of zero or more patterns; a bracketed
/// group of one or more.
pub open spec fn pat(s: Seq<char>, i: int, f: Far) -> (Option<(int, PatModel)>, Far)
    decreases s.len() - i, 1int,
{
    let (a, f1) = atom(s, i, f);
    match a {
        Some((e, t)) => (Some((e, PatModel::Atom(t))), f1),
        None => {
            let (r2, f2) = prefixed(s, i, '*', f1);
            match r2 {
                Some(_) => (r2, f2),
                None => {
                    let (r3, f3) = prefixed(s, i, '+', f2);
                    match r3 {
                        Some(_) => (r3, f3),
                        None => {
                            let (r4, f4) = group(s, i, '(', ')', f3);
                            match r4 {
                                Some((e, ps)) => (Some((e, PatModel::List(ps))), f4),
                                None => {
                                    let (r5, f5) = group(s, i, '[', ']', f4);
                                    match r5 {
                                        Some((e, ps)) if ps.len() > 0 => (
                                            Some((e, PatModel::Repeat(ps, '?'))),
                                            f5,
                                        ),
                                        _ => (None, f5),
                                    }
                                },
                            }
                        },
                    }
                },
            }
        },
    }
}

/// `c`, whitespace, then a pattern, which is repeated with marker `c`.
pub open spec fn prefixed(s: Seq<char>, i: int, c: char, f: Far) -> (
    Option<(int, PatModel)>,
    Far,
)
    decreases s.len() - i, 0int,
{
    let (ok, f1) = token(s, i, c, f);
    let j = ws_end(s, i + 1);
    if ok && i < j <= s.len() {
        let (r, f2) = pat(s, j, f1);
        match r {
            Some((e, p)) => (Some((e, PatModel::Repeat(seq![p], c))), f2),
            None => (None, f2),
        }
    } else {
        (None, f1)
    }
}

/// `open`, whitespace, patterns separated by whitespace, whitespace, `close`.
/// Zero patterns match here; the bracketed form asks for one or more.
pub open spec fn group(s: Seq<char>, i: int, open: char, close: char, f: Far) -> (
    Option<(int, Seq<PatModel>)>,
    Far,
)
    decreases s.len() - i, 0int,
{
    let (ok, f1) = token(s, i, open, f);
    let j = ws_end(s, i + 1);
    if ok && i < j <= s.len() {
        let (first, f2) = pat(s, j, f1);
        let (q, ps, f3) = match first {
            Some((e, p)) => if j < e <= s.len() {
                let (q, rest, f3) = more_pats(s, e, f2);
                (q, seq![p] + rest, f3)
            } else {
                (j, Seq::empty(), f2)
            },
            None => (j, Seq::empty(), f2),
        };
        if open == '[' && ps.len() == 0 {
            (None, f3)
        } else {
            let k = ws_end(s, q);
            let (closed, f4) = token(s, k, close, f3);
            if closed {
                (Some((k + 1, ps)), f4)
            } else {
                (None, f4)
            }
        }
    } else {
        (None, f1)
    }
}

/// Further patterns after one that ended at `q`, each after whitespace: the
/// end of the last one, the patterns, and the farthest failure.
pub open spec fn more_pats(s: Seq<char>, q: int, f: Far) -> (int, Seq<PatModel>, Far)
    decreases s.len() - q, 2int,
{
    let w = ws_end(s, q);
    if q <= w <= s.len() {
        let (r, f1) = pat(s, w, f);
        match r {
            Some((e, p)) => if w < e <= s.len() {
                let (end, rest, f2) = more_pats(s, e, f1);
                (end, seq![p] + rest, f2)
            } else {
                (q, Seq::empty(), f1)
            },
            None => (q, Seq::empty(), f1),
        }
    } else {
        (q, Seq::empty(), f)
    }
}

/// One alternative: one or more patterns separated by whitespace.
pub open spec fn branch(s: Seq<char>, i: int, f: Far) -> (Option<(int, PatModel)>, Far) {
    let (first, f1) = pat(s, i, f);
    match first {
        Some((e, p)) => if i < e <= s.len() {
            let (q, rest, f2) = more_pats(s, e, f1);
            (Some((q, PatModel::List(seq![p] + rest))), f2)
        } else {
            (None, f1)
        },
        None => (None, f1),
    }
}

/// Further alternatives after one that ended at `q`, each after whitespace,
/// `/` and whitespace.
pub open spec fn more_branches(s: Seq<char>, q: int, f: Far) -> (int, Seq<PatModel>, Far)
    decreases s.len() - q,
{
    let w = ws_end(s, q);
    let (slash, f1) = token(s, w, '/', f);
    let j = ws_end(s, w + 1);
    if slash && q <= w < j <= s.len() {
        let (r, f2) = branch(s, j, f1);
        match r {
            Some((e, b)) => if j < e <= s.len() {
                let (end, rest, f3) = more_branches(s, e, f2);
                (end, seq![b] + rest, f3)
            } else {
                (q, Seq::empty(), f2)
            },
            None => (q, Seq::empty(), f2),
        }
    } else {
        (q, Seq::empty(), f1)
    }
}

/// `def`: a name, `=`, alternatives separated by `/`, and an optional `;`,
/// with whitespace between them.
pub open spec fn def(s: Seq<char>, i: int, f: Far) -> (Option<(int, RuleModel)>, Far) {
    let (n, f1) = ident(s, i, f);
    match n {
        Some((e, name)) => {
            let k = ws_end(s, e);
            let (eq, f2) = token(s, k, '=', f1);
            if eq {
                let j = ws_end(s, k + 1);
                let (b, f3) = branch(s, j, f2);
                match b {
                    Some((e2, first)) => if j < e2 <= s.len() {
                        let (q, rest, f4) = more_branches(s, e2, f3);
                        let w = ws_end(s, q);
                        let (semi, f5) = token(s, w, ';', f4);
                        (Some((if semi { w + 1 } else { q }, RuleModel { name, body: seq![first] + rest })), f5)
                    } else {
                        (None, f3)
                    },
                    None => (None, f3),
                }
            } else {
                (None, f2)
            }
        },
        None => (None, f1),
    }
}

/// Definitions from `i` on, each followed by whitespace: where the last one
/// ended, the rules, and the farthest failure.
pub open spec fn defs_from(s: Seq<char>, i: int, f: Far) -> (int, Seq<RuleModel>, Far)
    decreases s.len() - i,
{
    let (d, f1) = def(s, i, f);
    match d {
        Some((e, r)) => {
            let j = ws_end(s, e);
            if i < e <= j <= s.len() {
                let (end, rest, f2) = defs_from(s, j, f1);
                (end, seq![r] + rest, f2)
            } else {
                (i, Seq::empty(), f1)
            }
        },
        None => (i, Seq::empty(), f1),
    }
}

/// The whole text: whitespace, then definitions, then the end of the input.
/// On failure, the farthest position at which a match failed and what was
/// expected there.
pub open spec fn grammar(s: Seq<char>) -> Result<Seq<RuleModel>, Far> {
    let (end, rules, f) = defs_from(s, ws_end(s, 0), no_failure());
    if end == s.len() {
        Ok(rules)
    } else {
        Err(mark(f, end, Expected::Eof))
    }
}

proof fn lemma_ident_run(s: Seq<char>, i: int)
    requires
        0 <= i <= s.len(),
    ensures
        i <= ident_run_end(s, i) <= s.len(),
        forall|t: int| i <= t < ident_run_end(s, i) ==> is_ident_char(#[trigger] s[t]),
    decreases s.len() - i,
{
    if i < s.len() && is_ident_char(s[i]) {
        lemma_ident_run(s, i + 1);
    }
}

proof fn lemma_ident_run_whole(s: Seq<char>, i: int)
    requires
        0 <= i <= s.len(),
        forall|t: int| i <= t < s.len() ==> is_ident_char(#[trigger] s[t]),
    ensures
        ident_run_end(s, i) == s.len(),
    decreases s.len() - i,
{
    if i < s.len() {
        lemma_ident_run_whole(s, i + 1);
    }
}

/// An identifier's value holds no hyphen, and reading that value again as an
/// identifier gives it back whole and unchanged.
pub proof fn lemma_ident_normalized(s: Seq<char>, i: int, f: Far, f2: Far)
    requires
        0 <= i <= s.len(),
    ensures
        match ident(s, i, f).0 {
            Some((e, n)) => !n.contains('-') && ident(n, 0, f2).0 == Some((n.len() as int, n)),
            None => true,
        },
{
    let e = ident_run_end(s, i);
    lemma_ident_run(s, i);
    if !(raw_prefix(s, i) || e == i) {
        let n = normalized(s.subrange(i, e));
        assert forall|t: int| 0 <= t < n.len() implies is_ident_char(#[trigger] n[t]) && n[t]
            != '-' by {
            assert(is_ident_char(s[i + t]));
        }
        lemma_ident_run_whole(n, 0);
        if n.len() > 1 && n[0] == 'r' {
            assert(is_ident_char(n[1]));
        }
        assert(n.subrange(0, n.len() as int) =~= n);
        assert(normalized(n) =~= n);
    }
}

/// `d` hashes.
pub open spec fn hashes(d: nat) -> Seq<char> {
    Seq::new(d, |t: int| '#')
}

/// A string literal: an optional `r`, `d` hashes, a quote, the body, a
/// quote and `d` hashes.
pub open spec fn literal(raw: bool, d: nat, body: Seq<char>) -> Seq<char> {
    (if raw { seq!['r'] } else { Seq::empty() }) + hashes(d) + seq!['"'] + body + seq!['"']
        + hashes(d)
}

proof fn lemma_hash_run(s: Seq<char>, j: int, k: int)
    requires
        0 <= j <= k < s.len(),
        forall|t: int| j <= t < k ==> #[trigger] s[t] == '#',
        s[k] != '#',
    ensures
        hash_run_end(s, j) == k,
    decreases k - j,
{
    if j < k {
        lemma_hash_run(s, j + 1, k);
    }
}

proof fn lemma_close_end(s: Seq<char>, m: int, stop: int, d: int)
    requires
        0 <= m <= stop < s.len(),
        forall|t: int| m <= t < stop ==> !#[trigger] closes_at(s, t, d),
        closes_at(s, stop, d),
    ensures
        close_end(s, m, d) == Some(stop + 1 + d),
    decreases stop - m,
{
    if m < stop {
        lemma_close_end(s, m + 1, stop, d);
    }
}

/// A string literal with any number of hashes is read whole, as written,
/// whatever its body holds (other quotes, fewer hashes than close it,
/// characters outside ASCII), as long as no quote in its body is followed by
/// the full closing run of hashes.
pub proof fn lemma_string_literal(raw: bool, d: nat, body: Seq<char>, f: Far)
    requires
        forall|m: int|
            #![trigger closes_at(literal(raw, d, body), m, d as int)]
            (if raw { 1int } else { 0int }) + d + 1 <= m < (if raw { 1int } else { 0int }) + d + 1
                + body.len() ==> !closes_at(literal(raw, d, body), m, d as int),
    ensures
        string_end(literal(raw, d, body), 0) == Some(literal(raw, d, body).len() as int),
        atom(literal(raw, d, body), 0, f).0 == Some(
            (literal(raw, d, body).len() as int, literal(raw, d, body)),
        ),
{
    let s = literal(raw, d, body);
    let j: int = if raw { 1 } else { 0 };
    let k = j + d;
    let stop = k + 1 + body.len();
    assert(s.len() == stop + 1 + d);
    assert forall|t: int| j <= t < k implies #[trigger] s[t] == '#' by {
        assert(s[t] == hashes(d)[t - j]);
    }
    assert(s[k] == '"');
    lemma_hash_run(s, j, k);
    if !raw {
        if d > 0 {
            assert(s[0] == '#');
        } else {
            assert(s[0] == '"');
        }
    }
    assert(s[stop] == '"');
    assert forall|t: int| stop < t <= stop + d implies #[trigger] s[t] == '#' by {
        assert(s[t] == hashes(d)[t - stop - 1]);
    }
    assert(closes_at(s, stop, d as int));
    lemma_close_end(s, k + 1, stop, d as int);
    assert(s.subrange(0, s.len() as int) =~= s);
}

proof fn lemma_more_branches_wf(s: Seq<char>, q: int, f: Far)
    ensures
        forall|k: int|
            0 <= k < more_branches(s, q, f).1.len() ==> (#[trigger] more_branches(s, q, f).1[k] is List
                && more_branches(s, q, f).1[k]->List_0.len() > 0),
    decreases s.len() - q,
{
    let w = ws_end(s, q);
    let (slash, f1) = token(s, w, '/', f);
    let j = ws_end(s, w + 1);
    if slash && q <= w < j <= s.len() {
        let (r, f2) = branch(s, j, f1);
        if let Some((e, b)) = r {
            if j < e <= s.len() {
                lemma_more_branches_wf(s, e, f2);
                let rest = more_branches(s, e, f2).1;
                assert(more_branches(s, q, f).1 == seq![b] + rest);
                assert forall|k: int| 0 <= k < rest.len() + 1 implies (#[trigger] (seq![b]
                    + rest)[k] is List && (seq![b] + rest)[k]->List_0.len() > 0) by {
                    if k > 0 {
                        assert((seq![b] + rest)[k] == rest[k - 1]);
                    }
                }
            }
        }
    }
}

proof fn lemma_def_wf(s: Seq<char>, i: int, f: Far)
    requires
        0 <= i <= s.len(),
    ensures
        match def(s, i, f).0 {
            Some((e, r)) => rule_wf(r),
            None => true,
        },
{
    lemma_ident_normalized(s, i, f, f);
    let (n, f1) = ident(s, i, f);
    if let Some((e, name)) = n {
        let k = ws_end(s, e);
        let (eq, f2) = token(s, k, '=', f1);
        if eq {
            let j = ws_end(s, k + 1);
            let (b, f3) = branch(s, j, f2);
            if let Some((e2, first)) = b {
                if j < e2 <= s.len() {
                    lemma_more_branches_wf(s, e2, f3);
                    let rest = more_branches(s, e2, f3).1;
                    assert forall|t: int| 0 <= t < rest.len() + 1 implies (#[trigger] (seq![first]
                        + rest)[t] is List && (seq![first] + rest)[t]->List_0.len() > 0) by {
                        if t > 0 {
                            assert((seq![first] + rest)[t] == rest[t - 1]);
                        }
                    }
                }
            }
        }
    }
}

proof fn lemma_defs_from_wf(s: Seq<char>, i: int, f: Far)
    requires
        0 <= i <= s.len(),
    ensures
        forall|k: int|
            0 <= k < defs_from(s, i, f).1.len() ==> rule_wf(#[trigger] defs_from(s, i, f).1[k]),
    decreases s.len() - i,
{
    lemma_def_wf(s, i, f);
    let (d, f1) = def(s, i, f);
    if let Some((e, r)) = d {
        let j = ws_end(s, e);
        if i < e <= j <= s.len() {
            lemma_defs_from_wf(s, j, f1);
            let rest = defs_from(s, j, f1).1;
            assert forall|k: int| 0 <= k < rest.len() + 1 implies rule_wf(
                #[trigger] (seq![r] + rest)[k],
            ) by {
                if k > 0 {
                    assert((seq![r] + rest)[k] == rest[k - 1]);
                }
            }
        }
    }
}

proof fn lemma_ws_end(s: Seq<char>, i: int)
    requires
        0 <= i <= s.len(),
    ensures
        i <= ws_end(s, i) <= s.len(),
    decreases s.len() - i,
{
    if i < s.len() && is_ws(s[i]) {
        lemma_ws_end(s, i + 1);
    }
}

/// Every rule that a successful parse gives is well formed: its name holds
/// no hyphen, and it has at least one alternative, each a non-empty group.
pub proof fn lemma_parsed_rules_wf(s: Seq<char>)
    ensures
        match grammar(s) {
            Ok(rs) => forall|k: int| 0 <= k < rs.len() ==> rule_wf(#[trigger] rs[k]),
            Err(_) => true,
        },
{
    lemma_ws_end(s, 0);
    lemma_defs_from_wf(s, ws_end(s, 0), no_failure());
}

} // verus!
