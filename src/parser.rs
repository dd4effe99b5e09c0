//! The recognizer: one executable function per rule of the grammar in
//! [`crate::grammar`], each proved to give what that rule's spec function gives.
use vstd::prelude::*;
use vstd::string::StrSliceExecFns;
use crate::grammar as g;
use crate::grammar::{Expected, Far};
use crate::model::{Pat, PatModel, Rule, lemma_pat_model_children, pat_model, pats_model, rule_model, rules_model};
use crate::printer::push_char;

verus! {

/// The farthest failure seen so far, with each expectation there listed once.
struct Failures {
    pos: usize,
    expected: Vec<Expected>,
}

impl View for Failures {
    type V = Far;

    closed spec fn view(&self) -> Far {
        Far { pos: self.pos as int, exp: self.expected@.to_set() }
    }
}

proof fn lemma_push_to_set(v: Seq<Expected>, e: Expected)
    ensures
        v.push(e).to_set() == v.to_set().insert(e),
{
    assert forall|x: Expected| #[trigger]
        v.push(e).to_set().contains(x) <==> v.to_set().insert(e).contains(x) by {
        if v.push(e).contains(x) && x != e {
            let t = choose|t: int| 0 <= t < v.push(e).len() && v.push(e)[t] == x;
            assert(v[t] == x);
        }
        if v.contains(x) {
            let t = choose|t: int| 0 <= t < v.len() && v[t] == x;
            assert(v.push(e)[t] == x);
        }
        if x == e {
            assert(v.push(e)[v.len() as int] == e);
        }
    }
    assert(v.push(e).to_set() =~= v.to_set().insert(e));
}

impl Failures {
    spec fn within(&self, s: Seq<char>) -> bool {
        self.pos <= s.len() && self.expected@.no_duplicates()
    }

    fn note(&mut self, pos: usize, e: Expected)
        requires
            old(self).expected@.no_duplicates(),
        ensures
            final(self)@ == g::mark(old(self)@, pos as int, e),
            final(self).expected@.no_duplicates(),
            final(self).pos == if pos > old(self).pos { pos } else { old(self).pos },
    {
        if pos > self.pos {
            self.pos = pos;
            self.expected = Vec::new();
            proof {
                lemma_push_to_set(self.expected@, e);
                assert(self.expected@.to_set() =~= Set::empty());
            }
            self.expected.push(e);
        } else if pos == self.pos {
            let mut k: usize = 0;
            let mut found = false;
            while k < self.expected.len()
                invariant
                    k <= self.expected@.len(),
                    found <==> exists|t: int| 0 <= t < k && self.expected@[t] == e,
                decreases self.expected@.len() - k,
            {
                if self.expected[k] == e {
                    found = true;
                }
                k = k + 1;
            }
            let ghost before = self.expected@;
            if !found {
                self.expected.push(e);
                proof {
                    lemma_push_to_set(before, e);
                }
            } else {
                assert(before.contains(e));
                assert(before.to_set() =~= before.to_set().insert(e));
            }
        }
    }
}

/// Where a parse failed, counted as the recognizer's error position is.
#[derive(Clone, Copy, Debug, PartialEq, Eq)]
pub struct LineCol {
    /// Line, from 1.
    pub line: usize,
    /// Column in characters, from 1.
    pub column: usize,
    /// Index of the character, from 0.
    pub offset: usize,
}

/// A syntax error: the farthest position at which a match failed, and each
/// thing that was expected there, once.
#[derive(Debug)]
pub struct ParseError {
    pub location: LineCol,
    pub expected: Vec<Expected>,
}

/// Line of position `n`, from 1: one more than the newlines before it.
pub open spec fn line_of(s: Seq<char>, n: int) -> int
    decreases n,
{
    if n <= 0 {
        1
    } else {
        line_of(s, n - 1) + if s[n - 1] == '\n' { 1int } else { 0int }
    }
}

/// Column of position `n`, from 1: one more than the characters between the
/// last newline before it and it.
pub open spec fn column_of(s: Seq<char>, n: int) -> int
    decreases n,
{
    if n <= 0 {
        1
    } else if s[n - 1] == '\n' {
        1
    } else {
        column_of(s, n - 1) + 1
    }
}

/// `err` reports the failure `f` in the text `s`.
pub open spec fn reports(err: ParseError, s: Seq<char>, f: Far) -> bool {
    &&& err.location.offset == f.pos
    &&& err.location.line == line_of(s, f.pos)
    &&& err.location.column == column_of(s, f.pos)
    &&& err.expected@.to_set() == f.exp
    &&& err.expected@.no_duplicates()
}

/// Line and column of position `n`.
pub fn line_col(s: &Vec<char>, n: usize) -> (r: LineCol)
    requires
        n <= s@.len(),
        s@.len() < usize::MAX,
    ensures
        r.offset == n,
        r.line == line_of(s@, n as int),
        r.column == column_of(s@, n as int),
{
    let mut line: usize = 1;
    let mut column: usize = 1;
    let mut i: usize = 0;
    while i < n
        invariant
            i <= n <= s@.len() < usize::MAX,
            line == line_of(s@, i as int),
            column == column_of(s@, i as int),
            1 <= line <= i + 1,
            1 <= column <= i + 1,
        decreases n - i,
    {
        if s[i] == '\n' {
            line = line + 1;
            column = 1;
        } else {
            column = column + 1;
        }
        i = i + 1;
    }
    LineCol { line, column, offset: n }
}

fn ws(s: &Vec<char>, i: usize) -> (j: usize)
    requires
        i <= s@.len(),
    ensures
        j == g::ws_end(s@, i as int),
        i <= j <= s@.len(),
{
    let mut j = i;
    while j < s.len() && (s[j] == ' ' || s[j] == '\t' || s[j] == '\r' || s[j] == '\n')
        invariant
            i <= j <= s@.len(),
            g::ws_end(s@, j as int) == g::ws_end(s@, i as int),
        decreases s@.len() - j,
    {
        j = j + 1;
    }
    j
}

fn is_ident_char(c: char) -> (b: bool)
    ensures
        b == g::is_ident_char(c),
{
    ('a' <= c && c <= 'z') || ('A' <= c && c <= 'Z') || ('0' <= c && c <= '9') || c == '-'
        || c == '_' || c as u32 >= 128
}

fn ident_run(s: &Vec<char>, i: usize) -> (j: usize)
    requires
        i <= s@.len(),
    ensures
        j == g::ident_run_end(s@, i as int),
        i <= j <= s@.len(),
{
    let mut j = i;
    while j < s.len() && is_ident_char(s[j])
        invariant
            i <= j <= s@.len(),
            g::ident_run_end(s@, j as int) == g::ident_run_end(s@, i as int),
        decreases s@.len() - j,
    {
        j = j + 1;
    }
    j
}

fn hash_run(s: &Vec<char>, i: usize) -> (j: usize)
    requires
        i <= s@.len(),
    ensures
        j == g::hash_run_end(s@, i as int),
        i <= j <= s@.len(),
{
    let mut j = i;
    while j < s.len() && s[j] == '#'
        invariant
            i <= j <= s@.len(),
            g::hash_run_end(s@, j as int) == g::hash_run_end(s@, i as int),
        decreases s@.len() - j,
    {
        j = j + 1;
    }
    j
}

/// The characters of `s` from `i` to `e`, with `-` turned into `_` where
/// `normalize` is set.
fn copy_range(s: &Vec<char>, i: usize, e: usize, normalize: bool) -> (t: String)
    requires
        i <= e <= s@.len(),
    ensures
        normalize ==> t@ == g::normalized(s@.subrange(i as int, e as int)),
        !normalize ==> t@ == s@.subrange(i as int, e as int),
{
    let mut t = String::new();
    let mut k = i;
    while k < e
        invariant
            i <= k <= e <= s@.len(),
            normalize ==> t@ == g::normalized(s@.subrange(i as int, k as int)),
            !normalize ==> t@ == s@.subrange(i as int, k as int),
        decreases e - k,
    {
        let c = s[k];
        if normalize && c == '-' {
            push_char(&mut t, '_');
        } else {
            push_char(&mut t, c);
        }
        k = k + 1;
        assert(s@.subrange(i as int, k as int) =~= s@.subrange(i as int, k - 1).push(c));
        assert(g::normalized(s@.subrange(i as int, k as int)) =~= g::normalized(
            s@.subrange(i as int, k - 1),
        ).push(if c == '-' { '_' } else { c }));
    }
    t
}

fn ident(s: &Vec<char>, i: usize, far: &mut Failures) -> (r: Option<(usize, String)>)
    requires
        i <= s@.len(),
        old(far).within(s@),
    ensures
        final(far).within(s@),
        ({
            let (sr, sf) = g::ident(s@, i as int, old(far)@);
            &&& final(far)@ == sf
            &&& match r {
                Some((e, t)) => sr == Some((e as int, t@)) && i < e <= s@.len(),
                None => sr is None,
            }
        }),
{
    let e = ident_run(s, i);
    let raw = i < s.len() && i + 1 < s.len() && s[i] == 'r' && (s[i + 1] == '#' || s[i + 1] == '"');
    if raw || e == i {
        far.note(i, Expected::Ident);
        None
    } else {
        Some((e, copy_range(s, i, e, true)))
    }
}

/// A quote followed by `d` hashes stands at `m`.
fn closes_at(s: &Vec<char>, m: usize, d: usize) -> (b: bool)
    requires
        m < s@.len(),
    ensures
        b == g::closes_at(s@, m as int, d as int),
        b ==> m + 1 + d <= s@.len(),
{
    if s[m] != '"' || d >= s.len() - m {
        return false;
    }
    let end = m + 1 + d;
    let mut u = m + 1;
    while u < end
        invariant
            m < u <= end,
            end == m + 1 + d,
            end <= s@.len(),
            forall|t: int| m < t < u ==> #[trigger] s@[t] == '#',
        decreases end - u,
    {
        if s[u] != '#' {
            return false;
        }
        u = u + 1;
    }
    true
}

fn string_end(s: &Vec<char>, i: usize) -> (r: Option<usize>)
    requires
        i <= s@.len(),
    ensures
        match r {
            Some(e) => g::string_end(s@, i as int) == Some(e as int) && i < e <= s@.len(),
            None => g::string_end(s@, i as int) is None,
        },
{
    let j = if i < s.len() && s[i] == 'r' { i + 1 } else { i };
    let k = hash_run(s, j);
    if k < s.len() && s[k] == '"' {
        let d = k - j;
        let mut m = k + 1;
        while m < s.len()
            invariant
                i <= j <= k < m <= s@.len(),
                d == k - j,
                g::string_end(s@, i as int) == g::close_end(s@, m as int, d as int),
            decreases s@.len() - m,
        {
            if closes_at(s, m, d) {
                let e = m + 1 + d;
                assert(g::close_end(s@, m as int, d as int) == Some(e as int));
                return Some(e);
            }
            m = m + 1;
        }
        None
    } else {
        None
    }
}

fn atom(s: &Vec<char>, i: usize, far: &mut Failures) -> (r: Option<(usize, String)>)
    requires
        i <= s@.len(),
        old(far).within(s@),
    ensures
        final(far).within(s@),
        ({
            let (sr, sf) = g::atom(s@, i as int, old(far)@);
            &&& final(far)@ == sf
            &&& match r {
                Some((e, t)) => sr == Some((e as int, t@)) && i < e <= s@.len(),
                None => sr is None,
            }
        }),
{
    match string_end(s, i) {
        Some(e) => Some((e, copy_range(s, i, e, false))),
        None => {
            far.note(i, Expected::Str);
            match ident(s, i, far) {
                Some((e, n)) => {
                    let w = ws(s, e);
                    if w < s.len() && s[w] == '=' {
                        None
                    } else {
                        Some((e, n))
                    }
                },
                None => None,
            }
        },
    }
}

fn token(s: &Vec<char>, i: usize, c: char, far: &mut Failures) -> (ok: bool)
    requires
        i <= s@.len(),
        old(far).within(s@),
    ensures
        final(far).within(s@),
        (ok, final(far)@) == g::token(s@, i as int, c, old(far)@),
        ok ==> i < s.len(),
{
    if i < s.len() && s[i] == c {
        true
    } else {
        far.note(i, Expected::Token(c));
        false
    }
}

proof fn lemma_pats_model_prepend(p: Pat, rest: Seq<Pat>)
    ensures
        pats_model(rest.insert(0, p)) == seq![pat_model(p)] + pats_model(rest),
{
    assert(pats_model(rest.insert(0, p)) =~= seq![pat_model(p)] + pats_model(rest));
}

fn pat(s: &Vec<char>, i: usize, far: &mut Failures) -> (r: Option<(usize, Pat)>)
    requires
        i <= s@.len(),
        old(far).within(s@),
    ensures
        final(far).within(s@),
        ({
            let (sr, sf) = g::pat(s@, i as int, old(far)@);
            &&& final(far)@ == sf
            &&& match r {
                Some((e, p)) => sr == Some((e as int, pat_model(p))) && i < e <= s@.len(),
                None => sr is None,
            }
        }),
    decreases s@.len() - i, 1int,
{
    if let Some((e, t)) = atom(s, i, far) {
        return Some((e, Pat::Atom(t)));
    }
    if let Some(r) = prefixed(s, i, '*', far) {
        return Some(r);
    }
    if let Some(r) = prefixed(s, i, '+', far) {
        return Some(r);
    }
    if let Some((e, ps)) = group(s, i, '(', ')', far) {
        let p = Pat::List(ps);
        proof {
            lemma_pat_model_children(p);
        }
        return Some((e, p));
    }
    if let Some((e, ps)) = group(s, i, '[', ']', far) {
        let p = Pat::Repeat(ps, '?');
        proof {
            lemma_pat_model_children(p);
        }
        return Some((e, p));
    }
    None
}

fn prefixed(s: &Vec<char>, i: usize, c: char, far: &mut Failures) -> (r: Option<(usize, Pat)>)
    requires
        i <= s@.len(),
        old(far).within(s@),
    ensures
        final(far).within(s@),
        ({
            let (sr, sf) = g::prefixed(s@, i as int, c, old(far)@);
            &&& final(far)@ == sf
            &&& match r {
                Some((e, p)) => sr == Some((e as int, pat_model(p))) && i < e <= s@.len(),
                None => sr is None,
            }
        }),
    decreases s@.len() - i, 0int,
{
    if !token(s, i, c, far) {
        return None;
    }
    let j = ws(s, i + 1);
    match pat(s, j, far) {
        Some((e, p)) => {
            let mut v: Vec<Pat> = Vec::new();
            v.push(p);
            let q = Pat::Repeat(v, c);
            proof {
                lemma_pat_model_children(q);
                assert(pats_model(v@) =~= seq![pat_model(p)]);
            }
            Some((e, q))
        },
        None => None,
    }
}

fn group(s: &Vec<char>, i: usize, open: char, close: char, far: &mut Failures) -> (r: Option<
    (usize, Vec<Pat>),
>)
    requires
        i <= s@.len(),
        old(far).within(s@),
    ensures
        final(far).within(s@),
        ({
            let (sr, sf) = g::group(s@, i as int, open, close, old(far)@);
            &&& final(far)@ == sf
            &&& match r {
                Some((e, ps)) => sr == Some((e as int, pats_model(ps@))) && i < e <= s@.len(),
                None => sr is None,
            }
        }),
    decreases s@.len() - i, 0int,
{
    if !token(s, i, open, far) {
        return None;
    }
    let j = ws(s, i + 1);
    let (q, ps) = match pat(s, j, far) {
        Some((e, p)) => {
            let (q, mut rest) = more_pats(s, e, far);
            proof {
                lemma_pats_model_prepend(p, rest@);
            }
            rest.insert(0, p);
            (q, rest)
        },
        None => {
            assert(pats_model(Seq::<Pat>::empty()) =~= Seq::empty());
            (j, Vec::new())
        },
    };
    if open == '[' && ps.len() == 0 {
        return None;
    }
    let k = ws(s, q);
    if token(s, k, close, far) {
        Some((k + 1, ps))
    } else {
        None
    }
}

fn more_pats(s: &Vec<char>, q: usize, far: &mut Failures) -> (r: (usize, Vec<Pat>))
    requires
        q <= s@.len(),
        old(far).within(s@),
    ensures
        final(far).within(s@),
        ({
            let (se, sps, sf) = g::more_pats(s@, q as int, old(far)@);
            &&& final(far)@ == sf
            &&& r.0 == se
            &&& pats_model(r.1@) == sps
            &&& q <= r.0 <= s@.len()
        }),
    decreases s@.len() - q, 2int,
{
    let w = ws(s, q);
    match pat(s, w, far) {
        Some((e, p)) => {
            let (end, mut rest) = more_pats(s, e, far);
            proof {
                lemma_pats_model_prepend(p, rest@);
            }
            rest.insert(0, p);
            (end, rest)
        },
        None => {
            assert(pats_model(Seq::<Pat>::empty()) =~= Seq::empty());
            (q, Vec::new())
        },
    }
}

fn branch(s: &Vec<char>, i: usize, far: &mut Failures) -> (r: Option<(usize, Pat)>)
    requires
        i <= s@.len(),
        old(far).within(s@),
    ensures
        final(far).within(s@),
        ({
            let (sr, sf) = g::branch(s@, i as int, old(far)@);
            &&& final(far)@ == sf
            &&& match r {
                Some((e, p)) => sr == Some((e as int, pat_model(p))) && i < e <= s@.len(),
                None => sr is None,
            }
        }),
{
    match pat(s, i, far) {
        Some((e, p)) => {
            let (q, mut rest) = more_pats(s, e, far);
            proof {
                lemma_pats_model_prepend(p, rest@);
            }
            rest.insert(0, p);
            let l = Pat::List(rest);
            proof {
                lemma_pat_model_children(l);
            }
            Some((q, l))
        },
        None => None,
    }
}

fn more_branches(s: &Vec<char>, q: usize, far: &mut Failures) -> (r: (usize, Vec<Pat>))
    requires
        q <= s@.len(),
        old(far).within(s@),
    ensures
        final(far).within(s@),
        ({
            let (se, sbs, sf) = g::more_branches(s@, q as int, old(far)@);
            &&& final(far)@ == sf
            &&& r.0 == se
            &&& pats_model(r.1@) == sbs
            &&& q <= r.0 <= s@.len()
        }),
    decreases s@.len() - q,
{
    let w = ws(s, q);
    if !token(s, w, '/', far) {
        assert(pats_model(Seq::<Pat>::empty()) =~= Seq::empty());
        return (q, Vec::new());
    }
    let j = ws(s, w + 1);
    match branch(s, j, far) {
        Some((e, b)) => {
            let (end, mut rest) = more_branches(s, e, far);
            proof {
                lemma_pats_model_prepend(b, rest@);
            }
            rest.insert(0, b);
            (end, rest)
        },
        None => {
            assert(pats_model(Seq::<Pat>::empty()) =~= Seq::empty());
            (q, Vec::new())
        },
    }
}

fn def(s: &Vec<char>, i: usize, far: &mut Failures) -> (r: Option<(usize, Rule)>)
    requires
        i <= s@.len(),
        old(far).within(s@),
    ensures
        final(far).within(s@),
        ({
            let (sr, sf) = g::def(s@, i as int, old(far)@);
            &&& final(far)@ == sf
            &&& match r {
                Some((e, d)) => sr == Some((e as int, rule_model(d))) && i < e <= s@.len(),
                None => sr is None,
            }
        }),
{
    let (e, name) = match ident(s, i, far) {
        Some(n) => n,
        None => return None,
    };
    let k = ws(s, e);
    if !token(s, k, '=', far) {
        return None;
    }
    let j = ws(s, k + 1);
    let (e2, first) = match branch(s, j, far) {
        Some(b) => b,
        None => return None,
    };
    let (q, mut body) = more_branches(s, e2, far);
    proof {
        lemma_pats_model_prepend(first, body@);
    }
    body.insert(0, first);
    let w = ws(s, q);
    let end = if token(s, w, ';', far) { w + 1 } else { q };
    Some((end, Rule { name, body }))
}

proof fn lemma_rules_model_prepend(r: Rule, rest: Seq<Rule>)
    ensures
        rules_model(rest.insert(0, r)) == seq![rule_model(r)] + rules_model(rest),
{
    assert(rules_model(rest.insert(0, r)) =~= seq![rule_model(r)] + rules_model(rest));
}

fn defs_from(s: &Vec<char>, i: usize, far: &mut Failures) -> (r: (usize, Vec<Rule>))
    requires
        i <= s@.len(),
        old(far).within(s@),
    ensures
        final(far).within(s@),
        ({
            let (se, srs, sf) = g::defs_from(s@, i as int, old(far)@);
            &&& final(far)@ == sf
            &&& r.0 == se
            &&& rules_model(r.1@) == srs
            &&& i <= r.0 <= s@.len()
        }),
    decreases s@.len() - i,
{
    match def(s, i, far) {
        Some((e, d)) => {
            let j = ws(s, e);
            let (end, mut rest) = defs_from(s, j, far);
            proof {
                lemma_rules_model_prepend(d, rest@);
            }
            rest.insert(0, d);
            (end, rest)
        },
        None => {
            assert(rules_model(Seq::<Rule>::empty()) =~= Seq::empty());
            (i, Vec::new())
        },
    }
}

/// Parses a whole grammar text: optional whitespace, then definitions, each
/// followed by optional whitespace, up to the end of the input. On success the
/// rules come in source order; on failure the error gives the farthest
/// position at which a match failed and what was expected there.
pub fn defs(src: &str) -> (r: Result<Vec<Rule>, ParseError>)
    requires
        src@.len() < usize::MAX,
    ensures
        match (g::grammar(src@), r) {
            (Ok(rs), Ok(v)) => rules_model(v@) == rs,
            (Err(f), Err(e)) => reports(e, src@, f),
            _ => false,
        },
{
    let n = src.unicode_len();
    let mut s: Vec<char> = Vec::new();
    let mut k: usize = 0;
    while k < n
        invariant
            k <= n,
            n == src@.len(),
            s@ == src@.subrange(0, k as int),
        decreases n - k,
    {
        s.push(src.get_char(k));
        k = k + 1;
        assert(s@ =~= src@.subrange(0, k as int));
    }
    assert(s@ =~= src@);
    let mut far = Failures { pos: 0, expected: Vec::new() };
    assert(far@.exp =~= Set::empty());
    let start = ws(&s, 0);
    let (end, rules) = defs_from(&s, start, &mut far);
    if end == s.len() {
        Ok(rules)
    } else {
        far.note(end, Expected::Eof);
        let location = line_col(&s, far.pos);
        Err(ParseError { location, expected: far.expected })
    }
}

} // verus!
