use vstd::prelude::*;

use crate::{assoc_find, phone_views, Phone, Phonology, PhonologyModel};
use crate::chars::{copy_range, extend_chars, split_ws, tokenize, views_of};
use crate::file::{
    env_views, qual_views, ChangeModel, EnvModel, Environment, PhoneQualifier, QualModel,
    SoundChange,
};

verus! {

// ---------------------------------------------------------------------------
// The symbol table
// ---------------------------------------------------------------------------

/// What a one-character shorthand stands for: its bound phones and its
/// qualifiers.
#[derive(Debug)]
pub struct Symbol {
    pub phones: Vec<Phone>,
    pub qualifiers: Vec<PhoneQualifier>,
}

/// The mathematical content of a symbol-table entry.
pub struct SymbolModel {
    pub phones: Seq<Seq<char>>,
    pub qualifiers: Seq<QualModel>,
}

impl View for Symbol {
    type V = SymbolModel;

    open spec fn view(&self) -> SymbolModel {
        SymbolModel { phones: phone_views(self.phones@), qualifiers: qual_views(self.qualifiers@) }
    }
}

pub open spec fn syms_view(v: Seq<(char, Symbol)>) -> Seq<(char, SymbolModel)> {
    v.map_values(|e: (char, Symbol)| (e.0, e.1@))
}

/// The first symbol-table entry for a character, if any.
pub open spec fn sym_index(s: Seq<(char, SymbolModel)>, c: char) -> Option<int>
    decreases s.len(),
{
    if s.len() == 0 {
        None
    } else if s[0].0 == c {
        Some(0)
    } else {
        match sym_index(s.drop_first(), c) {
            Some(i) => Some(i + 1),
            None => None,
        }
    }
}

pub proof fn lemma_sym_index(s: Seq<(char, SymbolModel)>, c: char)
    ensures
        match sym_index(s, c) {
            Some(i) => 0 <= i < s.len() && s[i].0 == c && forall|k: int|
                0 <= k < i ==> s[k].0 != c,
            None => forall|k: int| 0 <= k < s.len() ==> s[k].0 != c,
        },
    decreases s.len(),
{
    if s.len() > 0 && s[0].0 != c {
        lemma_sym_index(s.drop_first(), c);
        match sym_index(s.drop_first(), c) {
            Some(i) => {
                assert(s[i + 1] == s.drop_first()[i]);
                assert forall|k: int| 0 <= k < i + 1 implies s[k].0 != c by {
                    if k > 0 {
                        assert(s.drop_first()[k - 1] == s[k]);
                    }
                }
            },
            None => {
                assert forall|k: int| 0 <= k < s.len() implies s[k].0 != c by {
                    if k > 0 {
                        assert(s.drop_first()[k - 1] == s[k]);
                    }
                }
            },
        }
    }
}

pub open spec fn sym_find(s: Seq<(char, SymbolModel)>, c: char) -> Option<SymbolModel> {
    match sym_index(s, c) {
        Some(i) => Some(s[i].1),
        None => None,
    }
}

// ---------------------------------------------------------------------------
// Compiling patterns
// ---------------------------------------------------------------------------

/// The ordered member list one pattern term stands for: a category name
/// resolves to its members, a one-character symbol to its bound phones, and
/// anything else is the literal phone itself.
pub open spec fn resolve_term(
    t: Seq<char>,
    ph: PhonologyModel,
    syms: Seq<(char, SymbolModel)>,
) -> Seq<Seq<char>> {
    match assoc_find(ph.cats, t) {
        Some(m) => m,
        None => if t.len() == 1 && sym_find(syms, t[0]) is Some {
            sym_find(syms, t[0]).unwrap().phones
        } else {
            seq![t]
        },
    }
}

pub open spec fn compile_terms(
    toks: Seq<Seq<char>>,
    ph: PhonologyModel,
    syms: Seq<(char, SymbolModel)>,
) -> Seq<Seq<char>>
    decreases toks.len(),
{
    if toks.len() == 0 {
        Seq::<Seq<char>>::empty()
    } else {
        resolve_term(toks[0], ph, syms) + compile_terms(toks.drop_first(), ph, syms)
    }
}

/// The ordered member list of a whole pattern: the concatenation of what its
/// whitespace-separated terms stand for.  A member at position `k` of the
/// `from` pattern corresponds to the member at position `k` of the `to`
/// pattern.
pub open spec fn compile(
    pat: Seq<char>,
    ph: PhonologyModel,
    syms: Seq<(char, SymbolModel)>,
) -> Seq<Seq<char>> {
    compile_terms(split_ws(pat), ph, syms)
}

// ---------------------------------------------------------------------------
// Compiled environments
// ---------------------------------------------------------------------------

/// A compiled environment: the flags of the clause, whether each side has
/// any text at all, and the member lists that each side's text stands for.
pub struct EnvC {
    pub exception: bool,
    pub from_start: bool,
    pub to_end: bool,
    pub before_present: bool,
    pub after_present: bool,
    pub before: Vec<Vec<char>>,
    pub after: Vec<Vec<char>>,
}

/// The mathematical content of a compiled environment.
pub struct EnvCModel {
    pub exception: bool,
    pub from_start: bool,
    pub to_end: bool,
    pub before_present: bool,
    pub after_present: bool,
    pub before: Seq<Seq<char>>,
    pub after: Seq<Seq<char>>,
}

impl View for EnvC {
    type V = EnvCModel;

    open spec fn view(&self) -> EnvCModel {
        EnvCModel {
            exception: self.exception,
            from_start: self.from_start,
            to_end: self.to_end,
            before_present: self.before_present,
            after_present: self.after_present,
            before: views_of(self.before@),
            after: views_of(self.after@),
        }
    }
}

pub open spec fn envc_views(es: Seq<EnvC>) -> Seq<EnvCModel> {
    es.map_values(|e: EnvC| e@)
}

pub open spec fn compile_env(
    e: EnvModel,
    ph: PhonologyModel,
    syms: Seq<(char, SymbolModel)>,
) -> EnvCModel {
    EnvCModel {
        exception: e.exception,
        from_start: e.from_start,
        to_end: e.to_end,
        before_present: split_ws(e.before).len() > 0,
        after_present: split_ws(e.after).len() > 0,
        before: compile(e.before, ph, syms),
        after: compile(e.after, ph, syms),
    }
}

pub open spec fn compile_envs(
    es: Seq<EnvModel>,
    ph: PhonologyModel,
    syms: Seq<(char, SymbolModel)>,
) -> Seq<EnvCModel> {
    es.map_values(|e: EnvModel| compile_env(e, ph, syms))
}

// ---------------------------------------------------------------------------
// Where an environment holds
// ---------------------------------------------------------------------------

/// Whether member `m` ends immediately before position `i` of the word.
pub open spec fn fits_before(m: Seq<char>, w: Seq<char>, i: int) -> bool {
    m.len() <= i <= w.len() && w.subrange(i - m.len(), i) == m
}

/// Whether member `m` starts at position `j` of the word.
pub open spec fn fits_after(m: Seq<char>, w: Seq<char>, j: int) -> bool {
    0 <= j && j + m.len() <= w.len() && w.subrange(j, j + m.len()) == m
}

/// Whether an environment holds of the span `[i, j)`: the before side must
/// fit immediately before `i` (and, when anchored, reach the word start),
/// the after side immediately after `j` (and, when anchored, reach the word
/// end).  A side with no text constrains nothing beyond its anchor.
pub open spec fn env_holds(e: EnvCModel, w: Seq<char>, i: int, j: int) -> bool {
    let b = if !e.before_present {
        !e.from_start || i == 0
    } else {
        exists|k: int|
            0 <= k < e.before.len() && #[trigger] fits_before(e.before[k], w, i) && (e.from_start
                ==> i - e.before[k].len() == 0)
    };
    let a = if !e.after_present {
        !e.to_end || j == w.len()
    } else {
        exists|k: int|
            0 <= k < e.after.len() && #[trigger] fits_after(e.after[k], w, j) && (e.to_end ==> j
                + e.after[k].len() == w.len())
    };
    b && a
}

/// Whether every environment allows the span: one marked as an exception
/// must not hold, any other must hold.
pub open spec fn envs_allow(envs: Seq<EnvCModel>, w: Seq<char>, i: int, j: int) -> bool {
    forall|k: int|
        0 <= k < envs.len() ==> ((#[trigger] envs[k]).exception <==> !env_holds(envs[k], w, i, j))
}

// ---------------------------------------------------------------------------
// Matching and rewriting
// ---------------------------------------------------------------------------

/// Whether member `k` of the compiled `from` list matches at position `i`
/// and every environment allows the match.  An empty member never matches.
pub open spec fn cand(
    fm: Seq<Seq<char>>,
    envs: Seq<EnvCModel>,
    w: Seq<char>,
    i: int,
    k: int,
) -> bool {
    0 <= k < fm.len() && fm[k].len() > 0 && i + fm[k].len() <= w.len() && w.subrange(
        i,
        i + fm[k].len(),
    ) == fm[k] && envs_allow(envs, w, i, i + fm[k].len())
}

/// The winning member among the first `n`: the longest that matches at `i`,
/// and among equally long ones the earliest declared.
pub open spec fn best_upto(
    fm: Seq<Seq<char>>,
    envs: Seq<EnvCModel>,
    w: Seq<char>,
    i: int,
    n: int,
) -> Option<int>
    decreases n,
{
    if n <= 0 {
        None
    } else {
        let prev = best_upto(fm, envs, w, i, n - 1);
        if cand(fm, envs, w, i, n - 1) {
            match prev {
                None => Some(n - 1),
                Some(j) => if fm[n - 1].len() > fm[j].len() {
                    Some(n - 1)
                } else {
                    Some(j)
                },
            }
        } else {
            prev
        }
    }
}

/// The winning member at position `i`, if any member matches there.
pub open spec fn best(
    fm: Seq<Seq<char>>,
    envs: Seq<EnvCModel>,
    w: Seq<char>,
    i: int,
) -> Option<int> {
    best_upto(fm, envs, w, i, fm.len() as int)
}

pub proof fn lemma_best_cand(fm: Seq<Seq<char>>, envs: Seq<EnvCModel>, w: Seq<char>, i: int, n: int)
    ensures
        match best_upto(fm, envs, w, i, n) {
            Some(k) => cand(fm, envs, w, i, k),
            None => true,
        },
    decreases n,
{
    if n > 0 {
        lemma_best_cand(fm, envs, w, i, n - 1);
    }
}

/// What the rule does, or none on an unresolvable linked replacement.
#[derive(Debug)]
pub enum RuleError {
    /// An empty `from` pattern with no anchoring environment: the insertion
    /// point is undefined, so the rule is rejected whole.
    UnanchoredInsertion,
    /// A member matched at a position of the `from` list that has no
    /// counterpart in the `to` list.
    LinkedReplacement,
}

/// One left-to-right pass over the word from position `i`: at each position
/// the winning match, if any, is replaced by the linked `to` member and the
/// scan continues after the matched span, so the rule never reapplies to
/// text it produced.
pub open spec fn rewrite_from(
    fm: Seq<Seq<char>>,
    tm: Seq<Seq<char>>,
    to_empty: bool,
    envs: Seq<EnvCModel>,
    w: Seq<char>,
    i: int,
) -> Option<Seq<char>>
    decreases w.len() - i,
    via rewrite_from_decreases
{
    if i < 0 || i >= w.len() {
        Some(Seq::<char>::empty())
    } else {
        match best(fm, envs, w, i) {
            None => match rewrite_from(fm, tm, to_empty, envs, w, i + 1) {
                Some(t) => Some(seq![w[i]] + t),
                None => None,
            },
            Some(k) => {
                let l = fm[k].len() as int;
                if to_empty {
                    rewrite_from(fm, tm, to_empty, envs, w, i + l)
                } else if k < tm.len() {
                    match rewrite_from(fm, tm, to_empty, envs, w, i + l) {
                        Some(t) => Some(tm[k] + t),
                        None => None,
                    }
                } else {
                    None
                }
            },
        }
    }
}

#[via_fn]
proof fn rewrite_from_decreases(
    fm: Seq<Seq<char>>,
    tm: Seq<Seq<char>>,
    to_empty: bool,
    envs: Seq<EnvCModel>,
    w: Seq<char>,
    i: int,
) {
    if 0 <= i < w.len() {
        lemma_best_cand(fm, envs, w, i, fm.len() as int);
    }
}

/// Whether some environment can anchor an insertion: one that is not an
/// exception and constrains the word start, the word end, or either side's
/// material.
pub open spec fn anchored(envs: Seq<EnvCModel>) -> bool {
    exists|k: int|
        0 <= k < envs.len() && !(#[trigger] envs[k]).exception && (envs[k].from_start
            || envs[k].to_end || envs[k].before_present || envs[k].after_present)
}

/// Inserts the replacement before every allowed position of the word, the
/// position after the last character included.
pub open spec fn insert_from(
    rep: Seq<char>,
    envs: Seq<EnvCModel>,
    w: Seq<char>,
    i: int,
) -> Seq<char>
    decreases w.len() - i,
{
    let here = if envs_allow(envs, w, i, i) {
        rep
    } else {
        Seq::<char>::empty()
    };
    if i < 0 || i >= w.len() {
        here
    } else {
        here + seq![w[i]] + insert_from(rep, envs, w, i + 1)
    }
}

/// What one rule does to one word under a fixed phonology and symbol table:
/// a pure function of those inputs alone.
pub open spec fn apply_change_word(
    sc: ChangeModel,
    ph: PhonologyModel,
    syms: Seq<(char, SymbolModel)>,
    w: Seq<char>,
) -> Result<Seq<char>, RuleError> {
    let fm = compile(sc.from, ph, syms);
    let tm = compile(sc.to, ph, syms);
    let envs = compile_envs(sc.envs, ph, syms);
    let to_empty = split_ws(sc.to).len() == 0;
    if split_ws(sc.from).len() == 0 {
        if !anchored(envs) {
            Err(RuleError::UnanchoredInsertion)
        } else if to_empty {
            Ok(w)
        } else if tm.len() == 0 {
            Err(RuleError::LinkedReplacement)
        } else {
            Ok(insert_from(tm[0], envs, w, 0))
        }
    } else {
        match rewrite_from(fm, tm, to_empty, envs, w, 0) {
            Some(x) => Ok(x),
            None => Err(RuleError::LinkedReplacement),
        }
    }
}

/// What one rule does to the whole word list: each word rewritten
/// independently, or the first configuration error.
pub open spec fn apply_change_words(
    sc: ChangeModel,
    ph: PhonologyModel,
    syms: Seq<(char, SymbolModel)>,
    ws: Seq<Seq<char>>,
) -> Result<Seq<Seq<char>>, RuleError>
    decreases ws.len(),
{
    if ws.len() == 0 {
        Ok(Seq::<Seq<char>>::empty())
    } else {
        match apply_change_word(sc, ph, syms, ws[0]) {
            Err(e) => Err(e),
            Ok(x) => match apply_change_words(sc, ph, syms, ws.drop_first()) {
                Err(e) => Err(e),
                Ok(rest) => Ok(seq![x] + rest),
            },
        }
    }
}

/// Applying one rule to one word under a fixed phonology and symbol table is
/// deterministic: two results of the same application are the same word.
pub proof fn lemma_rule_determinism(
    sc: ChangeModel,
    ph: PhonologyModel,
    syms: Seq<(char, SymbolModel)>,
    w: Seq<char>,
    r1: Result<Seq<char>, RuleError>,
    r2: Result<Seq<char>, RuleError>,
)
    requires
        r1 == apply_change_word(sc, ph, syms, w),
        r2 == apply_change_word(sc, ph, syms, w),
    ensures
        r1 == r2,
{
}


// ---------------------------------------------------------------------------
// The executable engine
// ---------------------------------------------------------------------------

/// Finds the symbol-table entry for a character.
#[verifier::loop_isolation(false)]
fn find_symbol<'a>(syms: &'a Vec<(char, Symbol)>, c: char) -> (r: Option<&'a Symbol>)
    ensures
        match r {
            Some(sym) => sym_find(syms_view(syms@), c) == Some(sym@),
            None => sym_find(syms_view(syms@), c) is None,
        },
{
    let ghost sv = syms_view(syms@);
    let mut j: usize = 0;
    while j < syms.len()
        invariant
            j <= sv.len(),
            forall|k: int| 0 <= k < j ==> (#[trigger] sv[k]).0 != c,
        decreases sv.len() - j,
    {
        if syms[j].0 == c {
            proof {
                assert(sv[j as int].0 == c);
                lemma_sym_index(sv, c);
                match sym_index(sv, c) {
                    Some(i) => {
                        if i < j {
                            assert(sv[i].0 != c);
                        }
                        if i > j {
                            assert(sv[j as int].0 != c);
                        }
                    },
                    None => {
                        assert(sv[j as int].0 != c);
                    },
                }
            }
            return Some(&syms[j].1);
        }
        j = j + 1;
    }
    proof {
        lemma_sym_index(sv, c);
        match sym_index(sv, c) {
            Some(i) => {
                assert(sv[i].0 != c);
            },
            None => {},
        }
    }
    None
}

/// Appends copies of the phones' character lists.
#[verifier::loop_isolation(false)]
fn extend_members(out: &mut Vec<Vec<char>>, ps: &Vec<Phone>)
    ensures
        views_of(final(out)@) == views_of(old(out)@) + phone_views(ps@),
{
    let mut j: usize = 0;
    while j < ps.len()
        invariant
            j <= ps@.len(),
            views_of(out@) == views_of(old(out)@) + phone_views(ps@).take(j as int),
        decreases ps@.len() - j,
    {
        let ghost pre = out@;
        out.push(copy_range(&ps[j].chars, 0, ps[j].chars.len()));
        proof {
            assert(views_of(pre).len() == pre.len());
            assert(views_of(old(out)@).len() == old(out)@.len());
            assert(phone_views(ps@).take(j as int).len() == j as int);
            assert(pre.len() == old(out)@.len() + j);
            assert(out@[pre.len() as int]@ =~= phone_views(ps@)[j as int]);
            assert(views_of(out@) =~= views_of(pre).push(phone_views(ps@)[j as int]));
            assert(views_of(old(out)@) + phone_views(ps@).take(j as int + 1) =~= (views_of(
                old(out)@,
            ) + phone_views(ps@).take(j as int)).push(phone_views(ps@)[j as int]));
        }
        j = j + 1;
    }
    proof {
        assert(phone_views(ps@).take(ps@.len() as int) =~= phone_views(ps@));
    }
}

/// Compiles a pattern into its ordered member list; also reports how many
/// terms the pattern has, so an empty pattern (an insertion) is told apart
/// from one whose members are empty.
#[verifier::loop_isolation(false)]
fn compile_pattern(pat: &Vec<char>, ph: &Phonology, syms: &Vec<(char, Symbol)>) -> (r: (
    Vec<Vec<char>>,
    usize,
))
    ensures
        views_of(r.0@) == compile(pat@, ph@, syms_view(syms@)),
        r.1 as int == split_ws(pat@).len(),
{
    let toks = tokenize(pat);
    let ghost tv = split_ws(pat@);
    let ghost sv = syms_view(syms@);
    let nterms = toks.len();
    let mut out: Vec<Vec<char>> = Vec::new();
    let mut k: usize = 0;
    proof {
        assert(tv.skip(0) =~= tv);
        assert(views_of(out@) + compile_terms(tv, ph@, sv) =~= compile_terms(tv, ph@, sv));
    }
    while k < toks.len()
        invariant
            k <= tv.len(),
            compile(pat@, ph@, sv) == views_of(out@) + compile_terms(
                tv.skip(k as int),
                ph@,
                sv,
            ),
        decreases tv.len() - k,
    {
        proof {
            assert(tv.skip(k as int)[0] == tv[k as int]);
            assert(tv.skip(k as int).drop_first() =~= tv.skip(k as int + 1));
        }
        let term = &toks[k];
        let ghost pre = out@;
        match ph.category_members(term) {
            Some(ms) => {
                extend_members(&mut out, &ms);
                proof {
                    assert(resolve_term(tv[k as int], ph@, sv) == phone_views(ms@));
                }
            },
            None => {
                let mut done = false;
                if term.len() == 1 {
                    match find_symbol(syms, term[0]) {
                        Some(sym) => {
                            let ps = crate::duplicate_phones(&sym.phones);
                            extend_members(&mut out, &ps);
                            proof {
                                assert(resolve_term(tv[k as int], ph@, sv) == phone_views(ps@));
                            }
                            done = true;
                        },
                        None => {},
                    }
                }
                if !done {
                    out.push(copy_range(term, 0, term.len()));
                    proof {
                        assert(out@[pre.len() as int]@ =~= tv[k as int]);
                        assert(resolve_term(tv[k as int], ph@, sv) =~= seq![tv[k as int]]);
                        assert(views_of(out@) =~= views_of(pre).push(tv[k as int]));
                        assert(views_of(pre) + seq![tv[k as int]] =~= views_of(out@));
                    }
                }
            },
        }
        proof {
            assert(views_of(pre) + (resolve_term(tv[k as int], ph@, sv) + compile_terms(
                tv.skip(k as int + 1),
                ph@,
                sv,
            )) =~= views_of(out@) + compile_terms(tv.skip(k as int + 1), ph@, sv));
        }
        k = k + 1;
    }
    proof {
        assert(tv.skip(tv.len() as int) =~= Seq::<Seq<char>>::empty());
        assert(views_of(out@) + Seq::<Seq<char>>::empty() =~= views_of(out@));
    }
    (out, nterms)
}

/// Compiles the environments of a rule.
#[verifier::loop_isolation(false)]
fn compile_environments(
    envs: &Vec<Environment>,
    ph: &Phonology,
    syms: &Vec<(char, Symbol)>,
) -> (r: Vec<EnvC>)
    ensures
        envc_views(r@) == compile_envs(env_views(envs@), ph@, syms_view(syms@)),
{
    let ghost ev = env_views(envs@);
    let ghost sv = syms_view(syms@);
    let mut out: Vec<EnvC> = Vec::new();
    let mut k: usize = 0;
    proof {
        assert(envc_views(out@) =~= compile_envs(ev, ph@, sv).take(0));
    }
    while k < envs.len()
        invariant
            k <= ev.len(),
            envc_views(out@) == compile_envs(ev, ph@, sv).take(k as int),
        decreases ev.len() - k,
    {
        let e = &envs[k];
        let (bm, bn) = compile_pattern(&e.before, ph, syms);
        let (am, an) = compile_pattern(&e.after, ph, syms);
        let c = EnvC {
            exception: e.exception,
            from_start: e.from_start,
            to_end: e.to_end,
            before_present: bn > 0,
            after_present: an > 0,
            before: bm,
            after: am,
        };
        let ghost pre = out@;
        proof {
            assert(c@ == compile_env(ev[k as int], ph@, sv));
        }
        out.push(c);
        proof {
            assert(envc_views(out@) =~= envc_views(pre).push(compile_env(ev[k as int], ph@, sv)));
            assert(compile_envs(ev, ph@, sv).take(k as int + 1) =~= compile_envs(
                ev,
                ph@,
                sv,
            ).take(k as int).push(compile_env(ev[k as int], ph@, sv)));
        }
        k = k + 1;
    }
    proof {
        assert(compile_envs(ev, ph@, sv).take(ev.len() as int) =~= compile_envs(ev, ph@, sv));
    }
    out
}


/// Whether the word span starting at `i` equals member `m`.
#[verifier::loop_isolation(false)]
fn span_matches(w: &Vec<char>, i: usize, m: &Vec<char>) -> (r: bool)
    requires
        i <= w@.len(),
    ensures
        r == (i + m@.len() <= w@.len() && w@.subrange(i as int, i + m@.len()) == m@),
{
    if m.len() > w.len() - i {
        return false;
    }
    let mut j: usize = 0;
    while j < m.len()
        invariant
            j <= m@.len(),
            forall|t: int| 0 <= t < j ==> w@[i + t] == m@[t],
        decreases m@.len() - j,
    {
        if w[i + j] != m[j] {
            proof {
                if w@.subrange(i as int, i + m@.len()) == m@ {
                    assert(w@.subrange(i as int, i + m@.len())[j as int] == m@[j as int]);
                }
            }
            return false;
        }
        j = j + 1;
    }
    proof {
        assert(w@.subrange(i as int, i + m@.len()) =~= m@);
    }
    true
}

/// Whether member `m` ends immediately before position `i`.
#[verifier::loop_isolation(false)]
fn fits_before_at(w: &Vec<char>, i: usize, m: &Vec<char>) -> (r: bool)
    requires
        i <= w@.len(),
    ensures
        r == fits_before(m@, w@, i as int),
{
    if m.len() > i {
        return false;
    }
    let start = i - m.len();
    let mut j: usize = 0;
    while j < m.len()
        invariant
            j <= m@.len(),
            forall|t: int| 0 <= t < j ==> w@[start + t] == m@[t],
        decreases m@.len() - j,
    {
        if w[start + j] != m[j] {
            proof {
                if w@.subrange(i - m@.len(), i as int) == m@ {
                    assert(w@.subrange(i - m@.len(), i as int)[j as int] == m@[j as int]);
                }
            }
            return false;
        }
        j = j + 1;
    }
    proof {
        assert(w@.subrange(i - m@.len(), i as int) =~= m@);
    }
    true
}

/// Whether one compiled environment holds of the span `[i, j)`.
#[verifier::loop_isolation(false)]
fn env_holds_at(e: &EnvC, w: &Vec<char>, i: usize, j: usize) -> (r: bool)
    requires
        i <= j <= w@.len(),
    ensures
        r == env_holds(e@, w@, i as int, j as int),
{
    let b_ok: bool;
    if !e.before_present {
        b_ok = !e.from_start || i == 0;
    } else {
        let mut found = false;
        let mut k: usize = 0;
        while k < e.before.len()
            invariant
                k <= e.before@.len(),
                !found ==> forall|t: int|
                    0 <= t < k ==> !(#[trigger] fits_before(e@.before[t], w@, i as int) && (
                    e@.from_start ==> i - e@.before[t].len() == 0)),
                found ==> exists|t: int|
                    0 <= t < e@.before.len() && #[trigger] fits_before(e@.before[t], w@, i as int)
                        && (e@.from_start ==> i - e@.before[t].len() == 0),
            decreases e.before@.len() - k,
        {
            if !found {
                if fits_before_at(w, i, &e.before[k]) && (!e.from_start || i == e.before[k].len()) {
                    proof {
                        assert(e@.before[k as int] == e.before@[k as int]@);
                        assert(fits_before(e@.before[k as int], w@, i as int));
                    }
                    found = true;
                }
            }
            k = k + 1;
        }
        b_ok = found;
    }
    let a_ok: bool;
    if !e.after_present {
        a_ok = !e.to_end || j == w.len();
    } else {
        let mut found = false;
        let mut k: usize = 0;
        while k < e.after.len()
            invariant
                k <= e.after@.len(),
                !found ==> forall|t: int|
                    0 <= t < k ==> !(#[trigger] fits_after(e@.after[t], w@, j as int) && (e@.to_end
                        ==> j + e@.after[t].len() == w@.len())),
                found ==> exists|t: int|
                    0 <= t < e@.after.len() && #[trigger] fits_after(e@.after[t], w@, j as int) && (
                    e@.to_end ==> j + e@.after[t].len() == w@.len()),
            decreases e.after@.len() - k,
        {
            if !found {
                let m = &e.after[k];
                let fits = span_matches(w, j, m);
                let end_ok = !e.to_end || (m.len() <= w.len() - j && j + m.len() == w.len());
                if fits && end_ok {
                    proof {
                        assert(e@.after[k as int] == e.after@[k as int]@);
                        assert(fits_after(e@.after[k as int], w@, j as int));
                    }
                    found = true;
                }
            }
            k = k + 1;
        }
        a_ok = found;
    }
    b_ok && a_ok
}

/// Whether every environment allows the span `[i, j)`.
#[verifier::loop_isolation(false)]
fn envs_allow_at(envs: &Vec<EnvC>, w: &Vec<char>, i: usize, j: usize) -> (r: bool)
    requires
        i <= j <= w@.len(),
    ensures
        r == envs_allow(envc_views(envs@), w@, i as int, j as int),
{
    let ghost ev = envc_views(envs@);
    let mut k: usize = 0;
    while k < envs.len()
        invariant
            k <= ev.len(),
            forall|t: int|
                0 <= t < k ==> ((#[trigger] ev[t]).exception <==> !env_holds(
                    ev[t],
                    w@,
                    i as int,
                    j as int,
                )),
        decreases ev.len() - k,
    {
        let holds = env_holds_at(&envs[k], w, i, j);
        if envs[k].exception == holds {
            proof {
                assert(ev[k as int] == envs@[k as int]@);
            }
            return false;
        }
        k = k + 1;
    }
    true
}

/// The winning member at position `i`: the longest that matches with its
/// environments allowed, the earliest declared among equally long ones.
#[verifier::loop_isolation(false)]
fn best_at(fm: &Vec<Vec<char>>, envs: &Vec<EnvC>, w: &Vec<char>, i: usize) -> (r: Option<usize>)
    requires
        i <= w@.len(),
    ensures
        match r {
            Some(k) => best(views_of(fm@), envc_views(envs@), w@, i as int) == Some(k as int) && k
                < fm@.len(),
            None => best(views_of(fm@), envc_views(envs@), w@, i as int) is None,
        },
{
    let ghost fmv = views_of(fm@);
    let ghost ev = envc_views(envs@);
    let mut bestv: Option<usize> = None;
    let mut k: usize = 0;
    while k < fm.len()
        invariant
            k <= fmv.len(),
            match bestv {
                Some(b) => best_upto(fmv, ev, w@, i as int, k as int) == Some(b as int) && b
                    < fmv.len(),
                None => best_upto(fmv, ev, w@, i as int, k as int) is None,
            },
        decreases fmv.len() - k,
    {
        let m = &fm[k];
        proof {
            assert(fmv[k as int] == fm@[k as int]@);
        }
        let wl = w.len();
        let mut is_cand = m.len() > 0 && span_matches(w, i, m);
        if is_cand {
            proof {
                assert(i + m@.len() <= wl);
            }
            is_cand = envs_allow_at(envs, w, i, i + m.len());
        }
        proof {
            assert(is_cand == cand(fmv, ev, w@, i as int, k as int));
        }
        if is_cand {
            match bestv {
                None => {
                    bestv = Some(k);
                },
                Some(b) => {
                    if m.len() > fm[b].len() {
                        bestv = Some(k);
                    }
                },
            }
        }
        k = k + 1;
    }
    bestv
}

/// Whether any environment can anchor an insertion.
#[verifier::loop_isolation(false)]
fn anchored_at(envs: &Vec<EnvC>) -> (r: bool)
    ensures
        r == anchored(envc_views(envs@)),
{
    let ghost ev = envc_views(envs@);
    let mut k: usize = 0;
    while k < envs.len()
        invariant
            k <= ev.len(),
            forall|t: int|
                0 <= t < k ==> !(!(#[trigger] ev[t]).exception && (ev[t].from_start || ev[t].to_end
                    || ev[t].before_present || ev[t].after_present)),
        decreases ev.len() - k,
    {
        let e = &envs[k];
        if !e.exception && (e.from_start || e.to_end || e.before_present || e.after_present) {
            proof {
                assert(ev[k as int] == envs@[k as int]@);
            }
            return true;
        }
        k = k + 1;
    }
    false
}

/// One single pass of matching and rewriting over one word.
#[verifier::loop_isolation(false)]
fn rewrite_word(
    fm: &Vec<Vec<char>>,
    tm: &Vec<Vec<char>>,
    to_empty: bool,
    envs: &Vec<EnvC>,
    w: &Vec<char>,
) -> (r: Option<Vec<char>>)
    ensures
        match r {
            Some(x) => rewrite_from(
                views_of(fm@),
                views_of(tm@),
                to_empty,
                envc_views(envs@),
                w@,
                0,
            ) == Some(x@),
            None => rewrite_from(
                views_of(fm@),
                views_of(tm@),
                to_empty,
                envc_views(envs@),
                w@,
                0,
            ) is None,
        },
{
    let ghost fmv = views_of(fm@);
    let ghost tmv = views_of(tm@);
    let ghost ev = envc_views(envs@);
    let mut out: Vec<char> = Vec::new();
    let mut i: usize = 0;
    while i < w.len()
        invariant
            i <= w@.len(),
            match rewrite_from(fmv, tmv, to_empty, ev, w@, i as int) {
                Some(t) => rewrite_from(fmv, tmv, to_empty, ev, w@, 0) == Some(out@ + t),
                None => rewrite_from(fmv, tmv, to_empty, ev, w@, 0) is None,
            },
        decreases w@.len() - i,
    {
        let ghost pre = out@;
        match best_at(fm, envs, w, i) {
            None => {
                out.push(w[i]);
                proof {
                    match rewrite_from(fmv, tmv, to_empty, ev, w@, i + 1) {
                        Some(t) => {
                            assert(pre + (seq![w@[i as int]] + t) =~= out@ + t);
                        },
                        None => {},
                    }
                }
                i = i + 1;
            },
            Some(k) => {
                proof {
                    lemma_best_cand(fmv, ev, w@, i as int, fmv.len() as int);
                    assert(cand(fmv, ev, w@, i as int, k as int));
                }
                let l = fm[k].len();
                if to_empty {
                } else if k < tm.len() {
                    extend_chars(&mut out, &tm[k]);
                    proof {
                        assert(tmv[k as int] == tm@[k as int]@);
                        match rewrite_from(fmv, tmv, to_empty, ev, w@, i + l) {
                            Some(t) => {
                                assert(pre + (tmv[k as int] + t) =~= out@ + t);
                            },
                            None => {},
                        }
                    }
                } else {
                    return None;
                }
                i = i + l;
            },
        }
    }
    proof {
        assert(out@ + Seq::<char>::empty() =~= out@);
    }
    Some(out)
}

/// Inserts the replacement at every allowed position of one word.
#[verifier::loop_isolation(false)]
fn insert_word(rep: &Vec<char>, envs: &Vec<EnvC>, w: &Vec<char>) -> (r: Vec<char>)
    ensures
        r@ == insert_from(rep@, envc_views(envs@), w@, 0),
{
    let ghost ev = envc_views(envs@);
    let mut out: Vec<char> = Vec::new();
    let mut i: usize = 0;
    while i < w.len()
        invariant
            i <= w@.len(),
            insert_from(rep@, ev, w@, 0) == out@ + insert_from(rep@, ev, w@, i as int),
        decreases w@.len() - i,
    {
        let ghost pre = out@;
        if envs_allow_at(envs, w, i, i) {
            extend_chars(&mut out, rep);
        }
        out.push(w[i]);
        proof {
            let here = if envs_allow(ev, w@, i as int, i as int) {
                rep@
            } else {
                Seq::<char>::empty()
            };
            assert(out@ =~= pre + here + seq![w@[i as int]]);
            assert(pre + (here + seq![w@[i as int]] + insert_from(rep@, ev, w@, i + 1)) =~= out@
                + insert_from(rep@, ev, w@, i + 1));
        }
        i = i + 1;
    }
    let ghost pre = out@;
    if envs_allow_at(envs, w, i, i) {
        extend_chars(&mut out, rep);
    }
    proof {
        let here = if envs_allow(ev, w@, i as int, i as int) {
            rep@
        } else {
            Seq::<char>::empty()
        };
        assert(insert_from(rep@, ev, w@, i as int) == here);
        assert(pre + here =~= out@);
    }
    out
}

/// Applies one sound change to the whole word list under the given phonology
/// and symbol table, or reports why the rule is rejected whole; a rejected
/// rule changes no word.
#[verifier::loop_isolation(false)]
pub fn apply_sound_change(
    sound_change: &SoundChange,
    phonology: &Phonology,
    symbols: &Vec<(char, Symbol)>,
    words: &Vec<Vec<char>>,
) -> (r: Result<Vec<Vec<char>>, RuleError>)
    ensures
        match r {
            Ok(v) => apply_change_words(
                sound_change@,
                phonology@,
                syms_view(symbols@),
                views_of(words@),
            ) == Ok::<Seq<Seq<char>>, RuleError>(views_of(v@)),
            Err(e) => apply_change_words(
                sound_change@,
                phonology@,
                syms_view(symbols@),
                views_of(words@),
            ) == Err::<Seq<Seq<char>>, RuleError>(e),
        },
{
    let ghost scm = sound_change@;
    let ghost phm = phonology@;
    let ghost sv = syms_view(symbols@);
    let ghost wv = views_of(words@);
    let (fm, nfrom) = compile_pattern(&sound_change.from, phonology, symbols);
    let (tm, nto) = compile_pattern(&sound_change.to, phonology, symbols);
    let envs = compile_environments(&sound_change.environments, phonology, symbols);
    let to_empty = nto == 0;
    let insertion = nfrom == 0;
    let mut out: Vec<Vec<char>> = Vec::new();
    let mut k: usize = 0;
    proof {
        assert(wv.skip(0) =~= wv);
    }
    while k < words.len()
        invariant
            k <= wv.len(),
            match apply_change_words(scm, phm, sv, wv.skip(k as int)) {
                Ok(rest) => apply_change_words(scm, phm, sv, wv) == Ok::<
                    Seq<Seq<char>>,
                    RuleError,
                >(views_of(out@) + rest),
                Err(e) => apply_change_words(scm, phm, sv, wv) == Err::<
                    Seq<Seq<char>>,
                    RuleError,
                >(e),
            },
        decreases wv.len() - k,
    {
        proof {
            assert(wv.skip(k as int)[0] == wv[k as int]);
            assert(wv.skip(k as int).drop_first() =~= wv.skip(k as int + 1));
        }
        let word = &words[k];
        let new_word: Vec<char>;
        if insertion {
            if !anchored_at(&envs) {
                proof {
                    assert(apply_change_word(scm, phm, sv, wv[k as int]) == Err::<
                        Seq<char>,
                        RuleError,
                    >(RuleError::UnanchoredInsertion));
                }
                return Err(RuleError::UnanchoredInsertion);
            }
            if to_empty {
                new_word = copy_range(word, 0, word.len());
                proof {
                    assert(new_word@ =~= wv[k as int]);
                    assert(apply_change_word(scm, phm, sv, wv[k as int]) == Ok::<
                        Seq<char>,
                        RuleError,
                    >(new_word@));
                }
            } else if tm.len() == 0 {
                proof {
                    assert(apply_change_word(scm, phm, sv, wv[k as int]) == Err::<
                        Seq<char>,
                        RuleError,
                    >(RuleError::LinkedReplacement));
                }
                return Err(RuleError::LinkedReplacement);
            } else {
                new_word = insert_word(&tm[0], &envs, word);
                proof {
                    assert(views_of(tm@)[0] == tm@[0]@);
                    assert(apply_change_word(scm, phm, sv, wv[k as int]) == Ok::<
                        Seq<char>,
                        RuleError,
                    >(new_word@));
                }
            }
        } else {
            match rewrite_word(&fm, &tm, to_empty, &envs, word) {
                Some(x) => {
                    new_word = x;
                    proof {
                        assert(apply_change_word(scm, phm, sv, wv[k as int]) == Ok::<
                            Seq<char>,
                            RuleError,
                        >(new_word@));
                    }
                },
                None => {
                    proof {
                        assert(apply_change_word(scm, phm, sv, wv[k as int]) == Err::<
                            Seq<char>,
                            RuleError,
                        >(RuleError::LinkedReplacement));
                    }
                    return Err(RuleError::LinkedReplacement);
                },
            }
        }
        let ghost pre = out@;
        out.push(new_word);
        proof {
            assert(views_of(out@) =~= views_of(pre).push(new_word@));
            match apply_change_words(scm, phm, sv, wv.skip(k as int + 1)) {
                Ok(rest) => {
                    assert(views_of(pre) + (seq![new_word@] + rest) =~= views_of(out@) + rest);
                },
                Err(e) => {},
            }
        }
        k = k + 1;
    }
    proof {
        assert(wv.skip(wv.len() as int) =~= Seq::<Seq<char>>::empty());
        assert(views_of(out@) + Seq::<Seq<char>>::empty() =~= views_of(out@));
    }
    Ok(out)
}

} // verus!
