use vstd::prelude::*;

use crate::{
    add1, assoc_index, assoc_set, lemma_assoc_set_idempotent, phone_views, remove_all, Phonology,
    PhonologyModel,
};
use crate::chars::{chars_eq, copy_range, views_of};
use crate::file::{
    line_views, qual_views, DirectiveModel, Line, LineModel, QualModel,
};
use crate::rules::{
    apply_change_words, sym_index, syms_view, Symbol, SymbolModel,
};

verus! {

// ---------------------------------------------------------------------------
// The state one pass threads through the script
// ---------------------------------------------------------------------------

/// The mathematical content of the interpreter's state: the phonology, the
/// symbol table, the word list, and the rules rejected so far (by line).
pub struct StModel {
    pub ph: PhonologyModel,
    pub syms: Seq<(char, SymbolModel)>,
    pub words: Seq<Seq<char>>,
    pub skipped: Seq<nat>,
}

/// Binds a character in the symbol table: an existing entry is overwritten
/// whole, an unknown character is appended.
pub open spec fn sym_set(
    s: Seq<(char, SymbolModel)>,
    c: char,
    v: SymbolModel,
) -> Seq<(char, SymbolModel)> {
    match sym_index(s, c) {
        Some(i) => s.update(i, (c, v)),
        None => s.push((c, v)),
    }
}

/// Adds the phones to a member list in order, each once.
pub open spec fn add_members(m: Seq<Seq<char>>, ps: Seq<Seq<char>>) -> Seq<Seq<char>>
    decreases ps.len(),
{
    if ps.len() == 0 {
        m
    } else {
        add_members(add1(m, ps[0]), ps.drop_first())
    }
}

pub proof fn lemma_add_members_push(m: Seq<Seq<char>>, ps: Seq<Seq<char>>, x: Seq<char>)
    ensures
        add_members(m, ps.push(x)) == add1(add_members(m, ps), x),
    decreases ps.len(),
{
    if ps.len() == 0 {
        assert(ps.push(x)[0] == x);
        assert(ps.push(x).drop_first() =~= Seq::<Seq<char>>::empty());
        assert(add_members(add1(m, x), Seq::<Seq<char>>::empty()) == add1(m, x));
        assert(add_members(m, ps.push(x)) == add_members(add1(m, x), ps.push(x).drop_first()));
    } else {
        assert(ps.push(x)[0] == ps[0]);
        assert(ps.push(x).drop_first() =~= ps.drop_first().push(x));
        lemma_add_members_push(add1(m, ps[0]), ps.drop_first(), x);
        assert(add_members(m, ps.push(x)) == add_members(add1(m, ps[0]), ps.drop_first().push(x)));
        assert(add_members(m, ps) == add_members(add1(m, ps[0]), ps.drop_first()));
    }
}

/// Marks each phone `+` in turn: it joins the plus side and leaves the minus
/// side.
pub open spec fn plus_members(
    f: (Seq<Seq<char>>, Seq<Seq<char>>),
    ps: Seq<Seq<char>>,
) -> (Seq<Seq<char>>, Seq<Seq<char>>)
    decreases ps.len(),
{
    if ps.len() == 0 {
        f
    } else {
        plus_members((add1(f.0, ps[0]), remove_all(f.1, ps[0])), ps.drop_first())
    }
}

pub proof fn lemma_plus_members_push(
    f: (Seq<Seq<char>>, Seq<Seq<char>>),
    ps: Seq<Seq<char>>,
    x: Seq<char>,
)
    ensures
        plus_members(f, ps.push(x)) == (
            add1(plus_members(f, ps).0, x),
            remove_all(plus_members(f, ps).1, x),
        ),
    decreases ps.len(),
{
    if ps.len() == 0 {
        assert(ps.push(x)[0] == x);
        assert(ps.push(x).drop_first() =~= Seq::<Seq<char>>::empty());
        let g = (add1(f.0, x), remove_all(f.1, x));
        assert(plus_members(g, Seq::<Seq<char>>::empty()) == g);
        assert(plus_members(f, ps.push(x)) == plus_members(g, ps.push(x).drop_first()));
    } else {
        assert(ps.push(x)[0] == ps[0]);
        assert(ps.push(x).drop_first() =~= ps.drop_first().push(x));
        let g = (add1(f.0, ps[0]), remove_all(f.1, ps[0]));
        lemma_plus_members_push(g, ps.drop_first(), x);
        assert(plus_members(f, ps.push(x)) == plus_members(g, ps.drop_first().push(x)));
        assert(plus_members(f, ps) == plus_members(g, ps.drop_first()));
    }
}

/// Marks each phone `-` in turn: the mirror image of `plus_members`.
pub open spec fn minus_members(
    f: (Seq<Seq<char>>, Seq<Seq<char>>),
    ps: Seq<Seq<char>>,
) -> (Seq<Seq<char>>, Seq<Seq<char>>)
    decreases ps.len(),
{
    if ps.len() == 0 {
        f
    } else {
        minus_members((remove_all(f.0, ps[0]), add1(f.1, ps[0])), ps.drop_first())
    }
}

pub proof fn lemma_minus_members_push(
    f: (Seq<Seq<char>>, Seq<Seq<char>>),
    ps: Seq<Seq<char>>,
    x: Seq<char>,
)
    ensures
        minus_members(f, ps.push(x)) == (
            remove_all(minus_members(f, ps).0, x),
            add1(minus_members(f, ps).1, x),
        ),
    decreases ps.len(),
{
    if ps.len() == 0 {
        assert(ps.push(x)[0] == x);
        assert(ps.push(x).drop_first() =~= Seq::<Seq<char>>::empty());
        let g = (remove_all(f.0, x), add1(f.1, x));
        assert(minus_members(g, Seq::<Seq<char>>::empty()) == g);
        assert(minus_members(f, ps.push(x)) == minus_members(g, ps.push(x).drop_first()));
    } else {
        assert(ps.push(x)[0] == ps[0]);
        assert(ps.push(x).drop_first() =~= ps.drop_first().push(x));
        let g = (remove_all(f.0, ps[0]), add1(f.1, ps[0]));
        lemma_minus_members_push(g, ps.drop_first(), x);
        assert(minus_members(f, ps.push(x)) == minus_members(g, ps.drop_first().push(x)));
        assert(minus_members(f, ps) == minus_members(g, ps.drop_first()));
    }
}

/// What a directive does to the phonology and the symbol table.  A category
/// or feature of the same name is replaced whole; a symbol entry is
/// overwritten.
pub open spec fn step_directive(
    ph: PhonologyModel,
    syms: Seq<(char, SymbolModel)>,
    d: DirectiveModel,
) -> (PhonologyModel, Seq<(char, SymbolModel)>) {
    match d {
        DirectiveModel::Category(n, ps) => (
            PhonologyModel {
                cats: assoc_set(ph.cats, n, add_members(Seq::<Seq<char>>::empty(), ps)),
                feats: ph.feats,
            },
            syms,
        ),
        DirectiveModel::Feature(n, p, m) => (
            PhonologyModel {
                cats: ph.cats,
                feats: assoc_set(
                    ph.feats,
                    n,
                    minus_members(
                        plus_members(
                            (Seq::<Seq<char>>::empty(), Seq::<Seq<char>>::empty()),
                            p,
                        ),
                        m,
                    ),
                ),
            },
            syms,
        ),
        DirectiveModel::Symbol(c, ps, qs) => (
            ph,
            sym_set(syms, c, SymbolModel { phones: ps, qualifiers: qs }),
        ),
    }
}

/// Removes the phone from every category and unsets it in every feature.
pub open spec fn clear_model(ph: PhonologyModel, p: Seq<char>) -> PhonologyModel {
    PhonologyModel {
        cats: Seq::new(ph.cats.len(), |k: int| (ph.cats[k].0, remove_all(ph.cats[k].1, p))),
        feats: Seq::new(
            ph.feats.len(),
            |k: int|
                (
                    ph.feats[k].0,
                    (remove_all(ph.feats[k].1.0, p), remove_all(ph.feats[k].1.1, p)),
                ),
        ),
    }
}

/// What one qualifier of a phone declaration does, or the undeclared name it
/// references.
pub open spec fn apply_qual(
    ph: PhonologyModel,
    p: Seq<char>,
    q: QualModel,
    no: nat,
) -> Result<PhonologyModel, (nat, Seq<char>)> {
    match q {
        QualModel::Cat(c) => match assoc_index(ph.cats, c) {
            Some(i) => Ok(
                PhonologyModel {
                    cats: ph.cats.update(i, (c, add1(ph.cats[i].1, p))),
                    feats: ph.feats,
                },
            ),
            None => Err((no, c)),
        },
        QualModel::Plus(f) => match assoc_index(ph.feats, f) {
            Some(i) => Ok(
                PhonologyModel {
                    cats: ph.cats,
                    feats: ph.feats.update(
                        i,
                        (f, (add1(ph.feats[i].1.0, p), remove_all(ph.feats[i].1.1, p))),
                    ),
                },
            ),
            None => Err((no, f)),
        },
        QualModel::Minus(f) => match assoc_index(ph.feats, f) {
            Some(i) => Ok(
                PhonologyModel {
                    cats: ph.cats,
                    feats: ph.feats.update(
                        i,
                        (f, (remove_all(ph.feats[i].1.0, p), add1(ph.feats[i].1.1, p))),
                    ),
                },
            ),
            None => Err((no, f)),
        },
        QualModel::Zero(f) => match assoc_index(ph.feats, f) {
            Some(i) => Ok(
                PhonologyModel {
                    cats: ph.cats,
                    feats: ph.feats.update(
                        i,
                        (f, (remove_all(ph.feats[i].1.0, p), remove_all(ph.feats[i].1.1, p))),
                    ),
                },
            ),
            None => Err((no, f)),
        },
    }
}

/// Applies the qualifiers of a phone declaration in order; the first
/// undeclared reference is fatal.
pub open spec fn apply_quals(
    ph: PhonologyModel,
    p: Seq<char>,
    qs: Seq<QualModel>,
    no: nat,
) -> Result<PhonologyModel, (nat, Seq<char>)>
    decreases qs.len(),
{
    if qs.len() == 0 {
        Ok(ph)
    } else {
        match apply_qual(ph, p, qs[0], no) {
            Err(e) => Err(e),
            Ok(ph2) => apply_quals(ph2, p, qs.drop_first(), no),
        }
    }
}

/// What one non-stage line does to the state.  A rule whose configuration is
/// rejected is recorded and skipped, the word list untouched; an undeclared
/// reference in a phone declaration is fatal.
pub open spec fn step_line(st: StModel, l: LineModel) -> Result<StModel, (nat, Seq<char>)> {
    match l {
        LineModel::Stage(_, _) => Ok(st),
        LineModel::Directive(_, d) => {
            let r = step_directive(st.ph, st.syms, d);
            Ok(StModel { ph: r.0, syms: r.1, words: st.words, skipped: st.skipped })
        },
        LineModel::Phone(no, p, qs) => {
            match apply_quals(clear_model(st.ph, p), p, qs, no) {
                Ok(ph2) => Ok(StModel { ph: ph2, syms: st.syms, words: st.words, skipped: st.skipped }),
                Err(e) => Err(e),
            }
        },
        LineModel::Change(no, sc) => match apply_change_words(sc, st.ph, st.syms, st.words) {
            Ok(ws) => Ok(StModel { ph: st.ph, syms: st.syms, words: ws, skipped: st.skipped }),
            Err(_) => Ok(
                StModel {
                    ph: st.ph,
                    syms: st.syms,
                    words: st.words,
                    skipped: st.skipped.push(no),
                },
            ),
        },
    }
}

/// How one pass ends: the final state and whether the requested stage was
/// seen, or the line and name of a fatal undeclared reference.
pub enum RunRes {
    Done(StModel, bool),
    Fail(nat, Seq<char>),
}

/// The whole pass: lines apply in file order; a marker equal to the
/// requested stage stops the pass at once, and with no requested stage every
/// marker is inert.
pub open spec fn run_model(
    lines: Seq<LineModel>,
    st: StModel,
    stage: Option<Seq<char>>,
) -> RunRes
    decreases lines.len(),
{
    if lines.len() == 0 {
        RunRes::Done(st, false)
    } else {
        match lines[0] {
            LineModel::Stage(no, name) => if stage == Some(name) {
                RunRes::Done(st, true)
            } else {
                run_model(lines.drop_first(), st, stage)
            },
            _ => match step_line(st, lines[0]) {
                Ok(st2) => run_model(lines.drop_first(), st2, stage),
                Err(e) => RunRes::Fail(e.0, e.1),
            },
        }
    }
}

/// The lines strictly before the first marker named `name`.
pub open spec fn truncate_at(lines: Seq<LineModel>, name: Seq<char>) -> Seq<LineModel>
    decreases lines.len(),
{
    if lines.len() == 0 {
        lines
    } else {
        match lines[0] {
            LineModel::Stage(no, n) => if n == name {
                Seq::<LineModel>::empty()
            } else {
                seq![lines[0]] + truncate_at(lines.drop_first(), name)
            },
            _ => seq![lines[0]] + truncate_at(lines.drop_first(), name),
        }
    }
}

/// Interpreting up to a stage equals interpreting the prefix of lines
/// strictly before the first marker of that name: the states agree, and a
/// fatal undeclared reference is the same in both.
pub proof fn lemma_stage_truncation(lines: Seq<LineModel>, st: StModel, name: Seq<char>)
    ensures
        match (run_model(lines, st, Some(name)), run_model(truncate_at(lines, name), st, None)) {
            (RunRes::Done(s1, _), RunRes::Done(s2, _)) => s1 == s2,
            (RunRes::Fail(n1, m1), RunRes::Fail(n2, m2)) => n1 == n2 && m1 == m2,
            _ => false,
        },
    decreases lines.len(),
{
    if lines.len() == 0 {
    } else {
        let cut = truncate_at(lines, name);
        match lines[0] {
            LineModel::Stage(no, n) => {
                if n == name {
                } else {
                    assert(cut[0] == lines[0]);
                    assert(cut.drop_first() =~= truncate_at(lines.drop_first(), name));
                    lemma_stage_truncation(lines.drop_first(), st, name);
                }
            },
            _ => {
                assert(cut[0] == lines[0]);
                assert(cut.drop_first() =~= truncate_at(lines.drop_first(), name));
                match step_line(st, lines[0]) {
                    Ok(st2) => {
                        lemma_stage_truncation(lines.drop_first(), st2, name);
                    },
                    Err(e) => {},
                }
            },
        }
    }
}

/// Declaring the same category name with the same members twice yields a
/// state identical to declaring it once.
pub proof fn lemma_category_redeclare_idempotent(
    st: StModel,
    no1: nat,
    no2: nat,
    name: Seq<char>,
    phones: Seq<Seq<char>>,
)
    ensures
        ({
            let once = step_line(st, LineModel::Directive(no1, DirectiveModel::Category(name, phones)));
            once is Ok && step_line(
                once->Ok_0,
                LineModel::Directive(no2, DirectiveModel::Category(name, phones)),
            ) == once
        }),
{
    let m = add_members(Seq::<Seq<char>>::empty(), phones);
    lemma_assoc_set_idempotent(st.ph.cats, name, m);
}


// ---------------------------------------------------------------------------
// The executable sequencer
// ---------------------------------------------------------------------------

/// The interpreter's fatal error: a phone declaration referenced a category
/// or feature that was never declared, at this line, under this name.
#[derive(Debug)]
pub enum RunError {
    UndeclaredReference(u32, Vec<char>),
}

/// What a completed pass hands back: the final phonology, the transformed
/// word list, whether the requested stage was seen, and the lines of rules
/// that were rejected as misconfigured.
#[derive(Debug)]
pub struct RunOutcome {
    pub phonology: Phonology,
    pub words: Vec<Vec<char>>,
    pub stage_found: bool,
    pub skipped_rules: Vec<u32>,
}

pub open spec fn nat_views(v: Seq<u32>) -> Seq<nat> {
    v.map_values(|x: u32| x as nat)
}

pub open spec fn opt_view(s: Option<Vec<char>>) -> Option<Seq<char>> {
    match s {
        Some(v) => Some(v@),
        None => None,
    }
}

pub open spec fn st_of(
    ph: PhonologyModel,
    syms: Seq<(char, SymbolModel)>,
    words: Seq<Seq<char>>,
    skipped: Seq<nat>,
) -> StModel {
    StModel { ph, syms, words, skipped }
}

/// A name with the same characters.
fn dup_chars(n: &Vec<char>) -> (r: Vec<char>)
    ensures
        r@ == n@,
{
    let r = copy_range(n, 0, n.len());
    proof {
        assert(r@ =~= n@);
    }
    r
}

/// A qualifier with the same content.
fn duplicate_qual(q: &crate::file::PhoneQualifier) -> (r: crate::file::PhoneQualifier)
    ensures
        r@ == q@,
{
    match q {
        crate::file::PhoneQualifier::Plus(n) => crate::file::PhoneQualifier::Plus(dup_chars(n)),
        crate::file::PhoneQualifier::Minus(n) => crate::file::PhoneQualifier::Minus(dup_chars(n)),
        crate::file::PhoneQualifier::Zero(n) => crate::file::PhoneQualifier::Zero(dup_chars(n)),
        crate::file::PhoneQualifier::Cat(n) => crate::file::PhoneQualifier::Cat(dup_chars(n)),
    }
}

/// A copy of a qualifier list.
#[verifier::loop_isolation(false)]
fn duplicate_quals(qs: &Vec<crate::file::PhoneQualifier>) -> (r: Vec<crate::file::PhoneQualifier>)
    ensures
        qual_views(r@) == qual_views(qs@),
{
    let mut r: Vec<crate::file::PhoneQualifier> = Vec::new();
    let mut j: usize = 0;
    proof {
        assert(qual_views(r@) =~= qual_views(qs@).take(0));
    }
    while j < qs.len()
        invariant
            j <= qs@.len(),
            qual_views(r@) == qual_views(qs@).take(j as int),
        decreases qs@.len() - j,
    {
        let ghost pre = r@;
        r.push(duplicate_qual(&qs[j]));
        proof {
            assert(qual_views(r@) =~= qual_views(pre).push(qual_views(qs@)[j as int]));
            assert(qual_views(qs@).take(j as int + 1) =~= qual_views(qs@).take(j as int).push(
                qual_views(qs@)[j as int],
            ));
        }
        j = j + 1;
    }
    proof {
        assert(qual_views(qs@).take(qs@.len() as int) =~= qual_views(qs@));
    }
    r
}

/// Binds a character in the symbol table.
#[verifier::loop_isolation(false)]
fn sym_table_set(syms: &mut Vec<(char, Symbol)>, c: char, sym: Symbol)
    ensures
        syms_view(final(syms)@) == sym_set(syms_view(old(syms)@), c, sym@),
{
    let ghost sv = syms_view(syms@);
    let ghost symv = sym@;
    let mut j: usize = 0;
    while j < syms.len()
        invariant
            j <= sv.len(),
            syms@ == old(syms)@,
            forall|k: int| 0 <= k < j ==> (#[trigger] sv[k]).0 != c,
        decreases sv.len() - j,
    {
        if syms[j].0 == c {
            proof {
                assert(sv[j as int].0 == c);
                crate::rules::lemma_sym_index(sv, c);
                match sym_index(sv, c) {
                    Some(i) => {
                        if i < j {
                            assert(sv[i].0 != c);
                        }
                        if i > j {
                            assert(sv[j as int].0 != c);
                        }
                    },
                    None => {
                        assert(sv[j as int].0 != c);
                    },
                }
            }
            syms.set(j, (c, sym));
            proof {
                assert(syms_view(syms@) =~= sv.update(j as int, (c, symv)));
            }
            return ;
        }
        j = j + 1;
    }
    proof {
        crate::rules::lemma_sym_index(sv, c);
        match sym_index(sv, c) {
            Some(i) => {
                assert(sv[i].0 != c);
            },
            None => {},
        }
    }
    syms.push((c, sym));
    proof {
        assert(syms_view(syms@) =~= sv.push((c, symv)));
    }
}


/// One interpretation pass: threads the phonology, the symbol table and the
/// word list through the classified lines in file order, stops at the
/// requested stage marker, applies each rule to the word list, and reports
/// whether the stage was seen.  A phone declaration that references an
/// undeclared category or feature is fatal and leaves no partial result.
#[verifier::loop_isolation(false)]
pub fn run(lines: &Vec<Line>, words: Vec<Vec<char>>, stage: &Option<Vec<char>>) -> (r: Result<
    RunOutcome,
    RunError,
>)
    ensures
        match (
            r,
            run_model(
                line_views(lines@),
                st_of(
                    PhonologyModel {
                        cats: Seq::<(Seq<char>, Seq<Seq<char>>)>::empty(),
                        feats: Seq::<(Seq<char>, (Seq<Seq<char>>, Seq<Seq<char>>))>::empty(),
                    },
                    Seq::<(char, SymbolModel)>::empty(),
                    views_of(words@),
                    Seq::<nat>::empty(),
                ),
                opt_view(*stage),
            ),
        ) {
            (Ok(o), RunRes::Done(st, found)) => o.phonology@ == st.ph && views_of(o.words@)
                == st.words && o.stage_found == found && nat_views(o.skipped_rules@) == st.skipped,
            (Err(RunError::UndeclaredReference(no, nm)), RunRes::Fail(n, m)) => no as nat == n
                && nm@ == m,
            _ => false,
        },
{
    let ghost lv = line_views(lines@);
    let ghost sm = opt_view(*stage);
    let mut phonology = Phonology::new();
    let mut symbols: Vec<(char, Symbol)> = Vec::new();
    let mut cur_words = words;
    let mut skipped: Vec<u32> = Vec::new();
    let ghost st0 = st_of(
        phonology@,
        syms_view(symbols@),
        views_of(cur_words@),
        nat_views(skipped@),
    );
    proof {
        assert(syms_view(symbols@) =~= Seq::<(char, SymbolModel)>::empty());
        assert(nat_views(skipped@) =~= Seq::<nat>::empty());
        assert(lv.skip(0) =~= lv);
    }
    let mut i: usize = 0;
    while i < lines.len()
        invariant
            i <= lv.len(),
            run_model(lv, st0, sm) == run_model(
                lv.skip(i as int),
                st_of(phonology@, syms_view(symbols@), views_of(cur_words@), nat_views(skipped@)),
                sm,
            ),
        decreases lv.len() - i,
    {
        let ghost stl = st_of(
            phonology@,
            syms_view(symbols@),
            views_of(cur_words@),
            nat_views(skipped@),
        );
        proof {
            assert(lv.skip(i as int)[0] == lv[i as int]);
            assert(lv.skip(i as int).drop_first() =~= lv.skip(i as int + 1));
        }
        match &lines[i] {
            Line::Stage(no, name) => {
                let matched = match stage {
                    Some(s) => chars_eq(name, s),
                    None => false,
                };
                if matched {
                    proof {
                        assert(sm == Some(name@));
                        assert(run_model(lv.skip(i as int), stl, sm) == RunRes::Done(stl, true));
                    }
                    return Ok(
                        RunOutcome {
                            phonology,
                            words: cur_words,
                            stage_found: true,
                            skipped_rules: skipped,
                        },
                    );
                }
                proof {
                    assert(sm != Some(name@));
                }
            },
            Line::Directive(no, d) => {
                match d {
                    crate::file::Directive::Category(n, ps) => {
                        let ghost cats0 = phonology@.cats;
                        let ghost pv = phone_views(ps@);
                        phonology.add_category(dup_chars(n));
                        proof {
                            assert(pv.take(0) =~= Seq::<Seq<char>>::empty());
                        }
                        let mut j: usize = 0;
                        while j < ps.len()
                            invariant
                                j <= pv.len(),
                                phonology@.cats == assoc_set(
                                    cats0,
                                    n@,
                                    add_members(Seq::<Seq<char>>::empty(), pv.take(j as int)),
                                ),
                                phonology@.feats == stl.ph.feats,
                            decreases pv.len() - j,
                        {
                            let ghost mcur = add_members(
                                Seq::<Seq<char>>::empty(),
                                pv.take(j as int),
                            );
                            proof {
                                crate::lemma_assoc_set_then_set(
                                    cats0,
                                    n@,
                                    mcur,
                                    add1(mcur, pv[j as int]),
                                );
                            }
                            let found = phonology.category_add(n, ps[j].duplicate());
                            proof {
                                assert(found);
                                assert(pv.take(j as int + 1) =~= pv.take(j as int).push(
                                    pv[j as int],
                                ));
                                lemma_add_members_push(
                                    Seq::<Seq<char>>::empty(),
                                    pv.take(j as int),
                                    pv[j as int],
                                );
                            }
                            j = j + 1;
                        }
                        proof {
                            assert(pv.take(pv.len() as int) =~= pv);
                        }
                    },
                    crate::file::Directive::Feature(n, p, m) => {
                        let ghost feats0 = phonology@.feats;
                        let ghost plv = phone_views(p@);
                        let ghost mnv = phone_views(m@);
                        let ghost fempty = (Seq::<Seq<char>>::empty(), Seq::<Seq<char>>::empty());
                        phonology.add_feature(dup_chars(n));
                        proof {
                            assert(plv.take(0) =~= Seq::<Seq<char>>::empty());
                        }
                        let mut j: usize = 0;
                        while j < p.len()
                            invariant
                                j <= plv.len(),
                                phonology@.feats == assoc_set(
                                    feats0,
                                    n@,
                                    plus_members(fempty, plv.take(j as int)),
                                ),
                                phonology@.cats == stl.ph.cats,
                            decreases plv.len() - j,
                        {
                            let ghost fcur = plus_members(fempty, plv.take(j as int));
                            proof {
                                crate::lemma_assoc_set_then_set(
                                    feats0,
                                    n@,
                                    fcur,
                                    (add1(fcur.0, plv[j as int]), remove_all(fcur.1, plv[j as int])),
                                );
                            }
                            let found = phonology.feature_plus(n, p[j].duplicate());
                            proof {
                                assert(found);
                                assert(plv.take(j as int + 1) =~= plv.take(j as int).push(
                                    plv[j as int],
                                ));
                                lemma_plus_members_push(fempty, plv.take(j as int), plv[j as int]);
                            }
                            j = j + 1;
                        }
                        let ghost fbase = plus_members(fempty, plv);
                        proof {
                            assert(plv.take(plv.len() as int) =~= plv);
                            assert(mnv.take(0) =~= Seq::<Seq<char>>::empty());
                        }
                        let mut j: usize = 0;
                        while j < m.len()
                            invariant
                                j <= mnv.len(),
                                phonology@.feats == assoc_set(
                                    feats0,
                                    n@,
                                    minus_members(fbase, mnv.take(j as int)),
                                ),
                                phonology@.cats == stl.ph.cats,
                            decreases mnv.len() - j,
                        {
                            let ghost fcur = minus_members(fbase, mnv.take(j as int));
                            proof {
                                crate::lemma_assoc_set_then_set(
                                    feats0,
                                    n@,
                                    fcur,
                                    (remove_all(fcur.0, mnv[j as int]), add1(fcur.1, mnv[j as int])),
                                );
                            }
                            let found = phonology.feature_minus(n, m[j].duplicate());
                            proof {
                                assert(found);
                                assert(mnv.take(j as int + 1) =~= mnv.take(j as int).push(
                                    mnv[j as int],
                                ));
                                lemma_minus_members_push(fbase, mnv.take(j as int), mnv[j as int]);
                            }
                            j = j + 1;
                        }
                        proof {
                            assert(mnv.take(mnv.len() as int) =~= mnv);
                        }
                    },
                    crate::file::Directive::Symbol(c, ps, qs) => {
                        let sym = Symbol {
                            phones: crate::duplicate_phones(ps),
                            qualifiers: duplicate_quals(qs),
                        };
                        proof {
                            assert(sym@ == SymbolModel {
                                phones: phone_views(ps@),
                                qualifiers: qual_views(qs@),
                            });
                        }
                        sym_table_set(&mut symbols, *c, sym);
                    },
                }
                proof {
                    assert(step_line(stl, lv[i as int]) == Ok::<StModel, (nat, Seq<char>)>(
                        st_of(
                            phonology@,
                            syms_view(symbols@),
                            views_of(cur_words@),
                            nat_views(skipped@),
                        ),
                    ));
                }
            },
            Line::Phone(no, p, qs) => {
                phonology.clear_phone(p);
                let ghost ph1 = clear_model(stl.ph, p@);
                let ghost qv = qual_views(qs@);
                proof {
                    assert(phonology@.cats =~= ph1.cats);
                    assert(phonology@.feats =~= ph1.feats);
                    assert(qv.skip(0) =~= qv);
                }
                let mut j: usize = 0;
                while j < qs.len()
                    invariant
                        j <= qv.len(),
                        apply_quals(ph1, p@, qv, *no as nat) == apply_quals(
                            phonology@,
                            p@,
                            qv.skip(j as int),
                            *no as nat,
                        ),
                    decreases qv.len() - j,
                {
                    proof {
                        assert(qv.skip(j as int)[0] == qv[j as int]);
                        assert(qv.skip(j as int).drop_first() =~= qv.skip(j as int + 1));
                    }
                    match &qs[j] {
                        crate::file::PhoneQualifier::Cat(c) => {
                            let found = phonology.category_add(c, p.duplicate());
                            if !found {
                                proof {
                                    assert(step_line(stl, lv[i as int]) == Err::<
                                        StModel,
                                        (nat, Seq<char>),
                                    >((*no as nat, c@)));
                                }
                                return Err(RunError::UndeclaredReference(*no, dup_chars(c)));
                            }
                        },
                        crate::file::PhoneQualifier::Plus(f) => {
                            let found = phonology.feature_plus(f, p.duplicate());
                            if !found {
                                proof {
                                    assert(step_line(stl, lv[i as int]) == Err::<
                                        StModel,
                                        (nat, Seq<char>),
                                    >((*no as nat, f@)));
                                }
                                return Err(RunError::UndeclaredReference(*no, dup_chars(f)));
                            }
                        },
                        crate::file::PhoneQualifier::Minus(f) => {
                            let found = phonology.feature_minus(f, p.duplicate());
                            if !found {
                                proof {
                                    assert(step_line(stl, lv[i as int]) == Err::<
                                        StModel,
                                        (nat, Seq<char>),
                                    >((*no as nat, f@)));
                                }
                                return Err(RunError::UndeclaredReference(*no, dup_chars(f)));
                            }
                        },
                        crate::file::PhoneQualifier::Zero(f) => {
                            let found = phonology.feature_zero(f, p);
                            if !found {
                                proof {
                                    assert(step_line(stl, lv[i as int]) == Err::<
                                        StModel,
                                        (nat, Seq<char>),
                                    >((*no as nat, f@)));
                                }
                                return Err(RunError::UndeclaredReference(*no, dup_chars(f)));
                            }
                        },
                    }
                    j = j + 1;
                }
                proof {
                    assert(qv.skip(qv.len() as int) =~= Seq::<QualModel>::empty());
                    assert(step_line(stl, lv[i as int]) == Ok::<StModel, (nat, Seq<char>)>(
                        st_of(
                            phonology@,
                            syms_view(symbols@),
                            views_of(cur_words@),
                            nat_views(skipped@),
                        ),
                    ));
                }
            },
            Line::Change(no, sc) => {
                match crate::rules::apply_sound_change(sc, &phonology, &symbols, &cur_words) {
                    Ok(ws) => {
                        cur_words = ws;
                    },
                    Err(_) => {
                        let ghost pre = skipped@;
                        skipped.push(*no);
                        proof {
                            assert(nat_views(skipped@) =~= nat_views(pre).push(*no as nat));
                        }
                    },
                }
                proof {
                    assert(step_line(stl, lv[i as int]) == Ok::<StModel, (nat, Seq<char>)>(
                        st_of(
                            phonology@,
                            syms_view(symbols@),
                            views_of(cur_words@),
                            nat_views(skipped@),
                        ),
                    ));
                }
            },
        }
        i = i + 1;
    }
    proof {
        assert(lv.skip(lv.len() as int) =~= Seq::<LineModel>::empty());
    }
    Ok(
        RunOutcome {
            phonology,
            words: cur_words,
            stage_found: false,
            skipped_rules: skipped,
        },
    )
}


// ---------------------------------------------------------------------------
// Feature disjointness across a whole pass
// ---------------------------------------------------------------------------

/// Every feature of the table keeps its polarity sets disjoint.
pub open spec fn feats_wf(feats: Seq<(Seq<char>, (Seq<Seq<char>>, Seq<Seq<char>>))>) -> bool {
    forall|k: int|
        0 <= k < feats.len() ==> crate::feat_disjoint((#[trigger] feats[k]).1.0, feats[k].1.1)
}

proof fn lemma_disjoint_sym(a: Seq<Seq<char>>, b: Seq<Seq<char>>)
    requires
        crate::feat_disjoint(a, b),
    ensures
        crate::feat_disjoint(b, a),
{
    assert forall|x: Seq<char>| !(#[trigger] b.contains(x) && a.contains(x)) by {
        assert(!(a.contains(x) && b.contains(x)));
    }
}

proof fn lemma_plus_fold_wf(f: (Seq<Seq<char>>, Seq<Seq<char>>), ps: Seq<Seq<char>>)
    requires
        crate::feat_disjoint(f.0, f.1),
    ensures
        crate::feat_disjoint(plus_members(f, ps).0, plus_members(f, ps).1),
    decreases ps.len(),
{
    if ps.len() > 0 {
        crate::lemma_feat_update_disjoint(f.0, f.1, ps[0]);
        lemma_plus_fold_wf((add1(f.0, ps[0]), remove_all(f.1, ps[0])), ps.drop_first());
    }
}

proof fn lemma_minus_fold_wf(f: (Seq<Seq<char>>, Seq<Seq<char>>), ps: Seq<Seq<char>>)
    requires
        crate::feat_disjoint(f.0, f.1),
    ensures
        crate::feat_disjoint(minus_members(f, ps).0, minus_members(f, ps).1),
    decreases ps.len(),
{
    if ps.len() > 0 {
        lemma_disjoint_sym(f.0, f.1);
        crate::lemma_feat_update_disjoint(f.1, f.0, ps[0]);
        lemma_disjoint_sym(add1(f.1, ps[0]), remove_all(f.0, ps[0]));
        lemma_minus_fold_wf((remove_all(f.0, ps[0]), add1(f.1, ps[0])), ps.drop_first());
    }
}

proof fn lemma_assoc_set_feats_wf(
    feats: Seq<(Seq<char>, (Seq<Seq<char>>, Seq<Seq<char>>))>,
    n: Seq<char>,
    v: (Seq<Seq<char>>, Seq<Seq<char>>),
)
    requires
        feats_wf(feats),
        crate::feat_disjoint(v.0, v.1),
    ensures
        feats_wf(assoc_set(feats, n, v)),
{
    crate::lemma_assoc_index(feats, n);
    let out = assoc_set(feats, n, v);
    assert forall|k: int|
        0 <= k < out.len() implies crate::feat_disjoint(
        (#[trigger] out[k]).1.0,
        out[k].1.1,
    ) by {
        match assoc_index(feats, n) {
            Some(i) => {
                if k != i {
                    assert(out[k] == feats[k]);
                    assert(crate::feat_disjoint(feats[k].1.0, feats[k].1.1));
                }
            },
            None => {
                if k < feats.len() {
                    assert(out[k] == feats[k]);
                    assert(crate::feat_disjoint(feats[k].1.0, feats[k].1.1));
                }
            },
        }
    }
}

proof fn lemma_remove_pair_disjoint(a: Seq<Seq<char>>, b: Seq<Seq<char>>, p: Seq<char>)
    requires
        crate::feat_disjoint(a, b),
    ensures
        crate::feat_disjoint(remove_all(a, p), remove_all(b, p)),
{
    assert forall|x: Seq<char>|
        !(#[trigger] remove_all(a, p).contains(x) && remove_all(b, p).contains(x)) by {
        crate::lemma_remove_all_contains(a, p, x);
        crate::lemma_remove_all_contains(b, p, x);
        assert(!(a.contains(x) && b.contains(x)));
    }
}

proof fn lemma_clear_wf(ph: PhonologyModel, p: Seq<char>)
    requires
        feats_wf(ph.feats),
    ensures
        feats_wf(clear_model(ph, p).feats),
{
    let out = clear_model(ph, p).feats;
    assert forall|k: int|
        0 <= k < out.len() implies crate::feat_disjoint(
        (#[trigger] out[k]).1.0,
        out[k].1.1,
    ) by {
        assert(crate::feat_disjoint(ph.feats[k].1.0, ph.feats[k].1.1));
        lemma_remove_pair_disjoint(ph.feats[k].1.0, ph.feats[k].1.1, p);
    }
}

proof fn lemma_apply_qual_wf(ph: PhonologyModel, p: Seq<char>, q: QualModel, no: nat)
    requires
        feats_wf(ph.feats),
    ensures
        match apply_qual(ph, p, q, no) {
            Ok(ph2) => feats_wf(ph2.feats),
            Err(_) => true,
        },
{
    match q {
        QualModel::Cat(c) => {},
        QualModel::Plus(f) => {
            crate::lemma_assoc_index(ph.feats, f);
            match assoc_index(ph.feats, f) {
                Some(i) => {
                    let old_f = ph.feats[i].1;
                    assert(crate::feat_disjoint(old_f.0, old_f.1));
                    crate::lemma_feat_update_disjoint(old_f.0, old_f.1, p);
                    let out = apply_qual(ph, p, q, no)->Ok_0.feats;
                    assert forall|k: int|
                        0 <= k < out.len() implies crate::feat_disjoint(
                        (#[trigger] out[k]).1.0,
                        out[k].1.1,
                    ) by {
                        if k != i {
                            assert(out[k] == ph.feats[k]);
                            assert(crate::feat_disjoint(ph.feats[k].1.0, ph.feats[k].1.1));
                        }
                    }
                },
                None => {},
            }
        },
        QualModel::Minus(f) => {
            crate::lemma_assoc_index(ph.feats, f);
            match assoc_index(ph.feats, f) {
                Some(i) => {
                    let old_f = ph.feats[i].1;
                    assert(crate::feat_disjoint(old_f.0, old_f.1));
                    lemma_disjoint_sym(old_f.0, old_f.1);
                    crate::lemma_feat_update_disjoint(old_f.1, old_f.0, p);
                    lemma_disjoint_sym(add1(old_f.1, p), remove_all(old_f.0, p));
                    let out = apply_qual(ph, p, q, no)->Ok_0.feats;
                    assert forall|k: int|
                        0 <= k < out.len() implies crate::feat_disjoint(
                        (#[trigger] out[k]).1.0,
                        out[k].1.1,
                    ) by {
                        if k != i {
                            assert(out[k] == ph.feats[k]);
                            assert(crate::feat_disjoint(ph.feats[k].1.0, ph.feats[k].1.1));
                        }
                    }
                },
                None => {},
            }
        },
        QualModel::Zero(f) => {
            crate::lemma_assoc_index(ph.feats, f);
            match assoc_index(ph.feats, f) {
                Some(i) => {
                    let old_f = ph.feats[i].1;
                    assert(crate::feat_disjoint(old_f.0, old_f.1));
                    lemma_remove_pair_disjoint(old_f.0, old_f.1, p);
                    let out = apply_qual(ph, p, q, no)->Ok_0.feats;
                    assert forall|k: int|
                        0 <= k < out.len() implies crate::feat_disjoint(
                        (#[trigger] out[k]).1.0,
                        out[k].1.1,
                    ) by {
                        if k != i {
                            assert(out[k] == ph.feats[k]);
                            assert(crate::feat_disjoint(ph.feats[k].1.0, ph.feats[k].1.1));
                        }
                    }
                },
                None => {},
            }
        },
    }
}

proof fn lemma_apply_quals_wf(ph: PhonologyModel, p: Seq<char>, qs: Seq<QualModel>, no: nat)
    requires
        feats_wf(ph.feats),
    ensures
        match apply_quals(ph, p, qs, no) {
            Ok(ph2) => feats_wf(ph2.feats),
            Err(_) => true,
        },
    decreases qs.len(),
{
    if qs.len() > 0 {
        lemma_apply_qual_wf(ph, p, qs[0], no);
        match apply_qual(ph, p, qs[0], no) {
            Ok(ph2) => {
                lemma_apply_quals_wf(ph2, p, qs.drop_first(), no);
            },
            Err(_) => {},
        }
    }
}

proof fn lemma_step_line_wf(st: StModel, l: LineModel)
    requires
        feats_wf(st.ph.feats),
    ensures
        match step_line(st, l) {
            Ok(st2) => feats_wf(st2.ph.feats),
            Err(_) => true,
        },
{
    match l {
        LineModel::Directive(_, d) => {
            match d {
                DirectiveModel::Feature(n, p, m) => {
                    let fempty = (Seq::<Seq<char>>::empty(), Seq::<Seq<char>>::empty());
                    assert forall|x: Seq<char>|
                        !(#[trigger] fempty.0.contains(x) && fempty.1.contains(x)) by {
                        if fempty.0.contains(x) {
                            let i = choose|i: int| 0 <= i < fempty.0.len() && fempty.0[i] == x;
                        }
                    }
                    lemma_plus_fold_wf(fempty, p);
                    lemma_minus_fold_wf(plus_members(fempty, p), m);
                    lemma_assoc_set_feats_wf(
                        st.ph.feats,
                        n,
                        minus_members(plus_members(fempty, p), m),
                    );
                },
                _ => {},
            }
        },
        LineModel::Phone(no, p, qs) => {
            lemma_clear_wf(st.ph, p);
            lemma_apply_quals_wf(clear_model(st.ph, p), p, qs, no);
        },
        _ => {},
    }
}

/// Feature disjointness is an invariant of the whole pass: when every feature
/// of the starting phonology keeps its polarity sets disjoint, so does every
/// feature of the phonology the pass ends with, whatever the script did.
pub proof fn lemma_run_feature_disjointness(
    lines: Seq<LineModel>,
    st: StModel,
    stage: Option<Seq<char>>,
)
    requires
        feats_wf(st.ph.feats),
    ensures
        match run_model(lines, st, stage) {
            RunRes::Done(st2, _) => feats_wf(st2.ph.feats),
            RunRes::Fail(_, _) => true,
        },
    decreases lines.len(),
{
    if lines.len() > 0 {
        match lines[0] {
            LineModel::Stage(no, name) => {
                if stage == Some(name) {
                } else {
                    lemma_run_feature_disjointness(lines.drop_first(), st, stage);
                }
            },
            _ => {
                lemma_step_line_wf(st, lines[0]);
                match step_line(st, lines[0]) {
                    Ok(st2) => {
                        lemma_run_feature_disjointness(lines.drop_first(), st2, stage);
                    },
                    Err(_) => {},
                }
            },
        }
    }
}

} // verus!
