use vstd::prelude::*;

use crate::Phone;
use crate::phone_views;
use crate::chars::{
    copy_range, chars_eq, find_char, find_char_in, lemma_find_char, split_on, split_on_char,
    split_ws, tokenize, trim, trim_chars, trim_front, trim_front_chars, views_of,
};

verus! {

// ---------------------------------------------------------------------------
// Structured line values and their mathematical models
// ---------------------------------------------------------------------------

/// A tag attached to a phone or to a symbol.
#[derive(Debug)]
pub enum PhoneQualifier {
    Plus(Vec<char>),
    Minus(Vec<char>),
    Zero(Vec<char>),
    Cat(Vec<char>),
}

/// The mathematical content of a qualifier.
pub enum QualModel {
    Plus(Seq<char>),
    Minus(Seq<char>),
    Zero(Seq<char>),
    Cat(Seq<char>),
}

impl View for PhoneQualifier {
    type V = QualModel;

    open spec fn view(&self) -> QualModel {
        match self {
            PhoneQualifier::Plus(n) => QualModel::Plus(n@),
            PhoneQualifier::Minus(n) => QualModel::Minus(n@),
            PhoneQualifier::Zero(n) => QualModel::Zero(n@),
            PhoneQualifier::Cat(n) => QualModel::Cat(n@),
        }
    }
}

pub open spec fn qual_views(qs: Seq<PhoneQualifier>) -> Seq<QualModel> {
    qs.map_values(|q: PhoneQualifier| q@)
}

/// One parsed `%` line.
#[derive(Debug)]
pub enum Directive {
    Category(Vec<char>, Vec<Phone>),
    Feature(Vec<char>, Vec<Phone>, Vec<Phone>),
    Symbol(char, Vec<Phone>, Vec<PhoneQualifier>),
}

/// The mathematical content of a directive.
pub enum DirectiveModel {
    Category(Seq<char>, Seq<Seq<char>>),
    Feature(Seq<char>, Seq<Seq<char>>, Seq<Seq<char>>),
    Symbol(char, Seq<Seq<char>>, Seq<QualModel>),
}

impl View for Directive {
    type V = DirectiveModel;

    open spec fn view(&self) -> DirectiveModel {
        match self {
            Directive::Category(n, ps) => DirectiveModel::Category(n@, phone_views(ps@)),
            Directive::Feature(n, p, m) => DirectiveModel::Feature(
                n@,
                phone_views(p@),
                phone_views(m@),
            ),
            Directive::Symbol(c, ps, qs) => DirectiveModel::Symbol(
                *c,
                phone_views(ps@),
                qual_views(qs@),
            ),
        }
    }
}

/// One contextual constraint of a sound change.
#[derive(Debug)]
pub struct Environment {
    pub exception: bool,
    pub from_start: bool,
    pub before: Vec<char>,
    pub after: Vec<char>,
    pub to_end: bool,
}

/// The mathematical content of an environment.
pub struct EnvModel {
    pub exception: bool,
    pub from_start: bool,
    pub before: Seq<char>,
    pub after: Seq<char>,
    pub to_end: bool,
}

impl View for Environment {
    type V = EnvModel;

    open spec fn view(&self) -> EnvModel {
        EnvModel {
            exception: self.exception,
            from_start: self.from_start,
            before: self.before@,
            after: self.after@,
            to_end: self.to_end,
        }
    }
}

pub open spec fn env_views(es: Seq<Environment>) -> Seq<EnvModel> {
    es.map_values(|e: Environment| e@)
}

/// One rewrite rule: the raw `from` and `to` patterns, the environments that
/// gate it, and the free-form annotations that are kept but never evaluated.
#[derive(Debug)]
pub struct SoundChange {
    pub from: Vec<char>,
    pub to: Vec<char>,
    pub environments: Vec<Environment>,
    pub special_environments: Vec<Vec<char>>,
}

/// The mathematical content of a sound change.
pub struct ChangeModel {
    pub from: Seq<char>,
    pub to: Seq<char>,
    pub envs: Seq<EnvModel>,
    pub specials: Seq<Seq<char>>,
}

impl View for SoundChange {
    type V = ChangeModel;

    open spec fn view(&self) -> ChangeModel {
        ChangeModel {
            from: self.from@,
            to: self.to@,
            envs: env_views(self.environments@),
            specials: views_of(self.special_environments@),
        }
    }
}

/// One classified line of a script, with its 1-based line number.
#[derive(Debug)]
pub enum Line {
    Directive(u32, Directive),
    Stage(u32, Vec<char>),
    Phone(u32, Phone, Vec<PhoneQualifier>),
    Change(u32, SoundChange),
}

/// The mathematical content of a classified line.
pub enum LineModel {
    Directive(nat, DirectiveModel),
    Stage(nat, Seq<char>),
    Phone(nat, Seq<char>, Seq<QualModel>),
    Change(nat, ChangeModel),
}

impl View for Line {
    type V = LineModel;

    open spec fn view(&self) -> LineModel {
        match self {
            Line::Directive(no, d) => LineModel::Directive(*no as nat, d@),
            Line::Stage(no, n) => LineModel::Stage(*no as nat, n@),
            Line::Phone(no, p, qs) => LineModel::Phone(*no as nat, p@, qual_views(qs@)),
            Line::Change(no, sc) => LineModel::Change(*no as nat, sc@),
        }
    }
}

pub open spec fn line_views(ls: Seq<Line>) -> Seq<LineModel> {
    ls.map_values(|l: Line| l@)
}

/// Which sub-grammar a malformed line failed.
#[derive(Debug)]
pub enum GrammarKind {
    DirectiveGrammar,
    PhoneGrammar,
    ChangeGrammar,
}

/// A line that matched no sub-grammar, with its line number.
#[derive(Debug)]
pub struct SyntaxError {
    pub line: u32,
    pub kind: GrammarKind,
}

pub open spec fn error_views(es: Seq<SyntaxError>) -> Seq<(nat, GrammarKind)> {
    es.map_values(|e: SyntaxError| (e.line as nat, e.kind))
}

// ---------------------------------------------------------------------------
// Qualifier terms
// ---------------------------------------------------------------------------

/// How one term of a phone declaration reads as a qualifier: a `+`, `-` or
/// `0` prefix tags a feature, a bare term names a category.
pub open spec fn qual_of(t: Seq<char>) -> QualModel {
    if t.len() > 0 && t[0] == '+' {
        QualModel::Plus(t.drop_first())
    } else if t.len() > 0 && t[0] == '-' {
        QualModel::Minus(t.drop_first())
    } else if t.len() > 0 && t[0] == '0' {
        QualModel::Zero(t.drop_first())
    } else {
        QualModel::Cat(t)
    }
}

/// Parses one qualifier term.
pub fn parse_qualifier(t: &Vec<char>) -> (q: PhoneQualifier)
    ensures
        q@ == qual_of(t@),
{
    if t.len() > 0 && (t[0] == '+' || t[0] == '-' || t[0] == '0') {
        let body = copy_range(t, 1, t.len());
        proof {
            assert(body@ =~= t@.drop_first());
        }
        if t[0] == '+' {
            PhoneQualifier::Plus(body)
        } else if t[0] == '-' {
            PhoneQualifier::Minus(body)
        } else {
            PhoneQualifier::Zero(body)
        }
    } else {
        let body = copy_range(t, 0, t.len());
        proof {
            assert(body@ =~= t@);
        }
        PhoneQualifier::Cat(body)
    }
}

// ---------------------------------------------------------------------------
// Phone declarations
// ---------------------------------------------------------------------------

/// What a `=` line means: the phone named first, then, after a lone `:`,
/// its qualifiers.  A second term that is not `:` matches no grammar.
pub open spec fn spec_parse_new_phone(s: Seq<char>) -> Option<(Seq<char>, Seq<QualModel>)> {
    let toks = split_ws(s);
    if toks.len() == 0 {
        None
    } else if toks.len() == 1 {
        Some((toks[0], Seq::<QualModel>::empty()))
    } else if toks[1] == seq![':'] {
        Some((toks[0], toks.skip(2).map_values(|t: Seq<char>| qual_of(t))))
    } else {
        None
    }
}

/// Whether a token is the lone separator `:`.
fn is_colon(t: &Vec<char>) -> (r: bool)
    ensures
        r == (t@ == seq![':']),
{
    let r = t.len() == 1 && t[0] == ':';
    proof {
        if r {
            assert(t@ =~= seq![':']);
        } else {
            if t@ == seq![':'] {
                assert(t@.len() == 1 && t@[0] == ':');
            }
        }
    }
    r
}

/// A copy of one token.
fn get_tok(toks: &Vec<Vec<char>>, k: usize) -> (r: Vec<char>)
    requires
        k < toks@.len(),
    ensures
        r@ == views_of(toks@)[k as int],
{
    let r = copy_range(&toks[k], 0, toks[k].len());
    proof {
        assert(r@ =~= toks@[k as int]@);
    }
    r
}

/// Parses a phone declaration body (everything after the leading `=`).
pub fn parse_new_phone(s: &Vec<char>) -> (r: Option<(Phone, Vec<PhoneQualifier>)>)
    ensures
        match r {
            Some(pq) => spec_parse_new_phone(s@) == Some((pq.0@, qual_views(pq.1@))),
            None => spec_parse_new_phone(s@) is None,
        },
{
    let toks = tokenize(s);
    let ghost tv = split_ws(s@);
    if toks.len() == 0 {
        return None;
    }
    let phone = Phone::new(get_tok(&toks, 0));
    if toks.len() == 1 {
        proof {
            assert(qual_views(Seq::<PhoneQualifier>::empty()) =~= Seq::<QualModel>::empty());
        }
        return Some((phone, Vec::new()));
    }
    if !is_colon(&toks[1]) {
        return None;
    }
    let mut quals: Vec<PhoneQualifier> = Vec::new();
    let mut k: usize = 2;
    proof {
        assert(qual_views(quals@) =~= tv.subrange(2, 2).map_values(|t: Seq<char>| qual_of(t)));
    }
    while k < toks.len()
        invariant
            2 <= k <= toks@.len(),
            tv == split_ws(s@),
            views_of(toks@) == tv,
            qual_views(quals@) == tv.subrange(2, k as int).map_values(
                |t: Seq<char>| qual_of(t),
            ),
        decreases toks@.len() - k,
    {
        let q = parse_qualifier(&toks[k]);
        let ghost pre = quals@;
        quals.push(q);
        proof {
            assert(qual_views(quals@) =~= qual_views(pre).push(qual_of(tv[k as int])));
            assert(tv.subrange(2, k as int + 1).map_values(|t: Seq<char>| qual_of(t)) =~= tv.subrange(
                2,
                k as int,
            ).map_values(|t: Seq<char>| qual_of(t)).push(qual_of(tv[k as int])));
        }
        k = k + 1;
    }
    proof {
        assert(tv.subrange(2, tv.len() as int) =~= tv.skip(2));
    }
    Some((phone, quals))
}


// ---------------------------------------------------------------------------
// Directives
// ---------------------------------------------------------------------------

pub open spec fn kw_cat() -> Seq<char> {
    seq!['c', 'a', 't']
}

pub open spec fn kw_category() -> Seq<char> {
    seq!['c', 'a', 't', 'e', 'g', 'o', 'r', 'y']
}

pub open spec fn kw_feat() -> Seq<char> {
    seq!['f', 'e', 'a', 't']
}

pub open spec fn kw_feature() -> Seq<char> {
    seq!['f', 'e', 'a', 't', 'u', 'r', 'e']
}

pub open spec fn kw_sym() -> Seq<char> {
    seq!['s', 'y', 'm']
}

pub open spec fn kw_symbol() -> Seq<char> {
    seq!['s', 'y', 'm', 'b', 'o', 'l']
}

fn is_kw_category(t: &Vec<char>) -> (r: bool)
    ensures
        r == (t@ == kw_cat() || t@ == kw_category()),
{
    let mut k: Vec<char> = Vec::new();
    k.push('c');
    k.push('a');
    k.push('t');
    proof {
        assert(k@ =~= kw_cat());
    }
    if chars_eq(t, &k) {
        return true;
    }
    k.push('e');
    k.push('g');
    k.push('o');
    k.push('r');
    k.push('y');
    proof {
        assert(k@ =~= kw_category());
    }
    chars_eq(t, &k)
}

fn is_kw_feature(t: &Vec<char>) -> (r: bool)
    ensures
        r == (t@ == kw_feat() || t@ == kw_feature()),
{
    let mut k: Vec<char> = Vec::new();
    k.push('f');
    k.push('e');
    k.push('a');
    k.push('t');
    proof {
        assert(k@ =~= kw_feat());
    }
    if chars_eq(t, &k) {
        return true;
    }
    k.push('u');
    k.push('r');
    k.push('e');
    proof {
        assert(k@ =~= kw_feature());
    }
    chars_eq(t, &k)
}

fn is_kw_symbol(t: &Vec<char>) -> (r: bool)
    ensures
        r == (t@ == kw_sym() || t@ == kw_symbol()),
{
    let mut k: Vec<char> = Vec::new();
    k.push('s');
    k.push('y');
    k.push('m');
    proof {
        assert(k@ =~= kw_sym());
    }
    if chars_eq(t, &k) {
        return true;
    }
    k.push('b');
    k.push('o');
    k.push('l');
    proof {
        assert(k@ =~= kw_symbol());
    }
    chars_eq(t, &k)
}

/// The plus and minus member lists of a feature body, in order of
/// appearance; a term without a `+` or `-` prefix matches no grammar.
pub open spec fn feat_lists(toks: Seq<Seq<char>>) -> Option<(Seq<Seq<char>>, Seq<Seq<char>>)>
    decreases toks.len(),
{
    if toks.len() == 0 {
        Some((Seq::<Seq<char>>::empty(), Seq::<Seq<char>>::empty()))
    } else {
        let t = toks[0];
        match feat_lists(toks.drop_first()) {
            None => None,
            Some(pm) => if t.len() > 0 && t[0] == '+' {
                Some((seq![t.drop_first()] + pm.0, pm.1))
            } else if t.len() > 0 && t[0] == '-' {
                Some((pm.0, seq![t.drop_first()] + pm.1))
            } else {
                None
            },
        }
    }
}

/// The characters between the quotes of a quoted term; an unclosed quote of
/// one character reads as the empty phone.
pub open spec fn quote_body(t: Seq<char>) -> Seq<char> {
    if t.len() >= 2 {
        t.subrange(1, t.len() - 1)
    } else {
        Seq::<char>::empty()
    }
}

/// The bound phone list and the qualifier list of a symbol body, each in
/// order of appearance: a quoted term binds a literal phone, any other term
/// attaches a qualifier.
pub open spec fn sym_lists(toks: Seq<Seq<char>>) -> (Seq<Seq<char>>, Seq<QualModel>)
    decreases toks.len(),
{
    if toks.len() == 0 {
        (Seq::<Seq<char>>::empty(), Seq::<QualModel>::empty())
    } else {
        let t = toks[0];
        let rest = sym_lists(toks.drop_first());
        if t.len() > 0 && t[0] == '\'' {
            (seq![quote_body(t)] + rest.0, rest.1)
        } else {
            (rest.0, seq![qual_of(t)] + rest.1)
        }
    }
}

/// What a `%` line means.  The keyword picks the directive; the second token
/// names it (a symbol's must be one character); a lone `:` introduces the
/// body, and a second token that is anything else matches no grammar.
pub open spec fn spec_parse_directive(s: Seq<char>) -> Option<DirectiveModel> {
    let toks = split_ws(s);
    if toks.len() == 0 {
        None
    } else if toks[0] == kw_cat() || toks[0] == kw_category() {
        if toks.len() < 2 {
            None
        } else if toks.len() == 2 {
            Some(DirectiveModel::Category(toks[1], Seq::<Seq<char>>::empty()))
        } else if toks[2] == seq![':'] && toks.len() > 3 {
            Some(DirectiveModel::Category(toks[1], toks.skip(3)))
        } else {
            None
        }
    } else if toks[0] == kw_feat() || toks[0] == kw_feature() {
        if toks.len() < 2 {
            None
        } else if toks.len() == 2 {
            Some(
                DirectiveModel::Feature(
                    toks[1],
                    Seq::<Seq<char>>::empty(),
                    Seq::<Seq<char>>::empty(),
                ),
            )
        } else if toks[2] == seq![':'] && toks.len() > 3 {
            match feat_lists(toks.skip(3)) {
                Some(pm) => Some(DirectiveModel::Feature(toks[1], pm.0, pm.1)),
                None => None,
            }
        } else {
            None
        }
    } else if toks[0] == kw_sym() || toks[0] == kw_symbol() {
        if toks.len() < 2 || toks[1].len() != 1 {
            None
        } else {
            let c = toks[1][0];
            if toks.len() == 2 {
                Some(
                    DirectiveModel::Symbol(c, Seq::<Seq<char>>::empty(), Seq::<QualModel>::empty()),
                )
            } else if toks[2] == seq![':'] && toks.len() > 3 {
                let pq = sym_lists(toks.skip(3));
                Some(DirectiveModel::Symbol(c, pq.0, pq.1))
            } else {
                None
            }
        }
    } else {
        None
    }
}

/// Parses a directive body (everything after the leading `%`).
#[verifier::loop_isolation(false)]
pub fn parse_directive(s: &Vec<char>) -> (r: Option<Directive>)
    ensures
        match r {
            Some(d) => spec_parse_directive(s@) == Some(d@),
            None => spec_parse_directive(s@) is None,
        },
{
    let toks = tokenize(s);
    let ghost tv = split_ws(s@);
    if toks.len() == 0 {
        return None;
    }
    if is_kw_category(&toks[0]) {
        if toks.len() < 2 {
            return None;
        }
        let name = get_tok(&toks, 1);
        if toks.len() == 2 {
            proof {
                assert(phone_views(Seq::<Phone>::empty()) =~= Seq::<Seq<char>>::empty());
            }
            return Some(Directive::Category(name, Vec::new()));
        }
        if !is_colon(&toks[2]) || toks.len() == 3 {
            return None;
        }
        let mut phones: Vec<Phone> = Vec::new();
        let mut k: usize = 3;
        proof {
            assert(phone_views(phones@) =~= tv.subrange(3, 3));
        }
        while k < toks.len()
            invariant
                3 <= k <= toks@.len(),
                tv == split_ws(s@),
                views_of(toks@) == tv,
                phone_views(phones@) == tv.subrange(3, k as int),
            decreases toks@.len() - k,
        {
            let ghost pre = phones@;
            phones.push(Phone::new(get_tok(&toks, k)));
            proof {
                assert(phone_views(phones@) =~= phone_views(pre).push(tv[k as int]));
                assert(tv.subrange(3, k as int + 1) =~= tv.subrange(3, k as int).push(
                    tv[k as int],
                ));
            }
            k = k + 1;
        }
        proof {
            assert(tv.subrange(3, tv.len() as int) =~= tv.skip(3));
        }
        return Some(Directive::Category(name, phones));
    }
    if is_kw_feature(&toks[0]) {
        if toks.len() < 2 {
            return None;
        }
        let name = get_tok(&toks, 1);
        if toks.len() == 2 {
            proof {
                assert(phone_views(Seq::<Phone>::empty()) =~= Seq::<Seq<char>>::empty());
            }
            return Some(Directive::Feature(name, Vec::new(), Vec::new()));
        }
        if !is_colon(&toks[2]) || toks.len() == 3 {
            return None;
        }
        let mut plus: Vec<Phone> = Vec::new();
        let mut minus: Vec<Phone> = Vec::new();
        let mut k: usize = 3;
        proof {
            assert(tv.skip(3).skip(0) =~= tv.skip(3));
            assert(tv.skip(k as int) =~= tv.skip(3));
        }
        while k < toks.len()
            invariant
                3 <= k <= toks@.len(),
                tv == split_ws(s@),
                views_of(toks@) == tv,
                match feat_lists(tv.skip(k as int)) {
                    Some(pm) => feat_lists(tv.skip(3)) == Some(
                        (phone_views(plus@) + pm.0, phone_views(minus@) + pm.1),
                    ),
                    None => feat_lists(tv.skip(3)) is None,
                },
            decreases toks@.len() - k,
        {
            let t = &toks[k];
            proof {
                assert(tv.skip(k as int)[0] == tv[k as int]);
                assert(tv.skip(k as int).drop_first() =~= tv.skip(k as int + 1));
            }
            if t.len() > 0 && t[0] == '+' {
                let body = copy_range(t, 1, t.len());
                let ghost pre = plus@;
                plus.push(Phone::new(body));
                proof {
                    assert(body@ =~= tv[k as int].drop_first());
                    assert(phone_views(plus@) =~= phone_views(pre).push(tv[k as int].drop_first()));
                    assert forall|pm0: Seq<Seq<char>>|
                        true implies phone_views(pre) + (seq![tv[k as int].drop_first()] + pm0)
                        =~= phone_views(plus@) + pm0 by {}
                }
            } else if t.len() > 0 && t[0] == '-' {
                let body = copy_range(t, 1, t.len());
                let ghost pre = minus@;
                minus.push(Phone::new(body));
                proof {
                    assert(body@ =~= tv[k as int].drop_first());
                    assert(phone_views(minus@) =~= phone_views(pre).push(
                        tv[k as int].drop_first(),
                    ));
                    assert forall|pm1: Seq<Seq<char>>|
                        true implies phone_views(pre) + (seq![tv[k as int].drop_first()] + pm1)
                        =~= phone_views(minus@) + pm1 by {}
                }
            } else {
                return None;
            }
            k = k + 1;
        }
        proof {
            assert(tv.skip(tv.len() as int) =~= Seq::<Seq<char>>::empty());
            match feat_lists(tv.skip(3)) {
                Some(pm) => {
                    assert(phone_views(plus@) + Seq::<Seq<char>>::empty() =~= phone_views(plus@));
                    assert(phone_views(minus@) + Seq::<Seq<char>>::empty() =~= phone_views(minus@));
                },
                None => {},
            }
        }
        return Some(Directive::Feature(name, plus, minus));
    }
    if is_kw_symbol(&toks[0]) {
        if toks.len() < 2 {
            return None;
        }
        if toks[1].len() != 1 {
            return None;
        }
        let c = toks[1][0];
        if toks.len() == 2 {
            proof {
                assert(phone_views(Seq::<Phone>::empty()) =~= Seq::<Seq<char>>::empty());
                assert(qual_views(Seq::<PhoneQualifier>::empty()) =~= Seq::<QualModel>::empty());
            }
            return Some(Directive::Symbol(c, Vec::new(), Vec::new()));
        }
        if !is_colon(&toks[2]) || toks.len() == 3 {
            return None;
        }
        let mut phones: Vec<Phone> = Vec::new();
        let mut quals: Vec<PhoneQualifier> = Vec::new();
        let mut k: usize = 3;
        proof {
            assert(tv.skip(k as int) =~= tv.skip(3));
        }
        while k < toks.len()
            invariant
                3 <= k <= toks@.len(),
                tv == split_ws(s@),
                views_of(toks@) == tv,
                sym_lists(tv.skip(3)).0 == phone_views(phones@) + sym_lists(tv.skip(k as int)).0,
                sym_lists(tv.skip(3)).1 == qual_views(quals@) + sym_lists(tv.skip(k as int)).1,
            decreases toks@.len() - k,
        {
            let t = &toks[k];
            proof {
                assert(tv.skip(k as int)[0] == tv[k as int]);
                assert(tv.skip(k as int).drop_first() =~= tv.skip(k as int + 1));
            }
            if t.len() > 0 && t[0] == '\'' {
                let body = if t.len() >= 2 {
                    copy_range(t, 1, t.len() - 1)
                } else {
                    Vec::new()
                };
                let ghost pre = phones@;
                phones.push(Phone::new(body));
                proof {
                    assert(body@ =~= quote_body(tv[k as int]));
                    assert(phone_views(phones@) =~= phone_views(pre).push(quote_body(tv[k as int])));
                    assert(phone_views(pre) + (seq![quote_body(tv[k as int])] + sym_lists(
                        tv.skip(k as int + 1),
                    ).0) =~= phone_views(phones@) + sym_lists(tv.skip(k as int + 1)).0);
                }
            } else {
                let q = parse_qualifier(t);
                let ghost pre = quals@;
                quals.push(q);
                proof {
                    assert(qual_views(quals@) =~= qual_views(pre).push(qual_of(tv[k as int])));
                    assert(qual_views(pre) + (seq![qual_of(tv[k as int])] + sym_lists(
                        tv.skip(k as int + 1),
                    ).1) =~= qual_views(quals@) + sym_lists(tv.skip(k as int + 1)).1);
                }
            }
            k = k + 1;
        }
        proof {
            assert(tv.skip(tv.len() as int) =~= Seq::<Seq<char>>::empty());
            assert(phone_views(phones@) + Seq::<Seq<char>>::empty() =~= phone_views(phones@));
            assert(qual_views(quals@) + Seq::<QualModel>::empty() =~= qual_views(quals@));
        }
        return Some(Directive::Symbol(c, phones, quals));
    }
    None
}


// ---------------------------------------------------------------------------
// Sound changes and environments
// ---------------------------------------------------------------------------

/// What one `/`-clause with an `_` means.  A leading `!` marks an exception;
/// a `#` at the head of the left side anchors to the word start; a `#` at the
/// tail of the right side anchors to the word end.
pub open spec fn env_from(e: Seq<char>, u: int) -> EnvModel {
    let before0 = e.take(u);
    let after0 = e.skip(u + 1);
    let exception = before0.len() > 0 && before0[0] == '!';
    let b1 = if exception {
        trim_front(before0.drop_first())
    } else {
        before0
    };
    let from_start = b1.len() > 0 && b1[0] == '#';
    let b2 = if from_start {
        b1.drop_first()
    } else {
        b1
    };
    let to_end = after0.len() > 0 && after0[after0.len() - 1] == '#';
    let a1 = if to_end {
        after0.drop_last()
    } else {
        after0
    };
    EnvModel { exception, from_start, before: b2, after: a1, to_end }
}

/// The environments and the special annotations of the `/`-clauses, each in
/// order of appearance: a clause without `_` is kept verbatim as a special
/// annotation, never mechanically evaluated.
pub open spec fn parse_segs(segs: Seq<Seq<char>>) -> (Seq<EnvModel>, Seq<Seq<char>>)
    decreases segs.len(),
{
    if segs.len() == 0 {
        (Seq::<EnvModel>::empty(), Seq::<Seq<char>>::empty())
    } else {
        let rest = parse_segs(segs.drop_first());
        let e = trim(segs[0]);
        match find_char(e, '_') {
            None => (rest.0, seq![e] + rest.1),
            Some(u) => (seq![env_from(e, u)] + rest.0, rest.1),
        }
    }
}

/// What the text from the first `/` onward means; text before the first `/`
/// is not part of any clause.
pub open spec fn spec_parse_environments(s: Seq<char>) -> (Seq<EnvModel>, Seq<Seq<char>>) {
    parse_segs(split_on(s, '/').drop_first())
}

/// Parses the `/`-clauses of a rule.
#[verifier::loop_isolation(false)]
pub fn parse_environments(s: &Vec<char>) -> (r: (Vec<Environment>, Vec<Vec<char>>))
    ensures
        env_views(r.0@) == spec_parse_environments(s@).0,
        views_of(r.1@) == spec_parse_environments(s@).1,
{
    let segs = split_on_char(s, '/');
    let ghost sv = split_on(s@, '/');
    let mut envs: Vec<Environment> = Vec::new();
    let mut specials: Vec<Vec<char>> = Vec::new();
    let mut k: usize = 1;
    proof {
        assert(sv.len() >= 1);
        assert(sv.skip(1) =~= sv.drop_first());
        assert(env_views(envs@) + parse_segs(sv.skip(1)).0 =~= parse_segs(sv.skip(1)).0);
        assert(views_of(specials@) + parse_segs(sv.skip(1)).1 =~= parse_segs(sv.skip(1)).1);
    }
    while k < segs.len()
        invariant
            1 <= k <= sv.len(),
            parse_segs(sv.drop_first()).0 == env_views(envs@) + parse_segs(sv.skip(k as int)).0,
            parse_segs(sv.drop_first()).1 == views_of(specials@) + parse_segs(
                sv.skip(k as int),
            ).1,
        decreases sv.len() - k,
    {
        proof {
            assert(sv.skip(k as int)[0] == sv[k as int]);
            assert(sv.skip(k as int).drop_first() =~= sv.skip(k as int + 1));
        }
        let e = trim_chars(&segs[k]);
        let ghost em = trim(sv[k as int]);
        match find_char_in(&e, '_') {
            Some(u) => {
                proof {
                    lemma_find_char(e@, '_');
                }
                let before0 = copy_range(&e, 0, u);
                let after0 = copy_range(&e, u + 1, e.len());
                proof {
                    assert(before0@ =~= em.take(u as int));
                    assert(after0@ =~= em.skip(u as int + 1));
                }
                let exception = before0.len() > 0 && before0[0] == '!';
                let b1 = if exception {
                    let tmp = copy_range(&before0, 1, before0.len());
                    proof {
                        assert(tmp@ =~= before0@.drop_first());
                    }
                    trim_front_chars(&tmp)
                } else {
                    before0
                };
                let from_start = b1.len() > 0 && b1[0] == '#';
                let b2 = if from_start {
                    let tmp = copy_range(&b1, 1, b1.len());
                    proof {
                        assert(tmp@ =~= b1@.drop_first());
                    }
                    tmp
                } else {
                    b1
                };
                let to_end = after0.len() > 0 && after0[after0.len() - 1] == '#';
                let a1 = if to_end {
                    let tmp = copy_range(&after0, 0, after0.len() - 1);
                    proof {
                        assert(tmp@ =~= after0@.drop_last());
                    }
                    tmp
                } else {
                    after0
                };
                let env = Environment {
                    exception,
                    from_start,
                    before: b2,
                    after: a1,
                    to_end,
                };
                let ghost pre = envs@;
                proof {
                    assert(env@ == env_from(em, u as int));
                }
                envs.push(env);
                proof {
                    assert(env_views(envs@) =~= env_views(pre).push(env_from(em, u as int)));
                    assert(env_views(pre) + (seq![env_from(em, u as int)] + parse_segs(
                        sv.skip(k as int + 1),
                    ).0) =~= env_views(envs@) + parse_segs(sv.skip(k as int + 1)).0);
                }
            },
            None => {
                let ghost pre = specials@;
                specials.push(e);
                proof {
                    assert(views_of(specials@) =~= views_of(pre).push(em));
                    assert(views_of(pre) + (seq![em] + parse_segs(sv.skip(k as int + 1)).1)
                        =~= views_of(specials@) + parse_segs(sv.skip(k as int + 1)).1);
                }
            },
        }
        k = k + 1;
    }
    proof {
        assert(sv.skip(sv.len() as int) =~= Seq::<Seq<char>>::empty());
        assert(env_views(envs@) + Seq::<EnvModel>::empty() =~= env_views(envs@));
        assert(views_of(specials@) + Seq::<Seq<char>>::empty() =~= views_of(specials@));
    }
    (envs, specials)
}

/// What a rule line means: the text before the first `>` is the raw `from`
/// pattern, the text after it up to the first `/` is the raw `to` pattern,
/// and the rest holds the `/`-clauses.  A line without `>` matches no
/// grammar.
pub open spec fn spec_parse_sound_change(s: Seq<char>) -> Option<ChangeModel> {
    match find_char(s, '>') {
        None => None,
        Some(g) => {
            let rest = s.skip(g + 1);
            let cut = match find_char(rest, '/') {
                Some(i) => i,
                None => rest.len() as int,
            };
            let ep = spec_parse_environments(rest.skip(cut));
            Some(
                ChangeModel {
                    from: trim(s.take(g)),
                    to: trim(rest.take(cut)),
                    envs: ep.0,
                    specials: ep.1,
                },
            )
        },
    }
}

/// Parses a rule line.
pub fn parse_sound_change(s: &Vec<char>) -> (r: Option<SoundChange>)
    ensures
        match r {
            Some(sc) => spec_parse_sound_change(s@) == Some(sc@),
            None => spec_parse_sound_change(s@) is None,
        },
{
    let g = match find_char_in(s, '>') {
        Some(g) => g,
        None => {
            return None;
        },
    };
    let n = s.len();
    proof {
        lemma_find_char(s@, '>');
        assert(g < n);
    }
    let from_raw = copy_range(s, 0, g);
    let from = trim_chars(&from_raw);
    let rest = copy_range(s, g + 1, n);
    proof {
        assert(from_raw@ =~= s@.take(g as int));
        assert(rest@ =~= s@.skip(g as int + 1));
    }
    let cut = match find_char_in(&rest, '/') {
        Some(i) => i,
        None => rest.len(),
    };
    proof {
        lemma_find_char(rest@, '/');
    }
    let to_raw = copy_range(&rest, 0, cut);
    let to = trim_chars(&to_raw);
    let envpart = copy_range(&rest, cut, rest.len());
    proof {
        assert(to_raw@ =~= rest@.take(cut as int));
        assert(envpart@ =~= rest@.skip(cut as int));
    }
    let ep = parse_environments(&envpart);
    Some(
        SoundChange {
            from,
            to,
            environments: ep.0,
            special_environments: ep.1,
        },
    )
}


// ---------------------------------------------------------------------------
// The reader: classifying whole lines
// ---------------------------------------------------------------------------

/// How one raw line classifies, by its prefix: `%` directive, `=#` stage
/// marker, `=` phone declaration, `//` or blank skipped, anything else a
/// rule.
pub enum ClassRes {
    Skip,
    Good(LineModel),
    Bad(nat, GrammarKind),
}

pub open spec fn classify(no: nat, raw: Seq<char>) -> ClassRes {
    let s = trim(raw);
    if s.len() == 0 {
        ClassRes::Skip
    } else if s[0] == '%' {
        match spec_parse_directive(s.skip(1)) {
            Some(d) => ClassRes::Good(LineModel::Directive(no, d)),
            None => ClassRes::Bad(no, GrammarKind::DirectiveGrammar),
        }
    } else if s.len() >= 2 && s[0] == '=' && s[1] == '#' {
        ClassRes::Good(LineModel::Stage(no, trim(s.skip(2))))
    } else if s[0] == '=' {
        match spec_parse_new_phone(s.skip(1)) {
            Some(pq) => ClassRes::Good(LineModel::Phone(no, pq.0, pq.1)),
            None => ClassRes::Bad(no, GrammarKind::PhoneGrammar),
        }
    } else if s.len() >= 2 && s[0] == '/' && s[1] == '/' {
        ClassRes::Skip
    } else {
        match spec_parse_sound_change(s) {
            Some(c) => ClassRes::Good(LineModel::Change(no, c)),
            None => ClassRes::Bad(no, GrammarKind::ChangeGrammar),
        }
    }
}

/// The classified lines and the syntax errors of a whole script, from line
/// index `i` on; line numbers are 1-based.
pub open spec fn parse_all(ls: Seq<Seq<char>>, i: int) -> (
    Seq<LineModel>,
    Seq<(nat, GrammarKind)>,
)
    decreases ls.len() - i,
{
    if i < 0 || i >= ls.len() {
        (Seq::<LineModel>::empty(), Seq::<(nat, GrammarKind)>::empty())
    } else {
        let rest = parse_all(ls, i + 1);
        match classify((i + 1) as nat, ls[i]) {
            ClassRes::Skip => rest,
            ClassRes::Good(l) => (seq![l] + rest.0, rest.1),
            ClassRes::Bad(n, k) => (rest.0, seq![(n, k)] + rest.1),
        }
    }
}

/// Classifies and parses every line of a script.  When any line matches no
/// grammar, all the syntax errors of the file are returned together and
/// nothing is interpreted.
#[verifier::loop_isolation(false)]
pub fn parse_lines(lines: &Vec<Vec<char>>) -> (r: Result<Vec<Line>, Vec<SyntaxError>>)
    requires
        lines@.len() < 0xffff_ffff,
    ensures
        match r {
            Ok(v) => parse_all(views_of(lines@), 0).1.len() == 0 && line_views(v@) == parse_all(
                views_of(lines@),
                0,
            ).0,
            Err(es) => parse_all(views_of(lines@), 0).1.len() > 0 && error_views(es@) == parse_all(
                views_of(lines@),
                0,
            ).1,
        },
{
    let ghost lv = views_of(lines@);
    let mut goods: Vec<Line> = Vec::new();
    let mut bads: Vec<SyntaxError> = Vec::new();
    let mut i: usize = 0;
    proof {
        assert(line_views(goods@) + parse_all(lv, 0).0 =~= parse_all(lv, 0).0);
        assert(error_views(bads@) + parse_all(lv, 0).1 =~= parse_all(lv, 0).1);
    }
    while i < lines.len()
        invariant
            i <= lv.len(),
            parse_all(lv, 0).0 == line_views(goods@) + parse_all(lv, i as int).0,
            parse_all(lv, 0).1 == error_views(bads@) + parse_all(lv, i as int).1,
        decreases lv.len() - i,
    {
        let no: u32 = (i as u32) + 1;
        proof {
            assert(no as nat == i + 1);
        }
        let t = trim_chars(&lines[i]);
        let ghost s = trim(lv[i as int]);
        let ghost rest0 = parse_all(lv, i as int + 1).0;
        let ghost rest1 = parse_all(lv, i as int + 1).1;
        if t.len() == 0 {
        } else if t[0] == '%' {
            let body = copy_range(&t, 1, t.len());
            proof {
                assert(body@ =~= s.skip(1));
            }
            match parse_directive(&body) {
                Some(d) => {
                    let ghost pre = goods@;
                    let ghost lm = LineModel::Directive(no as nat, d@);
                    goods.push(Line::Directive(no, d));
                    proof {
                        assert(classify((i + 1) as nat, lv[i as int]) == ClassRes::Good(lm));
                        assert(line_views(goods@) =~= line_views(pre).push(lm));
                        assert(line_views(pre) + (seq![lm] + rest0) =~= line_views(goods@)
                            + rest0);
                    }
                },
                None => {
                    let ghost pre = bads@;
                    bads.push(SyntaxError { line: no, kind: GrammarKind::DirectiveGrammar });
                    proof {
                        assert(error_views(bads@) =~= error_views(pre).push(
                            (no as nat, GrammarKind::DirectiveGrammar),
                        ));
                        assert(error_views(pre) + (seq![(no as nat, GrammarKind::DirectiveGrammar)]
                            + rest1) =~= error_views(bads@) + rest1);
                    }
                },
            }
        } else if t.len() >= 2 && t[0] == '=' && t[1] == '#' {
            let body = copy_range(&t, 2, t.len());
            let name = trim_chars(&body);
            proof {
                assert(body@ =~= s.skip(2));
            }
            let ghost pre = goods@;
            let ghost lm = LineModel::Stage(no as nat, trim(s.skip(2)));
            goods.push(Line::Stage(no, name));
            proof {
                assert(classify((i + 1) as nat, lv[i as int]) == ClassRes::Good(lm));
                assert(line_views(goods@) =~= line_views(pre).push(lm));
                assert(line_views(pre) + (seq![lm] + rest0) =~= line_views(goods@) + rest0);
            }
        } else if t[0] == '=' {
            let body = copy_range(&t, 1, t.len());
            proof {
                assert(body@ =~= s.skip(1));
            }
            match parse_new_phone(&body) {
                Some(pq) => {
                    let ghost pre = goods@;
                    let ghost lm = LineModel::Phone(no as nat, pq.0@, qual_views(pq.1@));
                    goods.push(Line::Phone(no, pq.0, pq.1));
                    proof {
                        assert(classify((i + 1) as nat, lv[i as int]) == ClassRes::Good(lm));
                        assert(line_views(goods@) =~= line_views(pre).push(lm));
                        assert(line_views(pre) + (seq![lm] + rest0) =~= line_views(goods@)
                            + rest0);
                    }
                },
                None => {
                    let ghost pre = bads@;
                    bads.push(SyntaxError { line: no, kind: GrammarKind::PhoneGrammar });
                    proof {
                        assert(error_views(bads@) =~= error_views(pre).push(
                            (no as nat, GrammarKind::PhoneGrammar),
                        ));
                        assert(error_views(pre) + (seq![(no as nat, GrammarKind::PhoneGrammar)]
                            + rest1) =~= error_views(bads@) + rest1);
                    }
                },
            }
        } else if t.len() >= 2 && t[0] == '/' && t[1] == '/' {
        } else {
            match parse_sound_change(&t) {
                Some(sc) => {
                    let ghost pre = goods@;
                    let ghost lm = LineModel::Change(no as nat, sc@);
                    goods.push(Line::Change(no, sc));
                    proof {
                        assert(classify((i + 1) as nat, lv[i as int]) == ClassRes::Good(lm));
                        assert(line_views(goods@) =~= line_views(pre).push(lm));
                        assert(line_views(pre) + (seq![lm] + rest0) =~= line_views(goods@)
                            + rest0);
                    }
                },
                None => {
                    let ghost pre = bads@;
                    bads.push(SyntaxError { line: no, kind: GrammarKind::ChangeGrammar });
                    proof {
                        assert(error_views(bads@) =~= error_views(pre).push(
                            (no as nat, GrammarKind::ChangeGrammar),
                        ));
                        assert(error_views(pre) + (seq![(no as nat, GrammarKind::ChangeGrammar)]
                            + rest1) =~= error_views(bads@) + rest1);
                    }
                },
            }
        }
        i = i + 1;
    }
    if bads.len() == 0 {
        proof {
            assert(error_views(bads@) =~= Seq::<(nat, GrammarKind)>::empty());
            assert(parse_all(lv, 0).1.len() == 0);
        }
        Ok(goods)
    } else {
        proof {
            assert(error_views(bads@).len() == bads@.len());
        }
        Err(bads)
    }
}


// ---------------------------------------------------------------------------
// Rendering lines back to text
// ---------------------------------------------------------------------------

/// How one qualifier renders: a space, its sign if any, and its name.
pub open spec fn render_qual(q: QualModel) -> Seq<char> {
    match q {
        QualModel::Cat(s) => seq![' '] + s,
        QualModel::Minus(s) => seq![' ', '-'] + s,
        QualModel::Plus(s) => seq![' ', '+'] + s,
        QualModel::Zero(s) => seq![' ', '0'] + s,
    }
}

pub open spec fn render_quals(qs: Seq<QualModel>) -> Seq<char>
    decreases qs.len(),
{
    if qs.len() == 0 {
        Seq::<char>::empty()
    } else {
        render_qual(qs[0]) + render_quals(qs.drop_first())
    }
}

/// Each phone after a space.
pub open spec fn render_spaced(ps: Seq<Seq<char>>) -> Seq<char>
    decreases ps.len(),
{
    if ps.len() == 0 {
        Seq::<char>::empty()
    } else {
        seq![' '] + ps[0] + render_spaced(ps.drop_first())
    }
}

/// Each phone after a space and a sign.
pub open spec fn render_signed(ps: Seq<Seq<char>>, sign: char) -> Seq<char>
    decreases ps.len(),
{
    if ps.len() == 0 {
        Seq::<char>::empty()
    } else {
        seq![' ', sign] + ps[0] + render_signed(ps.drop_first(), sign)
    }
}

/// Each phone after a space, between quotes.
pub open spec fn render_quoted(ps: Seq<Seq<char>>) -> Seq<char>
    decreases ps.len(),
{
    if ps.len() == 0 {
        Seq::<char>::empty()
    } else {
        seq![' ', '\''] + ps[0] + seq!['\''] + render_quoted(ps.drop_first())
    }
}

/// Each special annotation after a slash.
pub open spec fn render_specials(ss: Seq<Seq<char>>) -> Seq<char>
    decreases ss.len(),
{
    if ss.len() == 0 {
        Seq::<char>::empty()
    } else {
        seq![' ', '/', ' '] + ss[0] + render_specials(ss.drop_first())
    }
}

/// How one environment renders.
pub open spec fn render_env(e: EnvModel) -> Seq<char> {
    seq![' ', '/'] + (if e.exception {
        seq!['!']
    } else {
        Seq::<char>::empty()
    }) + seq![' '] + (if e.from_start {
        seq!['#']
    } else {
        Seq::<char>::empty()
    }) + e.after + seq!['_'] + e.before + (if e.to_end {
        seq!['#']
    } else {
        Seq::<char>::empty()
    }) + seq![' ']
}

pub open spec fn render_envs(es: Seq<EnvModel>) -> Seq<char>
    decreases es.len(),
{
    if es.len() == 0 {
        Seq::<char>::empty()
    } else {
        render_env(es[0]) + render_envs(es.drop_first())
    }
}

/// How one classified line renders, for display.
pub open spec fn render_line(l: LineModel) -> Seq<char> {
    match l {
        LineModel::Directive(_, d) => match d {
            DirectiveModel::Category(n, ps) => seq!['%'] + kw_category() + seq![' '] + n + seq![
                ' ',
                ':',
            ] + render_spaced(ps),
            DirectiveModel::Feature(n, p, m) => seq!['%'] + kw_feature() + seq![' '] + n + seq![
                ' ',
                ':',
            ] + render_signed(p, '+') + render_signed(m, '-'),
            DirectiveModel::Symbol(c, ps, qs) => seq!['%'] + kw_symbol() + seq![' ', c, ' ', ':']
                + render_quoted(ps) + render_quals(qs),
        },
        LineModel::Stage(_, n) => seq!['#', '=', ' '] + n,
        LineModel::Phone(_, p, qs) => seq!['=', ' '] + p + seq![' ', ':'] + render_quals(qs),
        LineModel::Change(_, sc) => sc.from + seq![' ', '-', '>', ' '] + sc.to + render_specials(
            sc.specials,
        ) + render_envs(sc.envs),
    }
}


#[verifier::loop_isolation(false)]
fn render_spaced_into(out: &mut Vec<char>, ps: &Vec<Phone>)
    ensures
        final(out)@ == old(out)@ + render_spaced(phone_views(ps@)),
{
    let ghost pv = phone_views(ps@);
    let mut j: usize = 0;
    proof {
        assert(pv.skip(0) =~= pv);
    }
    while j < ps.len()
        invariant
            j <= pv.len(),
            old(out)@ + render_spaced(pv) == out@ + render_spaced(pv.skip(j as int)),
        decreases pv.len() - j,
    {
        proof {
            assert(pv.skip(j as int)[0] == pv[j as int]);
            assert(pv.skip(j as int).drop_first() =~= pv.skip(j as int + 1));
        }
        let ghost pre = out@;
        out.push(' ');
        crate::chars::extend_chars(out, &ps[j].chars);
        proof {
            assert(out@ =~= pre + (seq![' '] + pv[j as int]));
            assert(pre + ((seq![' '] + pv[j as int]) + render_spaced(pv.skip(j as int + 1)))
                =~= out@ + render_spaced(pv.skip(j as int + 1)));
        }
        j = j + 1;
    }
    proof {
        assert(pv.skip(pv.len() as int) =~= Seq::<Seq<char>>::empty());
        assert(out@ + Seq::<char>::empty() =~= out@);
    }
}

#[verifier::loop_isolation(false)]
fn render_signed_into(out: &mut Vec<char>, ps: &Vec<Phone>, sign: char)
    ensures
        final(out)@ == old(out)@ + render_signed(phone_views(ps@), sign),
{
    let ghost pv = phone_views(ps@);
    let mut j: usize = 0;
    proof {
        assert(pv.skip(0) =~= pv);
    }
    while j < ps.len()
        invariant
            j <= pv.len(),
            old(out)@ + render_signed(pv, sign) == out@ + render_signed(pv.skip(j as int), sign),
        decreases pv.len() - j,
    {
        proof {
            assert(pv.skip(j as int)[0] == pv[j as int]);
            assert(pv.skip(j as int).drop_first() =~= pv.skip(j as int + 1));
        }
        let ghost pre = out@;
        out.push(' ');
        out.push(sign);
        crate::chars::extend_chars(out, &ps[j].chars);
        proof {
            assert(out@ =~= pre + (seq![' ', sign] + pv[j as int]));
            assert(pre + ((seq![' ', sign] + pv[j as int]) + render_signed(
                pv.skip(j as int + 1),
                sign,
            )) =~= out@ + render_signed(pv.skip(j as int + 1), sign));
        }
        j = j + 1;
    }
    proof {
        assert(pv.skip(pv.len() as int) =~= Seq::<Seq<char>>::empty());
        assert(out@ + Seq::<char>::empty() =~= out@);
    }
}

#[verifier::loop_isolation(false)]
fn render_quoted_into(out: &mut Vec<char>, ps: &Vec<Phone>)
    ensures
        final(out)@ == old(out)@ + render_quoted(phone_views(ps@)),
{
    let ghost pv = phone_views(ps@);
    let mut j: usize = 0;
    proof {
        assert(pv.skip(0) =~= pv);
    }
    while j < ps.len()
        invariant
            j <= pv.len(),
            old(out)@ + render_quoted(pv) == out@ + render_quoted(pv.skip(j as int)),
        decreases pv.len() - j,
    {
        proof {
            assert(pv.skip(j as int)[0] == pv[j as int]);
            assert(pv.skip(j as int).drop_first() =~= pv.skip(j as int + 1));
        }
        let ghost pre = out@;
        out.push(' ');
        out.push('\'');
        crate::chars::extend_chars(out, &ps[j].chars);
        out.push('\'');
        proof {
            assert(out@ =~= pre + (seq![' ', '\''] + pv[j as int] + seq!['\'']));
            assert(pre + ((seq![' ', '\''] + pv[j as int] + seq!['\'']) + render_quoted(
                pv.skip(j as int + 1),
            )) =~= out@ + render_quoted(pv.skip(j as int + 1)));
        }
        j = j + 1;
    }
    proof {
        assert(pv.skip(pv.len() as int) =~= Seq::<Seq<char>>::empty());
        assert(out@ + Seq::<char>::empty() =~= out@);
    }
}

#[verifier::loop_isolation(false)]
fn render_quals_into(out: &mut Vec<char>, qs: &Vec<PhoneQualifier>)
    ensures
        final(out)@ == old(out)@ + render_quals(qual_views(qs@)),
{
    let ghost qv = qual_views(qs@);
    let mut j: usize = 0;
    proof {
        assert(qv.skip(0) =~= qv);
    }
    while j < qs.len()
        invariant
            j <= qv.len(),
            old(out)@ + render_quals(qv) == out@ + render_quals(qv.skip(j as int)),
        decreases qv.len() - j,
    {
        proof {
            assert(qv.skip(j as int)[0] == qv[j as int]);
            assert(qv.skip(j as int).drop_first() =~= qv.skip(j as int + 1));
        }
        let ghost pre = out@;
        out.push(' ');
        match &qs[j] {
            PhoneQualifier::Cat(n) => {
                crate::chars::extend_chars(out, n);
            },
            PhoneQualifier::Minus(n) => {
                out.push('-');
                crate::chars::extend_chars(out, n);
            },
            PhoneQualifier::Plus(n) => {
                out.push('+');
                crate::chars::extend_chars(out, n);
            },
            PhoneQualifier::Zero(n) => {
                out.push('0');
                crate::chars::extend_chars(out, n);
            },
        }
        proof {
            assert(out@ =~= pre + render_qual(qv[j as int]));
            assert(pre + (render_qual(qv[j as int]) + render_quals(qv.skip(j as int + 1))) =~= out@
                + render_quals(qv.skip(j as int + 1)));
        }
        j = j + 1;
    }
    proof {
        assert(qv.skip(qv.len() as int) =~= Seq::<QualModel>::empty());
        assert(out@ + Seq::<char>::empty() =~= out@);
    }
}

#[verifier::loop_isolation(false)]
fn render_specials_into(out: &mut Vec<char>, ss: &Vec<Vec<char>>)
    ensures
        final(out)@ == old(out)@ + render_specials(views_of(ss@)),
{
    let ghost sv = views_of(ss@);
    let mut j: usize = 0;
    proof {
        assert(sv.skip(0) =~= sv);
    }
    while j < ss.len()
        invariant
            j <= sv.len(),
            old(out)@ + render_specials(sv) == out@ + render_specials(sv.skip(j as int)),
        decreases sv.len() - j,
    {
        proof {
            assert(sv.skip(j as int)[0] == sv[j as int]);
            assert(sv.skip(j as int).drop_first() =~= sv.skip(j as int + 1));
        }
        let ghost pre = out@;
        out.push(' ');
        out.push('/');
        out.push(' ');
        crate::chars::extend_chars(out, &ss[j]);
        proof {
            assert(out@ =~= pre + (seq![' ', '/', ' '] + sv[j as int]));
            assert(pre + ((seq![' ', '/', ' '] + sv[j as int]) + render_specials(
                sv.skip(j as int + 1),
            )) =~= out@ + render_specials(sv.skip(j as int + 1)));
        }
        j = j + 1;
    }
    proof {
        assert(sv.skip(sv.len() as int) =~= Seq::<Seq<char>>::empty());
        assert(out@ + Seq::<char>::empty() =~= out@);
    }
}

#[verifier::loop_isolation(false)]
fn render_envs_into(out: &mut Vec<char>, es: &Vec<Environment>)
    ensures
        final(out)@ == old(out)@ + render_envs(env_views(es@)),
{
    let ghost ev = env_views(es@);
    let mut j: usize = 0;
    proof {
        assert(ev.skip(0) =~= ev);
    }
    while j < es.len()
        invariant
            j <= ev.len(),
            old(out)@ + render_envs(ev) == out@ + render_envs(ev.skip(j as int)),
        decreases ev.len() - j,
    {
        proof {
            assert(ev.skip(j as int)[0] == ev[j as int]);
            assert(ev.skip(j as int).drop_first() =~= ev.skip(j as int + 1));
        }
        let ghost pre = out@;
        let e = &es[j];
        out.push(' ');
        out.push('/');
        if e.exception {
            out.push('!');
        }
        out.push(' ');
        if e.from_start {
            out.push('#');
        }
        crate::chars::extend_chars(out, &e.after);
        out.push('_');
        crate::chars::extend_chars(out, &e.before);
        if e.to_end {
            out.push('#');
        }
        out.push(' ');
        proof {
            assert(out@ =~= pre + render_env(ev[j as int]));
            assert(pre + (render_env(ev[j as int]) + render_envs(ev.skip(j as int + 1))) =~= out@
                + render_envs(ev.skip(j as int + 1)));
        }
        j = j + 1;
    }
    proof {
        assert(ev.skip(ev.len() as int) =~= Seq::<EnvModel>::empty());
        assert(out@ + Seq::<char>::empty() =~= out@);
    }
}

impl Line {
    /// Renders the line for display, in the shape its writer used.
    pub fn render(&self) -> (r: Vec<char>)
        ensures
            r@ == render_line(self@),
    {
        let mut out: Vec<char> = Vec::new();
        match self {
            Line::Directive(_, d) => {
                match d {
                    Directive::Category(n, ps) => {
                        out.push('%');
                        out.push('c');
                        out.push('a');
                        out.push('t');
                        out.push('e');
                        out.push('g');
                        out.push('o');
                        out.push('r');
                        out.push('y');
                        out.push(' ');
                        crate::chars::extend_chars(&mut out, n);
                        out.push(' ');
                        out.push(':');
                        proof {
                            assert(out@ =~= seq!['%'] + kw_category() + seq![' '] + n@ + seq![
                                ' ',
                                ':',
                            ]);
                        }
                        render_spaced_into(&mut out, ps);
                    },
                    Directive::Feature(n, p, m) => {
                        out.push('%');
                        out.push('f');
                        out.push('e');
                        out.push('a');
                        out.push('t');
                        out.push('u');
                        out.push('r');
                        out.push('e');
                        out.push(' ');
                        crate::chars::extend_chars(&mut out, n);
                        out.push(' ');
                        out.push(':');
                        proof {
                            assert(out@ =~= seq!['%'] + kw_feature() + seq![' '] + n@ + seq![
                                ' ',
                                ':',
                            ]);
                        }
                        render_signed_into(&mut out, p, '+');
                        render_signed_into(&mut out, m, '-');
                        proof {
                            assert((seq!['%'] + kw_feature() + seq![' '] + n@ + seq![' ', ':']
                                + render_signed(phone_views(p@), '+')) + render_signed(
                                phone_views(m@),
                                '-',
                            ) =~= out@);
                        }
                    },
                    Directive::Symbol(c, ps, qs) => {
                        out.push('%');
                        out.push('s');
                        out.push('y');
                        out.push('m');
                        out.push('b');
                        out.push('o');
                        out.push('l');
                        out.push(' ');
                        out.push(*c);
                        out.push(' ');
                        out.push(':');
                        proof {
                            assert(out@ =~= seq!['%'] + kw_symbol() + seq![' ', *c, ' ', ':']);
                        }
                        render_quoted_into(&mut out, ps);
                        render_quals_into(&mut out, qs);
                        proof {
                            assert((seq!['%'] + kw_symbol() + seq![' ', *c, ' ', ':']
                                + render_quoted(phone_views(ps@))) + render_quals(qual_views(qs@))
                                =~= out@);
                        }
                    },
                }
            },
            Line::Stage(_, n) => {
                out.push('#');
                out.push('=');
                out.push(' ');
                crate::chars::extend_chars(&mut out, n);
                proof {
                    assert(out@ =~= seq!['#', '=', ' '] + n@);
                }
            },
            Line::Phone(_, p, qs) => {
                out.push('=');
                out.push(' ');
                crate::chars::extend_chars(&mut out, &p.chars);
                out.push(' ');
                out.push(':');
                proof {
                    assert(out@ =~= seq!['=', ' '] + p@ + seq![' ', ':']);
                }
                render_quals_into(&mut out, qs);
            },
            Line::Change(_, sc) => {
                crate::chars::extend_chars(&mut out, &sc.from);
                out.push(' ');
                out.push('-');
                out.push('>');
                out.push(' ');
                crate::chars::extend_chars(&mut out, &sc.to);
                proof {
                    assert(out@ =~= sc.from@ + seq![' ', '-', '>', ' '] + sc.to@);
                }
                render_specials_into(&mut out, &sc.special_environments);
                render_envs_into(&mut out, &sc.environments);
                proof {
                    assert((sc.from@ + seq![' ', '-', '>', ' '] + sc.to@ + render_specials(
                        views_of(sc.special_environments@),
                    )) + render_envs(env_views(sc.environments@)) =~= out@);
                }
            },
        }
        out
    }
}

} // verus!
