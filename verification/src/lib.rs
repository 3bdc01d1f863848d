use vstd::prelude::*;

pub mod chars;
pub mod file;
pub mod rules;
pub mod run;

use crate::chars::{chars_eq, copy_range};

verus! {

/// An atomic sound unit, identified by its characters alone.
#[derive(Debug)]
pub struct Phone {
    pub chars: Vec<char>,
}

impl View for Phone {
    type V = Seq<char>;

    open spec fn view(&self) -> Seq<char> {
        self.chars@
    }
}

impl Phone {
    pub fn new(chars: Vec<char>) -> (r: Phone)
        ensures
            r@ == chars@,
    {
        Phone { chars }
    }

    /// A phone with the same characters.
    pub fn duplicate(&self) -> (r: Phone)
        ensures
            r@ == self@,
    {
        let c = copy_range(&self.chars, 0, self.chars.len());
        proof {
            assert(c@ =~= self.chars@);
        }
        Phone { chars: c }
    }
}

/// The views of a vector of phones: the member list as character sequences.
pub open spec fn phone_views(ps: Seq<Phone>) -> Seq<Seq<char>> {
    ps.map_values(|p: Phone| p@)
}

/// A member list with `p` appended, unless it is already present.
pub open spec fn add1(m: Seq<Seq<char>>, p: Seq<char>) -> Seq<Seq<char>> {
    if m.contains(p) {
        m
    } else {
        m.push(p)
    }
}

pub proof fn lemma_add1_contains(m: Seq<Seq<char>>, p: Seq<char>, x: Seq<char>)
    ensures
        add1(m, p).contains(x) <==> (m.contains(x) || x == p),
{
    if m.contains(p) {
    } else {
        if m.contains(x) {
            let i = choose|i: int| 0 <= i < m.len() && m[i] == x;
            assert(m.push(p)[i] == x);
        }
        assert(m.push(p)[m.len() as int] == p);
        if m.push(p).contains(x) && x != p {
            let i = choose|i: int| 0 <= i < m.push(p).len() && m.push(p)[i] == x;
            assert(m[i] == x);
        }
    }
}

/// A member list with every occurrence of `p` removed.
pub open spec fn remove_all(m: Seq<Seq<char>>, p: Seq<char>) -> Seq<Seq<char>>
    decreases m.len(),
{
    if m.len() == 0 {
        Seq::empty()
    } else {
        let rest = remove_all(m.drop_first(), p);
        if m[0] == p {
            rest
        } else {
            seq![m[0]] + rest
        }
    }
}

pub proof fn lemma_remove_all_contains(m: Seq<Seq<char>>, p: Seq<char>, x: Seq<char>)
    ensures
        remove_all(m, p).contains(x) <==> (m.contains(x) && x != p),
    decreases m.len(),
{
    if m.len() == 0 {
        if m.contains(x) {
            let i = choose|i: int| 0 <= i < m.len() && m[i] == x;
        }
    } else {
        lemma_remove_all_contains(m.drop_first(), p, x);
        let rest = remove_all(m.drop_first(), p);
        if m.drop_first().contains(x) {
            let i = choose|i: int| 0 <= i < m.drop_first().len() && m.drop_first()[i] == x;
            assert(m[i + 1] == x);
        }
        if m.contains(x) && x != p {
            let i = choose|i: int| 0 <= i < m.len() && m[i] == x;
            if i > 0 {
                assert(m.drop_first()[i - 1] == x);
            }
        }
        if m[0] != p {
            assert((seq![m[0]] + rest)[0] == m[0]);
            if rest.contains(x) {
                let i = choose|i: int| 0 <= i < rest.len() && rest[i] == x;
                assert((seq![m[0]] + rest)[i + 1] == x);
            }
            if (seq![m[0]] + rest).contains(x) {
                let i = choose|i: int| 0 <= i < rest.len() + 1 && (seq![m[0]] + rest)[i] == x;
                if i > 0 {
                    assert(rest[i - 1] == x);
                }
            }
        }
    }
}

/// Whether a phone with these characters is in the list.
pub fn contains_phone(ps: &Vec<Phone>, p: &Vec<char>) -> (r: bool)
    ensures
        r == phone_views(ps@).contains(p@),
{
    let mut j: usize = 0;
    while j < ps.len()
        invariant
            j <= ps@.len(),
            forall|k: int| 0 <= k < j ==> phone_views(ps@)[k] != p@,
        decreases ps@.len() - j,
    {
        if chars_eq(&ps[j].chars, p) {
            proof {
                assert(phone_views(ps@)[j as int] == p@);
            }
            return true;
        }
        j = j + 1;
    }
    false
}

/// A copy of a phone list.
pub fn duplicate_phones(ps: &Vec<Phone>) -> (r: Vec<Phone>)
    ensures
        phone_views(r@) == phone_views(ps@),
{
    let mut r: Vec<Phone> = Vec::new();
    let mut j: usize = 0;
    while j < ps.len()
        invariant
            j <= ps@.len(),
            phone_views(r@) == phone_views(ps@).take(j as int),
        decreases ps@.len() - j,
    {
        let ghost pre = r@;
        let ph = ps[j].duplicate();
        r.push(ph);
        proof {
            assert(phone_views(pre).len() == pre.len());
            assert(phone_views(ps@).take(j as int).len() == j as int);
            assert(pre.len() == j as int);
            assert(r@ == pre.push(ph));
            assert(ph@ == phone_views(ps@)[j as int]);
            assert forall|k: int|
                0 <= k < j + 1 implies phone_views(r@)[k] == phone_views(ps@).take(
                j as int + 1,
            )[k] by {
                assert(phone_views(ps@).take(j as int + 1)[k] == phone_views(ps@)[k]);
                if k < j {
                    assert(r@[k] == pre[k]);
                    assert(phone_views(r@)[k] == pre[k]@);
                    assert(phone_views(pre)[k] == pre[k]@);
                    assert(phone_views(pre)[k] == phone_views(ps@).take(j as int)[k]);
                    assert(phone_views(ps@).take(j as int)[k] == phone_views(ps@)[k]);
                } else {
                    assert(r@[k] == ph);
                    assert(phone_views(r@)[k] == ph@);
                }
            }
            assert(phone_views(r@).len() == j + 1);
            assert(phone_views(r@) =~= phone_views(ps@).take(j as int + 1));
        }
        j = j + 1;
    }
    proof {
        assert(phone_views(ps@).take(ps@.len() as int) =~= phone_views(ps@));
    }
    r
}

/// A phone list with every phone spelled like `p` removed.
pub fn remove_phones(ps: &Vec<Phone>, p: &Vec<char>) -> (r: Vec<Phone>)
    ensures
        phone_views(r@) == remove_all(phone_views(ps@), p@),
{
    let mut r: Vec<Phone> = Vec::new();
    let ghost full = phone_views(ps@);
    let mut j: usize = 0;
    proof {
        assert(full.skip(0) =~= full);
        assert(phone_views(r@) + remove_all(full, p@) =~= remove_all(full, p@));
    }
    while j < ps.len()
        invariant
            j <= ps@.len(),
            full == phone_views(ps@),
            remove_all(full, p@) == phone_views(r@) + remove_all(full.skip(j as int), p@),
        decreases ps@.len() - j,
    {
        proof {
            assert(full.skip(j as int)[0] == full[j as int]);
            assert(full.skip(j as int).drop_first() =~= full.skip(j as int + 1));
        }
        if !chars_eq(&ps[j].chars, p) {
            r.push(ps[j].duplicate());
            proof {
                assert(phone_views(r@) =~= phone_views(r@.drop_last()).push(full[j as int]));
                assert(phone_views(r@.drop_last()) + (seq![full[j as int]] + remove_all(
                    full.skip(j as int + 1),
                    p@,
                )) =~= phone_views(r@) + remove_all(full.skip(j as int + 1), p@));
            }
        }
        j = j + 1;
    }
    proof {
        assert(full.skip(ps@.len() as int) =~= Seq::<Seq<char>>::empty());
        assert(phone_views(r@) + remove_all(full.skip(ps@.len() as int), p@) =~= phone_views(r@));
    }
    r
}

/// A named natural class: the set of its member phones, in declaration
/// order of first insertion.
#[derive(Debug)]
pub struct Category {
    pub members: Vec<Phone>,
}

impl View for Category {
    type V = Seq<Seq<char>>;

    open spec fn view(&self) -> Seq<Seq<char>> {
        phone_views(self.members@)
    }
}

impl Category {
    pub fn new() -> (r: Category)
        ensures
            r@ == Seq::<Seq<char>>::empty(),
    {
        proof {
            assert(phone_views(Seq::<Phone>::empty()) =~= Seq::<Seq<char>>::empty());
        }
        Category { members: Vec::new() }
    }

    /// Adds a phone; a phone already present is not added again, so the
    /// position of its first insertion stays canonical.
    pub fn add(&mut self, phone: Phone)
        ensures
            final(self)@ == add1(old(self)@, phone@),
    {
        if !contains_phone(&self.members, &phone.chars) {
            self.members.push(phone);
            proof {
                assert(phone_views(self.members@) =~= phone_views(
                    old(self).members@,
                ).push(phone@));
            }
        }
    }

    pub fn remove(&mut self, phone: &Phone)
        ensures
            final(self)@ == remove_all(old(self)@, phone@),
            !final(self)@.contains(phone@),
    {
        self.members = remove_phones(&self.members, &phone.chars);
        proof {
            lemma_remove_all_contains(old(self)@, phone@, phone@);
        }
    }

    pub fn contains(&self, phone: &Phone) -> (r: bool)
        ensures
            r == self@.contains(phone@),
    {
        contains_phone(&self.members, &phone.chars)
    }

    /// A category with the same members.
    pub fn duplicate(&self) -> (r: Category)
        ensures
            r@ == self@,
    {
        Category { members: duplicate_phones(&self.members) }
    }
}

/// A binary property: the phones marked `+`, and the phones marked `-`.
/// The two sets are disjoint in any feature built by this library.
#[derive(Debug)]
pub struct Feature {
    pub plus_set: Vec<Phone>,
    pub minus_set: Vec<Phone>,
}

/// The polarity sets of a feature never overlap.
pub open spec fn feat_disjoint(plus: Seq<Seq<char>>, minus: Seq<Seq<char>>) -> bool {
    forall|x: Seq<char>| !(#[trigger] plus.contains(x) && minus.contains(x))
}

impl View for Feature {
    type V = (Seq<Seq<char>>, Seq<Seq<char>>);

    open spec fn view(&self) -> (Seq<Seq<char>>, Seq<Seq<char>>) {
        (phone_views(self.plus_set@), phone_views(self.minus_set@))
    }
}

impl Feature {
    pub fn new() -> (r: Feature)
        ensures
            r@.0 == Seq::<Seq<char>>::empty(),
            r@.1 == Seq::<Seq<char>>::empty(),
            feat_disjoint(r@.0, r@.1),
    {
        proof {
            assert(phone_views(Seq::<Phone>::empty()) =~= Seq::<Seq<char>>::empty());
        }
        Feature { plus_set: Vec::new(), minus_set: Vec::new() }
    }

    /// Marks the phone `+`: it leaves the minus set and joins the plus set,
    /// so disjointness of the two sets is preserved.
    pub fn plus(&mut self, phone: Phone)
        ensures
            final(self)@.0 == add1(old(self)@.0, phone@),
            final(self)@.1 == remove_all(old(self)@.1, phone@),
            feat_disjoint(old(self)@.0, old(self)@.1) ==> feat_disjoint(
                final(self)@.0,
                final(self)@.1,
            ),
    {
        self.minus_set = remove_phones(&self.minus_set, &phone.chars);
        let ghost p = phone@;
        if !contains_phone(&self.plus_set, &phone.chars) {
            self.plus_set.push(phone);
            proof {
                assert(phone_views(self.plus_set@) =~= phone_views(
                    old(self).plus_set@,
                ).push(p));
            }
        }
        proof {
            lemma_feat_update_disjoint(old(self)@.0, old(self)@.1, p);
        }
    }

    /// Marks the phone `-`: the mirror image of `plus`.
    pub fn minus(&mut self, phone: Phone)
        ensures
            final(self)@.1 == add1(old(self)@.1, phone@),
            final(self)@.0 == remove_all(old(self)@.0, phone@),
            feat_disjoint(old(self)@.0, old(self)@.1) ==> feat_disjoint(
                final(self)@.0,
                final(self)@.1,
            ),
    {
        self.plus_set = remove_phones(&self.plus_set, &phone.chars);
        let ghost p = phone@;
        if !contains_phone(&self.minus_set, &phone.chars) {
            self.minus_set.push(phone);
            proof {
                assert(phone_views(self.minus_set@) =~= phone_views(
                    old(self).minus_set@,
                ).push(p));
            }
        }
        proof {
            lemma_feat_update_disjoint(old(self)@.1, old(self)@.0, p);
        }
    }

    /// Unsets the phone in both polarity sets.
    pub fn zero(&mut self, phone: &Phone)
        ensures
            final(self)@.0 == remove_all(old(self)@.0, phone@),
            final(self)@.1 == remove_all(old(self)@.1, phone@),
            !final(self)@.0.contains(phone@),
            !final(self)@.1.contains(phone@),
            feat_disjoint(old(self)@.0, old(self)@.1) ==> feat_disjoint(
                final(self)@.0,
                final(self)@.1,
            ),
    {
        self.plus_set = remove_phones(&self.plus_set, &phone.chars);
        self.minus_set = remove_phones(&self.minus_set, &phone.chars);
        proof {
            lemma_remove_all_contains(old(self)@.0, phone@, phone@);
            lemma_remove_all_contains(old(self)@.1, phone@, phone@);
            if feat_disjoint(old(self)@.0, old(self)@.1) {
                assert forall|x: Seq<char>|
                    !(#[trigger] self@.0.contains(x) && self@.1.contains(x)) by {
                    lemma_remove_all_contains(old(self)@.0, phone@, x);
                    lemma_remove_all_contains(old(self)@.1, phone@, x);
                }
            }
        }
    }

    /// A feature with the same polarity sets.
    pub fn duplicate(&self) -> (r: Feature)
        ensures
            r@ == self@,
    {
        Feature {
            plus_set: duplicate_phones(&self.plus_set),
            minus_set: duplicate_phones(&self.minus_set),
        }
    }
}

/// After one set gains `p` and the other loses it, the sets stay disjoint.
pub proof fn lemma_feat_update_disjoint(gain: Seq<Seq<char>>, lose: Seq<Seq<char>>, p: Seq<char>)
    ensures
        feat_disjoint(gain, lose) ==> feat_disjoint(add1(gain, p), remove_all(lose, p)),
{
    if feat_disjoint(gain, lose) {
        assert forall|x: Seq<char>|
            !(#[trigger] add1(gain, p).contains(x) && remove_all(lose, p).contains(x)) by {
            lemma_add1_contains(gain, p, x);
            lemma_remove_all_contains(lose, p, x);
        }
    }
}

/// The first entry of an association list with the given name.
pub open spec fn assoc_index<V>(s: Seq<(Seq<char>, V)>, name: Seq<char>) -> Option<int>
    decreases s.len(),
{
    if s.len() == 0 {
        None
    } else if s[0].0 == name {
        Some(0)
    } else {
        match assoc_index(s.drop_first(), name) {
            Some(i) => Some(i + 1),
            None => None,
        }
    }
}

pub proof fn lemma_assoc_index<V>(s: Seq<(Seq<char>, V)>, name: Seq<char>)
    ensures
        match assoc_index(s, name) {
            Some(i) => 0 <= i < s.len() && s[i].0 == name && forall|k: int|
                0 <= k < i ==> s[k].0 != name,
            None => forall|k: int| 0 <= k < s.len() ==> s[k].0 != name,
        },
    decreases s.len(),
{
    if s.len() > 0 && s[0].0 != name {
        lemma_assoc_index(s.drop_first(), name);
        match assoc_index(s.drop_first(), name) {
            Some(i) => {
                assert(s[i + 1] == s.drop_first()[i]);
                assert forall|k: int| 0 <= k < i + 1 implies s[k].0 != name by {
                    if k > 0 {
                        assert(s.drop_first()[k - 1] == s[k]);
                    }
                }
            },
            None => {
                assert forall|k: int| 0 <= k < s.len() implies s[k].0 != name by {
                    if k > 0 {
                        assert(s.drop_first()[k - 1] == s[k]);
                    }
                }
            },
        }
    }
}

/// The value bound to a name, if any.
pub open spec fn assoc_find<V>(s: Seq<(Seq<char>, V)>, name: Seq<char>) -> Option<V> {
    match assoc_index(s, name) {
        Some(i) => Some(s[i].1),
        None => None,
    }
}

/// Binds a name: the first entry with the name is overwritten whole, so the
/// old value is discarded, never merged; an unknown name is appended.
pub open spec fn assoc_set<V>(s: Seq<(Seq<char>, V)>, name: Seq<char>, v: V) -> Seq<
    (Seq<char>, V),
> {
    match assoc_index(s, name) {
        Some(i) => s.update(i, (name, v)),
        None => s.push((name, v)),
    }
}

/// Rebinding a name keeps the entry where it was, so binding the same name
/// to the same value twice leaves exactly what binding it once left.
pub proof fn lemma_assoc_set_idempotent<V>(s: Seq<(Seq<char>, V)>, name: Seq<char>, v: V)
    ensures
        assoc_set(assoc_set(s, name, v), name, v) == assoc_set(s, name, v),
{
    lemma_assoc_index(s, name);
    let s1 = assoc_set(s, name, v);
    match assoc_index(s, name) {
        Some(i) => {
            lemma_assoc_index_stable(s, name, i, v);
            assert(s1.update(i, (name, v)) =~= s1);
        },
        None => {
            lemma_assoc_index_pushed(s, name, v);
            assert(s1.update(s.len() as int, (name, v)) =~= s1);
        },
    }
}

/// Overwriting the first entry of a name does not move where the name is found.
pub proof fn lemma_assoc_index_stable<V>(s: Seq<(Seq<char>, V)>, name: Seq<char>, i: int, v: V)
    requires
        0 <= i < s.len(),
        s[i].0 == name,
        forall|k: int| 0 <= k < i ==> s[k].0 != name,
    ensures
        assoc_index(s.update(i, (name, v)), name) == Some(i),
    decreases s.len(),
{
    if i == 0 {
        assert(s.update(0, (name, v))[0].0 == name);
    } else {
        assert(s[0].0 != name);
        let t = s.drop_first();
        assert(forall|k: int| 0 <= k < i - 1 ==> t[k] == s[k + 1]);
        assert(t[i - 1] == s[i]);
        lemma_assoc_index_stable(t, name, i - 1, v);
        assert(s.update(i, (name, v)).drop_first() =~= t.update(i - 1, (name, v)));
        assert(s.update(i, (name, v))[0] == s[0]);
    }
}

/// Appending a fresh name makes it findable at the end.
pub proof fn lemma_assoc_index_pushed<V>(s: Seq<(Seq<char>, V)>, name: Seq<char>, v: V)
    requires
        forall|k: int| 0 <= k < s.len() ==> s[k].0 != name,
    ensures
        assoc_index(s.push((name, v)), name) == Some(s.len() as int),
    decreases s.len(),
{
    if s.len() == 0 {
        assert(s.push((name, v))[0].0 == name);
    } else {
        assert(s.push((name, v))[0] == s[0]);
        assert(s[0].0 != name);
        let t = s.drop_first();
        assert(forall|k: int| 0 <= k < t.len() ==> t[k] == s[k + 1]);
        lemma_assoc_index_pushed(t, name, v);
        assert(s.push((name, v)).drop_first() =~= t.push((name, v)));
    }
}

/// After a name is bound, it is found at its entry, and overwriting that
/// entry rebinds the name in place.
pub proof fn lemma_assoc_set_then_set<V>(s: Seq<(Seq<char>, V)>, name: Seq<char>, v: V, w: V)
    ensures
        assoc_index(assoc_set(s, name, v), name) is Some,
        ({
            let i = assoc_index(assoc_set(s, name, v), name).unwrap();
            0 <= i < assoc_set(s, name, v).len() && assoc_set(s, name, v)[i] == (name, v)
                && assoc_set(s, name, v).update(i, (name, w)) == assoc_set(s, name, w)
        }),
{
    lemma_assoc_index(s, name);
    match assoc_index(s, name) {
        Some(i) => {
            lemma_assoc_index_stable(s, name, i, v);
            assert(assoc_set(s, name, v)[i] == (name, v));
            assert(assoc_set(s, name, v).update(i, (name, w)) =~= s.update(i, (name, w)));
        },
        None => {
            lemma_assoc_index_pushed(s, name, v);
            assert(assoc_set(s, name, v)[s.len() as int] == (name, v));
            assert(assoc_set(s, name, v).update(s.len() as int, (name, w)) =~= s.push((name, w)));
        },
    }
}

/// The accumulated model: named categories and named features.
#[derive(Debug)]
pub struct Phonology {
    pub categories: Vec<(Vec<char>, Category)>,
    pub features: Vec<(Vec<char>, Feature)>,
}

/// The mathematical content of a phonology: category and feature tables.
pub struct PhonologyModel {
    pub cats: Seq<(Seq<char>, Seq<Seq<char>>)>,
    pub feats: Seq<(Seq<char>, (Seq<Seq<char>>, Seq<Seq<char>>))>,
}

pub open spec fn cats_view(v: Seq<(Vec<char>, Category)>) -> Seq<(Seq<char>, Seq<Seq<char>>)> {
    v.map_values(|e: (Vec<char>, Category)| (e.0@, e.1@))
}

pub open spec fn feats_view(v: Seq<(Vec<char>, Feature)>) -> Seq<
    (Seq<char>, (Seq<Seq<char>>, Seq<Seq<char>>)),
> {
    v.map_values(|e: (Vec<char>, Feature)| (e.0@, e.1@))
}

impl View for Phonology {
    type V = PhonologyModel;

    open spec fn view(&self) -> PhonologyModel {
        PhonologyModel { cats: cats_view(self.categories@), feats: feats_view(self.features@) }
    }
}

/// Every feature of the phonology keeps its polarity sets disjoint.
pub open spec fn phonology_wf(m: PhonologyModel) -> bool {
    forall|k: int|
        0 <= k < m.feats.len() ==> feat_disjoint(
            (#[trigger] m.feats[k]).1.0,
            m.feats[k].1.1,
        )
}

impl Phonology {
    pub fn new() -> (r: Phonology)
        ensures
            r@.cats == Seq::<(Seq<char>, Seq<Seq<char>>)>::empty(),
            r@.feats == Seq::<(Seq<char>, (Seq<Seq<char>>, Seq<Seq<char>>))>::empty(),
            phonology_wf(r@),
    {
        let r = Phonology { categories: Vec::new(), features: Vec::new() };
        proof {
            assert(r@.cats =~= Seq::<(Seq<char>, Seq<Seq<char>>)>::empty());
            assert(r@.feats =~= Seq::<(Seq<char>, (Seq<Seq<char>>, Seq<Seq<char>>))>::empty());
        }
        r
    }

    fn find_category(&self, name: &Vec<char>) -> (r: Option<usize>)
        ensures
            match r {
                Some(i) => assoc_index(self@.cats, name@) == Some(i as int) && i < self@.cats.len()
                    && self@.cats[i as int].0 == name@,
                None => assoc_index(self@.cats, name@) is None,
            },
    {
        let ghost cats = self@.cats;
        let mut j: usize = 0;
        while j < self.categories.len()
            invariant
                j <= self.categories@.len(),
                cats == self@.cats,
                cats.len() == self.categories@.len(),
                forall|k: int| 0 <= k < j ==> (#[trigger] cats[k]).0 != name@,
            decreases self.categories@.len() - j,
        {
            if chars_eq(&self.categories[j].0, name) {
                proof {
                    assert(cats[j as int].0 == name@);
                    lemma_assoc_index(cats, name@);
                    match assoc_index(cats, name@) {
                        Some(i) => {
                            if i < j {
                                assert(cats[i].0 != name@);
                            }
                            if i > j {
                                assert(cats[j as int].0 != name@);
                            }
                        },
                        None => {
                            assert(cats[j as int].0 != name@);
                        },
                    }
                }
                return Some(j);
            }
            j = j + 1;
        }
        proof {
            lemma_assoc_index(cats, name@);
            match assoc_index(cats, name@) {
                Some(i) => {
                    assert(cats[i].0 != name@);
                },
                None => {},
            }
        }
        None
    }

    fn find_feature(&self, name: &Vec<char>) -> (r: Option<usize>)
        ensures
            match r {
                Some(i) => assoc_index(self@.feats, name@) == Some(i as int) && i
                    < self@.feats.len() && self@.feats[i as int].0 == name@,
                None => assoc_index(self@.feats, name@) is None,
            },
    {
        let ghost feats = self@.feats;
        let mut j: usize = 0;
        while j < self.features.len()
            invariant
                j <= self.features@.len(),
                feats == self@.feats,
                feats.len() == self.features@.len(),
                forall|k: int| 0 <= k < j ==> (#[trigger] feats[k]).0 != name@,
            decreases self.features@.len() - j,
        {
            if chars_eq(&self.features[j].0, name) {
                proof {
                    assert(feats[j as int].0 == name@);
                    lemma_assoc_index(feats, name@);
                    match assoc_index(feats, name@) {
                        Some(i) => {
                            if i < j {
                                assert(feats[i].0 != name@);
                            }
                            if i > j {
                                assert(feats[j as int].0 != name@);
                            }
                        },
                        None => {
                            assert(feats[j as int].0 != name@);
                        },
                    }
                }
                return Some(j);
            }
            j = j + 1;
        }
        proof {
            lemma_assoc_index(feats, name@);
            match assoc_index(feats, name@) {
                Some(i) => {
                    assert(feats[i].0 != name@);
                },
                None => {},
            }
        }
        None
    }

    /// Creates the named category, empty; an existing category of that name
    /// is replaced whole, never merged.
    pub fn add_category(&mut self, name: Vec<char>)
        ensures
            final(self)@.cats == assoc_set(old(self)@.cats, name@, Seq::<Seq<char>>::empty()),
            final(self)@.feats == old(self)@.feats,
            phonology_wf(old(self)@) ==> phonology_wf(final(self)@),
    {
        let entry = (name, Category::new());
        match self.find_category(&entry.0) {
            Some(i) => {
                self.categories.set(i, entry);
                proof {
                    assert(self@.cats =~= old(self)@.cats.update(
                        assoc_index(old(self)@.cats, entry.0@).unwrap(),
                        (entry.0@, Seq::<Seq<char>>::empty()),
                    ));
                }
            },
            None => {
                self.categories.push(entry);
                proof {
                    assert(self@.cats =~= old(self)@.cats.push(
                        (entry.0@, Seq::<Seq<char>>::empty()),
                    ));
                }
            },
        }
    }

    /// Creates the named feature, empty on both sides; an existing feature of
    /// that name is replaced whole.
    pub fn add_feature(&mut self, name: Vec<char>)
        ensures
            final(self)@.feats == assoc_set(
                old(self)@.feats,
                name@,
                (Seq::<Seq<char>>::empty(), Seq::<Seq<char>>::empty()),
            ),
            final(self)@.cats == old(self)@.cats,
            phonology_wf(old(self)@) ==> phonology_wf(final(self)@),
    {
        let entry = (name, Feature::new());
        let ghost fresh = (Seq::<Seq<char>>::empty(), Seq::<Seq<char>>::empty());
        match self.find_feature(&entry.0) {
            Some(i) => {
                self.features.set(i, entry);
                proof {
                    assert(self@.feats =~= old(self)@.feats.update(
                        assoc_index(old(self)@.feats, entry.0@).unwrap(),
                        (entry.0@, fresh),
                    ));
                }
            },
            None => {
                self.features.push(entry);
                proof {
                    assert(self@.feats =~= old(self)@.feats.push((entry.0@, fresh)));
                }
            },
        }
    }

    /// Adds a phone to the named category; reports whether the category exists.
    pub fn category_add(&mut self, name: &Vec<char>, phone: Phone) -> (found: bool)
        ensures
            match assoc_index(old(self)@.cats, name@) {
                Some(i) => found && final(self)@.cats == old(self)@.cats.update(
                    i,
                    (name@, add1(old(self)@.cats[i].1, phone@)),
                ),
                None => !found && final(self)@.cats == old(self)@.cats,
            },
            final(self)@.feats == old(self)@.feats,
            phonology_wf(old(self)@) ==> phonology_wf(final(self)@),
    {
        match self.find_category(name) {
            Some(i) => {
                let name_copy = copy_range(&self.categories[i].0, 0, self.categories[i].0.len());
                let mut cat = self.categories[i].1.duplicate();
                cat.add(phone);
                proof {
                    assert(name_copy@ =~= name@);
                }
                self.categories.set(i, (name_copy, cat));
                proof {
                    assert(self@.cats =~= old(self)@.cats.update(
                        i as int,
                        (name@, add1(old(self)@.cats[i as int].1, phone@)),
                    ));
                }
                true
            },
            None => false,
        }
    }

    /// Sets the phone's polarity in the named feature; reports whether the
    /// feature exists.
    pub fn feature_plus(&mut self, name: &Vec<char>, phone: Phone) -> (found: bool)
        ensures
            match assoc_index(old(self)@.feats, name@) {
                Some(i) => found && final(self)@.feats == old(self)@.feats.update(
                    i,
                    (
                        name@,
                        (
                            add1(old(self)@.feats[i].1.0, phone@),
                            remove_all(old(self)@.feats[i].1.1, phone@),
                        ),
                    ),
                ),
                None => !found && final(self)@.feats == old(self)@.feats,
            },
            final(self)@.cats == old(self)@.cats,
            phonology_wf(old(self)@) ==> phonology_wf(final(self)@),
    {
        match self.find_feature(name) {
            Some(i) => {
                let name_copy = copy_range(&self.features[i].0, 0, self.features[i].0.len());
                let mut feat = self.features[i].1.duplicate();
                feat.plus(phone);
                proof {
                    assert(name_copy@ =~= name@);
                }
                self.features.set(i, (name_copy, feat));
                proof {
                    assert(self@.feats =~= old(self)@.feats.update(
                        i as int,
                        (
                            name@,
                            (
                                add1(old(self)@.feats[i as int].1.0, phone@),
                                remove_all(old(self)@.feats[i as int].1.1, phone@),
                            ),
                        ),
                    ));
                }
                true
            },
            None => false,
        }
    }

    /// The mirror image of `feature_plus`.
    pub fn feature_minus(&mut self, name: &Vec<char>, phone: Phone) -> (found: bool)
        ensures
            match assoc_index(old(self)@.feats, name@) {
                Some(i) => found && final(self)@.feats == old(self)@.feats.update(
                    i,
                    (
                        name@,
                        (
                            remove_all(old(self)@.feats[i].1.0, phone@),
                            add1(old(self)@.feats[i].1.1, phone@),
                        ),
                    ),
                ),
                None => !found && final(self)@.feats == old(self)@.feats,
            },
            final(self)@.cats == old(self)@.cats,
            phonology_wf(old(self)@) ==> phonology_wf(final(self)@),
    {
        match self.find_feature(name) {
            Some(i) => {
                let name_copy = copy_range(&self.features[i].0, 0, self.features[i].0.len());
                let mut feat = self.features[i].1.duplicate();
                feat.minus(phone);
                proof {
                    assert(name_copy@ =~= name@);
                }
                self.features.set(i, (name_copy, feat));
                proof {
                    assert(self@.feats =~= old(self)@.feats.update(
                        i as int,
                        (
                            name@,
                            (
                                remove_all(old(self)@.feats[i as int].1.0, phone@),
                                add1(old(self)@.feats[i as int].1.1, phone@),
                            ),
                        ),
                    ));
                }
                true
            },
            None => false,
        }
    }

    /// Unsets the phone in the named feature; reports whether the feature
    /// exists.
    pub fn feature_zero(&mut self, name: &Vec<char>, phone: &Phone) -> (found: bool)
        ensures
            match assoc_index(old(self)@.feats, name@) {
                Some(i) => found && final(self)@.feats == old(self)@.feats.update(
                    i,
                    (
                        name@,
                        (
                            remove_all(old(self)@.feats[i].1.0, phone@),
                            remove_all(old(self)@.feats[i].1.1, phone@),
                        ),
                    ),
                ),
                None => !found && final(self)@.feats == old(self)@.feats,
            },
            final(self)@.cats == old(self)@.cats,
            phonology_wf(old(self)@) ==> phonology_wf(final(self)@),
    {
        match self.find_feature(name) {
            Some(i) => {
                let name_copy = copy_range(&self.features[i].0, 0, self.features[i].0.len());
                let mut feat = self.features[i].1.duplicate();
                feat.zero(phone);
                proof {
                    assert(name_copy@ =~= name@);
                }
                self.features.set(i, (name_copy, feat));
                proof {
                    assert(self@.feats =~= old(self)@.feats.update(
                        i as int,
                        (
                            name@,
                            (
                                remove_all(old(self)@.feats[i as int].1.0, phone@),
                                remove_all(old(self)@.feats[i as int].1.1, phone@),
                            ),
                        ),
                    ));
                }
                true
            },
            None => false,
        }
    }

    /// Removes the phone from every category and unsets it in every feature,
    /// so no stale tag survives a redeclaration.
    pub fn clear_phone(&mut self, p: &Phone)
        ensures
            final(self)@.cats.len() == old(self)@.cats.len(),
            forall|k: int|
                0 <= k < old(self)@.cats.len() ==> (#[trigger] final(self)@.cats[k]) == (
                    old(self)@.cats[k].0,
                    remove_all(old(self)@.cats[k].1, p@),
                ),
            final(self)@.feats.len() == old(self)@.feats.len(),
            forall|k: int|
                0 <= k < old(self)@.feats.len() ==> (#[trigger] final(self)@.feats[k]) == (
                    old(self)@.feats[k].0,
                    (
                        remove_all(old(self)@.feats[k].1.0, p@),
                        remove_all(old(self)@.feats[k].1.1, p@),
                    ),
                ),
            forall|k: int|
                0 <= k < final(self)@.cats.len() ==> !(#[trigger] final(self)@.cats[k]).1.contains(
                    p@,
                ),
            forall|k: int|
                0 <= k < final(self)@.feats.len() ==> !(#[trigger] final(self)@.feats[k]).1.0.contains(p@)
                    && !final(self)@.feats[k].1.1.contains(p@),
            phonology_wf(old(self)@) ==> phonology_wf(final(self)@),
    {
        let mut j: usize = 0;
        while j < self.categories.len()
            invariant
                j <= self.categories@.len(),
                self@.cats.len() == old(self)@.cats.len(),
                self@.feats == old(self)@.feats,
                forall|k: int|
                    j <= k < old(self)@.cats.len() ==> (#[trigger] self@.cats[k]) == old(
                        self,
                    )@.cats[k],
                forall|k: int|
                    0 <= k < j ==> (#[trigger] self@.cats[k]) == (
                        old(self)@.cats[k].0,
                        remove_all(old(self)@.cats[k].1, p@),
                    ),
            decreases self.categories@.len() - j,
        {
            let ghost pre = self@.cats;
            let name_copy = copy_range(&self.categories[j].0, 0, self.categories[j].0.len());
            let mut cat = self.categories[j].1.duplicate();
            cat.remove(p);
            proof {
                assert(pre[j as int] == old(self)@.cats[j as int]);
                assert(name_copy@ =~= self.categories@[j as int].0@);
            }
            self.categories.set(j, (name_copy, cat));
            proof {
                assert(self@.cats =~= pre.update(
                    j as int,
                    (old(self)@.cats[j as int].0, remove_all(old(self)@.cats[j as int].1, p@)),
                ));
            }
            j = j + 1;
        }
        let mut j: usize = 0;
        while j < self.features.len()
            invariant
                j <= self.features@.len(),
                self@.feats.len() == old(self)@.feats.len(),
                self@.cats.len() == old(self)@.cats.len(),
                forall|k: int|
                    0 <= k < old(self)@.cats.len() ==> (#[trigger] self@.cats[k]) == (
                        old(self)@.cats[k].0,
                        remove_all(old(self)@.cats[k].1, p@),
                    ),
                forall|k: int|
                    j <= k < old(self)@.feats.len() ==> (#[trigger] self@.feats[k]) == old(
                        self,
                    )@.feats[k],
                forall|k: int|
                    0 <= k < j ==> (#[trigger] self@.feats[k]) == (
                        old(self)@.feats[k].0,
                        (
                            remove_all(old(self)@.feats[k].1.0, p@),
                            remove_all(old(self)@.feats[k].1.1, p@),
                        ),
                    ),
            decreases self.features@.len() - j,
        {
            let ghost pre = self@.feats;
            let name_copy = copy_range(&self.features[j].0, 0, self.features[j].0.len());
            let mut feat = self.features[j].1.duplicate();
            feat.zero(p);
            proof {
                assert(pre[j as int] == old(self)@.feats[j as int]);
                assert(name_copy@ =~= self.features@[j as int].0@);
            }
            self.features.set(j, (name_copy, feat));
            proof {
                assert(self@.feats =~= pre.update(
                    j as int,
                    (
                        old(self)@.feats[j as int].0,
                        (
                            remove_all(old(self)@.feats[j as int].1.0, p@),
                            remove_all(old(self)@.feats[j as int].1.1, p@),
                        ),
                    ),
                ));
            }
            j = j + 1;
        }
        proof {
            assert forall|k: int| 0 <= k < self@.cats.len() implies !(#[trigger] self@.cats[k]).1.contains(p@) by {
                lemma_remove_all_contains(old(self)@.cats[k].1, p@, p@);
            }
            assert forall|k: int| 0 <= k < self@.feats.len() implies !(#[trigger] self@.feats[k]).1.0.contains(p@) && !self@.feats[k].1.1.contains(p@) by {
                lemma_remove_all_contains(old(self)@.feats[k].1.0, p@, p@);
                lemma_remove_all_contains(old(self)@.feats[k].1.1, p@, p@);
            }
            if phonology_wf(old(self)@) {
                assert forall|k: int| 0 <= k < self@.feats.len() implies feat_disjoint(
                    (#[trigger] self@.feats[k]).1.0,
                    self@.feats[k].1.1,
                ) by {
                    assert forall|x: Seq<char>|
                        !(#[trigger] self@.feats[k].1.0.contains(x) && self@.feats[k].1.1.contains(x)) by {
                        lemma_remove_all_contains(old(self)@.feats[k].1.0, p@, x);
                        lemma_remove_all_contains(old(self)@.feats[k].1.1, p@, x);
                        assert(feat_disjoint(old(self)@.feats[k].1.0, old(self)@.feats[k].1.1));
                    }
                }
            }
        }
    }

    /// The members of the named category, if it exists.
    pub fn category_members(&self, name: &Vec<char>) -> (r: Option<Vec<Phone>>)
        ensures
            match r {
                Some(ms) => assoc_find(self@.cats, name@) == Some(phone_views(ms@)),
                None => assoc_find(self@.cats, name@) is None,
            },
    {
        match self.find_category(name) {
            Some(i) => Some(duplicate_phones(&self.categories[i].1.members)),
            None => None,
        }
    }
}

} // verus!
