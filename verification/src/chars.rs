use vstd::prelude::*;

verus! {

/// Whitespace as the line grammar understands it.
pub open spec fn is_ws(c: char) -> bool {
    c == ' ' || c == '\t' || c == '\r' || c == '\n'
}

pub fn is_ws_char(c: char) -> (r: bool)
    ensures
        r == is_ws(c),
{
    c == ' ' || c == '\t' || c == '\r' || c == '\n'
}

/// Length of the leading run of non-whitespace characters.
pub open spec fn token_len(s: Seq<char>) -> nat
    decreases s.len(),
{
    if s.len() == 0 || is_ws(s[0]) {
        0
    } else {
        1 + token_len(s.drop_first())
    }
}

pub proof fn lemma_token_len_le(s: Seq<char>)
    ensures
        token_len(s) <= s.len(),
    decreases s.len(),
{
    if s.len() > 0 && !is_ws(s[0]) {
        lemma_token_len_le(s.drop_first());
    }
}

/// When the characters before `j` are non-whitespace and `j` sits on
/// whitespace or the end, the leading token is exactly `j` long.
pub proof fn lemma_token_len_run(s: Seq<char>, j: int)
    requires
        0 <= j <= s.len(),
        forall|k: int| 0 <= k < j ==> !is_ws(s[k]),
        j == s.len() || is_ws(s[j]),
    ensures
        token_len(s) == j,
    decreases j,
{
    if j == 0 {
    } else {
        assert(!is_ws(s[0]));
        assert(forall|k: int| 0 <= k < j - 1 ==> s.drop_first()[k] == s[k + 1]);
        lemma_token_len_run(s.drop_first(), j - 1);
    }
}

/// The whitespace-separated tokens of a line, in order.
pub open spec fn split_ws(s: Seq<char>) -> Seq<Seq<char>>
    decreases s.len(),
    via split_ws_decreases
{
    if s.len() == 0 {
        Seq::empty()
    } else if is_ws(s[0]) {
        split_ws(s.drop_first())
    } else {
        let t = token_len(s) as int;
        seq![s.take(t)] + split_ws(s.skip(t))
    }
}

#[via_fn]
proof fn split_ws_decreases(s: Seq<char>) {
    if s.len() > 0 && !is_ws(s[0]) {
        lemma_token_len_le(s);
        assert(token_len(s) == 1 + token_len(s.drop_first()));
    }
}

/// The views of a vector of character vectors.
pub open spec fn views_of(r: Seq<Vec<char>>) -> Seq<Seq<char>> {
    r.map_values(|v: Vec<char>| v@)
}

/// Splits a line into its whitespace-separated tokens.
pub fn tokenize(s: &Vec<char>) -> (r: Vec<Vec<char>>)
    ensures
        views_of(r@) == split_ws(s@),
{
    let mut r: Vec<Vec<char>> = Vec::new();
    let mut i: usize = 0;
    proof {
        assert(s@.skip(0) =~= s@);
        assert(views_of(r@) + split_ws(s@) =~= split_ws(s@));
    }
    while i < s.len()
        invariant
            i <= s@.len(),
            split_ws(s@) == views_of(r@) + split_ws(s@.skip(i as int)),
        decreases s@.len() - i,
    {
        if is_ws_char(s[i]) {
            proof {
                assert(s@.skip(i as int).drop_first() =~= s@.skip(i + 1 as int));
            }
            i = i + 1;
        } else {
            let ghost start = i as int;
            let mut tok: Vec<char> = Vec::new();
            tok.push(s[i]);
            i = i + 1;
            while i < s.len() && !is_ws_char(s[i])
                invariant
                    0 <= start < i <= s@.len(),
                    tok@ == s@.subrange(start, i as int),
                    forall|k: int| start <= k < i ==> !is_ws(s@[k]),
                decreases s@.len() - i,
            {
                proof {
                    assert(s@.subrange(start, i as int + 1)
                        =~= s@.subrange(start, i as int).push(s@[i as int]));
                }
                tok.push(s[i]);
                i = i + 1;
            }
            proof {
                let rest = s@.skip(start);
                assert(forall|k: int| 0 <= k < i - start ==> rest[k] == s@[start + k]);
                if i < s@.len() {
                    assert(rest[i - start] == s@[i as int]);
                }
                lemma_token_len_run(rest, i - start);
                assert(rest.take(i - start) =~= s@.subrange(start, i as int));
                assert(rest.skip(i - start) =~= s@.skip(i as int));
                assert(split_ws(rest) == seq![tok@] + split_ws(s@.skip(i as int)));
                assert(views_of(r@.push(tok)) =~= views_of(r@) + seq![tok@]);
                assert(views_of(r@) + (seq![tok@] + split_ws(s@.skip(i as int)))
                    =~= (views_of(r@) + seq![tok@]) + split_ws(s@.skip(i as int)));
            }
            r.push(tok);
        }
    }
    proof {
        assert(s@.skip(i as int) =~= Seq::<char>::empty());
        assert(views_of(r@) + split_ws(s@.skip(i as int)) =~= views_of(r@));
    }
    r
}

/// A line with its leading whitespace removed.
pub open spec fn trim_front(s: Seq<char>) -> Seq<char>
    decreases s.len(),
{
    if s.len() > 0 && is_ws(s[0]) {
        trim_front(s.drop_first())
    } else {
        s
    }
}

/// A line with its trailing whitespace removed.
pub open spec fn trim_back(s: Seq<char>) -> Seq<char>
    decreases s.len(),
{
    if s.len() > 0 && is_ws(s[s.len() - 1]) {
        trim_back(s.drop_last())
    } else {
        s
    }
}

/// A line with whitespace removed from both ends.
pub open spec fn trim(s: Seq<char>) -> Seq<char> {
    trim_back(trim_front(s))
}

/// Copies the characters of `s` from `a` (inclusive) to `b` (exclusive).
pub fn copy_range(s: &Vec<char>, a: usize, b: usize) -> (r: Vec<char>)
    requires
        a <= b <= s@.len(),
    ensures
        r@ == s@.subrange(a as int, b as int),
{
    let mut r: Vec<char> = Vec::new();
    let mut j: usize = a;
    while j < b
        invariant
            a <= j <= b <= s@.len(),
            r@ == s@.subrange(a as int, j as int),
        decreases b - j,
    {
        r.push(s[j]);
        proof {
            assert(s@.subrange(a as int, j + 1 as int)
                =~= s@.subrange(a as int, j as int).push(s@[j as int]));
        }
        j = j + 1;
    }
    r
}

/// Removes the whitespace at both ends of a line.
pub fn trim_chars(s: &Vec<char>) -> (r: Vec<char>)
    ensures
        r@ == trim(s@),
{
    let mut a: usize = 0;
    proof {
        assert(s@.skip(0) =~= s@);
    }
    while a < s.len() && is_ws_char(s[a])
        invariant
            a <= s@.len(),
            trim_front(s@) == trim_front(s@.skip(a as int)),
        decreases s@.len() - a,
    {
        proof {
            assert(s@.skip(a as int).drop_first() =~= s@.skip(a + 1 as int));
        }
        a = a + 1;
    }
    proof {
        if a < s@.len() {
            assert(s@.skip(a as int)[0] == s@[a as int]);
        } else {
            assert(s@.skip(a as int) =~= Seq::<char>::empty());
        }
        assert(trim_front(s@) == s@.skip(a as int));
    }
    let ghost t = s@.skip(a as int);
    let mut b: usize = s.len();
    proof {
        assert(t.take(b - a) =~= t);
    }
    while b > a && is_ws_char(s[b - 1])
        invariant
            a <= b <= s@.len(),
            t == s@.skip(a as int),
            trim_back(t) == trim_back(t.take(b - a)),
        decreases b,
    {
        proof {
            let u = t.take(b - a);
            assert(u[u.len() - 1] == s@[b - 1]);
            assert(u.drop_last() =~= t.take(b - 1 - a));
        }
        b = b - 1;
    }
    proof {
        let u = t.take(b - a);
        if b > a {
            assert(u[u.len() - 1] == s@[b - 1]);
        }
        assert(trim_back(u) == u);
        assert(u =~= s@.subrange(a as int, b as int));
    }
    copy_range(s, a, b)
}

/// Whether two character vectors hold the same characters.
pub fn chars_eq(a: &Vec<char>, b: &Vec<char>) -> (r: bool)
    ensures
        r == (a@ == b@),
{
    if a.len() != b.len() {
        return false;
    }
    let mut j: usize = 0;
    while j < a.len()
        invariant
            j <= a@.len(),
            a@.len() == b@.len(),
            forall|k: int| 0 <= k < j ==> a@[k] == b@[k],
        decreases a@.len() - j,
    {
        if a[j] != b[j] {
            return false;
        }
        j = j + 1;
    }
    proof {
        assert(a@ =~= b@);
    }
    true
}

/// Appends the characters of `src` to `out`.
pub fn extend_chars(out: &mut Vec<char>, src: &Vec<char>)
    ensures
        final(out)@ == old(out)@ + src@,
{
    let mut j: usize = 0;
    while j < src.len()
        invariant
            j <= src@.len(),
            out@ == old(out)@ + src@.subrange(0, j as int),
        decreases src@.len() - j,
    {
        out.push(src[j]);
        proof {
            assert(old(out)@ + src@.subrange(0, j + 1 as int)
                =~= (old(out)@ + src@.subrange(0, j as int)).push(src@[j as int]));
        }
        j = j + 1;
    }
    proof {
        assert(src@.subrange(0, src@.len() as int) =~= src@);
    }
}

/// Removes the whitespace at the front of a line only.
pub fn trim_front_chars(s: &Vec<char>) -> (r: Vec<char>)
    ensures
        r@ == trim_front(s@),
{
    let mut a: usize = 0;
    proof {
        assert(s@.skip(0) =~= s@);
    }
    while a < s.len() && is_ws_char(s[a])
        invariant
            a <= s@.len(),
            trim_front(s@) == trim_front(s@.skip(a as int)),
        decreases s@.len() - a,
    {
        proof {
            assert(s@.skip(a as int).drop_first() =~= s@.skip(a + 1 as int));
        }
        a = a + 1;
    }
    proof {
        if a < s@.len() {
            assert(s@.skip(a as int)[0] == s@[a as int]);
        } else {
            assert(s@.skip(a as int) =~= Seq::<char>::empty());
        }
        assert(trim_front(s@) == s@.skip(a as int));
        assert(s@.subrange(a as int, s@.len() as int) =~= s@.skip(a as int));
    }
    copy_range(s, a, s.len())
}

/// The index of the first occurrence of `c` in `s`, if any.
pub open spec fn find_char(s: Seq<char>, c: char) -> Option<int>
    decreases s.len(),
{
    if s.len() == 0 {
        None
    } else if s[0] == c {
        Some(0)
    } else {
        match find_char(s.drop_first(), c) {
            Some(i) => Some(i + 1),
            None => None,
        }
    }
}

pub proof fn lemma_find_char(s: Seq<char>, c: char)
    ensures
        match find_char(s, c) {
            Some(i) => 0 <= i < s.len() && s[i] == c && forall|k: int| 0 <= k < i ==> s[k] != c,
            None => forall|k: int| 0 <= k < s.len() ==> s[k] != c,
        },
    decreases s.len(),
{
    if s.len() > 0 && s[0] != c {
        lemma_find_char(s.drop_first(), c);
        match find_char(s.drop_first(), c) {
            Some(i) => {
                assert(s[i + 1] == s.drop_first()[i]);
                assert forall|k: int| 0 <= k < i + 1 implies s[k] != c by {
                    if k > 0 {
                        assert(s.drop_first()[k - 1] == s[k]);
                    }
                }
            },
            None => {
                assert forall|k: int| 0 <= k < s.len() implies s[k] != c by {
                    if k > 0 {
                        assert(s.drop_first()[k - 1] == s[k]);
                    }
                }
            },
        }
    }
}

/// Finds the first occurrence of `c` in `s`.
pub fn find_char_in(s: &Vec<char>, c: char) -> (r: Option<usize>)
    ensures
        match r {
            Some(i) => find_char(s@, c) == Some(i as int),
            None => find_char(s@, c) is None,
        },
{
    let mut j: usize = 0;
    while j < s.len()
        invariant
            j <= s@.len(),
            forall|k: int| 0 <= k < j ==> s@[k] != c,
        decreases s@.len() - j,
    {
        if s[j] == c {
            proof {
                lemma_find_char(s@, c);
                match find_char(s@, c) {
                    Some(i) => {
                        if i < j {
                            assert(s@[i] != c);
                        }
                        if i > j {
                            assert(s@[j as int] != c);
                        }
                    },
                    None => {
                        assert(s@[j as int] != c);
                    },
                }
            }
            return Some(j);
        }
        j = j + 1;
    }
    proof {
        lemma_find_char(s@, c);
        match find_char(s@, c) {
            Some(i) => {
                assert(s@[i] != c);
            },
            None => {},
        }
    }
    None
}


/// The pieces of `s` between occurrences of the separator `c`, in order;
/// empty pieces are kept, and a line without the separator is one piece.
pub open spec fn split_on(s: Seq<char>, c: char) -> Seq<Seq<char>>
    decreases s.len(),
    via split_on_decreases
{
    match find_char(s, c) {
        None => seq![s],
        Some(i) => seq![s.take(i)] + split_on(s.skip(i + 1), c),
    }
}

#[via_fn]
proof fn split_on_decreases(s: Seq<char>, c: char) {
    lemma_find_char(s, c);
}

/// Splits a line at every occurrence of the separator `c`.
pub fn split_on_char(s: &Vec<char>, c: char) -> (r: Vec<Vec<char>>)
    ensures
        views_of(r@) == split_on(s@, c),
{
    let mut r: Vec<Vec<char>> = Vec::new();
    let mut rest: Vec<char> = copy_range(s, 0, s.len());
    proof {
        assert(rest@ =~= s@);
        assert(views_of(r@) + split_on(s@, c) =~= split_on(s@, c));
    }
    loop
        invariant_except_break
            split_on(s@, c) == views_of(r@) + split_on(rest@, c),
        ensures
            views_of(r@) == split_on(s@, c),
        decreases rest@.len(),
    {
        let ghost pre = r@;
        let ghost prerest = rest@;
        match find_char_in(&rest, c) {
            Some(i) => {
                let rl = rest.len();
                proof {
                    lemma_find_char(prerest, c);
                    assert(i < rl);
                }
                let seg = copy_range(&rest, 0, i);
                r.push(seg);
                let tail = copy_range(&rest, i + 1, rl);
                rest = tail;
                proof {
                    assert(prerest.take(i as int) =~= prerest.subrange(0, i as int));
                    assert(rest@ =~= prerest.skip(i as int + 1));
                    assert(views_of(r@) =~= views_of(pre).push(prerest.take(i as int)));
                    assert(views_of(pre) + (seq![prerest.take(i as int)] + split_on(rest@, c))
                        =~= views_of(r@) + split_on(rest@, c));
                }
            },
            None => {
                r.push(rest);
                proof {
                    assert(views_of(r@) =~= views_of(pre).push(prerest));
                    assert(views_of(pre) + seq![prerest] =~= views_of(r@));
                }
                break;
            },
        }
    }
    r
}

} // verus!
