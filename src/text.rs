//! Text helpers: lexicographic order on names, character pushes and
//! decimal rendering of lengths.
use vstd::prelude::*;
use vstd::string::*;

verus! {

/// Strict lexicographic order on character sequences, by code point.
pub open spec fn lex_lt(a: Seq<char>, b: Seq<char>) -> bool
    decreases a.len(),
{
    if a.len() == 0 {
        b.len() > 0
    } else if b.len() == 0 {
        false
    } else if a[0] != b[0] {
        (a[0] as int) < (b[0] as int)
    } else {
        lex_lt(a.drop_first(), b.drop_first())
    }
}

/// A sequence of names in strictly increasing lexicographic order.
pub open spec fn strictly_sorted(s: Seq<Seq<char>>) -> bool {
    forall|i: int, j: int| 0 <= i < j < s.len() ==> lex_lt(#[trigger] s[i], #[trigger] s[j])
}

pub proof fn lemma_lex_irreflexive(a: Seq<char>)
    ensures
        !lex_lt(a, a),
    decreases a.len(),
{
    if a.len() > 0 {
        lemma_lex_irreflexive(a.drop_first());
    }
}

pub proof fn lemma_lex_trans(a: Seq<char>, b: Seq<char>, c: Seq<char>)
    requires
        lex_lt(a, b),
        lex_lt(b, c),
    ensures
        lex_lt(a, c),
    decreases a.len(),
{
    if a.len() > 0 && b.len() > 0 && c.len() > 0 {
        if a[0] == b[0] && b[0] == c[0] {
            lemma_lex_trans(a.drop_first(), b.drop_first(), c.drop_first());
        }
    }
}

pub proof fn lemma_lex_total(a: Seq<char>, b: Seq<char>)
    requires
        a != b,
    ensures
        lex_lt(a, b) || lex_lt(b, a),
    decreases a.len(),
{
    if a.len() > 0 && b.len() > 0 && a[0] == b[0] {
        if a.drop_first() == b.drop_first() {
            assert(a =~= seq![a[0]] + a.drop_first());
            assert(b =~= seq![b[0]] + b.drop_first());
        }
        lemma_lex_total(a.drop_first(), b.drop_first());
    } else if a.len() == 0 && b.len() == 0 {
        assert(a =~= b);
    } else if a.len() > 0 && b.len() > 0 {
        assert(a[0] as int != b[0] as int);
    }
}

pub proof fn lemma_lex_asym(a: Seq<char>, b: Seq<char>)
    requires
        lex_lt(a, b),
    ensures
        !lex_lt(b, a),
{
    if lex_lt(b, a) {
        lemma_lex_trans(a, b, a);
        lemma_lex_irreflexive(a);
    }
}

/// Compares two strings in lexicographic order.
pub fn str_lt(a: &str, b: &str) -> (r: bool)
    ensures
        r == lex_lt(a@, b@),
{
    let la = a.unicode_len();
    let lb = b.unicode_len();
    let mut i: usize = 0;
    assert(a@.subrange(0, la as int) =~= a@);
    assert(b@.subrange(0, lb as int) =~= b@);
    while i < la && i < lb
        invariant
            la == a@.len(),
            lb == b@.len(),
            i <= la,
            i <= lb,
            lex_lt(a@, b@) == lex_lt(
                a@.subrange(i as int, la as int),
                b@.subrange(i as int, lb as int),
            ),
        decreases la - i,
    {
        let ca = a.get_char(i);
        let cb = b.get_char(i);
        let ghost sa = a@.subrange(i as int, la as int);
        let ghost sb = b@.subrange(i as int, lb as int);
        assert(sa[0] == ca && sb[0] == cb);
        if ca != cb {
            return ca < cb;
        }
        assert(sa.drop_first() =~= a@.subrange(i + 1, la as int));
        assert(sb.drop_first() =~= b@.subrange(i + 1, lb as int));
        i = i + 1;
    }
    assert(la == i ==> a@.subrange(i as int, la as int).len() == 0);
    assert(lb == i ==> b@.subrange(i as int, lb as int).len() == 0);
    i == la && i < lb
}

/// Tells whether two strings hold the same characters.
pub fn str_eq(a: &str, b: &str) -> (r: bool)
    ensures
        r == (a@ == b@),
{
    let ab = str_lt(a, b);
    let ba = str_lt(b, a);
    proof {
        if a@ == b@ {
            lemma_lex_irreflexive(a@);
        } else {
            lemma_lex_total(a@, b@);
        }
    }
    !ab && !ba
}

/// The character views of a sequence of strings.
pub open spec fn texts(v: Seq<String>) -> Seq<Seq<char>> {
    v.map_values(|s: String| s@)
}

/// Where `x` goes in a sorted sequence: the number of entries below it.
pub open spec fn ins_pos(s: Seq<Seq<char>>, x: Seq<char>) -> int
    decreases s.len(),
{
    if s.len() == 0 {
        0
    } else if lex_lt(s[0], x) {
        1 + ins_pos(s.drop_first(), x)
    } else {
        0
    }
}

/// `s` with `x` added in its place, unless it is there already.
pub open spec fn sorted_insert(s: Seq<Seq<char>>, x: Seq<char>) -> Seq<Seq<char>> {
    if s.contains(x) {
        s
    } else {
        s.insert(ins_pos(s, x), x)
    }
}

/// A position that splits `s` into the entries below `x` and those above it.
pub open spec fn splits_at(s: Seq<Seq<char>>, x: Seq<char>, pos: int) -> bool {
    &&& 0 <= pos <= s.len()
    &&& forall|i: int| 0 <= i < pos ==> lex_lt(#[trigger] s[i], x)
    &&& forall|i: int| pos <= i < s.len() ==> lex_lt(x, #[trigger] s[i])
}

pub proof fn lemma_ins_pos_splits(s: Seq<Seq<char>>, x: Seq<char>)
    requires
        strictly_sorted(s),
        !s.contains(x),
    ensures
        splits_at(s, x, ins_pos(s, x)),
    decreases s.len(),
{
    if s.len() > 0 {
        let t = s.drop_first();
        assert(strictly_sorted(t)) by {
            assert forall|i: int, j: int| 0 <= i < j < t.len() implies lex_lt(t[i], t[j]) by {
                assert(t[i] == s[i + 1] && t[j] == s[j + 1]);
            }
        }
        assert(!t.contains(x)) by {
            if t.contains(x) {
                let k = choose|k: int| 0 <= k < t.len() && t[k] == x;
                assert(s[k + 1] == x);
            }
        }
        lemma_ins_pos_splits(t, x);
        if lex_lt(s[0], x) {
            assert forall|i: int| 0 <= i < ins_pos(s, x) implies lex_lt(#[trigger] s[i], x) by {
                if i > 0 {
                    assert(s[i] == t[i - 1]);
                }
            }
            assert forall|i: int| ins_pos(s, x) <= i < s.len() implies lex_lt(x, #[trigger] s[i]) by {
                assert(s[i] == t[i - 1]);
            }
        } else {
            assert(s[0] != x);
            lemma_lex_total(s[0], x);
            assert forall|i: int| 0 <= i < s.len() implies lex_lt(x, #[trigger] s[i]) by {
                if i > 0 {
                    assert(lex_lt(s[0], s[i]));
                    lemma_lex_trans(x, s[0], s[i]);
                }
            }
        }
    }
}

/// Only one position splits a sorted sequence around a value.
pub proof fn lemma_split_unique(s: Seq<Seq<char>>, x: Seq<char>, p: int, q: int)
    requires
        splits_at(s, x, p),
        splits_at(s, x, q),
    ensures
        p == q,
{
    if p < q {
        assert(lex_lt(s[p], x) && lex_lt(x, s[p]));
        lemma_lex_asym(s[p], x);
    } else if q < p {
        assert(lex_lt(s[q], x) && lex_lt(x, s[q]));
        lemma_lex_asym(s[q], x);
    }
}

/// Inserting at a splitting position keeps a sequence strictly sorted.
pub proof fn lemma_insert_sorted(s: Seq<Seq<char>>, x: Seq<char>, pos: int)
    requires
        strictly_sorted(s),
        splits_at(s, x, pos),
    ensures
        strictly_sorted(s.insert(pos, x)),
{
    let r = s.insert(pos, x);
    assert forall|i: int, j: int| 0 <= i < j < r.len() implies lex_lt(r[i], r[j]) by {
        if i < pos && j < pos {
            assert(r[i] == s[i] && r[j] == s[j]);
        } else if i < pos && j == pos {
        } else if i < pos {
            assert(r[i] == s[i] && r[j] == s[j - 1]);
            assert(lex_lt(s[i], x) && lex_lt(x, s[j - 1]));
            lemma_lex_trans(s[i], x, s[j - 1]);
        } else if i == pos {
            assert(r[j] == s[j - 1]);
        } else {
            assert(r[i] == s[i - 1] && r[j] == s[j - 1]);
        }
    }
}

/// In a strictly sorted sequence each value stands at one index only.
pub proof fn lemma_sorted_index_of(s: Seq<Seq<char>>, k: int)
    requires
        strictly_sorted(s),
        0 <= k < s.len(),
    ensures
        s.index_of(s[k]) == k,
{
    let x = s[k];
    assert(s.contains(x));
    let i = s.index_of(x);
    lemma_lex_irreflexive(x);
    if i < k {
        assert(lex_lt(s[i], s[k]));
    } else if k < i {
        assert(lex_lt(s[k], s[i]));
    }
}

/// Finds `x` in a strictly sorted vector of strings, or where it would go.
pub fn locate(v: &Vec<String>, x: &str) -> (r: (usize, bool))
    requires
        strictly_sorted(texts(v@)),
    ensures
        r.1 ==> r.0 < v.len() && v@[r.0 as int]@ == x@,
        r.1 == texts(v@).contains(x@),
        !r.1 ==> r.0 == ins_pos(texts(v@), x@) && splits_at(texts(v@), x@, r.0 as int),
{
    let ghost s = texts(v@);
    let mut i: usize = 0;
    while i < v.len() && str_lt(v[i].as_str(), x)
        invariant
            s == texts(v@),
            strictly_sorted(s),
            i <= v.len(),
            forall|j: int| 0 <= j < i ==> lex_lt(#[trigger] s[j], x@),
        decreases v.len() - i,
    {
        i = i + 1;
    }
    if i < v.len() && str_eq(v[i].as_str(), x) {
        assert(s[i as int] == x@);
        return (i, true);
    }
    proof {
        if i < v.len() {
            lemma_lex_total(s[i as int], x@);
            assert forall|j: int| i <= j < s.len() implies lex_lt(x@, #[trigger] s[j]) by {
                if j > i {
                    lemma_lex_trans(x@, s[i as int], s[j]);
                }
            }
        }
        assert(splits_at(s, x@, i as int));
        assert(!s.contains(x@)) by {
            if s.contains(x@) {
                let k = choose|k: int| 0 <= k < s.len() && s[k] == x@;
                lemma_lex_irreflexive(x@);
            }
        }
        lemma_ins_pos_splits(s, x@);
        lemma_split_unique(s, x@, i as int, ins_pos(s, x@));
    }
    (i, false)
}

/// Relies on String::push: the character is appended at the end.
#[verifier::external_body]
pub(crate) fn push_char(s: &mut String, c: char)
    ensures
        final(s)@ == old(s)@.push(c),
{
    s.push(c);
}

/// The digit character for a value below ten.
pub open spec fn digit_char(d: nat) -> char {
    if d == 0 { '0' }
    else if d == 1 { '1' }
    else if d == 2 { '2' }
    else if d == 3 { '3' }
    else if d == 4 { '4' }
    else if d == 5 { '5' }
    else if d == 6 { '6' }
    else if d == 7 { '7' }
    else if d == 8 { '8' }
    else { '9' }
}

/// Decimal notation of a natural number, without leading zeros.
pub open spec fn decimal(n: nat) -> Seq<char>
    decreases n,
{
    if n < 10 {
        seq![digit_char(n)]
    } else {
        decimal(n / 10).push(digit_char(n % 10))
    }
}

fn digit_of(d: usize) -> (c: char)
    requires
        d < 10,
    ensures
        c == digit_char(d as nat),
{
    if d == 0 { '0' }
    else if d == 1 { '1' }
    else if d == 2 { '2' }
    else if d == 3 { '3' }
    else if d == 4 { '4' }
    else if d == 5 { '5' }
    else if d == 6 { '6' }
    else if d == 7 { '7' }
    else if d == 8 { '8' }
    else { '9' }
}

/// Appends the decimal notation of `n` to `s`.
pub fn push_decimal(s: &mut String, n: usize)
    ensures
        final(s)@ == old(s)@ + decimal(n as nat),
    decreases n,
{
    if n >= 10 {
        push_decimal(s, n / 10);
    }
    push_char(s, digit_of(n % 10));
    assert(final(s)@ =~= old(s)@ + decimal(n as nat));
}

} // verus!
