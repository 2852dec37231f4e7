//! Words, their letter sets, and the lexicographic order used as the
//! canonical order of the clique search.

use vstd::prelude::*;

verus! {

/// The set of distinct characters of a word text.
pub open spec fn letters(w: Seq<char>) -> Set<char> {
    w.to_set()
}

/// A candidate word: exactly five characters, all distinct.
pub open spec fn is_candidate_text(w: Seq<char>) -> bool {
    w.len() == 5 && letters(w).len() == 5
}

/// Two word texts whose letter sets share no character.
pub open spec fn letters_disjoint(u: Seq<char>, v: Seq<char>) -> bool {
    letters(u).disjoint(letters(v))
}

/// The texts of a sequence of strings.
pub open spec fn texts(v: Seq<String>) -> Seq<Seq<char>> {
    Seq::new(v.len(), |i: int| v[i]@)
}

/// Strict lexicographic order on word texts, by character code.
pub open spec fn lex_lt(a: Seq<char>, b: Seq<char>) -> bool
    decreases a.len(),
{
    if b.len() == 0 {
        false
    } else if a.len() == 0 {
        true
    } else if a[0] < b[0] {
        true
    } else if a[0] > b[0] {
        false
    } else {
        lex_lt(a.drop_first(), b.drop_first())
    }
}

/// The lexicographic order is irreflexive.
pub proof fn lemma_lex_irrefl(a: Seq<char>)
    ensures
        !lex_lt(a, a),
    decreases a.len(),
{
    if a.len() > 0 {
        lemma_lex_irrefl(a.drop_first());
    }
}

/// At most one of `lex_lt(a, b)` and `lex_lt(b, a)` holds.
pub proof fn lemma_lex_asym(a: Seq<char>, b: Seq<char>)
    ensures
        !(lex_lt(a, b) && lex_lt(b, a)),
    decreases a.len(),
{
    if a.len() > 0 && b.len() > 0 && a[0] == b[0] {
        lemma_lex_asym(a.drop_first(), b.drop_first());
    }
}

/// The lexicographic order is transitive.
pub proof fn lemma_lex_trans(a: Seq<char>, b: Seq<char>, c: Seq<char>)
    requires
        lex_lt(a, b),
        lex_lt(b, c),
    ensures
        lex_lt(a, c),
    decreases a.len(),
{
    if a.len() > 0 && b.len() > 0 && c.len() > 0 {
        if a[0] == b[0] && b[0] == c[0] {
            lemma_lex_trans(a.drop_first(), b.drop_first(), c.drop_first());
        }
    }
}

/// Compares two word texts in the canonical (lexicographic) order.
pub fn str_lt(a: &str, b: &str) -> (r: bool)
    ensures
        r == lex_lt(a@, b@),
{
    let an = a.unicode_len();
    let bn = b.unicode_len();
    let mut i: usize = 0;
    proof {
        assert(a@.skip(0) =~= a@);
        assert(b@.skip(0) =~= b@);
    }
    loop
        invariant
            an == a@.len(),
            bn == b@.len(),
            i <= an,
            i <= bn,
            lex_lt(a@, b@) == lex_lt(a@.skip(i as int), b@.skip(i as int)),
        decreases an - i,
    {
        if i >= bn {
            return false;
        }
        if i >= an {
            return true;
        }
        let ca = a.get_char(i);
        let cb = b.get_char(i);
        proof {
            assert(a@.skip(i as int)[0] == ca);
            assert(b@.skip(i as int)[0] == cb);
            assert(a@.skip(i as int).drop_first() =~= a@.skip(i + 1));
            assert(b@.skip(i as int).drop_first() =~= b@.skip(i + 1));
        }
        if ca < cb {
            return true;
        }
        if cb < ca {
            return false;
        }
        proof {
            assert(ca == cb);
        }
        i = i + 1;
    }
}

/// Collects the distinct characters of a word, in order of first occurrence.
pub fn distinct_chars(word: &str) -> (r: Vec<char>)
    ensures
        r@.no_duplicates(),
        r@.to_set() == letters(word@),
{
    let n = word.unicode_len();
    let mut r: Vec<char> = Vec::new();
    let mut i: usize = 0;
    while i < n
        invariant
            n == word@.len(),
            i <= n,
            r@.no_duplicates(),
            forall|c: char| r@.contains(c) <==> word@.take(i as int).contains(c),
        decreases n - i,
    {
        let ghost r0 = r@;
        let c = word.get_char(i);
        let already = contains_char(&r, c);
        if !already {
            r.push(c);
        }
        proof {
            assert forall|d: char| r@.contains(d) implies (r0.contains(d) || d == c) by {
                let k = choose|k: int| 0 <= k < r@.len() && r@[k] == d;
                if k < r0.len() {
                    assert(r0[k] == d);
                }
            }
            assert forall|d: char| r0.contains(d) implies r@.contains(d) by {
                let k = choose|k: int| 0 <= k < r0.len() && r0[k] == d;
                assert(r@[k] == d);
            }
            if !already {
                assert(r@[r0.len() as int] == c);
                assert(r@.contains(c));
            }
            assert forall|d: char| word@.take(i + 1).contains(d) implies (word@.take(
                i as int,
            ).contains(d) || d == word@[i as int]) by {
                let k = choose|k: int| 0 <= k < i + 1 && #[trigger] word@.take(i + 1)[k] == d;
                if k < i {
                    assert(word@.take(i as int)[k] == d);
                }
            }
            assert forall|d: char| word@.take(i as int).contains(d) implies word@.take(
                i + 1,
            ).contains(d) by {
                let k = choose|k: int| 0 <= k < i && word@.take(i as int)[k] == d;
                assert(word@.take(i + 1)[k] == d);
            }
            assert(word@.take(i + 1)[i as int] == word@[i as int]);
            assert(word@.take(i + 1).contains(word@[i as int]));
            assert forall|d: char| #[trigger] r@.contains(d) implies word@.take(i + 1).contains(
                d,
            ) by {
                assert(r0.contains(d) || d == c);
            }
            assert forall|d: char| #[trigger] word@.take(i + 1).contains(d) implies r@.contains(
                d,
            ) by {
                assert(word@.take(i as int).contains(d) || d == word@[i as int]);
                if word@.take(i as int).contains(d) {
                    assert(r0.contains(d));
                    assert(r@.contains(d));
                } else {
                    assert(d == c);
                    if already {
                        assert(r0.contains(c));
                        assert(r@.contains(c));
                    }
                }
            }
        }
        i = i + 1;
    }
    proof {
        assert(word@.take(n as int) =~= word@);
        assert(r@.to_set() =~= letters(word@));
    }
    r
}

/// Whether a character occurs in a vector.
pub fn contains_char(v: &Vec<char>, c: char) -> (r: bool)
    ensures
        r == v@.contains(c),
{
    let mut i: usize = 0;
    while i < v.len()
        invariant
            i <= v@.len(),
            forall|k: int| 0 <= k < i ==> v@[k] != c,
        decreases v@.len() - i,
    {
        if v[i] == c {
            return true;
        }
        i = i + 1;
    }
    false
}

/// Extending a prefix by one element: what the longer prefix contains.
pub proof fn lemma_take_step<T>(s: Seq<T>, i: int)
    requires
        0 <= i < s.len(),
    ensures
        forall|w: T| s.take(i + 1).contains(w) <==> (s.take(i).contains(w) || w == s[i]),
{
    assert forall|w: T| #[trigger] s.take(i + 1).contains(w) implies (s.take(i).contains(w) || w
        == s[i]) by {
        let k = choose|k: int| 0 <= k < i + 1 && #[trigger] s.take(i + 1)[k] == w;
        if k < i {
            assert(s.take(i)[k] == w);
        }
    }
    assert forall|w: T| s.take(i).contains(w) || w == s[i] implies #[trigger] s.take(
        i + 1,
    ).contains(w) by {
        if s.take(i).contains(w) {
            let k = choose|k: int| 0 <= k < i && #[trigger] s.take(i)[k] == w;
            assert(s.take(i + 1)[k] == w);
        } else {
            assert(s.take(i + 1)[i] == w);
        }
    }
}

/// Membership in a prefix is kept when the prefix grows by one.
pub proof fn lemma_contains_take_grow<T>(s: Seq<T>, i: int, w: T)
    requires
        0 <= i < s.len(),
        s.take(i).contains(w),
    ensures
        s.take(i + 1).contains(w),
{
    let k = choose|k: int| 0 <= k < i && #[trigger] s.take(i)[k] == w;
    assert(s.take(i + 1)[k] == w);
}

/// What a sequence extended by one element contains.
pub proof fn lemma_push_contains<T>(s: Seq<T>, v: T)
    ensures
        forall|x: T| #[trigger] s.push(v).contains(x) <==> (s.contains(x) || x == v),
{
    assert forall|x: T| #[trigger] s.push(v).contains(x) implies (s.contains(x) || x == v) by {
        let k = choose|k: int| 0 <= k < s.push(v).len() && s.push(v)[k] == x;
        if k < s.len() {
            assert(s[k] == x);
        }
    }
    assert forall|x: T| s.contains(x) || x == v implies #[trigger] s.push(v).contains(x) by {
        if s.contains(x) {
            let k = choose|k: int| 0 <= k < s.len() && s[k] == x;
            assert(s.push(v)[k] == x);
        } else {
            assert(s.push(v)[s.len() as int] == x);
        }
    }
}

/// A sequence of word texts joined with a separator between consecutive
/// items.
pub open spec fn join_texts(items: Seq<Seq<char>>, sep: Seq<char>) -> Seq<char>
    decreases items.len(),
{
    if items.len() == 0 {
        Seq::empty()
    } else if items.len() == 1 {
        items[0]
    } else {
        items[0] + sep + join_texts(items.drop_first(), sep)
    }
}

} // verus!
