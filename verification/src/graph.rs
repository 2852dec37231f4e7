//! The disjointness graph over candidate words: each node owns its word text,
//! its letter set, and the set of word texts whose letters it shares none with.

use crate::words::{
    contains_char, is_candidate_text, join_texts, lemma_contains_take_grow, lemma_take_step,
    letters, letters_disjoint, texts,
};
use vstd::prelude::*;

verus! {

/// A node of the disjointness graph. Its identity is its text; the letter set
/// and the neighbor set are derived from the candidate set it was built from.
pub struct Word {
    pub word: String,
    pub char_set: Vec<char>,
    pub neighbors: Vec<String>,
}

impl Word {
    /// The derived fields agree with the text: `char_set` holds exactly the
    /// distinct characters of `word`, and the neighbor texts are distinct.
    pub open spec fn wf(self) -> bool {
        &&& self.char_set@.no_duplicates()
        &&& self.char_set@.to_set() == letters(self.word@)
        &&& texts(self.neighbors@).no_duplicates()
    }

    /// The neighbor set is exactly the candidates whose letter set is
    /// disjoint from this word's.
    pub open spec fn neighbors_exact(self, cands: Seq<Seq<char>>) -> bool {
        forall|n: Seq<char>|
            #[trigger] texts(self.neighbors@).contains(n) <==> cands.contains(n)
                && letters_disjoint(self.word@, n)
    }

    /// Collects the distinct characters of a word, in order of first occurrence.
    pub fn get_char_set(word: &str) -> (r: Vec<char>)
        ensures
            r@.no_duplicates(),
            r@.to_set() == letters(word@),
    {
        crate::words::distinct_chars(word)
    }

    /// Builds a node from its text, with the given neighbor set or an empty one.
    pub fn new(word: String, neighbors: Option<Vec<String>>) -> (w: Word)
        ensures
            w.word@ == word@,
            w.char_set@.no_duplicates(),
            w.char_set@.to_set() == letters(word@),
            w.neighbors@ == (match neighbors {
                Some(n) => n@,
                None => Seq::<String>::empty(),
            }),
    {
        let char_set = Word::get_char_set(word.as_str());
        let nb = match neighbors {
            Some(n) => n,
            None => Vec::new(),
        };
        Word { word, char_set, neighbors: nb }
    }

    /// Builds a node with an empty neighbor set from a borrowed text.
    pub fn from_str(word: &str) -> (w: Word)
        ensures
            w.word@ == word@,
            w.char_set@.no_duplicates(),
            w.char_set@.to_set() == letters(word@),
            w.neighbors@ == Seq::<String>::empty(),
    {
        Word::new(word.to_owned(), None)
    }

    /// The node's text.
    pub fn to_string(&self) -> (r: String)
        ensures
            r@ == self.word@,
    {
        self.word.clone()
    }

    /// The node's neighbor texts as one string, separated by commas.
    pub fn neighbors_to_string(&self) -> (r: String)
        ensures
            r@ == join_texts(texts(self.neighbors@), ", "@),
    {
        join_with(&self.neighbors, ", ")
    }
}

/// Relies on itertools::join, with String's Display output being the string
/// itself: the items' text with the separator between consecutive items.
#[verifier::external_body]
fn join_with(items: &Vec<String>, sep: &str) -> (r: String)
    ensures
        r@ == join_texts(texts(items@), sep@),
{
    itertools::join(items.iter(), sep)
}

impl PartialEq for Word {
    /// Node identity is the word text alone; the derived fields carry no
    /// further information.
    fn eq(&self, other: &Self) -> (r: bool) {
        self.word.eq(&other.word)
    }
}

impl vstd::std_specs::cmp::PartialEqSpecImpl for Word {
    open spec fn obeys_eq_spec() -> bool {
        true
    }

    open spec fn eq_spec(&self, other: &Word) -> bool {
        self.word@ == other.word@
    }
}

/// The word texts of a graph, node by node.
pub open spec fn graph_words(g: Seq<Word>) -> Seq<Seq<char>> {
    Seq::new(g.len(), |i: int| g[i].word@)
}

/// A well-formed graph: distinct candidate words, each node's derived fields
/// consistent, and each neighbor set exactly the disjoint candidates.
pub open spec fn wf_graph(g: Seq<Word>) -> bool {
    &&& graph_words(g).no_duplicates()
    &&& forall|i: int|
        0 <= i < g.len() ==> {
            &&& (#[trigger] g[i]).wf()
            &&& is_candidate_text(g[i].word@)
            &&& g[i].neighbors_exact(graph_words(g))
        }
}

/// Whether two character vectors share no character.
pub fn sets_disjoint(a: &Vec<char>, b: &Vec<char>) -> (r: bool)
    ensures
        r == a@.to_set().disjoint(b@.to_set()),
{
    let mut i: usize = 0;
    while i < a.len()
        invariant
            i <= a@.len(),
            forall|k: int| 0 <= k < i ==> !b@.contains(a@[k]),
        decreases a@.len() - i,
    {
        if contains_char(b, a[i]) {
            proof {
                assert(a@.to_set().contains(a@[i as int]));
                assert(b@.to_set().contains(a@[i as int]));
            }
            return false;
        }
        i = i + 1;
    }
    proof {
        assert forall|c: char| a@.to_set().contains(c) implies !b@.to_set().contains(c) by {
            let k = choose|k: int| 0 <= k < a@.len() && a@[k] == c;
            assert(!b@.contains(c));
        }
    }
    true
}

/// Whether a text occurs among the texts of a vector of strings.
pub fn contains_text(v: &Vec<String>, s: &String) -> (r: bool)
    ensures
        r == texts(v@).contains(s@),
{
    let mut i: usize = 0;
    while i < v.len()
        invariant
            i <= v@.len(),
            forall|k: int| 0 <= k < i ==> v@[k]@ != s@,
        decreases v@.len() - i,
    {
        if v[i].eq(s) {
            proof {
                assert(texts(v@)[i as int] == s@);
            }
            return true;
        }
        i = i + 1;
    }
    proof {
        assert forall|k: int| 0 <= k < texts(v@).len() implies texts(v@)[k] != s@ by {
            assert(v@[k]@ != s@);
        }
    }
    false
}

/// Whether a token qualifies as a candidate word: exactly five characters,
/// all five distinct.
pub fn is_candidate(word: &String) -> (r: bool)
    ensures
        r == is_candidate_text(word@),
{
    let n = word.as_str().unicode_len();
    if n != 5 {
        return false;
    }
    let cs = Word::get_char_set(word.as_str());
    proof {
        cs@.unique_seq_to_set();
    }
    cs.len() == 5
}

/// Reduces a token sequence to the deduplicated set of candidate words:
/// a token is kept iff it has exactly five characters, all distinct, and
/// identical tokens collapse to one.
pub fn filter_candidates(tokens: &Vec<String>) -> (r: Vec<String>)
    ensures
        texts(r@).no_duplicates(),
        forall|w: Seq<char>|
            #[trigger] texts(r@).contains(w) <==> texts(tokens@).contains(w)
                && is_candidate_text(w),
{
    let mut r: Vec<String> = Vec::new();
    let mut i: usize = 0;
    while i < tokens.len()
        invariant
            i <= tokens@.len(),
            texts(r@).no_duplicates(),
            forall|w: Seq<char>|
                #[trigger] texts(r@).contains(w) <==> texts(tokens@).take(i as int).contains(w)
                    && is_candidate_text(w),
        decreases tokens@.len() - i,
    {
        let ghost r0 = r@;
        let tok = &tokens[i];
        if is_candidate(tok) && !contains_text(&r, tok) {
            r.push(tok.clone());
            proof {
                assert(texts(r@) =~= texts(r0).push(tok@));
            }
        }
        proof {
            lemma_take_step(texts(tokens@), i as int);
            assert(texts(tokens@)[i as int] == tok@);
            assert forall|w: Seq<char>| #[trigger]
                texts(r@).contains(w) implies (texts(tokens@).take(i + 1).contains(w)
                && is_candidate_text(w)) by {
                if texts(r0).contains(w) {
                    lemma_contains_take_grow(texts(tokens@), i as int, w);
                } else {
                    assert(w == tok@);
                    assert(texts(tokens@).take(i + 1)[i as int] == tok@);
                }
            }
            assert forall|w: Seq<char>| #[trigger]
                texts(tokens@).take(i + 1).contains(w) && is_candidate_text(w) implies texts(
                r@,
            ).contains(w) by {
                if texts(tokens@).take(i as int).contains(w) {
                    assert(texts(r0).contains(w));
                    assert(texts(r@).contains(w)) by {
                        if r0 != r@ {
                            assert(texts(r@) == texts(r0).push(tok@));
                            let k = choose|k: int|
                                0 <= k < texts(r0).len() && texts(r0)[k] == w;
                            assert(texts(r@)[k] == w);
                        }
                    }
                } else {
                    assert(w == tok@);
                    if texts(r0).contains(tok@) {
                        assert(texts(r@).contains(w));
                    } else {
                        assert(texts(r@)[texts(r0).len() as int] == tok@);
                    }
                }
            }
        }
        i = i + 1;
    }
    proof {
        assert(texts(tokens@).take(tokens@.len() as int) =~= texts(tokens@));
    }
    r
}

/// Letter-set disjointness is symmetric.
pub proof fn lemma_letters_disjoint_sym(u: Seq<char>, v: Seq<char>)
    ensures
        letters_disjoint(u, v) <==> letters_disjoint(v, u),
{
    if letters_disjoint(u, v) {
        assert forall|c: char| letters(v).contains(c) implies !letters(u).contains(c) by {
            if letters(u).contains(c) {
                assert(!letters(v).contains(c));
            }
        }
    }
    if letters_disjoint(v, u) {
        assert forall|c: char| letters(u).contains(c) implies !letters(v).contains(c) by {
            if letters(v).contains(c) {
                assert(!letters(u).contains(c));
            }
        }
    }
}

/// The neighbors of one candidate word: every candidate whose letter set is
/// disjoint from the word's own.
pub fn neighbors_of(word: &String, candidates: &Vec<String>) -> (r: Vec<String>)
    requires
        texts(candidates@).no_duplicates(),
    ensures
        texts(r@).no_duplicates(),
        forall|n: Seq<char>|
            #[trigger] texts(r@).contains(n) <==> texts(candidates@).contains(n)
                && letters_disjoint(word@, n),
{
    let cs = Word::get_char_set(word.as_str());
    let mut r: Vec<String> = Vec::new();
    let mut j: usize = 0;
    while j < candidates.len()
        invariant
            j <= candidates@.len(),
            texts(candidates@).no_duplicates(),
            cs@.to_set() == letters(word@),
            texts(r@).no_duplicates(),
            forall|n: Seq<char>|
                #[trigger] texts(r@).contains(n) <==> texts(candidates@).take(
                    j as int,
                ).contains(n) && letters_disjoint(word@, n),
        decreases candidates@.len() - j,
    {
        let ghost r0 = r@;
        let cj = &candidates[j];
        let csj = Word::get_char_set(cj.as_str());
        if sets_disjoint(&cs, &csj) {
            proof {
                if texts(r0).contains(cj@) {
                    assert(texts(candidates@).take(j as int).contains(cj@));
                    let k = choose|k: int|
                        0 <= k < j && #[trigger] texts(candidates@).take(j as int)[k] == cj@;
                    assert(texts(candidates@)[k] == texts(candidates@)[j as int]);
                    assert(false);
                }
            }
            r.push(cj.clone());
            proof {
                assert(texts(r@) =~= texts(r0).push(cj@));
                assert(texts(r@)[texts(r0).len() as int] == cj@);
            }
        }
        proof {
            lemma_take_step(texts(candidates@), j as int);
            assert(texts(candidates@)[j as int] == cj@);
            assert forall|n: Seq<char>| #[trigger]
                texts(r@).contains(n) implies (texts(candidates@).take(j + 1).contains(n)
                && letters_disjoint(word@, n)) by {
                if texts(r0).contains(n) {
                    lemma_contains_take_grow(texts(candidates@), j as int, n);
                } else {
                    let k = choose|k: int| 0 <= k < texts(r@).len() && texts(r@)[k] == n;
                    assert(k == texts(r0).len());
                    assert(n == cj@);
                    assert(texts(candidates@).take(j + 1)[j as int] == cj@);
                }
            }
            assert forall|n: Seq<char>| #[trigger]
                texts(candidates@).take(j + 1).contains(n) && letters_disjoint(
                word@,
                n,
            ) implies texts(r@).contains(n) by {
                if texts(candidates@).take(j as int).contains(n) {
                    assert(texts(r0).contains(n));
                    let k = choose|k: int| 0 <= k < texts(r0).len() && texts(r0)[k] == n;
                    assert(texts(r@)[k] == n);
                } else {
                    assert(n == cj@);
                    assert(texts(r@).contains(cj@));
                }
            }
        }
        j = j + 1;
    }
    proof {
        assert(texts(candidates@).take(candidates@.len() as int) =~= texts(candidates@));
    }
    r
}

/// Builds the full disjointness graph over a deduplicated candidate set:
/// one node per candidate, each with its exact neighbor set.
pub fn compute_neighbors(candidates: &Vec<String>) -> (g: Vec<Word>)
    requires
        texts(candidates@).no_duplicates(),
        forall|w: Seq<char>| #[trigger] texts(candidates@).contains(w) ==> is_candidate_text(w),
    ensures
        graph_words(g@) == texts(candidates@),
        wf_graph(g@),
{
    let mut g: Vec<Word> = Vec::new();
    let mut i: usize = 0;
    while i < candidates.len()
        invariant
            i <= candidates@.len(),
            texts(candidates@).no_duplicates(),
            forall|w: Seq<char>| #[trigger]
                texts(candidates@).contains(w) ==> is_candidate_text(w),
            g@.len() == i,
            forall|k: int| 0 <= k < i ==> (#[trigger] g@[k]).word@ == texts(candidates@)[k],
            forall|k: int|
                0 <= k < i ==> (#[trigger] g@[k]).wf() && is_candidate_text(g@[k].word@)
                    && g@[k].neighbors_exact(texts(candidates@)),
        decreases candidates@.len() - i,
    {
        let ghost g0 = g@;
        let nbrs = neighbors_of(&candidates[i], candidates);
        let w = Word::new(candidates[i].clone(), Some(nbrs));
        proof {
            assert(texts(candidates@)[i as int] == candidates@[i as int]@);
            assert(texts(candidates@).contains(candidates@[i as int]@));
        }
        g.push(w);
        i = i + 1;
    }
    proof {
        assert(graph_words(g@) =~= texts(candidates@));
        assert forall|k: int| 0 <= k < g@.len() implies (#[trigger] g@[k]).neighbors_exact(
            graph_words(g@),
        ) by {
            assert(g@[k].neighbors_exact(texts(candidates@)));
        }
    }
    g
}

/// Builds the disjointness graph from raw tokens: filters them to the
/// candidate set, then computes every node's neighbor set.
pub fn build_graph(tokens: &Vec<String>) -> (g: Vec<Word>)
    ensures
        wf_graph(g@),
        forall|w: Seq<char>|
            #[trigger] graph_words(g@).contains(w) <==> texts(tokens@).contains(w)
                && is_candidate_text(w),
{
    let candidates = filter_candidates(tokens);
    proof {
        assert forall|w: Seq<char>| #[trigger]
            texts(candidates@).contains(w) implies is_candidate_text(w) by {}
    }
    compute_neighbors(&candidates)
}

/// Every word of a well-formed graph is a candidate: five characters,
/// five distinct letters.
pub proof fn lemma_graph_words_are_candidates(g: Seq<Word>)
    requires
        wf_graph(g),
    ensures
        forall|w: Seq<char>| #[trigger] graph_words(g).contains(w) ==> is_candidate_text(w),
{
    assert forall|w: Seq<char>| #[trigger] graph_words(g).contains(w) implies is_candidate_text(
        w,
    ) by {
        let k = choose|k: int| 0 <= k < graph_words(g).len() && graph_words(g)[k] == w;
        assert(g[k].word@ == w);
        assert(is_candidate_text(g[k].word@));
    }
}

/// The neighbor relation is symmetric: two nodes of a well-formed graph
/// list each other, or neither does.
pub proof fn lemma_neighbor_symmetry(g: Seq<Word>, i: int, j: int)
    requires
        wf_graph(g),
        0 <= i < g.len(),
        0 <= j < g.len(),
    ensures
        texts(g[i].neighbors@).contains(g[j].word@) <==> texts(g[j].neighbors@).contains(
            g[i].word@,
        ),
{
    assert(graph_words(g)[i] == g[i].word@);
    assert(graph_words(g).contains(g[i].word@));
    assert(graph_words(g)[j] == g[j].word@);
    assert(graph_words(g).contains(g[j].word@));
    lemma_letters_disjoint_sym(g[i].word@, g[j].word@);
}

/// No node of a well-formed graph lists itself as a neighbor.
pub proof fn lemma_no_self_loop(g: Seq<Word>, i: int)
    requires
        wf_graph(g),
        0 <= i < g.len(),
    ensures
        !texts(g[i].neighbors@).contains(g[i].word@),
{
    let w = g[i].word@;
    assert(is_candidate_text(w));
    assert(graph_words(g)[i] == w);
    if texts(g[i].neighbors@).contains(w) {
        assert(g[i].neighbors_exact(graph_words(g)));
        assert(letters_disjoint(w, w));
        assert(w.contains(w[0]));
        assert(letters(w).contains(w[0]));
        assert(!letters(w).contains(w[0]));
    }
}

} // verus!
