//! Enumeration of all size-five cliques of the disjointness graph: five
//! candidate words in strictly increasing canonical order whose letter sets
//! are pairwise disjoint. Each clique is found exactly once, through its
//! unique increasing chain.

use crate::graph::{graph_words, wf_graph, Word};
use crate::words::{
    is_candidate_text, lemma_contains_take_grow, lemma_lex_irrefl, lemma_lex_trans,
    lemma_take_step, letters, letters_disjoint, lex_lt, str_lt, texts,
};
use vstd::prelude::*;

verus! {

/// The texts of a collection of cliques, clique by clique.
pub open spec fn clique_views(r: Seq<Vec<String>>) -> Seq<Seq<Seq<char>>> {
    Seq::new(r.len(), |i: int| texts(r[i]@))
}

/// A partial chain over the candidate set: its members are candidates, in
/// strictly increasing canonical order, with pairwise disjoint letter sets.
pub open spec fn chain_ok(cands: Seq<Seq<char>>, c: Seq<Seq<char>>) -> bool {
    &&& forall|i: int| 0 <= i < c.len() ==> cands.contains(#[trigger] c[i])
    &&& forall|i: int, j: int|
        0 <= i < j < c.len() ==> lex_lt(#[trigger] c[i], #[trigger] c[j]) && letters_disjoint(
            c[i],
            c[j],
        )
}

/// A size-five clique in canonical form: five candidates, strictly
/// increasing, pairwise letter-disjoint.
pub open spec fn is_clique5(cands: Seq<Seq<char>>, t: Seq<Seq<char>>) -> bool {
    t.len() == 5 && chain_ok(cands, t)
}

/// The pool of a chain: exactly the candidates whose letters are disjoint
/// from every chain member, each listed once.
pub open spec fn pool_exact(cands: Seq<Seq<char>>, c: Seq<Seq<char>>, pool: Seq<Seq<char>>) -> bool {
    &&& pool.no_duplicates()
    &&& forall|n: Seq<char>|
        #[trigger] pool.contains(n) <==> cands.contains(n) && (forall|i: int|
            0 <= i < c.len() ==> letters_disjoint(#[trigger] c[i], n))
}

/// A full clique that extends a given chain.
pub open spec fn completes(cands: Seq<Seq<char>>, c: Seq<Seq<char>>, t: Seq<Seq<char>>) -> bool {
    is_clique5(cands, t) && t.take(c.len() as int) == c
}

/// Copies a vector of strings.
pub fn clone_strings(v: &Vec<String>) -> (r: Vec<String>)
    ensures
        r@ == v@,
{
    let mut r: Vec<String> = Vec::new();
    let mut i: usize = 0;
    while i < v.len()
        invariant
            i <= v@.len(),
            r@ == v@.take(i as int),
        decreases v@.len() - i,
    {
        r.push(v[i].clone());
        proof {
            assert(r@ =~= v@.take(i + 1));
        }
        i = i + 1;
    }
    proof {
        assert(v@.take(v@.len() as int) =~= v@);
    }
    r
}

/// Finds the node that owns a given word text, if any.
pub fn find_index(words: &Vec<Word>, text: &String) -> (r: Option<usize>)
    ensures
        match r {
            Some(k) => k < words@.len() && words@[k as int].word@ == text@,
            None => !graph_words(words@).contains(text@),
        },
{
    let mut i: usize = 0;
    while i < words.len()
        invariant
            i <= words@.len(),
            forall|k: int| 0 <= k < i ==> (#[trigger] words@[k]).word@ != text@,
        decreases words@.len() - i,
    {
        if words[i].word.eq(text) {
            return Some(i);
        }
        i = i + 1;
    }
    proof {
        assert forall|k: int| 0 <= k < graph_words(words@).len() implies #[trigger] graph_words(
            words@,
        )[k] != text@ by {
            assert(words@[k].word@ != text@);
        }
    }
    None
}

/// Narrows a pool to the members that also occur in a neighbor list.
pub fn intersect_pool(pool: &Vec<String>, nbrs: &Vec<String>) -> (r: Vec<String>)
    requires
        texts(pool@).no_duplicates(),
    ensures
        texts(r@).no_duplicates(),
        forall|n: Seq<char>|
            #[trigger] texts(r@).contains(n) <==> texts(pool@).contains(n) && texts(
                nbrs@,
            ).contains(n),
{
    let mut r: Vec<String> = Vec::new();
    let mut m: usize = 0;
    while m < pool.len()
        invariant
            m <= pool@.len(),
            texts(pool@).no_duplicates(),
            texts(r@).no_duplicates(),
            forall|n: Seq<char>|
                #[trigger] texts(r@).contains(n) <==> texts(pool@).take(m as int).contains(n)
                    && texts(nbrs@).contains(n),
        decreases pool@.len() - m,
    {
        let ghost r0 = r@;
        let p = &pool[m];
        if crate::graph::contains_text(nbrs, p) {
            proof {
                if texts(r0).contains(p@) {
                    assert(texts(pool@).take(m as int).contains(p@));
                    let k = choose|k: int|
                        0 <= k < m && #[trigger] texts(pool@).take(m as int)[k] == p@;
                    assert(texts(pool@)[k] == texts(pool@)[m as int]);
                    assert(false);
                }
            }
            r.push(p.clone());
            proof {
                assert(texts(r@) =~= texts(r0).push(p@));
                assert(texts(r@)[texts(r0).len() as int] == p@);
            }
        }
        proof {
            lemma_take_step(texts(pool@), m as int);
            assert(texts(pool@)[m as int] == p@);
            assert forall|n: Seq<char>| #[trigger]
                texts(r@).contains(n) implies (texts(pool@).take(m + 1).contains(n) && texts(
                nbrs@,
            ).contains(n)) by {
                if texts(r0).contains(n) {
                    lemma_contains_take_grow(texts(pool@), m as int, n);
                } else {
                    let k = choose|k: int| 0 <= k < texts(r@).len() && texts(r@)[k] == n;
                    assert(k == texts(r0).len());
                    assert(n == p@);
                    assert(texts(pool@).take(m + 1)[m as int] == p@);
                }
            }
            assert forall|n: Seq<char>| #[trigger]
                texts(pool@).take(m + 1).contains(n) && texts(nbrs@).contains(n) implies texts(
                r@,
            ).contains(n) by {
                if texts(pool@).take(m as int).contains(n) {
                    assert(texts(r0).contains(n));
                    let k = choose|k: int| 0 <= k < texts(r0).len() && texts(r0)[k] == n;
                    assert(texts(r@)[k] == n);
                } else {
                    assert(n == p@);
                    assert(texts(r@).contains(p@));
                }
            }
        }
        m = m + 1;
    }
    proof {
        assert(texts(pool@).take(pool@.len() as int) =~= texts(pool@));
    }
    r
}

/// A clique completes a chain extended by `p` exactly when it completes the
/// chain and has `p` as its next member.
proof fn lemma_completes_step(
    cands: Seq<Seq<char>>,
    c: Seq<Seq<char>>,
    p: Seq<char>,
    t: Seq<Seq<char>>,
)
    requires
        c.len() < 5,
    ensures
        completes(cands, c.push(p), t) <==> (completes(cands, c, t) && t[c.len() as int] == p),
{
    let d = c.len() as int;
    if completes(cands, c.push(p), t) {
        assert(t.take(d + 1) == c.push(p));
        assert forall|k: int| 0 <= k < d implies t.take(d)[k] == c[k] by {
            assert(t.take(d + 1)[k] == c.push(p)[k]);
        }
        assert(t.take(d) =~= c);
        assert(t[d] == t.take(d + 1)[d]);
        assert(t[d] == p);
    }
    if completes(cands, c, t) && t[d] == p {
        assert forall|k: int| 0 <= k < d + 1 implies t.take(d + 1)[k] == c.push(p)[k] by {
            if k < d {
                assert(t.take(d)[k] == c[k]);
            }
        }
        assert(t.take(d + 1) =~= c.push(p));
    }
}

/// A chain with a completion has a pool at least as large as the number of
/// members still missing: the missing members are distinct pool entries.
proof fn lemma_pool_lower_bound(
    cands: Seq<Seq<char>>,
    c: Seq<Seq<char>>,
    pool: Seq<Seq<char>>,
    t: Seq<Seq<char>>,
)
    requires
        pool_exact(cands, c, pool),
        completes(cands, c, t),
        c.len() <= 5,
    ensures
        pool.len() >= 5 - c.len(),
{
    broadcast use vstd::seq_lib::seq_to_set_is_finite;

    let d = c.len() as int;
    let suffix = t.skip(d);
    assert(suffix.len() == 5 - d);
    assert forall|m: int| 0 <= m < suffix.len() implies pool.contains(#[trigger] suffix[m]) by {
        assert(suffix[m] == t[d + m]);
        assert(cands.contains(t[d + m]));
        assert forall|i: int| 0 <= i < d implies letters_disjoint(#[trigger] c[i], t[d + m]) by {
            assert(t.take(d)[i] == t[i]);
            assert(c[i] == t[i]);
            assert(letters_disjoint(t[i], t[d + m]));
        }
    }
    assert forall|m1: int, m2: int|
        0 <= m1 < suffix.len() && 0 <= m2 < suffix.len() && m1 != m2 implies suffix[m1]
        != suffix[m2] by {
        let lo = if m1 < m2 {
            m1
        } else {
            m2
        };
        let hi = if m1 < m2 {
            m2
        } else {
            m1
        };
        assert(lex_lt(t[d + lo], t[d + hi]));
        if suffix[m1] == suffix[m2] {
            lemma_lex_irrefl(t[d + lo]);
        }
    }
    assert(suffix.no_duplicates());
    suffix.unique_seq_to_set();
    pool.unique_seq_to_set();
    assert forall|x: Seq<char>| suffix.to_set().contains(x) implies pool.to_set().contains(x) by {
        assert(suffix.contains(x));
        let m = choose|m: int| 0 <= m < suffix.len() && suffix[m] == x;
        assert(pool.contains(x));
    }
    assert(suffix.to_set().subset_of(pool.to_set()));
    vstd::set_lib::lemma_len_subset(suffix.to_set(), pool.to_set());
}

/// Extends a chain with every admissible pool member in turn, appending to
/// `results` every clique that completes the chain, each exactly once.
///
/// The pool holds every candidate disjoint from the whole chain; a member
/// extends the chain only if it follows the chain's last word in canonical
/// order. A branch is abandoned as soon as the pool is too small to supply
/// the missing members.
pub fn extend_cliques(
    words: &Vec<Word>,
    chain: &Vec<String>,
    pool: &Vec<String>,
    need: usize,
    results: &mut Vec<Vec<String>>,
)
    requires
        wf_graph(words@),
        1 <= chain@.len() < 5,
        chain@.len() + need == 5,
        chain_ok(graph_words(words@), texts(chain@)),
        pool_exact(graph_words(words@), texts(chain@), texts(pool@)),
        clique_views(old(results)@).no_duplicates(),
        forall|t: Seq<Seq<char>>|
            #[trigger] clique_views(old(results)@).contains(t) ==> !completes(
                graph_words(words@),
                texts(chain@),
                t,
            ),
    ensures
        clique_views(final(results)@).no_duplicates(),
        forall|t: Seq<Seq<char>>|
            #[trigger] clique_views(final(results)@).contains(t) <==> clique_views(
                old(results)@,
            ).contains(t) || completes(graph_words(words@), texts(chain@), t),
    decreases need,
{
    let ghost cands = graph_words(words@);
    let ghost cv = texts(chain@);
    let ghost d = chain@.len() as int;
    let ghost results0 = results@;
    if pool.len() < need {
        proof {
            assert forall|t: Seq<Seq<char>>| !completes(cands, cv, t) by {
                if completes(cands, cv, t) {
                    lemma_pool_lower_bound(cands, cv, texts(pool@), t);
                }
            }
        }
        return;
    }
    let dx = chain.len();
    let mut idx: usize = 0;
    #[verifier::loop_isolation(false)]
    while idx < pool.len()
        invariant
            idx <= pool@.len(),
            clique_views(results@).no_duplicates(),
            forall|t: Seq<Seq<char>>|
                #[trigger] clique_views(results@).contains(t) <==> clique_views(
                    results0,
                ).contains(t) || (completes(cands, cv, t) && texts(pool@).take(
                    idx as int,
                ).contains(t[d])),
        decreases pool@.len() - idx,
    {
        let ghost results_pre = results@;
        let p = &pool[idx];
        proof {
            assert(texts(pool@)[idx as int] == p@);
            assert(texts(pool@).contains(p@));
            assert(cands.contains(p@));
            lemma_take_step(texts(pool@), idx as int);
            if texts(pool@).take(idx as int).contains(p@) {
                let k = choose|k: int|
                    0 <= k < idx && #[trigger] texts(pool@).take(idx as int)[k] == p@;
                assert(texts(pool@)[k] == texts(pool@)[idx as int]);
                assert(false);
            }
        }
        let keep = str_lt(chain[dx - 1].as_str(), p.as_str());
        proof {
            assert(cv[d - 1] == chain@[d - 1]@);
        }
        if keep {
            proof {
                assert forall|i: int| 0 <= i < d implies lex_lt(#[trigger] cv[i], p@) by {
                    if i < d - 1 {
                        lemma_lex_trans(cv[i], cv[d - 1], p@);
                    }
                }
                assert forall|i: int|
                    0 <= i < d implies letters_disjoint(#[trigger] cv[i], p@) by {}
                crate::words::lemma_push_contains(cv, p@);
                assert forall|i: int, j: int|
                    0 <= i < j < cv.push(p@).len() implies lex_lt(
                        #[trigger] cv.push(p@)[i],
                        #[trigger] cv.push(p@)[j],
                    ) && letters_disjoint(cv.push(p@)[i], cv.push(p@)[j]) by {
                    if j < d {
                        assert(cv.push(p@)[i] == cv[i]);
                        assert(cv.push(p@)[j] == cv[j]);
                    } else {
                        assert(cv.push(p@)[i] == cv[i]);
                        assert(cv.push(p@)[j] == p@);
                    }
                }
                assert(chain_ok(cands, cv.push(p@)));
            }
            let mut new_chain = clone_strings(chain);
            new_chain.push(p.clone());
            proof {
                assert(new_chain@ == chain@.push(pool@[idx as int]));
                assert(texts(new_chain@) =~= cv.push(p@));
            }
            if need == 1 {
                proof {
                    assert(d == 4);
                    assert(completes(cands, cv, texts(new_chain@)) && texts(new_chain@)[d]
                        == p@) by {
                        lemma_completes_step(cands, cv, p@, texts(new_chain@));
                        assert(texts(new_chain@).take(5int) =~= texts(new_chain@));
                    }
                    if clique_views(results_pre).contains(texts(new_chain@)) {
                        assert(false);
                    }
                }
                results.push(new_chain);
                proof {
                    assert(clique_views(results@) =~= clique_views(results_pre).push(
                        texts(results@[results_pre.len() as int]@),
                    ));
                    crate::words::lemma_push_contains(
                        clique_views(results_pre),
                        texts(results@[results_pre.len() as int]@),
                    );
                    assert forall|t: Seq<Seq<char>>|
                        completes(cands, cv, t) && t[d] == p@ implies t == texts(
                        results@[results_pre.len() as int]@,
                    ) by {
                        assert(t.take(4int) == cv);
                        assert forall|k: int| 0 <= k < 5 implies t[k] == cv.push(p@)[k] by {
                            if k < 4 {
                                assert(t.take(4int)[k] == t[k]);
                            }
                        }
                        assert(t =~= cv.push(p@));
                    }
                }
            } else {
                let found = find_index(words, p);
                match found {
                    Some(k) => {
                        let new_pool = intersect_pool(pool, &words[k].neighbors);
                        proof {
                            let ncv = texts(new_chain@);
                            assert(words@[k as int].neighbors_exact(cands));
                            assert forall|n: Seq<char>|
                                #[trigger] texts(new_pool@).contains(n) implies (cands.contains(n)
                                && (forall|i: int|
                                    0 <= i < ncv.len() ==> letters_disjoint(
                                        #[trigger] ncv[i],
                                        n,
                                    ))) by {
                                assert(texts(pool@).contains(n));
                                assert(texts(words@[k as int].neighbors@).contains(n));
                                assert(letters_disjoint(p@, n));
                                assert forall|i: int|
                                    0 <= i < ncv.len() implies letters_disjoint(
                                        #[trigger] ncv[i],
                                        n,
                                    ) by {
                                    if i < d {
                                        assert(ncv[i] == cv[i]);
                                    } else {
                                        assert(ncv[i] == p@);
                                    }
                                }
                            }
                            assert forall|n: Seq<char>|
                                cands.contains(n) && (forall|i: int|
                                    0 <= i < texts(new_chain@).len() ==> letters_disjoint(
                                        #[trigger] texts(new_chain@)[i],
                                        n,
                                    )) implies #[trigger] texts(new_pool@).contains(n) by {
                                assert(texts(new_chain@)[d] == p@);
                                assert(letters_disjoint(p@, n));
                                assert forall|i: int|
                                    0 <= i < d implies letters_disjoint(#[trigger] cv[i], n) by {
                                    assert(texts(new_chain@)[i] == cv[i]);
                                }
                                assert(texts(pool@).contains(n));
                                assert(texts(words@[k as int].neighbors@).contains(n));
                            }
                            assert(pool_exact(cands, texts(new_chain@), texts(new_pool@)));
                            assert forall|t: Seq<Seq<char>>|
                                #[trigger] clique_views(results_pre).contains(t) implies !completes(
                                cands,
                                texts(new_chain@),
                                t,
                            ) by {
                                lemma_completes_step(cands, cv, p@, t);
                                if completes(cands, texts(new_chain@), t) {
                                    assert(completes(cands, cv, t) && t[d] == p@);
                                    assert(texts(pool@).take(idx as int).contains(p@));
                                }
                            }
                        }
                        extend_cliques(words, &new_chain, &new_pool, need - 1, results);
                        proof {
                            assert forall|t: Seq<Seq<char>>|
                                #[trigger] clique_views(results@).contains(t) implies (clique_views(
                                results_pre,
                            ).contains(t) || (completes(cands, cv, t) && t[d] == p@)) by {
                                if completes(cands, texts(new_chain@), t) {
                                    lemma_completes_step(cands, cv, p@, t);
                                }
                            }
                            assert forall|t: Seq<Seq<char>>|
                                completes(cands, cv, t) && t[d] == p@ implies #[trigger] clique_views(
                                results@,
                            ).contains(t) by {
                                lemma_completes_step(cands, cv, p@, t);
                            }
                        }
                    },
                    None => {
                        proof {
                            assert(false);
                        }
                    },
                }
            }
        } else {
            proof {
                assert forall|t: Seq<Seq<char>>|
                    !(completes(cands, cv, t) && t[d] == p@) by {
                    if completes(cands, cv, t) && t[d] == p@ {
                        assert(t.take(d)[d - 1] == t[d - 1]);
                        assert(t[d - 1] == cv[d - 1]);
                        assert(lex_lt(t[d - 1], t[d]));
                    }
                }
            }
        }
        proof {
            assert forall|t: Seq<Seq<char>>|
                #[trigger] clique_views(results@).contains(t) <==> (clique_views(
                    results0,
                ).contains(t) || (completes(cands, cv, t) && texts(pool@).take(
                    idx + 1,
                ).contains(t[d]))) by {}
        }
        idx = idx + 1;
    }
    proof {
        assert(texts(pool@).take(pool@.len() as int) =~= texts(pool@));
        assert forall|t: Seq<Seq<char>>|
            completes(cands, cv, t) implies texts(pool@).contains(t[d]) by {
            assert(cands.contains(t[d]));
            assert forall|i: int| 0 <= i < d implies letters_disjoint(#[trigger] cv[i], t[d]) by {
                assert(t.take(d)[i] == t[i]);
                assert(cv[i] == t[i]);
                assert(letters_disjoint(t[i], t[d]));
            }
        }
    }
}

/// All cliques whose first (canonically least) word is the graph's `i`-th
/// word: the parallelizable unit of the search.
pub fn cliques_from_root(words: &Vec<Word>, i: usize) -> (r: Vec<Vec<String>>)
    requires
        wf_graph(words@),
        i < words@.len(),
    ensures
        clique_views(r@).no_duplicates(),
        forall|t: Seq<Seq<char>>|
            #[trigger] clique_views(r@).contains(t) <==> is_clique5(graph_words(words@), t)
                && t[0] == words@[i as int].word@,
{
    let mut results: Vec<Vec<String>> = Vec::new();
    let mut chain: Vec<String> = Vec::new();
    chain.push(words[i].word.clone());
    let pool = clone_strings(&words[i].neighbors);
    proof {
        lemma_root_call(words@, i as int, chain@, pool@, results@);
    }
    extend_cliques(words, &chain, &pool, 4, &mut results);
    proof {
        let cands = graph_words(words@);
        let w = words@[i as int].word@;
        assert forall|t: Seq<Seq<char>>|
            completes(cands, texts(chain@), t) <==> (is_clique5(cands, t) && t[0] == w) by {
            lemma_completes_single(cands, texts(chain@), t);
            assert(texts(chain@)[0] == w);
        }
    }
    results
}

/// A clique completes a one-word chain exactly when that word is its first.
proof fn lemma_completes_single(cands: Seq<Seq<char>>, c: Seq<Seq<char>>, t: Seq<Seq<char>>)
    requires
        c.len() == 1,
    ensures
        completes(cands, c, t) <==> (is_clique5(cands, t) && t[0] == c[0]),
{
    if completes(cands, c, t) {
        assert(t.take(1int)[0] == t[0]);
        assert(t[0] == c[0]);
    }
    if is_clique5(cands, t) && t[0] == c[0] {
        assert(t.take(1int) =~= c);
    }
}

/// The preconditions of the search hold for a fresh one-word chain, its
/// node's neighbor list as the pool, and an empty result collection.
proof fn lemma_root_call(
    g: Seq<Word>,
    i: int,
    chain: Seq<String>,
    pool: Seq<String>,
    results: Seq<Vec<String>>,
)
    requires
        wf_graph(g),
        0 <= i < g.len(),
        chain.len() == 1,
        chain[0]@ == g[i].word@,
        texts(pool) == texts(g[i].neighbors@),
        results.len() == 0,
    ensures
        chain_ok(graph_words(g), texts(chain)),
        pool_exact(graph_words(g), texts(chain), texts(pool)),
        clique_views(results).no_duplicates(),
        forall|t: Seq<Seq<char>>| !clique_views(results).contains(t),
{
    let cands = graph_words(g);
    let cv = texts(chain);
    let w = g[i].word@;
    assert(cv[0] == w);
    assert(cands[i] == w);
    assert(cands.contains(w));
    assert(g[i].neighbors_exact(cands));
    assert forall|n: Seq<char>|
        #[trigger] texts(pool).contains(n) <==> cands.contains(n) && (forall|k: int|
            0 <= k < cv.len() ==> letters_disjoint(#[trigger] cv[k], n)) by {
        if cands.contains(n) && (forall|k: int|
            0 <= k < cv.len() ==> letters_disjoint(#[trigger] cv[k], n)) {
            assert(letters_disjoint(cv[0], n));
            assert(texts(g[i].neighbors@).contains(n));
        }
        if texts(pool).contains(n) {
            assert(texts(g[i].neighbors@).contains(n));
            assert(letters_disjoint(w, n));
            assert forall|k: int| 0 <= k < cv.len() implies letters_disjoint(
                #[trigger] cv[k],
                n,
            ) by {
                assert(cv[k] == w);
            }
        }
    }
    assert forall|t: Seq<Seq<char>>| !clique_views(results).contains(t) by {
        if clique_views(results).contains(t) {
            let k = choose|k: int|
                0 <= k < clique_views(results).len() && clique_views(results)[k] == t;
        }
    }
}

/// Enumerates every size-five clique of a well-formed graph, each exactly
/// once: five words in strictly increasing canonical order, pairwise
/// letter-disjoint, all drawn from the graph.
pub fn find_cliques(words: &Vec<Word>) -> (r: Vec<Vec<String>>)
    requires
        wf_graph(words@),
    ensures
        clique_views(r@).no_duplicates(),
        forall|t: Seq<Seq<char>>|
            #[trigger] clique_views(r@).contains(t) <==> is_clique5(graph_words(words@), t),
{
    let ghost cands = graph_words(words@);
    let mut results: Vec<Vec<String>> = Vec::new();
    let mut i: usize = 0;
    proof {
        assert forall|t: Seq<Seq<char>>| !clique_views(results@).contains(t) by {
            if clique_views(results@).contains(t) {
                let k = choose|k: int|
                    0 <= k < clique_views(results@).len() && clique_views(results@)[k] == t;
            }
        }
    }
    #[verifier::loop_isolation(false)]
    while i < words.len()
        invariant
            i <= words@.len(),
            clique_views(results@).no_duplicates(),
            forall|t: Seq<Seq<char>>|
                #[trigger] clique_views(results@).contains(t) <==> is_clique5(cands, t)
                    && cands.take(i as int).contains(t[0]),
        decreases words@.len() - i,
    {
        let ghost results_pre = results@;
        let mut chain: Vec<String> = Vec::new();
        chain.push(words[i].word.clone());
        let pool = clone_strings(&words[i].neighbors);
        let ghost w = words@[i as int].word@;
        proof {
            assert(cands[i as int] == w);
            lemma_take_step(cands, i as int);
            if cands.take(i as int).contains(w) {
                let k = choose|k: int| 0 <= k < i && #[trigger] cands.take(i as int)[k] == w;
                assert(cands[k] == cands[i as int]);
                assert(false);
            }
            lemma_root_call(words@, i as int, chain@, pool@, Seq::<Vec<String>>::empty());
            assert forall|t: Seq<Seq<char>>| #[trigger]
                clique_views(results@).contains(t) implies !completes(
                cands,
                texts(chain@),
                t,
            ) by {
                lemma_completes_single(cands, texts(chain@), t);
                assert(texts(chain@)[0] == w);
            }
        }
        extend_cliques(words, &chain, &pool, 4, &mut results);
        proof {
            assert forall|t: Seq<Seq<char>>|
                #[trigger] clique_views(results@).contains(t) <==> (is_clique5(cands, t)
                    && cands.take(i + 1).contains(t[0])) by {
                lemma_completes_single(cands, texts(chain@), t);
                assert(texts(chain@)[0] == w);
            }
        }
        i = i + 1;
    }
    proof {
        assert(cands.take(cands.len() as int) =~= cands);
    }
    results
}

/// The letters of a clique's five words cover exactly twenty-five
/// characters: five per word, with no character shared.
pub proof fn lemma_clique_letters_25(cands: Seq<Seq<char>>, t: Seq<Seq<char>>)
    requires
        is_clique5(cands, t),
        forall|w: Seq<char>| #[trigger] cands.contains(w) ==> is_candidate_text(w),
    ensures
        (letters(t[0]) + letters(t[1]) + letters(t[2]) + letters(t[3]) + letters(t[4])).len()
            == 25,
{
    broadcast use vstd::seq_lib::seq_to_set_is_finite;
    broadcast use vstd::set::group_set_axioms;

    assert forall|k: int| 0 <= k < 5 implies letters(#[trigger] t[k]).len() == 5 by {
        assert(cands.contains(t[k]));
    }
    let u1 = letters(t[0]) + letters(t[1]);
    vstd::set_lib::lemma_set_disjoint_lens(letters(t[0]), letters(t[1]));
    assert(letters_disjoint(t[0], t[1]));
    assert(u1.len() == 10);
    let u2 = u1 + letters(t[2]);
    assert forall|x: char| u1.contains(x) implies !letters(t[2]).contains(x) by {
        assert(letters_disjoint(t[0], t[2]));
        assert(letters_disjoint(t[1], t[2]));
    }
    vstd::set_lib::lemma_set_disjoint_lens(u1, letters(t[2]));
    assert(u2.len() == 15);
    let u3 = u2 + letters(t[3]);
    assert forall|x: char| u2.contains(x) implies !letters(t[3]).contains(x) by {
        assert(letters_disjoint(t[0], t[3]));
        assert(letters_disjoint(t[1], t[3]));
        assert(letters_disjoint(t[2], t[3]));
    }
    vstd::set_lib::lemma_set_disjoint_lens(u2, letters(t[3]));
    assert(u3.len() == 20);
    let u4 = u3 + letters(t[4]);
    assert forall|x: char| u3.contains(x) implies !letters(t[4]).contains(x) by {
        assert(letters_disjoint(t[0], t[4]));
        assert(letters_disjoint(t[1], t[4]));
        assert(letters_disjoint(t[2], t[4]));
        assert(letters_disjoint(t[3], t[4]));
    }
    vstd::set_lib::lemma_set_disjoint_lens(u3, letters(t[4]));
    assert(u4.len() == 25);
    assert(u4 == letters(t[0]) + letters(t[1]) + letters(t[2]) + letters(t[3]) + letters(t[4]));
}

/// Two strictly increasing sequences with the same member set are equal.
proof fn lemma_increasing_seq_eq(a: Seq<Seq<char>>, b: Seq<Seq<char>>)
    requires
        forall|i: int, j: int| 0 <= i < j < a.len() ==> lex_lt(#[trigger] a[i], #[trigger] a[j]),
        forall|i: int, j: int| 0 <= i < j < b.len() ==> lex_lt(#[trigger] b[i], #[trigger] b[j]),
        a.to_set() == b.to_set(),
    ensures
        a == b,
    decreases a.len(),
{
    if a.len() == 0 {
        if b.len() > 0 {
            assert(b.to_set().contains(b[0]));
            assert(a.contains(b[0]));
        }
        assert(a =~= b);
    } else {
        if b.len() == 0 {
            assert(a.to_set().contains(a[0]));
            assert(b.contains(a[0]));
        }
        assert(a.to_set().contains(a[0]));
        assert(b.to_set().contains(a[0]));
        let k = choose|k: int| 0 <= k < b.len() && b[k] == a[0];
        assert(a.to_set().contains(b[0]));
        let m = choose|m: int| 0 <= m < a.len() && a[m] == b[0];
        if k > 0 {
            assert(lex_lt(b[0], b[k]));
            if m > 0 {
                assert(lex_lt(a[0], a[m]));
                crate::words::lemma_lex_asym(a[0], b[0]);
            } else {
                lemma_lex_irrefl(b[0]);
            }
            assert(false);
        }
        assert(a[0] == b[0]);
        let at = a.drop_first();
        let bt = b.drop_first();
        assert forall|x: Seq<char>| true implies #[trigger] at.to_set().contains(x) == (
        a.to_set().contains(x) && x != a[0]) by {
            lemma_tail_set(a, x);
        }
        assert forall|x: Seq<char>| true implies #[trigger] bt.to_set().contains(x) == (
        b.to_set().contains(x) && x != b[0]) by {
            lemma_tail_set(b, x);
        }
        assert(at.to_set() =~= bt.to_set());
        assert forall|i: int, j: int| 0 <= i < j < at.len() implies lex_lt(
            #[trigger] at[i],
            #[trigger] at[j],
        ) by {
            assert(at[i] == a[i + 1]);
            assert(at[j] == a[j + 1]);
        }
        assert forall|i: int, j: int| 0 <= i < j < bt.len() implies lex_lt(
            #[trigger] bt[i],
            #[trigger] bt[j],
        ) by {
            assert(bt[i] == b[i + 1]);
            assert(bt[j] == b[j + 1]);
        }
        lemma_increasing_seq_eq(at, bt);
        assert forall|i: int| 0 <= i < a.len() implies a[i] == b[i] by {
            if i > 0 {
                assert(at[i - 1] == a[i]);
                assert(bt[i - 1] == b[i]);
                assert(at[i - 1] == bt[i - 1]);
            }
        }
        assert(a =~= b);
    }
}

/// What the tail of a strictly increasing sequence holds: everything but
/// the first member.
proof fn lemma_tail_set(a: Seq<Seq<char>>, x: Seq<char>)
    requires
        a.len() > 0,
        forall|i: int, j: int| 0 <= i < j < a.len() ==> lex_lt(#[trigger] a[i], #[trigger] a[j]),
    ensures
        a.drop_first().to_set().contains(x) == (a.to_set().contains(x) && x != a[0]),
{
    let at = a.drop_first();
    if at.to_set().contains(x) {
        let k = choose|k: int| 0 <= k < at.len() && at[k] == x;
        assert(a[k + 1] == x);
        assert(a.contains(x));
        assert(lex_lt(a[0], a[k + 1]));
        if x == a[0] {
            lemma_lex_irrefl(a[0]);
        }
    }
    if a.to_set().contains(x) && x != a[0] {
        let k = choose|k: int| 0 <= k < a.len() && a[k] == x;
        assert(k != 0);
        assert(at[k - 1] == x);
        assert(at.contains(x));
    }
}

/// Two different cliques in canonical form never denote the same set of
/// five words.
pub proof fn lemma_distinct_cliques_differ_as_sets(
    cands: Seq<Seq<char>>,
    t1: Seq<Seq<char>>,
    t2: Seq<Seq<char>>,
)
    requires
        is_clique5(cands, t1),
        is_clique5(cands, t2),
        t1 != t2,
    ensures
        t1.to_set() != t2.to_set(),
{
    if t1.to_set() == t2.to_set() {
        lemma_increasing_seq_eq(t1, t2);
    }
}

} // verus!
