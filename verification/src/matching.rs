use vstd::prelude::*;

use crate::ast::EBNFSuffix;
use crate::codeset::{lemma_sorted_unique, strictly_increasing, CodeSet};
use crate::ir::{
    alts_ir_view, elements_ir_view, peek_view, AltIR, AltIRModel, AntlrIR, ElementIR,
    ElementIRModel, MatchNode, MatchNodeModel, RuleIRModel,
};
use crate::nth::{
    element_set, fresh_state, lemma_nth_more, nth, nth_f, opt_elements, opt_set, rules_closed,
    skippable, state_of, NthCache, NthState,
};
use crate::util::HashArc;

verus! {

// The decision trees that say how a rule is parsed. A tree is built for each
// alternative by walking its elements; the trees of the alternatives are then
// merged. Where two elements meet, the merge looks at the tokens that can come
// first from the second one and makes a table from those tokens to the rest.
/// The number of elements of `alt` from position `k` on.
pub open spec fn len_from(alt: AltIRModel, k: usize) -> nat {
    if k < alt.elements.len() {
        (alt.elements.len() - k) as nat
    } else {
        0
    }
}

pub open spec fn nmax(a: nat, b: nat) -> nat {
    if a >= b {
        a
    } else {
        b
    }
}

/// The number of nodes of a tree.
pub open spec fn size(m: MatchNodeModel) -> nat
    decreases m,
{
    match m {
        MatchNodeModel::Peek { peek, fallback } => 1 + size_seq(peek) + match fallback {
            Some(f) => size(*f),
            None => 0,
        },
        MatchNodeModel::Element { next, .. } => 1 + size(*next),
        MatchNodeModel::Finish { .. } => 1,
    }
}

/// The number of entries and nodes of a look-ahead table.
pub open spec fn size_seq(s: Seq<(usize, MatchNodeModel)>) -> nat
    decreases s,
{
    if s.len() == 0 {
        0
    } else {
        size_seq(s.subrange(0, s.len() - 1)) + 1 + size(s[s.len() - 1].1)
    }
}

/// The most elements any element node of a tree has left to match, itself
/// included.
pub open spec fn rank(m: MatchNodeModel) -> nat
    decreases m,
{
    match m {
        MatchNodeModel::Peek { peek, fallback } => nmax(
            rank_seq(peek),
            match fallback {
                Some(f) => rank(*f),
                None => 0,
            },
        ),
        MatchNodeModel::Element { alt, element_idx, next, .. } => nmax(
            len_from(alt, element_idx),
            rank(*next),
        ),
        MatchNodeModel::Finish { .. } => 0,
    }
}

pub open spec fn rank_seq(s: Seq<(usize, MatchNodeModel)>) -> nat
    decreases s,
{
    if s.len() == 0 {
        0
    } else {
        nmax(rank_seq(s.subrange(0, s.len() - 1)), rank(s[s.len() - 1].1))
    }
}

/// The table has an entry for token `k`.
pub open spec fn has_key(s: Seq<(usize, MatchNodeModel)>, k: usize) -> bool {
    exists|j: int| 0 <= j < s.len() && s[j].0 == k
}

/// The position of the entry for token `k`.
pub open spec fn key_index(s: Seq<(usize, MatchNodeModel)>, k: usize) -> int {
    choose|j: int| 0 <= j < s.len() && s[j].0 == k
}

/// No token has two entries.
pub open spec fn keys_unique(s: Seq<(usize, MatchNodeModel)>) -> bool {
    forall|i: int, j: int| 0 <= i < j < s.len() ==> s[i].0 != s[j].0
}

/// The alternative is the one its rule and position name.
pub open spec fn alt_placed(rules: Seq<RuleIRModel>, alt: AltIRModel) -> bool {
    &&& alt.parent_rule matches Some(r)
    &&& r < rules.len()
    &&& alt.index < rules[r as int].alts.len()
    &&& rules[r as int].alts[alt.index as int] == alt
}

/// Every alternative of every rule is the one its rule and position name.
pub open spec fn rules_placed(rules: Seq<RuleIRModel>) -> bool {
    forall|r: int, a: int|
        0 <= r < rules.len() && 0 <= a < rules[r].alts.len() ==> alt_placed(
            rules,
            #[trigger] rules[r].alts[a],
        )
}

/// A well-formed tree: no table has two entries for a token, and every element
/// node stands at an element of an alternative of the grammar.
pub open spec fn wf(m: MatchNodeModel, rules: Seq<RuleIRModel>) -> bool
    decreases m,
{
    match m {
        MatchNodeModel::Peek { peek, fallback } => {
            &&& keys_unique(peek)
            &&& wf_seq(peek, rules)
            &&& match fallback {
                Some(f) => wf(*f, rules),
                None => true,
            }
        },
        MatchNodeModel::Element { alt, element_idx, next, .. } => {
            &&& element_idx < alt.elements.len()
            &&& alt_placed(rules, alt)
            &&& wf(*next, rules)
        },
        MatchNodeModel::Finish { .. } => true,
    }
}

pub open spec fn wf_seq(s: Seq<(usize, MatchNodeModel)>, rules: Seq<RuleIRModel>) -> bool
    decreases s,
{
    if s.len() == 0 {
        true
    } else {
        wf_seq(s.subrange(0, s.len() - 1), rules) && wf(s[s.len() - 1].1, rules)
    }
}

/// The tokens the elements of a set name.
pub open spec fn token_ids(s: Set<ElementIRModel>) -> Set<usize> {
    Set::new(
        |k: usize|
            exists|x: Option<crate::ast::EBNFSuffix>| s.contains(ElementIRModel::TokenAtom { id: k, suffix: x }),
    )
}

/// The numbers of a set in increasing order.
pub open spec fn sorted_ids(s: Set<usize>) -> Seq<usize> {
    choose|q: Seq<usize>| strictly_increasing(q) && q.to_set() == s
}

/// A fresh search from position `key.2` of alternative `key.1` of rule `key.0`
/// for the elements `n` tokens ahead ends, with enough calls, in `p`.
pub open spec fn nth_gives(
    rules: Seq<RuleIRModel>,
    n: usize,
    key: (usize, usize, usize),
    p: (Option<Set<ElementIRModel>>, NthState),
) -> bool {
    exists|f: nat| #[trigger] nth_f(f, rules, n, 0, key.0, key.1, key.2, fresh_state()) == Some(p)
}

/// What that search finds.
pub open spec fn nth_from(rules: Seq<RuleIRModel>, n: usize, key: (usize, usize, usize)) -> Set<
    ElementIRModel,
> {
    opt_set(
        (choose|p: (Option<Set<ElementIRModel>>, NthState)| #[trigger] nth_gives(rules, n, key, p)).0,
    )
}

/// The entries of `pr` up to `j` whose tokens `pl` has no entry for.
pub open spec fn new_entries(
    pl: Seq<(usize, MatchNodeModel)>,
    pr: Seq<(usize, MatchNodeModel)>,
    j: nat,
) -> Seq<(usize, MatchNodeModel)>
    decreases j,
{
    if j == 0 || j > pr.len() {
        Seq::empty()
    } else {
        let prev = new_entries(pl, pr, (j - 1) as nat);
        if has_key(pl, pr[j - 1].0) {
            prev
        } else {
            prev.push(pr[j - 1])
        }
    }
}

/// The tree that matches `alt` from position `k`: the end of the alternative,
/// or the element there followed by the rest; where that element may be
/// skipped, merged with the tree from the next position. `None` where
/// building it fails.
pub open spec fn match_tree(rules: Seq<RuleIRModel>, alt: AltIRModel, k: usize) -> Option<
    MatchNodeModel,
>
    decreases len_from(alt, k), 2nat, 0nat, 0int,
{
    if k >= alt.elements.len() {
        Some(MatchNodeModel::Finish { alt })
    } else if k == usize::MAX {
        None
    } else {
        match dumb_tree(rules, alt, k) {
            None => None,
            Some(base) => if skippable(alt.elements[k as int]) {
                match match_tree(rules, alt, (k + 1) as usize) {
                    None => None,
                    Some(next) => merge_seq(rules, base, next, len_from(alt, k)),
                }
            } else {
                Some(base)
            },
        }
    }
}

/// The element at position `k` of `alt`, followed by the tree for the rest.
pub open spec fn dumb_tree(rules: Seq<RuleIRModel>, alt: AltIRModel, k: usize) -> Option<
    MatchNodeModel,
>
    decreases len_from(alt, k), 0nat, 0nat, 0int,
{
    if k >= alt.elements.len() || k == usize::MAX {
        None
    } else {
        match match_tree(rules, alt, (k + 1) as usize) {
            None => None,
            Some(next) => Some(
                MatchNodeModel::Element {
                    alt,
                    element_idx: k,
                    element: alt.elements[k as int],
                    next: Box::new(next),
                },
            ),
        }
    }
}

/// Two trees merged. A table takes an element node under its token, merged
/// with what the table held there; two tables are merged entry by entry, and
/// so are their fallbacks; a finished alternative gives way to the other tree;
/// two element nodes become a table from the tokens that can start the second
/// one to that node built afresh. `d` bounds how far the trees reach into
/// their alternatives; `None` where merging fails.
pub open spec fn merge_seq(
    rules: Seq<RuleIRModel>,
    a: MatchNodeModel,
    b: MatchNodeModel,
    d: nat,
) -> Option<MatchNodeModel>
    decreases d, 1nat, size(a) + size(b), 1int,
{
    match a {
        MatchNodeModel::Finish { .. } => Some(b),
        MatchNodeModel::Peek { peek: pl, fallback: fl } => match b {
            MatchNodeModel::Finish { .. } => Some(a),
            MatchNodeModel::Peek { peek: pr, fallback: fr } => {
                let fb: Option<Option<Box<MatchNodeModel>>> = match fl {
                    Some(f1) => match fr {
                        Some(f2) => match merge_seq(rules, *f1, *f2, d) {
                            Some(m) => Some(Some(Box::new(m))),
                            None => None,
                        },
                        None => Some(Some(f1)),
                    },
                    None => Some(fr),
                };
                match merge_left(rules, pl, pr, 0, d) {
                    None => None,
                    Some(left) => match fb {
                        None => None,
                        Some(f) => Some(
                            MatchNodeModel::Peek {
                                peek: left + new_entries(pl, pr, pr.len()),
                                fallback: f,
                            },
                        ),
                    },
                }
            },
            MatchNodeModel::Element { .. } => peek_element(rules, pl, fl, b, d),
        },
        MatchNodeModel::Element { .. } => match b {
            MatchNodeModel::Finish { .. } => Some(a),
            MatchNodeModel::Peek { peek: pr, fallback: fr } => peek_element(rules, pr, fr, a, d),
            MatchNodeModel::Element { .. } => element_element(rules, b, d),
        },
    }
}

/// The entries of `pl` from position `i` on, each merged with the entry of
/// `pr` for the same token where there is one.
pub open spec fn merge_left(
    rules: Seq<RuleIRModel>,
    pl: Seq<(usize, MatchNodeModel)>,
    pr: Seq<(usize, MatchNodeModel)>,
    i: nat,
    d: nat,
) -> Option<Seq<(usize, MatchNodeModel)>>
    decreases d, 1nat, size_seq(pl) + size_seq(pr), pl.len() - i,
{
    if i >= pl.len() {
        Some(Seq::empty())
    } else {
        let k = pl[i as int].0;
        let head = if has_key(pr, k) {
            proof {
                lemma_size_entry(pl, i as int);
                lemma_size_entry(pr, key_index(pr, k));
            }
            merge_seq(rules, pl[i as int].1, pr[key_index(pr, k)].1, d)
        } else {
            Some(pl[i as int].1)
        };
        match head {
            None => None,
            Some(h) => match merge_left(rules, pl, pr, i + 1, d) {
                None => None,
                Some(rest) => Some(seq![(k, h)] + rest),
            },
        }
    }
}

/// A table with entries `pl` and fallback `fl`, with the element node `e`
/// merged in under its token.
pub open spec fn peek_element(
    rules: Seq<RuleIRModel>,
    pl: Seq<(usize, MatchNodeModel)>,
    fl: Option<Box<MatchNodeModel>>,
    e: MatchNodeModel,
    d: nat,
) -> Option<MatchNodeModel>
    decreases d, 1nat, size_seq(pl) + match fl {
        Some(f) => size(*f),
        None => 0,
    } + size(e) + 1, 0int,
{
    match e {
        MatchNodeModel::Element { element, .. } => match element.id() {
            None => None,
            Some(k) => if has_key(pl, k) {
                let j = key_index(pl, k);
                proof {
                    lemma_size_entry(pl, j);
                }
                match merge_seq(rules, pl[j].1, e, d) {
                    None => None,
                    Some(m) => Some(MatchNodeModel::Peek { peek: pl.update(j, (k, m)), fallback: fl }),
                }
            } else {
                Some(MatchNodeModel::Peek { peek: pl.push((k, e)), fallback: fl })
            },
        },
        _ => None,
    }
}

/// The table that takes each token that can start element node `b` to that
/// node built afresh.
pub open spec fn element_element(rules: Seq<RuleIRModel>, b: MatchNodeModel, d: nat) -> Option<
    MatchNodeModel,
>
    decreases d, 1nat, size(b), 0int,
{
    match b {
        MatchNodeModel::Element { alt, element_idx, .. } => if len_from(alt, element_idx) > d {
            None
        } else {
            match alt.parent_rule {
                None => None,
                Some(r) => {
                    let ids = sorted_ids(
                        token_ids(nth_from(rules, 0, (r, alt.index, element_idx))),
                    );
                    if ids.len() == 0 {
                        Some(MatchNodeModel::Peek { peek: Seq::empty(), fallback: None })
                    } else {
                        match dumb_tree(rules, alt, element_idx) {
                            None => None,
                            Some(node) => Some(
                                MatchNodeModel::Peek {
                                    peek: ids.map_values(|k: usize| (k, node)),
                                    fallback: None,
                                },
                            ),
                        }
                    }
                },
            }
        },
        _ => None,
    }
}

/// Two trees merged, with the bound their own reach gives.
pub open spec fn merge_spec(rules: Seq<RuleIRModel>, a: MatchNodeModel, b: MatchNodeModel) -> Option<
    MatchNodeModel,
> {
    merge_seq(rules, a, b, nmax(rank(a), rank(b)))
}

/// The tree for the first `n` alternatives: each one's tree, merged in turn.
pub open spec fn alts_tree(rules: Seq<RuleIRModel>, alts: Seq<AltIRModel>, n: nat) -> Option<
    MatchNodeModel,
>
    decreases n,
{
    if n <= 1 {
        match_tree(rules, alts[0], 0)
    } else {
        match alts_tree(rules, alts, (n - 1) as nat) {
            None => None,
            Some(acc) => match match_tree(rules, alts[n - 1], 0) {
                None => None,
                Some(t) => merge_spec(rules, acc, t),
            },
        }
    }
}

/// The tree for all the alternatives of rule `r`.
pub open spec fn rule_tree(rules: Seq<RuleIRModel>, r: usize) -> Option<MatchNodeModel> {
    alts_tree(rules, rules[r as int].alts, rules[r as int].alts.len())
}

/// An entry's node is smaller than its table.
pub proof fn lemma_size_entry(s: Seq<(usize, MatchNodeModel)>, i: int)
    requires
        0 <= i < s.len(),
    ensures
        size(s[i].1) < size_seq(s),
    decreases s.len(),
{
    if i < s.len() - 1 {
        lemma_size_entry(s.subrange(0, s.len() - 1), i);
    }
}

/// A table's rank is within a bound when each of its entries' is.
pub proof fn lemma_rank_seq(s: Seq<(usize, MatchNodeModel)>, b: nat)
    ensures
        rank_seq(s) <= b <==> forall|i: int| 0 <= i < s.len() ==> rank(#[trigger] s[i].1) <= b,
    decreases s.len(),
{
    if s.len() > 0 {
        let t = s.subrange(0, s.len() - 1);
        lemma_rank_seq(t, b);
        assert forall|i: int| 0 <= i < t.len() implies #[trigger] t[i] == s[i] by {}
        if forall|i: int| 0 <= i < s.len() ==> rank(#[trigger] s[i].1) <= b {
            assert forall|i: int| 0 <= i < t.len() implies rank(#[trigger] t[i].1) <= b by {
                assert(t[i] == s[i]);
            }
        }
        if rank_seq(s) <= b {
            assert forall|i: int| 0 <= i < s.len() implies rank(#[trigger] s[i].1) <= b by {
                if i < s.len() - 1 {
                    assert(t[i] == s[i]);
                }
            }
        }
    }
}

/// A table is well formed when each of its entries is.
pub proof fn lemma_wf_seq(s: Seq<(usize, MatchNodeModel)>, rules: Seq<RuleIRModel>)
    ensures
        wf_seq(s, rules) <==> forall|i: int| 0 <= i < s.len() ==> wf(#[trigger] s[i].1, rules),
    decreases s.len(),
{
    if s.len() > 0 {
        let t = s.subrange(0, s.len() - 1);
        lemma_wf_seq(t, rules);
        if forall|i: int| 0 <= i < s.len() ==> wf(#[trigger] s[i].1, rules) {
            assert forall|i: int| 0 <= i < t.len() implies wf(#[trigger] t[i].1, rules) by {
                assert(t[i] == s[i]);
            }
        }
        if wf_seq(s, rules) {
            assert forall|i: int| 0 <= i < s.len() implies wf(#[trigger] s[i].1, rules) by {
                if i < s.len() - 1 {
                    assert(t[i] == s[i]);
                }
            }
        }
    }
}

/// Every node has a size of at least one.
pub proof fn lemma_size_pos(m: MatchNodeModel)
    ensures
        size(m) >= 1,
{
}

/// When the tables' tokens are distinct, the entry found for a token is the
/// one that holds it.
pub proof fn lemma_key_index(s: Seq<(usize, MatchNodeModel)>, i: int)
    requires
        keys_unique(s),
        0 <= i < s.len(),
    ensures
        has_key(s, s[i].0),
        key_index(s, s[i].0) == i,
{
    assert(has_key(s, s[i].0));
    let j = key_index(s, s[i].0);
    if j != i {
        if j < i {
            assert(s[j].0 != s[i].0);
        } else {
            assert(s[i].0 != s[j].0);
        }
    }
}

/// What `merge_left` gives: for each entry from `i` on, the entry itself, or
/// its merge with the other table's entry for the same token; and when.
pub proof fn lemma_merge_left(
    rules: Seq<RuleIRModel>,
    pl: Seq<(usize, MatchNodeModel)>,
    pr: Seq<(usize, MatchNodeModel)>,
    i: nat,
    d: nat,
)
    requires
        i <= pl.len(),
    ensures
        (merge_left(rules, pl, pr, i, d) is Some) <==> (forall|t: int|
            i <= t < pl.len() && has_key(pr, pl[t].0) ==> (#[trigger] merge_seq(
                rules,
                pl[t].1,
                pr[key_index(pr, pl[t].0)].1,
                d,
            )) is Some),
        merge_left(rules, pl, pr, i, d) matches Some(res) ==> {
            &&& res.len() == pl.len() - i
            &&& forall|t: int|
                0 <= t < res.len() ==> #[trigger] res[t] == (
                    pl[i + t].0,
                    if has_key(pr, pl[i + t].0) {
                        merge_seq(rules, pl[i + t].1, pr[key_index(pr, pl[i + t].0)].1, d)->Some_0
                    } else {
                        pl[i + t].1
                    },
                )
        },
    decreases pl.len() - i,
{
    if i < pl.len() {
        lemma_merge_left(rules, pl, pr, i + 1, d);
        let k = pl[i as int].0;
        if let Some(res) = merge_left(rules, pl, pr, i, d) {
            let rest = merge_left(rules, pl, pr, i + 1, d)->Some_0;
            assert forall|t: int| 0 <= t < res.len() implies #[trigger] res[t] == (
                pl[i + t].0,
                if has_key(pr, pl[i + t].0) {
                    merge_seq(rules, pl[i + t].1, pr[key_index(pr, pl[i + t].0)].1, d)->Some_0
                } else {
                    pl[i + t].1
                },
            ) by {
                if t > 0 {
                    assert(res[t] == rest[t - 1]);
                    assert(i + 1 + (t - 1) == i + t);
                }
            }
        }
        if forall|t: int|
            i <= t < pl.len() && has_key(pr, pl[t].0) ==> (#[trigger] merge_seq(
                rules,
                pl[t].1,
                pr[key_index(pr, pl[t].0)].1,
                d,
            )) is Some {
            if has_key(pr, k) {
                assert(merge_seq(rules, pl[i as int].1, pr[key_index(pr, k)].1, d) is Some);
            }
        }
        if merge_left(rules, pl, pr, i, d) is Some {
            assert forall|t: int|
                i <= t < pl.len() && has_key(pr, pl[t].0) implies (#[trigger] merge_seq(
                rules,
                pl[t].1,
                pr[key_index(pr, pl[t].0)].1,
                d,
            )) is Some by {
                if t > i {
                    assert(merge_left(rules, pl, pr, i + 1, d) is Some);
                }
            }
        }
    }
}

/// Two searches that both end agree on what they found.
pub proof fn lemma_nth_gives_unique(
    rules: Seq<RuleIRModel>,
    n: usize,
    key: (usize, usize, usize),
    p: (Option<Set<ElementIRModel>>, NthState),
    q: (Option<Set<ElementIRModel>>, NthState),
)
    requires
        nth_gives(rules, n, key, p),
        nth_gives(rules, n, key, q),
    ensures
        p == q,
{
    let f = choose|f: nat| #[trigger] nth_f(f, rules, n, 0, key.0, key.1, key.2, fresh_state()) == Some(p);
    let g = choose|g: nat| #[trigger] nth_f(g, rules, n, 0, key.0, key.1, key.2, fresh_state()) == Some(q);
    if f <= g {
        lemma_nth_more(f, g, rules, n, 0, key.0, key.1, key.2, fresh_state());
    } else {
        lemma_nth_more(g, f, rules, n, 0, key.0, key.1, key.2, fresh_state());
    }
}

/// `r` is what merging `a` and `b` gives, with any bound at least their reach.
pub open spec fn merges_to(rules: Seq<RuleIRModel>, a: MatchNodeModel, b: MatchNodeModel, r: MatchNodeModel) -> bool {
    forall|d: nat| d >= nmax(rank(a), rank(b)) ==> #[trigger] merge_seq(rules, a, b, d) == Some(r)
}

/// Merging `a` and `b` succeeds with some bound at least their reach.
pub open spec fn mergeable(rules: Seq<RuleIRModel>, a: MatchNodeModel, b: MatchNodeModel) -> bool {
    exists|d: nat| d >= nmax(rank(a), rank(b)) && (#[trigger] merge_seq(rules, a, b, d)) is Some
}

/// The position of the entry for token `k`, if the table has one.
fn find_key(peek: &Vec<(usize, MatchNode)>, k: usize) -> (r: Option<usize>)
    ensures
        match r {
            Some(i) => i < peek@.len() && peek@[i as int].0 == k,
            None => !has_key(peek_view(peek@), k),
        },
{
    let mut i: usize = 0;
    while i < peek.len()
        invariant
            i <= peek.len(),
            forall|j: int| 0 <= j < i ==> peek@[j].0 != k,
        decreases peek.len() - i,
    {
        if peek[i].0 == k {
            return Some(i);
        }
        i += 1;
    }
    proof {
        if has_key(peek_view(peek@), k) {
            let j = choose|j: int| 0 <= j < peek_view(peek@).len() && peek_view(peek@)[j].0 == k;
            assert(peek@[j].0 == k);
        }
    }
    None
}

/// The view of a table node is its entries' views and its fallback's.
pub proof fn lemma_peek_view(node: MatchNode)
    requires
        node is Peek,
    ensures
        node@ matches MatchNodeModel::Peek { peek, .. } && peek == peek_view(node->Peek_peek@),
{
    match node {
        MatchNode::Peek { peek, fallback } => {
            assert(node@->Peek_peek =~= peek_view(peek@));
        },
        _ => {},
    }
}

/// The fallback of a table node's view.
pub open spec fn fallback_view(f: Option<Box<MatchNode>>) -> Option<Box<MatchNodeModel>> {
    match f {
        Some(b) => Some(Box::new(b@)),
        None => None,
    }
}

/// A table node with the given entries and fallback.
fn peek_node(peek: Vec<(usize, MatchNode)>, fallback: Option<Box<MatchNode>>) -> (r: MatchNode)
    ensures
        r@ == (MatchNodeModel::Peek { peek: peek_view(peek@), fallback: fallback_view(fallback) }),
{
    let r = MatchNode::Peek { peek, fallback };
    proof {
        lemma_peek_view(r);
    }
    r
}

/// A table node merged with an element node.
pub open spec fn peek_elem_of(
    rules: Seq<RuleIRModel>,
    p: MatchNodeModel,
    e: MatchNodeModel,
    d: nat,
) -> Option<MatchNodeModel> {
    match p {
        MatchNodeModel::Peek { peek, fallback } => peek_element(rules, peek, fallback, e, d),
        _ => None,
    }
}

fn merged(a: MatchNode, b: MatchNode, ir: &AntlrIR) -> (r: MatchNode)
    requires
        rules_closed(ir@.rules),
        wf(a@, ir@.rules),
        wf(b@, ir@.rules),
        mergeable(ir@.rules, a@, b@),
    ensures
        wf(r@, ir@.rules),
        rank(r@) <= nmax(rank(a@), rank(b@)),
        merges_to(ir@.rules, a@, b@, r@),
    decreases nmax(rank(a@), rank(b@)), 1nat, size(a@) + size(b@), 3nat,
{
    let ghost rules = ir@.rules;
    proof {
        lemma_size_pos(a@);
        lemma_size_pos(b@);
    }
    let ghost big = nmax(rank(a@), rank(b@));
    let ghost am = a@;
    let ghost bm = b@;
    let r = match a {
        MatchNode::Finish { .. } => b,
        MatchNode::Peek { .. } => match b {
            MatchNode::Finish { .. } => a,
            MatchNode::Peek { .. } => merged_peek_peek(a, b, ir),
            MatchNode::Element { .. } => {
                let ghost d0 = choose|d: nat|
                    d >= nmax(rank(a@), rank(b@)) && (#[trigger] merge_seq(rules, a@, b@, d)) is Some;
                assert(peek_elem_of(rules, a@, b@, d0) is Some);
                let r = merged_peek_element(a, b, ir);
                proof {
                    assert forall|d: nat| d >= big implies #[trigger] merge_seq(rules, am, bm, d) == Some(r@) by {
                        assert(peek_elem_of(rules, am, bm, d) == Some(r@));
                    }
                }
                r
            },
        },
        MatchNode::Element { .. } => match b {
            MatchNode::Finish { .. } => a,
            MatchNode::Peek { .. } => {
                let ghost d0 = choose|d: nat|
                    d >= nmax(rank(a@), rank(b@)) && (#[trigger] merge_seq(rules, a@, b@, d)) is Some;
                assert(peek_elem_of(rules, b@, a@, d0) is Some);
                let r = merged_peek_element(b, a, ir);
                proof {
                    assert forall|d: nat| d >= big implies #[trigger] merge_seq(rules, am, bm, d) == Some(r@) by {
                        assert(peek_elem_of(rules, bm, am, d) == Some(r@));
                    }
                }
                r
            },
            MatchNode::Element { .. } => {
                let ghost d0 = choose|d: nat|
                    d >= nmax(rank(a@), rank(b@)) && (#[trigger] merge_seq(rules, a@, b@, d)) is Some;
                assert(element_element(rules, b@, d0) is Some);
                let r = merged_element_element(b, ir);
                proof {
                    assert forall|d: nat| d >= big implies #[trigger] merge_seq(rules, am, bm, d) == Some(r@) by {
                        assert(element_element(rules, bm, d) == Some(r@));
                    }
                }
                r
            },
        },
    };
    proof {
        assert forall|d: nat| d >= big implies #[trigger] merge_seq(rules, am, bm, d) == Some(r@) by {
            if am is Finish || bm is Finish {
            }
        }
    }
    r
}

fn merged_peek_element(p: MatchNode, e: MatchNode, ir: &AntlrIR) -> (r: MatchNode)
    requires
        p is Peek,
        e is Element,
        rules_closed(ir@.rules),
        wf(p@, ir@.rules),
        wf(e@, ir@.rules),
        exists|d: nat|
            d >= nmax(rank(p@), rank(e@)) && (#[trigger] peek_elem_of(ir@.rules, p@, e@, d)) is Some,
    ensures
        wf(r@, ir@.rules),
        rank(r@) <= nmax(rank(p@), rank(e@)),
        forall|d: nat|
            d >= nmax(rank(p@), rank(e@)) ==> #[trigger] peek_elem_of(ir@.rules, p@, e@, d) == Some(
                r@,
            ),
    decreases nmax(rank(p@), rank(e@)), 1nat, size(p@) + size(e@), 2nat,
{
    let ghost rules = ir@.rules;
    let ghost big = nmax(rank(p@), rank(e@));
    let ghost d0 = choose|d: nat| d >= big && (#[trigger] peek_elem_of(rules, p@, e@, d)) is Some;
    let key = match &e {
        MatchNode::Element { element, .. } => element.id(),
        _ => None,
    };
    match p {
        MatchNode::Peek { peek, fallback } => {
            let ghost pl = peek_view(peek@);
            let ghost fl = fallback_view(fallback);
            proof {
                lemma_peek_view(MatchNode::Peek { peek, fallback });
                assert(p@ == MatchNodeModel::Peek { peek: pl, fallback: fl });
                lemma_rank_seq(pl, rank(p@));
                lemma_wf_seq(pl, rules);
            }
            let k = match key {
                Some(k) => k,
                None => {
                    proof {
                        assert(peek_elem_of(rules, p@, e@, d0) is None);
                    }
                    return e;
                },
            };
            let mut peek = peek;
            match find_key(&peek, k) {
                Some(i) => {
                    proof {
                        assert(pl[i as int].0 == k);
                        lemma_key_index(pl, i as int);
                        lemma_size_entry(pl, i as int);
                    }
                    let (kk, child) = peek.remove(i);
                    assert(child@ == pl[i as int].1);
                    proof {
                        assert(e@ matches MatchNodeModel::Element { element, .. } && element.id() == Some(k));
                        assert(key_index(pl, k) == i);
                        assert(peek_element(rules, pl, fl, e@, d0) is Some);
                        assert(merge_seq(rules, pl[i as int].1, e@, d0) is Some);
                        assert(rank(child@) <= rank(p@));
                    }
                    let m = merged(child, e, ir);
                    peek.insert(i, (kk, m));
                    let r = peek_node(peek, fallback);
                    proof {
                        assert(peek_view(peek@) =~= pl.update(i as int, (k, m@)));
                        lemma_rank_seq(peek_view(peek@), big);
                        lemma_wf_seq(peek_view(peek@), rules);
                        assert forall|a: int, b: int|
                            0 <= a < b < peek_view(peek@).len() implies peek_view(peek@)[a].0
                            != peek_view(peek@)[b].0 by {
                            assert(pl[a].0 != pl[b].0);
                        }
                        assert forall|d: nat| d >= big implies #[trigger] peek_elem_of(
                            rules,
                            p@,
                            e@,
                            d,
                        ) == Some(r@) by {
                            assert(merge_seq(rules, pl[i as int].1, e@, d) == Some(m@));
                            assert(key_index(pl, k) == i);
                        }
                    }
                    r
                },
                None => {
                    peek.push((k, e));
                    let r = peek_node(peek, fallback);
                    proof {
                        assert(peek_view(peek@) =~= pl.push((k, e@)));
                        lemma_rank_seq(peek_view(peek@), big);
                        lemma_wf_seq(peek_view(peek@), rules);
                        assert forall|a: int, b: int|
                            0 <= a < b < peek_view(peek@).len() implies peek_view(peek@)[a].0
                            != peek_view(peek@)[b].0 by {
                            if b < pl.len() {
                                assert(pl[a].0 != pl[b].0);
                            } else {
                                assert(pl[a].0 != k);
                            }
                        }
                    }
                    r
                },
            }
        },
        _ => {
            proof {
                assert(false);
            }
            e
        },
    }
}

/// The table entry `left` holds for the `t`-th entry of `pl` once the first
/// `j` entries of `pr` have been merged in.
pub open spec fn merged_so_far(
    rules: Seq<RuleIRModel>,
    pl: Seq<(usize, MatchNodeModel)>,
    pr: Seq<(usize, MatchNodeModel)>,
    j: int,
    t: int,
    cur: MatchNodeModel,
) -> bool {
    if has_key(pr, pl[t].0) && key_index(pr, pl[t].0) < j {
        merges_to(rules, pl[t].1, pr[key_index(pr, pl[t].0)].1, cur)
    } else {
        cur == pl[t].1
    }
}

fn merged_peek_peek(a: MatchNode, b: MatchNode, ir: &AntlrIR) -> (r: MatchNode)
    requires
        a is Peek,
        b is Peek,
        rules_closed(ir@.rules),
        wf(a@, ir@.rules),
        wf(b@, ir@.rules),
        mergeable(ir@.rules, a@, b@),
    ensures
        wf(r@, ir@.rules),
        rank(r@) <= nmax(rank(a@), rank(b@)),
        merges_to(ir@.rules, a@, b@, r@),
    decreases nmax(rank(a@), rank(b@)), 1nat, size(a@) + size(b@), 2nat,
{
    let ghost rules = ir@.rules;
    let ghost big = nmax(rank(a@), rank(b@));
    let ghost d0 = choose|d: nat| d >= big && (#[trigger] merge_seq(rules, a@, b@, d)) is Some;
    match a {
        MatchNode::Peek { peek: peek_left, fallback: fallback_left } => match b {
            MatchNode::Peek { peek: peek_right, fallback: fallback_right } => {
                let ghost pl = peek_view(peek_left@);
                let ghost pr = peek_view(peek_right@);
                let ghost fl = fallback_view(fallback_left);
                let ghost fr = fallback_view(fallback_right);
                proof {
                    lemma_peek_view(MatchNode::Peek { peek: peek_left, fallback: fallback_left });
                    lemma_peek_view(MatchNode::Peek { peek: peek_right, fallback: fallback_right });
                    assert(a@ == MatchNodeModel::Peek { peek: pl, fallback: fl });
                    assert(b@ == MatchNodeModel::Peek { peek: pr, fallback: fr });
                    lemma_rank_seq(pl, rank(a@));
                    lemma_rank_seq(pr, rank(b@));
                    lemma_wf_seq(pl, rules);
                    lemma_wf_seq(pr, rules);
                    lemma_merge_left(rules, pl, pr, 0, d0);
                }
                let mut left = peek_left;
                let mut right = peek_right;
                let ghost right0 = right@;
                let rn = right.len();
                let ghost n = pr.len();
                assert(n == rn);
                let mut j: usize = 0;
                while right.len() > 0
                    invariant
                        rules == ir@.rules,
                        rules_closed(rules),
                        big == nmax(rank(a@), rank(b@)),
                        d0 >= big,
                        merge_left(rules, pl, pr, 0, d0) is Some,
                        forall|t: int|
                            0 <= t < pl.len() && has_key(pr, pl[t].0) ==> (#[trigger] merge_seq(
                                rules,
                                pl[t].1,
                                pr[key_index(pr, pl[t].0)].1,
                                d0,
                            )) is Some,
                        a@ == (MatchNodeModel::Peek { peek: pl, fallback: fl }),
                        b@ == (MatchNodeModel::Peek { peek: pr, fallback: fr }),
                        keys_unique(pl),
                        keys_unique(pr),
                        forall|t: int| 0 <= t < pl.len() ==> wf(#[trigger] pl[t].1, rules),
                        forall|t: int| 0 <= t < pr.len() ==> wf(#[trigger] pr[t].1, rules),
                        forall|t: int| 0 <= t < pl.len() ==> rank(#[trigger] pl[t].1) <= rank(a@),
                        forall|t: int| 0 <= t < pr.len() ==> rank(#[trigger] pr[t].1) <= rank(b@),
                        n == pr.len(),
                        n <= usize::MAX,
                        pr == peek_view(right0),
                        j <= n,
                        right@ == right0.subrange(j as int, n as int),
                        peek_view(left@).len() == pl.len() + new_entries(pl, pr, j as nat).len(),
                        forall|t: int|
                            0 <= t < pl.len() ==> (#[trigger] peek_view(left@)[t]).0 == pl[t].0
                                && merged_so_far(rules, pl, pr, j as int, t, peek_view(left@)[t].1),
                        peek_view(left@).subrange(pl.len() as int, peek_view(left@).len() as int)
                            == new_entries(pl, pr, j as nat),
                        keys_unique(peek_view(left@)),
                        forall|t: int|
                            0 <= t < peek_view(left@).len() ==> wf(#[trigger] peek_view(left@)[t].1, rules),
                        forall|t: int|
                            0 <= t < peek_view(left@).len() ==> rank(#[trigger] peek_view(left@)[t].1) <= big,
                        forall|t: int|
                            pl.len() <= t < peek_view(left@).len() ==> !has_key(pl, #[trigger] peek_view(left@)[t].0)
                                && has_key(pr, peek_view(left@)[t].0) && key_index(pr, peek_view(left@)[t].0) < j,
                    decreases right.len(),
                {
                    let ghost lv = peek_view(left@);
                    let (k, nr) = right.remove(0);
                    proof {
                        assert(right0[j as int] == (k, nr));
                        assert(pr[j as int] == (k, nr@));
                        lemma_key_index(pr, j as int);
                        lemma_size_entry(pr, j as int);
                    }
                    match find_key(&left, k) {
                        Some(i) => {
                            proof {
                                assert(lv[i as int].0 == k);
                                if i < pl.len() {
                                    assert(lv[i as int].0 == pl[i as int].0);
                                }
                                if i >= pl.len() {
                                    assert(key_index(pr, k) < j);
                                }
                                assert(i < pl.len());
                                assert(pl[i as int].0 == k);
                                lemma_key_index(pl, i as int);
                                lemma_size_entry(pl, i as int);
                                assert(has_key(pr, k) && key_index(pr, k) == j);
                            }
                            let (kk, child) = left.remove(i);
                            proof {
                                assert(child@ == lv[i as int].1);
                                assert(merged_so_far(rules, pl, pr, j as int, i as int, lv[i as int].1));
                                assert(child@ == pl[i as int].1);
                                assert(merge_seq(rules, pl[i as int].1, pr[j as int].1, d0) is Some);
                            }
                            let m = merged(child, nr, ir);
                            left.insert(i, (kk, m));
                            proof {
                                let nv = peek_view(left@);
                                assert(nv =~= lv.update(i as int, (k, m@)));
                                assert forall|t: int| 0 <= t < pl.len() implies (#[trigger] nv[t]).0 == pl[t].0
                                    && merged_so_far(rules, pl, pr, (j + 1) as int, t, nv[t].1) by {
                                    assert(lv[t].0 == pl[t].0);
                                    if t != i {
                                        assert(nv[t] == lv[t]);
                                        if has_key(pr, pl[t].0) && key_index(pr, pl[t].0) == j {
                                            lemma_key_index(pl, t);
                                            assert(pl[t].0 == k);
                                        }
                                    }
                                }
                                assert(nv.subrange(pl.len() as int, nv.len() as int) =~= lv.subrange(
                                    pl.len() as int,
                                    lv.len() as int,
                                ));
                                assert(new_entries(pl, pr, (j + 1) as nat) == new_entries(pl, pr, j as nat));
                                assert forall|x: int, y: int| 0 <= x < y < nv.len() implies nv[x].0 != nv[y].0 by {
                                    assert(lv[x].0 != lv[y].0);
                                }
                            }
                        },
                        None => {
                            proof {
                                assert(!has_key(pl, k)) by {
                                    if has_key(pl, k) {
                                        let q = key_index(pl, k);
                                        assert(lv[q].0 == k);
                                    }
                                }
                            }
                            left.push((k, nr));
                            proof {
                                let nv = peek_view(left@);
                                assert(nv =~= lv.push((k, nr@)));
                                assert(new_entries(pl, pr, (j + 1) as nat) == new_entries(pl, pr, j as nat).push(pr[j as int]));
                                assert(nv.subrange(pl.len() as int, nv.len() as int) =~= lv.subrange(
                                    pl.len() as int,
                                    lv.len() as int,
                                ).push((k, nr@)));
                                assert forall|t: int| 0 <= t < pl.len() implies (#[trigger] nv[t]).0 == pl[t].0
                                    && merged_so_far(rules, pl, pr, (j + 1) as int, t, nv[t].1) by {
                                    assert(nv[t] == lv[t]);
                                    assert(lv[t].0 == pl[t].0);
                                    if has_key(pr, pl[t].0) && key_index(pr, pl[t].0) == j {
                                        assert(pl[t].0 == k);
                                    }
                                }
                                assert forall|x: int, y: int| 0 <= x < y < nv.len() implies nv[x].0 != nv[y].0 by {
                                    if y == nv.len() - 1 {
                                        if x < pl.len() {
                                            assert(pl[x].0 == lv[x].0);
                                        } else {
                                            assert(key_index(pr, lv[x].0) < j);
                                            lemma_key_index(pr, key_index(pr, lv[x].0));
                                        }
                                    } else {
                                        assert(lv[x].0 != lv[y].0);
                                    }
                                }
                                assert forall|t: int| pl.len() <= t < nv.len() implies !has_key(pl, #[trigger] nv[t].0)
                                    && has_key(pr, nv[t].0) && key_index(pr, nv[t].0) < j + 1 by {
                                    if t < nv.len() - 1 {
                                        assert(nv[t] == lv[t]);
                                    }
                                }
                            }
                        },
                    }
                    j += 1;
                }
                let fallback = match fallback_left {
                    Some(f1) => match fallback_right {
                        Some(f2) => {
                            proof {
                                assert(merge_seq(rules, f1@, f2@, d0) is Some);
                            }
                            Some(Box::new(merged(*f1, *f2, ir)))
                        },
                        None => Some(f1),
                    },
                    None => fallback_right,
                };
                let r = peek_node(left, fallback);
                proof {
                    let lv = peek_view(left@);
                    lemma_rank_seq(lv, big);
                    lemma_wf_seq(lv, rules);
                    assert forall|d: nat| d >= big implies #[trigger] merge_seq(rules, a@, b@, d) == Some(r@) by {
                        assert forall|t: int|
                            0 <= t < pl.len() && has_key(pr, pl[t].0) implies (#[trigger] merge_seq(
                                rules,
                                pl[t].1,
                                pr[key_index(pr, pl[t].0)].1,
                                d,
                            )) is Some by {
                            assert(merged_so_far(rules, pl, pr, j as int, t, lv[t].1));
                        }
                        lemma_merge_left(rules, pl, pr, 0, d);
                        let res = merge_left(rules, pl, pr, 0, d)->Some_0;
                        assert(res.len() == pl.len());
                        assert forall|t: int| 0 <= t < pl.len() implies #[trigger] lv[t] == res[t] by {
                            assert(merged_so_far(rules, pl, pr, j as int, t, lv[t].1));
                            assert(lv[t].0 == pl[t].0);
                            assert(res[t] == res[0 + t]);
                        }
                        assert(j == n);
                        assert(lv =~= res + new_entries(pl, pr, n));
                        let fbv = fallback_view(fallback);
                        match fl {
                            Some(f1) => match fr {
                                Some(f2) => {
                                    assert(merge_seq(rules, *f1, *f2, d) == Some(*fbv->Some_0));
                                },
                                None => {},
                            },
                            None => {},
                        }
                        assert(merge_seq(rules, a@, b@, d) == Some(MatchNodeModel::Peek { peek: res + new_entries(pl, pr, n), fallback: fbv }));
                    }
                }
                r
            },
            _ => {
                proof {
                    assert(false);
                }
                b
            },
        },
        _ => {
            proof {
                assert(false);
            }
            a
        },
    }
}

/// The element names token `k`.
pub open spec fn names_token(e: ElementIRModel, k: usize) -> bool {
    e matches ElementIRModel::TokenAtom { id, .. } && id == k
}

/// The tokens named in a list of elements, as a set of codes.
fn token_codes(v: &Vec<ElementIR>) -> (c: CodeSet)
    ensures
        c@ == token_ids(element_set(v@)),
{
    let mut c = CodeSet::new();
    let mut i: usize = 0;
    while i < v.len()
        invariant
            i <= v.len(),
            forall|k: usize| c@.contains(k) <==> exists|t: int| 0 <= t < i && names_token(#[trigger] v@[t]@, k),
        decreases v.len() - i,
    {
        match &v[i] {
            ElementIR::TokenAtom { id, .. } => {
                let ghost before = c@;
                c.insert(*id);
                proof {
                    assert forall|k: usize| c@.contains(k) <==> exists|t: int| 0 <= t < i + 1 && names_token(#[trigger] v@[t]@, k) by {
                        if k == *id {
                            assert(names_token(v@[i as int]@, k));
                        }
                        if exists|t: int| 0 <= t < i + 1 && names_token(#[trigger] v@[t]@, k) {
                            let t = choose|t: int| 0 <= t < i + 1 && names_token(#[trigger] v@[t]@, k);
                            if t < i {
                                assert(before.contains(k));
                            }
                        }
                    }
                }
            },
            _ => {
                proof {
                    assert forall|k: usize| c@.contains(k) <==> exists|t: int| 0 <= t < i + 1 && names_token(#[trigger] v@[t]@, k) by {
                        if exists|t: int| 0 <= t < i + 1 && names_token(#[trigger] v@[t]@, k) {
                            let t = choose|t: int| 0 <= t < i + 1 && names_token(#[trigger] v@[t]@, k);
                            assert(t != i);
                        }
                    }
                }
            },
        }
        i += 1;
    }
    proof {
        assert forall|k: usize| c@.contains(k) <==> token_ids(element_set(v@)).contains(k) by {
            if c@.contains(k) {
                let t = choose|t: int| 0 <= t < v@.len() && names_token(#[trigger] v@[t]@, k);
                let x = v@[t]@->TokenAtom_suffix;
                assert(elements_ir_view(v@)[t] == v@[t]@);
                assert(element_set(v@).contains(ElementIRModel::TokenAtom { id: k, suffix: x }));
            }
            if token_ids(element_set(v@)).contains(k) {
                let x = choose|x: Option<EBNFSuffix>| element_set(v@).contains(ElementIRModel::TokenAtom { id: k, suffix: x });
                let t = choose|t: int| 0 <= t < elements_ir_view(v@).len() && elements_ir_view(v@)[t] == ElementIRModel::TokenAtom { id: k, suffix: x };
                assert(names_token(v@[t]@, k));
            }
        }
        assert(c@ =~= token_ids(element_set(v@)));
    }
    c
}

fn merged_element_element(b: MatchNode, ir: &AntlrIR) -> (r: MatchNode)
    requires
        b is Element,
        rules_closed(ir@.rules),
        wf(b@, ir@.rules),
        exists|d: nat| d >= rank(b@) && (#[trigger] element_element(ir@.rules, b@, d)) is Some,
    ensures
        wf(r@, ir@.rules),
        rank(r@) <= rank(b@),
        forall|d: nat| d >= rank(b@) ==> #[trigger] element_element(ir@.rules, b@, d) == Some(r@),
    decreases rank(b@), 1nat, size(b@), 0nat,
{
    let ghost rules = ir@.rules;
    let ghost d0 = choose|d: nat| d >= rank(b@) && (#[trigger] element_element(rules, b@, d)) is Some;
    match b {
        MatchNode::Element { alt, element_idx, .. } => {
            let ghost am = alt@@;
            let a = alt.get();
            let parent = a.parent().unwrap();
            let key = (parent, a.index(), element_idx);
            let mut continuation: Vec<(usize, usize, usize)> = Vec::new();
            let mut cache = NthCache::new();
            let mut visited: Vec<(usize, usize, usize, usize, usize)> = Vec::new();
            proof {
                assert(visited@.to_set() =~= Set::<(usize, usize, usize, usize, usize)>::empty());
                assert(state_of(continuation@, cache@, visited@) == fresh_state());
            }
            let res = nth(0, 0, key, &mut continuation, &mut cache, &mut visited, ir.rules());
            let ghost found = (opt_elements(res), state_of(continuation@, cache@, visited@));
            proof {
                assert(nth_gives(rules, 0, key, found));
                let p = choose|p: (Option<Set<ElementIRModel>>, NthState)| #[trigger] nth_gives(rules, 0, key, p);
                lemma_nth_gives_unique(rules, 0, key, p, found);
                assert(nth_from(rules, 0, key) == opt_set(opt_elements(res)));
            }
            let codes = match res {
                Some(v) => token_codes(&v),
                None => CodeSet::new(),
            };
            proof {
                if res is None {
                    assert(token_ids(Set::<ElementIRModel>::empty()) =~= Set::<usize>::empty());
                }
                assert(codes@ == token_ids(nth_from(rules, 0, key)));
            }
            let ids = codes.codes();
            proof {
                let q = sorted_ids(codes@);
                assert(strictly_increasing(q) && q.to_set() == codes@);
                lemma_sorted_unique(q, ids@);
            }
            let mut peek: Vec<(usize, MatchNode)> = Vec::new();
            let mut i: usize = 0;
            while i < ids.len()
                invariant
                    rules == ir@.rules,
                    rules_closed(rules),
                    am == alt@@,
                    wf(b@, rules),
                    b@ == (MatchNodeModel::Element { alt: am, element_idx, element: b@->Element_element, next: b@->Element_next }),
                    d0 >= rank(b@),
                    element_element(rules, b@, d0) is Some,
                    ids@ == sorted_ids(token_ids(nth_from(rules, 0, (am.parent_rule->Some_0, am.index, element_idx)))),
                    strictly_increasing(ids@),
                    i <= ids.len(),
                    peek@.len() == i,
                    forall|t: int| 0 <= t < i ==> (#[trigger] peek_view(peek@)[t]) == (ids@[t], dumb_tree(rules, am, element_idx)->Some_0),
                    i > 0 ==> dumb_tree(rules, am, element_idx) is Some,
                    i > 0 ==> wf(dumb_tree(rules, am, element_idx)->Some_0, rules),
                    i > 0 ==> rank(dumb_tree(rules, am, element_idx)->Some_0) <= len_from(am, element_idx),
                decreases ids.len() - i,
            {
                proof {
                    assert(element_element(rules, b@, d0) is Some);
                    assert(ids@.len() > 0);
                    assert(dumb_tree(rules, am, element_idx) is Some);
                }
                let ghost before = peek_view(peek@);
                let node = match_element_dumb(alt.share(), element_idx, ir);
                peek.push((ids[i], node));
                proof {
                    assert(peek_view(peek@) =~= before.push((ids@[i as int], node@)));
                }
                i += 1;
            }
            let r = peek_node(peek, None);
            proof {
                let pv = peek_view(peek@);
                if ids@.len() > 0 {
                    assert(pv =~= ids@.map_values(|k: usize| (k, dumb_tree(rules, am, element_idx)->Some_0)));
                } else {
                    assert(pv =~= Seq::<(usize, MatchNodeModel)>::empty());
                }
                lemma_rank_seq(pv, rank(b@));
                lemma_wf_seq(pv, rules);
                assert(len_from(am, element_idx) <= rank(b@));
                assert forall|t: int| 0 <= t < pv.len() implies rank(#[trigger] pv[t].1) <= rank(b@) && wf(pv[t].1, rules) by {
                    assert(pv[t] == (ids@[t], dumb_tree(rules, am, element_idx)->Some_0));
                }
                assert forall|x: int, y: int| 0 <= x < y < pv.len() implies pv[x].0 != pv[y].0 by {
                    assert(pv[x].0 == ids@[x]);
                    assert(pv[y].0 == ids@[y]);
                }
            }
            r
        },
        _ => {
            proof {
                assert(false);
            }
            b
        },
    }
}

/// The node for the element at position `element_idx` of `alt`, followed by
/// the tree for the rest of the alternative.
pub fn match_element_dumb(alt: HashArc<AltIR>, element_idx: usize, ir: &AntlrIR) -> (r: MatchNode)
    requires
        rules_closed(ir@.rules),
        alt_placed(ir@.rules, alt@@),
        dumb_tree(ir@.rules, alt@@, element_idx) is Some,
    ensures
        dumb_tree(ir@.rules, alt@@, element_idx) == Some(r@),
        wf(r@, ir@.rules),
        rank(r@) <= len_from(alt@@, element_idx),
    decreases len_from(alt@@, element_idx), 0nat, 0nat, 0nat,
{
    let elements = alt.get().elements();
    let element = elements[element_idx].duplicate();
    assert(element@ == alt@@.elements[element_idx as int]);
    let next = match_element(alt.share(), element_idx + 1, ir);
    MatchNode::Element { alt, element_idx, element, next: Box::new(next) }
}

/// The tree that matches `alt` from position `element_idx`: the end of the
/// alternative, or its element there followed by the rest, merged with the
/// tree for the next position where that element may be skipped.
pub fn match_element(alt: HashArc<AltIR>, element_idx: usize, ir: &AntlrIR) -> (r: MatchNode)
    requires
        rules_closed(ir@.rules),
        alt_placed(ir@.rules, alt@@),
        match_tree(ir@.rules, alt@@, element_idx) is Some,
    ensures
        match_tree(ir@.rules, alt@@, element_idx) == Some(r@),
        wf(r@, ir@.rules),
        rank(r@) <= len_from(alt@@, element_idx),
    decreases len_from(alt@@, element_idx), 2nat, 0nat, 0nat,
{
    let ghost rules = ir@.rules;
    let n = alt.get().elements().len();
    if element_idx >= n {
        return MatchNode::Finish { alt };
    }
    let suffix = alt.get().elements()[element_idx].suffix();
    assert(suffix == alt@@.elements[element_idx as int].suffix());
    let base = match_element_dumb(alt.share(), element_idx, ir);
    match suffix {
        Some(EBNFSuffix::Optional) | Some(EBNFSuffix::Star) => {
            let next = match_element(alt, element_idx + 1, ir);
            proof {
                assert(merge_seq(rules, base@, next@, len_from(alt@@, element_idx)) is Some);
            }
            let r = merged(base, next, ir);
            r
        },
        _ => base,
    }
}

impl MatchNode {
    /// Merges `other` into this tree (see `merge_seq`).
    pub fn merge(&mut self, other: MatchNode, ir: &AntlrIR)
        requires
            rules_closed(ir@.rules),
            wf(old(self)@, ir@.rules),
            wf(other@, ir@.rules),
            merge_spec(ir@.rules, old(self)@, other@) is Some,
        ensures
            merge_spec(ir@.rules, old(self)@, other@) == Some(final(self)@),
            wf(final(self)@, ir@.rules),
    {
        let mut this = MatchNode::Finish { alt: HashArc::new(AltIR::new(None, Vec::new(), None)) };
        std::mem::swap(self, &mut this);
        *self = merged(this, other, ir);
    }

    /// Merges the table `other` into this table: entry by entry, then the
    /// fallbacks.
    pub fn merge_peek_peek(&mut self, other: MatchNode, ir: &AntlrIR)
        requires
            *old(self) is Peek,
            other is Peek,
            rules_closed(ir@.rules),
            wf(old(self)@, ir@.rules),
            wf(other@, ir@.rules),
            merge_spec(ir@.rules, old(self)@, other@) is Some,
        ensures
            merge_spec(ir@.rules, old(self)@, other@) == Some(final(self)@),
            wf(final(self)@, ir@.rules),
    {
        let mut this = MatchNode::Finish { alt: HashArc::new(AltIR::new(None, Vec::new(), None)) };
        std::mem::swap(self, &mut this);
        *self = merged_peek_peek(this, other, ir);
    }

    /// Merges the element node `other` into this table, under its token.
    pub fn merge_peek_element(&mut self, other: MatchNode, ir: &AntlrIR)
        requires
            *old(self) is Peek,
            other is Element,
            rules_closed(ir@.rules),
            wf(old(self)@, ir@.rules),
            wf(other@, ir@.rules),
            merge_spec(ir@.rules, old(self)@, other@) is Some,
        ensures
            merge_spec(ir@.rules, old(self)@, other@) == Some(final(self)@),
            wf(final(self)@, ir@.rules),
    {
        let mut this = MatchNode::Finish { alt: HashArc::new(AltIR::new(None, Vec::new(), None)) };
        std::mem::swap(self, &mut this);
        let ghost big = nmax(rank(this@), rank(other@));
        proof {
            assert(peek_elem_of(ir@.rules, this@, other@, big) is Some);
        }
        *self = merged_peek_element(this, other, ir);
    }

    /// Replaces this element node by the table from each token that can start
    /// the element node `other` to that node built afresh; this node's own
    /// contents play no part.
    pub fn merge_element_element(&mut self, other: MatchNode, ir: &AntlrIR)
        requires
            *old(self) is Element,
            other is Element,
            rules_closed(ir@.rules),
            wf(other@, ir@.rules),
            merge_spec(ir@.rules, old(self)@, other@) is Some,
        ensures
            merge_spec(ir@.rules, old(self)@, other@) == Some(final(self)@),
            wf(final(self)@, ir@.rules),
    {
        let ghost big = nmax(rank(old(self)@), rank(other@));
        proof {
            assert(element_element(ir@.rules, other@, big) is Some);
        }
        *self = merged_element_element(other, ir);
    }
}

/// The tree for a list of alternatives: the tree of each, merged in turn.
pub fn match_alts(ir: &AntlrIR, alts: &Vec<HashArc<AltIR>>) -> (r: MatchNode)
    requires
        alts.len() >= 1,
        rules_closed(ir@.rules),
        forall|i: int| 0 <= i < alts.len() ==> alt_placed(ir@.rules, #[trigger] alts@[i]@@),
        alts_tree(ir@.rules, alts_ir_view(alts@), alts.len() as nat) is Some,
    ensures
        alts_tree(ir@.rules, alts_ir_view(alts@), alts.len() as nat) == Some(r@),
        wf(r@, ir@.rules),
{
    let ghost rules = ir@.rules;
    let ghost av = alts_ir_view(alts@);
    proof {
        lemma_alts_tree_prefix(rules, av, alts.len() as nat, 1);
        assert(av[0] == alts@[0]@@);
    }
    let mut match_node = match_element(alts[0].share(), 0, ir);
    let mut i: usize = 1;
    while i < alts.len()
        invariant
            rules == ir@.rules,
            av == alts_ir_view(alts@),
            rules_closed(rules),
            forall|i: int| 0 <= i < alts.len() ==> alt_placed(rules, #[trigger] alts@[i]@@),
            alts_tree(rules, av, alts.len() as nat) is Some,
            1 <= i <= alts.len(),
            alts_tree(rules, av, i as nat) == Some(match_node@),
            wf(match_node@, rules),
        decreases alts.len() - i,
    {
        proof {
            lemma_alts_tree_prefix(rules, av, alts.len() as nat, (i + 1) as nat);
            assert(av[i as int] == alts@[i as int]@@);
        }
        let next = match_element(alts[i].share(), 0, ir);
        match_node.merge(next, ir);
        i += 1;
    }
    match_node
}

/// Where the tree for all `n` alternatives can be built, so can the tree for
/// the first `m` of them.
pub proof fn lemma_alts_tree_prefix(rules: Seq<RuleIRModel>, alts: Seq<AltIRModel>, n: nat, m: nat)
    requires
        1 <= m <= n,
        alts_tree(rules, alts, n) is Some,
    ensures
        alts_tree(rules, alts, m) is Some,
        m >= 2 ==> match_tree(rules, alts[m - 1], 0) is Some,
        m == 1 ==> match_tree(rules, alts[0], 0) is Some,
    decreases n - m,
{
    if m < n {
        lemma_alts_tree_prefix(rules, alts, n, m + 1);
    }
}

/// The tree that parses rule `rule`: the tree for its alternatives.
pub fn match_rule(ir: &AntlrIR, rule: usize) -> (r: MatchNode)
    requires
        rule < ir@.rules.len(),
        ir@.rules[rule as int].alts.len() >= 1,
        rules_closed(ir@.rules),
        rules_placed(ir@.rules),
        alts_tree(ir@.rules, ir@.rules[rule as int].alts, ir@.rules[rule as int].alts.len()) is Some,
    ensures
        alts_tree(ir@.rules, ir@.rules[rule as int].alts, ir@.rules[rule as int].alts.len()) == Some(
            r@,
        ),
        rule_tree(ir@.rules, rule) == Some(r@),
        wf(r@, ir@.rules),
{
    let rule_ir = ir.get_rule(rule).unwrap();
    let alts = rule_ir.alts();
    proof {
        assert forall|i: int| 0 <= i < alts.len() implies alt_placed(ir@.rules, #[trigger] alts@[i]@@) by {
            assert(alts_ir_view(alts@)[i] == alts@[i]@@);
        }
    }
    match_alts(ir, alts)
}

/// The tokens of the entries added from `pr` are those of its first `j`
/// entries that `pl` has no entry for.
proof fn lemma_new_entries_keys(
    pl: Seq<(usize, MatchNodeModel)>,
    pr: Seq<(usize, MatchNodeModel)>,
    j: nat,
    k: usize,
)
    requires
        j <= pr.len(),
    ensures
        has_key(new_entries(pl, pr, j), k) <==> (!has_key(pl, k) && exists|t: int|
            0 <= t < j && #[trigger] pr[t].0 == k),
    decreases j,
{
    if j > 0 {
        lemma_new_entries_keys(pl, pr, (j - 1) as nat, k);
        let prev = new_entries(pl, pr, (j - 1) as nat);
        if !has_key(pl, pr[j - 1].0) {
            let cur = prev.push(pr[j - 1]);
            if has_key(cur, k) {
                let q = choose|q: int| 0 <= q < cur.len() && cur[q].0 == k;
                if q < prev.len() {
                    assert(prev[q].0 == k);
                }
            }
            if has_key(prev, k) {
                let q = choose|q: int| 0 <= q < prev.len() && prev[q].0 == k;
                assert(cur[q].0 == k);
            }
            if pr[j - 1].0 == k {
                assert(cur[cur.len() - 1].0 == k);
            }
        }
        if exists|t: int| 0 <= t < j && #[trigger] pr[t].0 == k {
            let t = choose|t: int| 0 <= t < j && #[trigger] pr[t].0 == k;
            if t < j - 1 {
                assert(exists|t2: int| 0 <= t2 < j - 1 && #[trigger] pr[t2].0 == k);
            }
        }
    }
}

/// Merging two tables keeps the tokens of both, and no others.
pub proof fn law_merged_tables_keep_tokens(
    rules: Seq<RuleIRModel>,
    pl: Seq<(usize, MatchNodeModel)>,
    fl: Option<Box<MatchNodeModel>>,
    pr: Seq<(usize, MatchNodeModel)>,
    fr: Option<Box<MatchNodeModel>>,
    d: nat,
    k: usize,
)
    requires
        merge_seq(
            rules,
            MatchNodeModel::Peek { peek: pl, fallback: fl },
            MatchNodeModel::Peek { peek: pr, fallback: fr },
            d,
        ) is Some,
    ensures
        merge_seq(
            rules,
            MatchNodeModel::Peek { peek: pl, fallback: fl },
            MatchNodeModel::Peek { peek: pr, fallback: fr },
            d,
        ) matches Some(MatchNodeModel::Peek { peek, .. }) && (has_key(peek, k) <==> (has_key(pl, k)
            || has_key(pr, k))),
{
    lemma_merge_left(rules, pl, pr, 0, d);
    lemma_new_entries_keys(pl, pr, pr.len(), k);
    let left = merge_left(rules, pl, pr, 0, d)->Some_0;
    let added = new_entries(pl, pr, pr.len());
    let all = left + added;
    assert forall|t: int| 0 <= t < left.len() implies #[trigger] left[t].0 == pl[t].0 by {
        assert(left[t] == left[0 + t]);
    }
    if has_key(all, k) {
        let q = choose|q: int| 0 <= q < all.len() && all[q].0 == k;
        if q < left.len() {
            assert(pl[q].0 == k);
        } else {
            assert(added[q - left.len()].0 == k);
            let t = choose|t: int| 0 <= t < pr.len() && #[trigger] pr[t].0 == k;
            assert(has_key(pr, k));
        }
    }
    if has_key(pl, k) {
        let q = choose|q: int| 0 <= q < pl.len() && pl[q].0 == k;
        assert(all[q].0 == k);
    } else if has_key(pr, k) {
        let t = choose|t: int| 0 <= t < pr.len() && pr[t].0 == k;
        assert(pr[t].0 == k);
        assert(has_key(added, k));
        let q = choose|q: int| 0 <= q < added.len() && added[q].0 == k;
        assert(all[left.len() + q].0 == k);
    }
}

/// Merging an element node into a table keeps the table's tokens and adds
/// the element's, and no others.
pub proof fn law_element_joins_table(
    rules: Seq<RuleIRModel>,
    pl: Seq<(usize, MatchNodeModel)>,
    fl: Option<Box<MatchNodeModel>>,
    e: MatchNodeModel,
    d: nat,
    k: usize,
)
    requires
        e is Element,
        merge_seq(rules, MatchNodeModel::Peek { peek: pl, fallback: fl }, e, d) is Some,
    ensures
        merge_seq(rules, MatchNodeModel::Peek { peek: pl, fallback: fl }, e, d) matches Some(
            MatchNodeModel::Peek { peek, .. },
        ) && (has_key(peek, k) <==> (has_key(pl, k) || e->Element_element.id() == Some(k))),
{
    assert(merge_seq(rules, MatchNodeModel::Peek { peek: pl, fallback: fl }, e, d) == peek_element(
        rules,
        pl,
        fl,
        e,
        d,
    ));
    let id = e->Element_element.id()->Some_0;
    if has_key(pl, id) {
        let j = key_index(pl, id);
        let m = merge_seq(rules, pl[j].1, e, d)->Some_0;
        let res = pl.update(j, (id, m));
        assert(peek_element(rules, pl, fl, e, d) == Some(MatchNodeModel::Peek { peek: res, fallback: fl }));
        if has_key(res, k) {
            let q = choose|q: int| 0 <= q < res.len() && res[q].0 == k;
            if q != j {
                assert(pl[q].0 == k);
            }
        }
        if has_key(pl, k) {
            let q = choose|q: int| 0 <= q < pl.len() && pl[q].0 == k;
            assert(res[q].0 == k);
        }
    } else {
        let res = pl.push((id, e));
        assert(peek_element(rules, pl, fl, e, d) == Some(MatchNodeModel::Peek { peek: res, fallback: fl }));
        if has_key(res, k) {
            let q = choose|q: int| 0 <= q < res.len() && res[q].0 == k;
            if q < pl.len() {
                assert(pl[q].0 == k);
            }
        }
        if has_key(pl, k) {
            let q = choose|q: int| 0 <= q < pl.len() && pl[q].0 == k;
            assert(res[q].0 == k);
        }
        if id == k {
            assert(res[pl.len() as int].0 == k);
        }
    }
}

/// A finished alternative gives way to whatever it is merged with.
pub proof fn law_finished_gives_way(rules: Seq<RuleIRModel>, alt: AltIRModel, b: MatchNodeModel)
    ensures
        merge_spec(rules, MatchNodeModel::Finish { alt }, b) == Some(b),
{
}

/// The chain of element nodes for `alt` from position `k`, ending its
/// alternative.
pub open spec fn chain(alt: AltIRModel, k: usize) -> MatchNodeModel
    decreases len_from(alt, k),
{
    if k >= alt.elements.len() || k == usize::MAX {
        MatchNodeModel::Finish { alt }
    } else {
        MatchNodeModel::Element {
            alt,
            element_idx: k,
            element: alt.elements[k as int],
            next: Box::new(chain(alt, (k + 1) as usize)),
        }
    }
}

/// An alternative none of whose elements may be skipped is matched by the
/// chain of its elements.
pub proof fn law_plain_alternative_is_chain(rules: Seq<RuleIRModel>, alt: AltIRModel, k: usize)
    requires
        alt.elements.len() <= usize::MAX,
        forall|i: int| 0 <= i < alt.elements.len() ==> !skippable(#[trigger] alt.elements[i]),
    ensures
        match_tree(rules, alt, k) == Some(chain(alt, k)),
    decreases len_from(alt, k),
{
    if k < alt.elements.len() {
        law_plain_alternative_is_chain(rules, alt, (k + 1) as usize);
        assert(dumb_tree(rules, alt, k) == Some(chain(alt, k)));
    }
}

} // verus!
