//! Lists kept in order.

use vstd::prelude::*;

use crate::text::{
    lemma_text_below_irreflexive, lemma_text_below_total, lemma_text_below_transitive, less_text,
    same_text, text_below,
};

verus! {

/// Each text comes strictly before the next.
pub open spec fn ascending(texts: Seq<Seq<char>>) -> bool {
    forall|i: int, j: int| 0 <= i < j < texts.len() ==> text_below(#[trigger] texts[i], #[trigger] texts[j])
}

/// Where a text belongs in an ascending list: before the first that is not
/// below it.
fn position_of(list: &Vec<String>, s: &str) -> (at: usize)
    requires
        ascending(list.deep_view()),
    ensures
        at <= list@.len(),
        forall|i: int| 0 <= i < at ==> text_below(#[trigger] list.deep_view()[i], s@),
        at < list@.len() ==> !text_below(list.deep_view()[at as int], s@),
{
    let mut at: usize = 0;
    while at < list.len()
        invariant
            at <= list@.len(),
            forall|i: int| 0 <= i < at ==> text_below(#[trigger] list.deep_view()[i], s@),
        decreases list@.len() - at,
    {
        if !less_text(list[at].as_str(), s) {
            return at;
        }
        at += 1;
    }
    at
}

/// Adds a text to an ascending list, unless it is there already.
pub fn insert_text(list: &mut Vec<String>, s: String)
    requires
        ascending(old(list).deep_view()),
    ensures
        ascending(final(list).deep_view()),
        forall|x: Seq<char>|
            #[trigger] final(list).deep_view().contains(x) <==> (old(list).deep_view().contains(x)
                || x == s@),
{
    let ghost before = list.deep_view();
    let at: usize = position_of(list, s.as_str());
    if at < list.len() && same_text(list[at].as_str(), s.as_str()) {
        assert(before[at as int] == s@);
        return;
    }
    let ghost added = s@;
    list.insert(at, s);
    proof {
        let after = list.deep_view();
        assert(after =~= before.insert(at as int, added));
        assert forall|i: int, j: int| 0 <= i < j < after.len() implies text_below(
            #[trigger] after[i],
            #[trigger] after[j],
        ) by {
            let x = if i < at { i } else { i - 1 };
            let y = if j < at { j } else { j - 1 };
            if i == at {
                assert(after[j] == before[j - 1]);
                lemma_text_below_total(added, before[at as int]);
                if j - 1 > at {
                    lemma_text_below_transitive(added, before[at as int], before[j - 1]);
                }
            } else if j == at {
                assert(after[i] == before[i]);
            } else {
                assert(after[i] == before[x]);
                assert(after[j] == before[y]);
            }
        }
        assert forall|x: Seq<char>| #[trigger] after.contains(x) <==> (before.contains(x) || x
            == added) by {
            if before.contains(x) {
                let k = choose|k: int| 0 <= k < before.len() && before[k] == x;
                assert(after[if k < at { k } else { k + 1 }] == x);
            }
            if x == added {
                assert(after[at as int] == x);
            }
            if after.contains(x) {
                let k = choose|k: int| 0 <= k < after.len() && after[k] == x;
                if k < at {
                    assert(before[k] == x);
                } else if k > at {
                    assert(before[k - 1] == x);
                }
            }
        }
    }
}

/// Two ascending lists with the same texts are the same list.
pub proof fn lemma_ascending_unique(a: Seq<Seq<char>>, b: Seq<Seq<char>>)
    requires
        ascending(a),
        ascending(b),
        forall|x: Seq<char>| #[trigger] a.contains(x) <==> b.contains(x),
    ensures
        a == b,
    decreases a.len(),
{
    if a.len() == 0 {
        if b.len() > 0 {
            assert(b.contains(b[0]));
            assert(a.contains(b[0]));
        }
        assert(a =~= b);
    } else {
        assert(a.contains(a.last()));
        assert(b.contains(a.last()));
        let j = choose|j: int| 0 <= j < b.len() && b[j] == a.last();
        assert(b.contains(b.last()));
        assert(a.contains(b.last()));
        let i = choose|i: int| 0 <= i < a.len() && a[i] == b.last();
        if j < b.len() - 1 {
            assert(text_below(b[j], b.last()));
            if i < a.len() - 1 {
                assert(text_below(a[i], a.last()));
                lemma_text_below_transitive(a.last(), b.last(), a.last());
            }
            lemma_text_below_irreflexive(a.last());
        }
        assert(a.last() == b.last());
        let x = a.drop_last();
        let y = b.drop_last();
        assert forall|t: Seq<char>| #[trigger] x.contains(t) <==> y.contains(t) by {
            if x.contains(t) {
                let k = choose|k: int| 0 <= k < x.len() && x[k] == t;
                assert(a[k] == t);
                assert(a.contains(t));
                let m = choose|m: int| 0 <= m < b.len() && b[m] == t;
                if m == b.len() - 1 {
                    assert(text_below(a[k], a.last()));
                    lemma_text_below_irreflexive(a.last());
                }
                assert(y[m] == t);
            }
            if y.contains(t) {
                let k = choose|k: int| 0 <= k < y.len() && y[k] == t;
                assert(b[k] == t);
                assert(b.contains(t));
                assert(a.contains(t));
                let m = choose|m: int| 0 <= m < a.len() && a[m] == t;
                if m == a.len() - 1 {
                    assert(text_below(b[k], b.last()));
                    lemma_text_below_irreflexive(b.last());
                }
                assert(x[m] == t);
            }
        }
        assert(ascending(x)) by {
            assert forall|p: int, q: int| 0 <= p < q < x.len() implies text_below(
                #[trigger] x[p],
                #[trigger] x[q],
            ) by {
                assert(text_below(a[p], a[q]));
            }
        }
        assert(ascending(y)) by {
            assert forall|p: int, q: int| 0 <= p < q < y.len() implies text_below(
                #[trigger] y[p],
                #[trigger] y[q],
            ) by {
                assert(text_below(b[p], b[q]));
            }
        }
        lemma_ascending_unique(x, y);
        assert(a =~= x.push(a.last()));
        assert(b =~= y.push(b.last()));
    }
}

} // verus!
