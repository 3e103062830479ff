use vstd::prelude::*;

use crate::analysis::{label_names, referenced_names, statement_refs, uses_difference};
use crate::model::Statement;
use crate::names::{lemma_text_lt_irreflexive, lemma_text_lt_transitive, strictly_sorted};

verus! {

/// A set of names has one strictly sorted listing: two strictly sorted
/// sequences with the same elements are equal.
pub proof fn lemma_sorted_listing_unique(x: Seq<Seq<char>>, y: Seq<Seq<char>>)
    requires
        strictly_sorted(x),
        strictly_sorted(y),
        x.to_set() == y.to_set(),
    ensures
        x == y,
    decreases x.len(),
{
    if x.len() == 0 {
        if y.len() > 0 {
            assert(y.to_set().contains(y[0]));
        }
        assert(x =~= y);
    } else {
        assert(x.to_set().contains(x[0]));
        let j = choose|j: int| 0 <= j < y.len() && y[j] == x[0];
        assert(y.to_set().contains(y[0]));
        let i = choose|i: int| 0 <= i < x.len() && x[i] == y[0];
        if j > 0 {
            assert(crate::names::text_lt(y[0], y[j]));
            if i > 0 {
                assert(crate::names::text_lt(x[0], x[i]));
                lemma_text_lt_transitive(x[0], x[i], x[0]);
            }
            lemma_text_lt_irreflexive(x[0]);
        }
        let x1 = x.drop_first();
        let y1 = y.drop_first();
        assert forall|k: int| 0 <= k < x1.len() implies x1[k] != x[0] by {
            assert(crate::names::text_lt(x[0], x[k + 1]));
            lemma_text_lt_irreflexive(x[0]);
        }
        assert forall|k: int| 0 <= k < y1.len() implies y1[k] != y[0] by {
            assert(crate::names::text_lt(y[0], y[k + 1]));
            lemma_text_lt_irreflexive(y[0]);
        }
        assert(x1.to_set() =~= y1.to_set()) by {
            assert forall|n: Seq<char>| x1.to_set().contains(n) implies y1.to_set().contains(n) by {
                let k = choose|k: int| 0 <= k < x1.len() && x1[k] == n;
                assert(x.to_set().contains(x[k + 1]));
                let m = choose|m: int| 0 <= m < y.len() && y[m] == n;
                assert(m != 0);
                assert(y1[m - 1] == n);
            }
            assert forall|n: Seq<char>| y1.to_set().contains(n) implies x1.to_set().contains(n) by {
                let k = choose|k: int| 0 <= k < y1.len() && y1[k] == n;
                assert(y.to_set().contains(y[k + 1]));
                let m = choose|m: int| 0 <= m < x.len() && x[m] == n;
                assert(m != 0);
                assert(x1[m - 1] == n);
            }
        }
        lemma_sorted_listing_unique(x1, y1);
        assert(x =~= seq![x[0]] + x1);
        assert(y =~= seq![y[0]] + y1);
    }
}

/// The defined labels depend only on which statements occur: neither their
/// order nor repetitions change them.
pub proof fn lemma_labels_order_independent(a: Seq<Statement>, b: Seq<Statement>)
    requires
        a.to_set() == b.to_set(),
    ensures
        label_names(a) == label_names(b),
{
    assert forall|n: Seq<char>| label_names(a).contains(n) implies label_names(b).contains(n) by {
        let i = choose|i: int| 0 <= i < a.len() && #[trigger] a[i] is Label && a[i]->Label_0@ == n;
        assert(a.to_set().contains(a[i]));
        let j = choose|j: int| 0 <= j < b.len() && b[j] == a[i];
        assert(b[j] is Label);
    }
    assert forall|n: Seq<char>| label_names(b).contains(n) implies label_names(a).contains(n) by {
        let i = choose|i: int| 0 <= i < b.len() && #[trigger] b[i] is Label && b[i]->Label_0@ == n;
        assert(b.to_set().contains(b[i]));
        let j = choose|j: int| 0 <= j < a.len() && a[j] == b[i];
        assert(a[j] is Label);
    }
    assert(label_names(a) =~= label_names(b));
}

/// `extract_labels` gives the same list for any two statement sequences with
/// the same statements, whatever their order and repetitions: `ra` and `rb`
/// are what its contract allows for `a` and `b`.
pub proof fn lemma_extract_labels_order_independent(
    a: Seq<Statement>,
    b: Seq<Statement>,
    ra: Seq<Seq<char>>,
    rb: Seq<Seq<char>>,
)
    requires
        a.to_set() == b.to_set(),
        strictly_sorted(ra),
        ra.to_set() == label_names(a),
        strictly_sorted(rb),
        rb.to_set() == label_names(b),
    ensures
        ra == rb,
{
    lemma_labels_order_independent(a, b);
    lemma_sorted_listing_unique(ra, rb);
}

/// Directive operands are never references: inserting a directive anywhere
/// changes neither the referenced symbols nor whether a `Difference` is met.
pub proof fn lemma_directive_adds_no_reference(s: Seq<Statement>, k: int, d: Statement)
    requires
        0 <= k <= s.len(),
        d is Directive,
    ensures
        referenced_names(s.insert(k, d)) == referenced_names(s),
        (exists|i: int| 0 <= i < s.len() && #[trigger] uses_difference(s[i])) == (exists|i: int|
            0 <= i < s.len() + 1 && #[trigger] uses_difference(s.insert(k, d)[i])),
{
    let t = s.insert(k, d);
    assert(statement_refs(d) =~= Set::empty());
    assert forall|n: Seq<char>| referenced_names(t).contains(n) implies referenced_names(s).contains(
        n,
    ) by {
        let i = choose|i: int| 0 <= i < t.len() && #[trigger] statement_refs(t[i]).contains(n);
        if i < k {
            assert(statement_refs(s[i]).contains(n));
        } else if i > k {
            assert(statement_refs(s[i - 1]).contains(n));
        }
    }
    assert forall|n: Seq<char>| referenced_names(s).contains(n) implies referenced_names(t).contains(
        n,
    ) by {
        let i = choose|i: int| 0 <= i < s.len() && #[trigger] statement_refs(s[i]).contains(n);
        if i < k {
            assert(statement_refs(t[i]).contains(n));
        } else {
            assert(statement_refs(t[i + 1]).contains(n));
        }
    }
    assert(referenced_names(t) =~= referenced_names(s));
    if exists|i: int| 0 <= i < s.len() && #[trigger] uses_difference(s[i]) {
        let i = choose|i: int| 0 <= i < s.len() && #[trigger] uses_difference(s[i]);
        if i < k {
            assert(uses_difference(t[i]));
        } else {
            assert(uses_difference(t[i + 1]));
        }
    }
    if exists|i: int| 0 <= i < t.len() && #[trigger] uses_difference(t[i]) {
        let i = choose|i: int| 0 <= i < t.len() && #[trigger] uses_difference(t[i]);
        if i < k {
            assert(uses_difference(s[i]));
        } else if i > k {
            assert(uses_difference(s[i - 1]));
        }
    }
}

} // verus!
