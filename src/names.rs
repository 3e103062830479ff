use vstd::prelude::*;

use crate::text::chars_of;

verus! {

/// Strict lexicographic order on texts, by code point; on UTF-8 text this is
/// the order of the encoded bytes, so the order in which `str` compares.
pub open spec fn text_lt(a: Seq<char>, b: Seq<char>) -> bool
    decreases a.len(),
{
    if a.len() == 0 {
        b.len() > 0
    } else if b.len() == 0 {
        false
    } else if a[0] != b[0] {
        (a[0] as int) < (b[0] as int)
    } else {
        text_lt(a.drop_first(), b.drop_first())
    }
}

/// The views of a sequence of strings.
pub open spec fn texts(v: Seq<String>) -> Seq<Seq<char>> {
    v.map_values(|s: String| s@)
}

/// Names in strictly increasing order: sorted, with no name twice.
pub open spec fn strictly_sorted(s: Seq<Seq<char>>) -> bool {
    forall|i: int, j: int| 0 <= i < j < s.len() ==> text_lt(#[trigger] s[i], #[trigger] s[j])
}

/// No text comes before itself.
pub proof fn lemma_text_lt_irreflexive(a: Seq<char>)
    ensures
        !text_lt(a, a),
    decreases a.len(),
{
    if a.len() > 0 {
        lemma_text_lt_irreflexive(a.drop_first());
    }
}

/// The order is transitive.
pub proof fn lemma_text_lt_transitive(a: Seq<char>, b: Seq<char>, c: Seq<char>)
    requires
        text_lt(a, b),
        text_lt(b, c),
    ensures
        text_lt(a, c),
    decreases a.len(),
{
    if a.len() > 0 && b.len() > 0 && c.len() > 0 && a[0] == b[0] && b[0] == c[0] {
        lemma_text_lt_transitive(a.drop_first(), b.drop_first(), c.drop_first());
    }
}

/// Of two different texts, one comes first.
pub proof fn lemma_text_lt_total(a: Seq<char>, b: Seq<char>)
    requires
        a != b,
    ensures
        text_lt(a, b) || text_lt(b, a),
    decreases a.len(),
{
    if a.len() == 0 && b.len() == 0 {
        assert(a =~= b);
    }
    if a.len() > 0 && b.len() > 0 && a[0] == b[0] {
        if a.drop_first() == b.drop_first() {
            assert(a =~= seq![a[0]] + a.drop_first());
            assert(b =~= seq![b[0]] + b.drop_first());
        }
        lemma_text_lt_total(a.drop_first(), b.drop_first());
    }
}

/// Whether two texts are equal, character by character.
pub fn text_eq(a: &str, b: &str) -> (r: bool)
    ensures
        r == (a@ == b@),
{
    let x = chars_of(a);
    let y = chars_of(b);
    let n = x.len();
    let m = y.len();
    if n != m {
        return false;
    }
    let mut i: usize = 0;
    while i < n
        invariant
            x@ == a@,
            y@ == b@,
            n == a@.len(),
            m == b@.len(),
            n == m,
            i <= n,
            a@.subrange(0, i as int) == b@.subrange(0, i as int),
        decreases n - i,
    {
        if x[i] != y[i] {
            return false;
        }
        assert(a@.subrange(0, i + 1) =~= a@.subrange(0, i as int).push(a@[i as int]));
        assert(b@.subrange(0, i + 1) =~= b@.subrange(0, i as int).push(b@[i as int]));
        i = i + 1;
    }
    assert(a@ =~= a@.subrange(0, n as int));
    assert(b@ =~= b@.subrange(0, n as int));
    true
}

/// Whether `a` comes strictly before `b`.
pub fn text_less(a: &str, b: &str) -> (r: bool)
    ensures
        r == text_lt(a@, b@),
{
    let cx = chars_of(a);
    let cy = chars_of(b);
    let n = cx.len();
    let m = cy.len();
    let mut i: usize = 0;
    assert(a@.skip(0) =~= a@);
    assert(b@.skip(0) =~= b@);
    while i < n && i < m
        invariant
            cx@ == a@,
            cy@ == b@,
            n == a@.len(),
            m == b@.len(),
            i <= n,
            i <= m,
            text_lt(a@, b@) == text_lt(a@.skip(i as int), b@.skip(i as int)),
        decreases n - i,
    {
        let x = cx[i];
        let y = cy[i];
        assert(a@.skip(i as int)[0] == x && b@.skip(i as int)[0] == y);
        if x != y {
            return x < y;
        }
        assert(a@.skip(i as int).drop_first() =~= a@.skip(i + 1));
        assert(b@.skip(i as int).drop_first() =~= b@.skip(i + 1));
        i = i + 1;
    }
    i < m && i == n
}

/// Adds `name` to a strictly sorted list of names, where it is not yet, and
/// returns where it stands.
pub fn insert_name(names: &mut Vec<String>, name: String) -> (pos: usize)
    requires
        strictly_sorted(texts(old(names)@)),
    ensures
        strictly_sorted(texts(final(names)@)),
        texts(final(names)@).to_set() == texts(old(names)@).to_set().insert(name@),
        pos < final(names)@.len(),
        final(names)@[pos as int]@ == name@,
        texts(old(names)@).contains(name@) ==> final(names)@ == old(names)@,
        !texts(old(names)@).contains(name@) ==> final(names)@.len() == old(names)@.len() + 1,
        !texts(old(names)@).contains(name@) ==> final(names)@ == old(names)@.insert(
            pos as int,
            name,
        ),
{
    let ghost before = texts(names@);
    let mut i: usize = 0;
    while i < names.len() && text_less(names[i].as_str(), name.as_str())
        invariant
            i <= names.len(),
            names@ == old(names)@,
            strictly_sorted(texts(names@)),
            forall|k: int| 0 <= k < i ==> text_lt(#[trigger] texts(names@)[k], name@),
        decreases names.len() - i,
    {
        i = i + 1;
    }
    if i < names.len() && text_eq(names[i].as_str(), name.as_str()) {
        assert(texts(names@)[i as int] == name@);
        assert(texts(names@).to_set() =~= texts(names@).to_set().insert(name@));
        return i;
    }
    proof {
        if i < names.len() {
            lemma_text_lt_total(texts(names@)[i as int], name@);
        }
        assert forall|k: int| 0 <= k < before.len() implies before[k] != name@ by {
            if k < i {
                lemma_text_lt_irreflexive(name@);
            } else {
                lemma_text_lt_irreflexive(name@);
                if k > i {
                    lemma_text_lt_transitive(name@, before[i as int], before[k]);
                }
            }
        }
    }
    names.insert(i, name);
    let ghost after = texts(names@);
    assert(after =~= before.insert(i as int, name@));
    assert forall|a: int, b: int| 0 <= a < b < after.len() implies text_lt(
        #[trigger] after[a],
        #[trigger] after[b],
    ) by {
        if a < i && b == i {
        } else if a < i && b > i {
            assert(after[b] == before[b - 1]);
            if i < before.len() {
                lemma_text_lt_transitive(before[a], name@, before[i as int]);
                if b - 1 > i {
                    lemma_text_lt_transitive(before[a], before[i as int], before[b - 1]);
                }
            }
        } else if a == i && b > i {
            assert(after[b] == before[b - 1]);
            if b - 1 > i {
                lemma_text_lt_transitive(name@, before[i as int], before[b - 1]);
            }
        } else if a > i {
            assert(after[a] == before[a - 1]);
            assert(after[b] == before[b - 1]);
        }
    }
    assert(after.to_set() =~= before.to_set().insert(name@)) by {
        assert forall|x: Seq<char>| after.to_set().contains(x) implies before.to_set().insert(
            name@,
        ).contains(x) by {
            let k = choose|k: int| 0 <= k < after.len() && after[k] == x;
            if k > i {
                assert(before[k - 1] == x);
            } else if k < i {
                assert(before[k] == x);
            }
        }
        assert forall|x: Seq<char>| before.to_set().insert(name@).contains(x) implies after.to_set().contains(x) by {
            if x == name@ {
                assert(after[i as int] == x);
            } else {
                let k = choose|k: int| 0 <= k < before.len() && before[k] == x;
                if k < i {
                    assert(after[k] == x);
                } else {
                    assert(after[k + 1] == x);
                }
            }
        }
    }
    i
}

} // verus!
