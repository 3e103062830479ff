use vstd::prelude::*;

use crate::model::{AsmError, Statement};
use crate::text::{chars_of, string_of};

verus! {

/// The characters of Unicode's `White_Space` property, which `str::trim` strips.
pub open spec fn is_white_space(c: char) -> bool {
    ('\u{9}' <= c && c <= '\u{d}') || c == ' ' || c == '\u{85}' || c == '\u{a0}' || c == '\u{1680}'
        || ('\u{2000}' <= c && c <= '\u{200a}') || c == '\u{2028}' || c == '\u{2029}' || c
        == '\u{202f}' || c == '\u{205f}' || c == '\u{3000}'
}

/// The text cut at each line feed; `n` line feeds give `n + 1` lines.
pub open spec fn split_lines(s: Seq<char>) -> Seq<Seq<char>>
    decreases s.len(),
{
    if s.len() == 0 {
        seq![Seq::empty()]
    } else {
        let p = split_lines(s.drop_last());
        if s.last() == '\n' {
            p.push(Seq::empty())
        } else {
            p.update(p.len() - 1, p.last().push(s.last()))
        }
    }
}

/// A line without white space at its start.
pub open spec fn trim_start(l: Seq<char>) -> Seq<char>
    decreases l.len(),
{
    if l.len() > 0 && is_white_space(l[0]) {
        trim_start(l.skip(1))
    } else {
        l
    }
}

/// A line without white space at its end.
pub open spec fn trim_end(l: Seq<char>) -> Seq<char>
    decreases l.len(),
{
    if l.len() > 0 && is_white_space(l.last()) {
        trim_end(l.drop_last())
    } else {
        l
    }
}

/// A line without white space at either end.
pub open spec fn trim(l: Seq<char>) -> Seq<char> {
    trim_end(trim_start(l))
}

/// The trimmed lines that are not blank, in order.
pub open spec fn kept_lines(ls: Seq<Seq<char>>) -> Seq<Seq<char>>
    decreases ls.len(),
{
    if ls.len() == 0 {
        Seq::empty()
    } else {
        let p = kept_lines(ls.drop_last());
        if trim(ls.last()).len() > 0 {
            p.push(trim(ls.last()))
        } else {
            p
        }
    }
}

/// The lines of a source text that go to the line grammar.
pub open spec fn source_line_texts(s: Seq<char>) -> Seq<Seq<char>> {
    kept_lines(split_lines(s))
}

/// The statements of all lines, one line after the other.
pub open spec fn flatten(ps: Seq<Option<Vec<Statement>>>) -> Seq<Statement>
    decreases ps.len(),
{
    if ps.len() == 0 {
        Seq::empty()
    } else {
        flatten(ps.drop_last()) + ps.last()->Some_0@
    }
}

/// Whether `c` has Unicode's `White_Space` property.
pub fn is_white_space_char(c: char) -> (r: bool)
    ensures
        r == is_white_space(c),
{
    ('\u{9}' <= c && c <= '\u{d}') || c == ' ' || c == '\u{85}' || c == '\u{a0}' || c == '\u{1680}'
        || ('\u{2000}' <= c && c <= '\u{200a}') || c == '\u{2028}' || c == '\u{2029}' || c
        == '\u{202f}' || c == '\u{205f}' || c == '\u{3000}'
}

/// Adds the trimmed line to `out` where it is not blank.
fn keep_line(out: &mut Vec<String>, line: &Vec<char>)
    ensures
        final(out)@.map_values(|s: String| s@) == if trim(line@).len() > 0 {
            old(out)@.map_values(|s: String| s@).push(trim(line@))
        } else {
            old(out)@.map_values(|s: String| s@)
        },
{
    let n = line.len();
    let mut a: usize = 0;
    assert(line@.subrange(0, n as int) =~= line@);
    while a < n && is_white_space_char(line[a])
        invariant
            n == line@.len(),
            a <= n,
            trim_start(line@) == trim_start(line@.subrange(a as int, n as int)),
        decreases n - a,
    {
        assert(line@.subrange(a as int, n as int).skip(1) =~= line@.subrange(a + 1, n as int));
        a = a + 1;
    }
    let mut b: usize = n;
    while b > a && is_white_space_char(line[b - 1])
        invariant
            n == line@.len(),
            a <= b <= n,
            trim(line@) == trim_end(line@.subrange(a as int, b as int)),
            a < n ==> !is_white_space(line@[a as int]),
        decreases b - a,
    {
        assert(line@.subrange(a as int, b as int).drop_last() =~= line@.subrange(a as int, b - 1));
        b = b - 1;
    }
    if a < b {
        assert(trim(line@) == line@.subrange(a as int, b as int));
        let s = string_of(&line.as_slice()[a..b]);
        out.push(s);
        assert(final(out)@.map_values(|s: String| s@) =~= old(out)@.map_values(|s: String| s@).push(
            trim(line@),
        ));
    } else {
        assert(trim(line@).len() == 0);
    }
}

/// Cutting a text always gives at least one line.
proof fn lemma_split_lines_nonempty(s: Seq<char>)
    ensures
        split_lines(s).len() >= 1,
    decreases s.len(),
{
    if s.len() > 0 {
        lemma_split_lines_nonempty(s.drop_last());
    }
}

/// The lines of `input` that go to the line grammar: cut at each line feed,
/// trimmed, and without the blank ones, in order.
pub fn source_lines(input: &str) -> (r: Vec<String>)
    ensures
        r@.map_values(|s: String| s@) == source_line_texts(input@),
{
    let cs = chars_of(input);
    let mut out: Vec<String> = Vec::new();
    let mut cur: Vec<char> = Vec::new();
    let ghost mut done: Seq<Seq<char>> = Seq::empty();
    let mut i: usize = 0;
    assert(cs@.subrange(0, 0) =~= Seq::<char>::empty());
    assert(split_lines(Seq::<char>::empty()) =~= done.push(cur@));
    while i < cs.len()
        invariant
            cs@ == input@,
            i <= cs@.len(),
            split_lines(cs@.subrange(0, i as int)) == done.push(cur@),
            out@.map_values(|s: String| s@) == kept_lines(done),
        decreases cs.len() - i,
    {
        let ghost pre = cs@.subrange(0, i as int);
        let ghost post = cs@.subrange(0, i + 1);
        assert(post.drop_last() =~= pre);
        let c = cs[i];
        if c == '\n' {
            keep_line(&mut out, &cur);
            proof {
                assert(done.push(cur@).drop_last() =~= done);
                done = done.push(cur@);
            }
            cur = Vec::new();
            assert(split_lines(post) =~= done.push(cur@));
        } else {
            cur.push(c);
            proof {
                lemma_split_lines_nonempty(pre);
            }
            assert(split_lines(post) =~= done.push(cur@));
        }
        i = i + 1;
    }
    assert(cs@.subrange(0, cs@.len() as int) =~= cs@);
    keep_line(&mut out, &cur);
    assert(done.push(cur@).drop_last() =~= done);
    out
}

/// Puts the statements of the grammar's lines in one sequence, in order.
/// `parsed` holds, for each line that `source_lines` gives for `input`, the
/// line grammar's statements, or `None` where it rejected the line; the first
/// rejected line ends the run.
pub fn parse_asm(input: &str, parsed: Vec<Option<Vec<Statement>>>) -> (r: Result<
    Vec<Statement>,
    AsmError,
>)
    requires
        parsed@.len() == source_line_texts(input@).len(),
    ensures
        (forall|k: int| 0 <= k < parsed@.len() ==> #[trigger] parsed@[k] is Some) ==> (r matches Ok(
            v,
        ) && v@ == flatten(parsed@)),
        (exists|k: int| 0 <= k < parsed@.len() && #[trigger] parsed@[k] is None) ==> (r matches Err(
            AsmError::SyntaxError(l),
        ) && exists|k: int|
            0 <= k < parsed@.len() && #[trigger] parsed@[k] is None && (forall|j: int|
                0 <= j < k ==> parsed@[j] is Some) && l@ == source_line_texts(input@)[k]),
{
    let lines = source_lines(input);
    let ghost all = parsed@;
    let mut pending = parsed;
    let mut out: Vec<Statement> = Vec::new();
    let mut k: usize = 0;
    assert(all.subrange(0, 0) =~= Seq::<Option<Vec<Statement>>>::empty());
    while k < pending.len()
        invariant
            pending@.len() == all.len(),
            all == parsed@,
            lines@.map_values(|s: String| s@) == source_line_texts(input@),
            all.len() == lines@.len(),
            k <= all.len(),
            forall|j: int| k <= j < all.len() ==> pending@[j] == all[j],
            forall|j: int| 0 <= j < k ==> #[trigger] all[j] is Some,
            out@ == flatten(all.subrange(0, k as int)),
        decreases all.len() - k,
    {
        let mut slot: Option<Vec<Statement>> = None;
        core::mem::swap(&mut pending[k], &mut slot);
        match slot {
            Some(mut stmts) => {
                assert(all.subrange(0, k + 1).drop_last() =~= all.subrange(0, k as int));
                out.append(&mut stmts);
                k = k + 1;
            },
            None => {
                let line = lines[k].clone();
                assert(line@ == lines@.map_values(|s: String| s@)[k as int]);
                assert(all[k as int] is None);
                assert(!(forall|j: int| 0 <= j < all.len() ==> #[trigger] all[j] is Some));
                return Err(AsmError::SyntaxError(line));
            },
        }
    }
    assert(all.subrange(0, all.len() as int) =~= all);
    Ok(out)
}

} // verus!
