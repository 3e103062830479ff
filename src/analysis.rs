use vstd::prelude::*;

use crate::model::{Argument, AsmError, Constant, Statement};
use crate::names::{insert_name, strictly_sorted, texts};

verus! {

/// The names that `Label` statements define.
pub open spec fn label_names(stmts: Seq<Statement>) -> Set<Seq<char>> {
    Set::new(
        |n: Seq<char>|
            exists|i: int| 0 <= i < stmts.len() && #[trigger] stmts[i] is Label && stmts[i]->Label_0@ == n,
    )
}

/// The symbol that a relocation constant refers to.
pub open spec fn constant_reference(c: Constant) -> Option<Seq<char>> {
    match c {
        Constant::Number(_) => None,
        Constant::HiDataRef(s) => Some(s@),
        Constant::LoDataRef(s) => Some(s@),
    }
}

/// The symbol that an instruction operand refers to, if any.
pub open spec fn argument_reference(a: Argument) -> Option<Seq<char>> {
    match a {
        Argument::Symbol(s) => Some(s@),
        Argument::RegOffset(_, c) => constant_reference(c),
        Argument::Constant(c) => constant_reference(c),
        _ => None,
    }
}

/// The symbols that a list of instruction operands refers to.
pub open spec fn argument_refs(args: Seq<Argument>) -> Set<Seq<char>> {
    Set::new(
        |n: Seq<char>|
            exists|k: int| 0 <= k < args.len() && #[trigger] argument_reference(args[k]) == Some(n),
    )
}

/// The symbols that one statement refers to: only instructions refer.
pub open spec fn statement_refs(s: Statement) -> Set<Seq<char>> {
    match s {
        Statement::Instruction(_, args) => argument_refs(args@),
        _ => Set::empty(),
    }
}

/// Whether some operand in the list is a `Difference`.
pub open spec fn has_difference(args: Seq<Argument>) -> bool {
    exists|k: int| 0 <= k < args.len() && #[trigger] args[k] is Difference
}

/// Whether a statement is an instruction with a `Difference` operand.
pub open spec fn uses_difference(s: Statement) -> bool {
    match s {
        Statement::Instruction(_, args) => has_difference(args@),
        _ => false,
    }
}

/// The symbols that the instructions of a statement sequence refer to.
pub open spec fn referenced_names(stmts: Seq<Statement>) -> Set<Seq<char>> {
    Set::new(
        |n: Seq<char>|
            exists|i: int| 0 <= i < stmts.len() && #[trigger] statement_refs(stmts[i]).contains(n),
    )
}

/// The names of all labels, sorted, each once.
pub fn extract_labels(statements: &[Statement]) -> (r: Vec<String>)
    ensures
        strictly_sorted(texts(r@)),
        texts(r@).to_set() == label_names(statements@),
{
    let mut names: Vec<String> = Vec::new();
    let mut i: usize = 0;
    assert(texts(names@).to_set() =~= label_names(statements@.subrange(0, 0)));
    while i < statements.len()
        invariant
            i <= statements@.len(),
            strictly_sorted(texts(names@)),
            texts(names@).to_set() == label_names(statements@.subrange(0, i as int)),
        decreases statements.len() - i,
    {
        let ghost pre = statements@.subrange(0, i as int);
        let ghost post = statements@.subrange(0, i + 1);
        assert(post =~= pre.push(statements@[i as int]));
        match &statements[i] {
            Statement::Label(l) => {
                insert_name(&mut names, l.clone());
                assert(label_names(post) =~= label_names(pre).insert(l@)) by {
                    assert(post[i as int] is Label);
                    assert forall|n: Seq<char>| label_names(post).contains(n) implies label_names(
                        pre,
                    ).insert(l@).contains(n) by {
                        let k = choose|k: int|
                            0 <= k < post.len() && #[trigger] post[k] is Label && post[k]->Label_0@ == n;
                        if k < i {
                            assert(pre[k] is Label);
                        }
                    }
                    assert forall|n: Seq<char>| label_names(pre).contains(n) implies label_names(
                        post,
                    ).contains(n) by {
                        let k = choose|k: int|
                            0 <= k < pre.len() && #[trigger] pre[k] is Label && pre[k]->Label_0@ == n;
                        assert(post[k] is Label);
                    }
                }
            },
            _ => {
                assert(label_names(post) =~= label_names(pre)) by {
                    assert forall|n: Seq<char>| label_names(post).contains(n) implies label_names(
                        pre,
                    ).contains(n) by {
                        let k = choose|k: int|
                            0 <= k < post.len() && #[trigger] post[k] is Label && post[k]->Label_0@ == n;
                        assert(pre[k] is Label);
                    }
                    assert forall|n: Seq<char>| label_names(pre).contains(n) implies label_names(
                        post,
                    ).contains(n) by {
                        let k = choose|k: int|
                            0 <= k < pre.len() && #[trigger] pre[k] is Label && pre[k]->Label_0@ == n;
                        assert(post[k] is Label);
                    }
                }
            },
        }
        i = i + 1;
    }
    assert(statements@.subrange(0, statements@.len() as int) =~= statements@);
    names
}

/// Adds the symbols that `args` refers to; `false`, with `names` left in
/// some sorted state, when an operand is a `Difference`.
fn collect_argument_refs(args: &Vec<Argument>, names: &mut Vec<String>) -> (ok: bool)
    requires
        strictly_sorted(texts(old(names)@)),
    ensures
        strictly_sorted(texts(final(names)@)),
        ok == !has_difference(args@),
        ok ==> texts(final(names)@).to_set() == texts(old(names)@).to_set() + argument_refs(args@),
{
    let ghost start = texts(names@).to_set();
    let mut j: usize = 0;
    while j < args.len()
        invariant
            j <= args@.len(),
            strictly_sorted(texts(names@)),
            forall|k: int| 0 <= k < j ==> !(#[trigger] args@[k] is Difference),
            texts(names@).to_set() == start + argument_refs(args@.subrange(0, j as int)),
        decreases args.len() - j,
    {
        let ghost pre = args@.subrange(0, j as int);
        let ghost post = args@.subrange(0, j + 1);
        assert(post =~= pre.push(args@[j as int]));
        let found: Option<&String> = match &args[j] {
            Argument::Register(_) | Argument::StringLiteral(_) => None,
            Argument::Symbol(s) => Some(s),
            Argument::RegOffset(_, c) | Argument::Constant(c) => match c {
                Constant::Number(_) => None,
                Constant::HiDataRef(s) | Constant::LoDataRef(s) => Some(s),
            },
            Argument::Difference(_, _) => {
                return false;
            },
        };
        let ghost added = match found {
            Some(s) => set![s@],
            None => Set::empty(),
        };
        assert(argument_refs(post) =~= argument_refs(pre) + added) by {
            assert forall|n: Seq<char>| argument_refs(post).contains(n) implies (argument_refs(pre)
                + added).contains(n) by {
                let k = choose|k: int|
                    0 <= k < post.len() && #[trigger] argument_reference(post[k]) == Some(n);
                if k < j {
                    assert(argument_reference(pre[k]) == Some(n));
                }
            }
            assert forall|n: Seq<char>| (argument_refs(pre) + added).contains(n) implies argument_refs(
                post,
            ).contains(n) by {
                if argument_refs(pre).contains(n) {
                    let k = choose|k: int|
                        0 <= k < pre.len() && #[trigger] argument_reference(pre[k]) == Some(n);
                    assert(argument_reference(post[k]) == Some(n));
                } else {
                    assert(argument_reference(post[j as int]) == Some(n));
                }
            }
        }
        if let Some(s) = found {
            insert_name(names, s.clone());
        }
        assert(texts(names@).to_set() =~= start + argument_refs(post));
        j = j + 1;
    }
    assert(args@.subrange(0, args@.len() as int) =~= args@);
    true
}

/// The symbols that instructions refer to, sorted, each once; directive
/// operands are no references. An instruction with a `Difference` operand is
/// refused.
pub fn extract_label_references(statements: &[Statement]) -> (r: Result<Vec<String>, AsmError>)
    ensures
        (exists|i: int| 0 <= i < statements@.len() && #[trigger] uses_difference(statements@[i]))
            ==> r == Err::<Vec<String>, AsmError>(AsmError::UnsupportedDifference),
        !(exists|i: int| 0 <= i < statements@.len() && #[trigger] uses_difference(statements@[i]))
            ==> (r matches Ok(v) && strictly_sorted(texts(v@)) && texts(v@).to_set()
            == referenced_names(statements@)),
{
    let mut names: Vec<String> = Vec::new();
    let mut i: usize = 0;
    assert(texts(names@).to_set() =~= referenced_names(statements@.subrange(0, 0)));
    while i < statements.len()
        invariant
            i <= statements@.len(),
            strictly_sorted(texts(names@)),
            forall|k: int| 0 <= k < i ==> !#[trigger] uses_difference(statements@[k]),
            texts(names@).to_set() == referenced_names(statements@.subrange(0, i as int)),
        decreases statements.len() - i,
    {
        let ghost pre = statements@.subrange(0, i as int);
        let ghost post = statements@.subrange(0, i + 1);
        assert(post =~= pre.push(statements@[i as int]));
        let ghost before = texts(names@).to_set();
        if let Statement::Instruction(_, args) = &statements[i] {
            if !collect_argument_refs(args, &mut names) {
                assert(uses_difference(statements@[i as int]));
                return Err(AsmError::UnsupportedDifference);
            }
        }
        assert(texts(names@).to_set() =~= before + statement_refs(statements@[i as int]));
        assert(referenced_names(post) =~= referenced_names(pre) + statement_refs(
            statements@[i as int],
        )) by {
            assert forall|n: Seq<char>| referenced_names(post).contains(n) implies (referenced_names(
                pre,
            ) + statement_refs(statements@[i as int])).contains(n) by {
                let k = choose|k: int|
                    0 <= k < post.len() && #[trigger] statement_refs(post[k]).contains(n);
                if k < i {
                    assert(statement_refs(pre[k]).contains(n));
                }
            }
            assert forall|n: Seq<char>| (referenced_names(pre) + statement_refs(
                statements@[i as int],
            )).contains(n) implies referenced_names(post).contains(n) by {
                if referenced_names(pre).contains(n) {
                    let k = choose|k: int|
                        0 <= k < pre.len() && #[trigger] statement_refs(pre[k]).contains(n);
                    assert(statement_refs(post[k]).contains(n));
                } else {
                    assert(statement_refs(post[i as int]).contains(n));
                }
            }
        }
        i = i + 1;
    }
    assert(statements@.subrange(0, statements@.len() as int) =~= statements@);
    Ok(names)
}

} // verus!
