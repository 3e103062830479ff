use vstd::prelude::*;

use crate::model::{Argument, AsmError, Constant, Statement};
use crate::names::{insert_name, lemma_text_lt_irreflexive, strictly_sorted, text_eq, text_lt, texts};

verus! {

/// What the fold carries: the current label and, for each announced object,
/// its content so far (`None` while announced but not filled).
pub type ObjectState = (Option<Seq<char>>, Map<Seq<char>, Option<Seq<u8>>>);

/// The four little-endian bytes of one `.word` operand; an operand that is not
/// a plain number stands for an unresolved reference and gives four zeros.
pub open spec fn word_bytes(a: Argument) -> Seq<u8> {
    match a {
        Argument::Constant(Constant::Number(n)) => {
            let u = n as u32;
            seq![
                (u % 256) as u8,
                ((u / 256) % 256) as u8,
                ((u / 65536) % 256) as u8,
                (u / 16777216) as u8,
            ]
        },
        _ => seq![0u8, 0u8, 0u8, 0u8],
    }
}

/// The bytes of a whole `.word` operand list, in order.
pub open spec fn words_bytes(args: Seq<Argument>) -> Seq<u8>
    decreases args.len(),
{
    if args.len() == 0 {
        Seq::empty()
    } else {
        words_bytes(args.drop_last()) + word_bytes(args.last())
    }
}

/// Whether a directive is `.type NAME, @object`.
pub open spec fn is_object_type(d: Seq<char>, args: Seq<Argument>) -> bool {
    &&& d == ".type"@
    &&& args.len() == 2
    &&& args[0] is Symbol
    &&& args[1] is Symbol
    &&& args[1]->Symbol_0@ == "@object"@
}

/// Whether a directive is `.ascii` or `.asciz` with one string literal.
pub open spec fn is_ascii_data(d: Seq<char>, args: Seq<Argument>) -> bool {
    &&& (d == ".ascii"@ || d == ".asciz"@)
    &&& args.len() == 1
    &&& args[0] is StringLiteral
}

/// The object that the current label names, if it is announced.
pub open spec fn target(st: ObjectState) -> Option<Seq<char>> {
    match st.0 {
        Some(l) => if st.1.contains_key(l) {
            Some(l)
        } else {
            None
        },
        None => None,
    }
}

/// One statement's effect on the fold; `Err(name)` when `.word` meets an
/// object that already holds content.
pub open spec fn object_step(st: ObjectState, s: Statement) -> Result<ObjectState, Seq<char>> {
    match s {
        Statement::Label(l) => Ok((Some(l@), st.1)),
        Statement::Directive(d, args) => {
            if is_object_type(d@, args@) {
                let name = args@[0]->Symbol_0@;
                if st.1.contains_key(name) {
                    Ok(st)
                } else {
                    Ok((st.0, st.1.insert(name, None)))
                }
            } else if is_ascii_data(d@, args@) {
                let data = args@[0]->StringLiteral_0@;
                match target(st) {
                    Some(t) => Ok(
                        (
                            st.0,
                            st.1.insert(
                                t,
                                Some(
                                    match st.1[t] {
                                        Some(c) => c + data,
                                        None => data,
                                    },
                                ),
                            ),
                        ),
                    ),
                    None => Ok(st),
                }
            } else if d@ == ".word"@ {
                match target(st) {
                    Some(t) => if st.1[t] is Some {
                        Err(t)
                    } else {
                        Ok((st.0, st.1.insert(t, Some(words_bytes(args@)))))
                    },
                    None => Ok(st),
                }
            } else {
                Ok(st)
            }
        },
        Statement::Instruction(_, _) => Ok(st),
    }
}

/// The fold over a statement sequence, left to right.
pub open spec fn fold_objects(stmts: Seq<Statement>) -> Result<ObjectState, Seq<char>>
    decreases stmts.len(),
{
    if stmts.len() == 0 {
        Ok((None, Map::empty()))
    } else {
        match fold_objects(stmts.drop_last()) {
            Ok(st) => object_step(st, stmts.last()),
            Err(name) => Err(name),
        }
    }
}

/// Whether `name` is announced and still without content.
pub open spec fn is_unfilled(objs: Map<Seq<char>, Option<Seq<u8>>>, name: Seq<char>) -> bool {
    objs.contains_key(name) && objs[name] is None
}

/// What `extract_data_objects` returns for a statement sequence: the fold's
/// error; else the first unfilled object by name; else every object with its
/// content, sorted by name.
pub open spec fn data_objects_outcome(
    stmts: Seq<Statement>,
    r: Result<Vec<(String, Vec<u8>)>, AsmError>,
) -> bool {
    match fold_objects(stmts) {
        Err(name) => r matches Err(AsmError::DuplicateWordAssignment(n)) && n@ == name,
        Ok(st) => {
            if exists|n: Seq<char>| is_unfilled(st.1, n) {
                r matches Err(AsmError::MissingObjectData(n)) && is_unfilled(st.1, n@) && forall|
                    m: Seq<char>,
                | #[trigger] is_unfilled(st.1, m) && m != n@ ==> text_lt(n@, m)
            } else {
                r matches Ok(v) && strictly_sorted(texts(v@.map_values(|e: (String, Vec<u8>)| e.0)))
                    && (forall|i: int|
                    0 <= i < v@.len() ==> #[trigger] st.1.contains_key(v@[i].0@) && st.1[v@[i].0@]
                        == Some(v@[i].1@)) && (forall|n: Seq<char>|
                    st.1.contains_key(n) ==> exists|i: int| 0 <= i < v@.len() && #[trigger] v@[i].0@ == n)
            }
        },
    }
}

/// Once the fold fails on a prefix, it fails on the whole with the same name.
proof fn lemma_fold_error_persists(s: Seq<Statement>, j: int)
    requires
        0 <= j <= s.len(),
        fold_objects(s.subrange(0, j)) is Err,
    ensures
        fold_objects(s) == fold_objects(s.subrange(0, j)),
    decreases s.len() - j,
{
    if j == s.len() {
        assert(s.subrange(0, j) =~= s);
    } else {
        assert(s.subrange(0, j + 1).drop_last() =~= s.subrange(0, j));
        lemma_fold_error_persists(s, j + 1);
    }
}

/// Appends the bytes of `src` to `dst`.
fn append_bytes(dst: &mut Vec<u8>, src: &Vec<u8>)
    ensures
        final(dst)@ == old(dst)@ + src@,
{
    let mut i: usize = 0;
    while i < src.len()
        invariant
            i <= src.len(),
            dst@ == old(dst)@ + src@.subrange(0, i as int),
        decreases src.len() - i,
    {
        dst.push(src[i]);
        assert(src@.subrange(0, i + 1) =~= src@.subrange(0, i as int).push(src@[i as int]));
        i = i + 1;
    }
    assert(src@.subrange(0, src@.len() as int) =~= src@);
}

/// The little-endian encoding of a `.word` operand list.
pub fn encode_words(args: &Vec<Argument>) -> (r: Vec<u8>)
    ensures
        r@ == words_bytes(args@),
{
    let mut out: Vec<u8> = Vec::new();
    let mut i: usize = 0;
    while i < args.len()
        invariant
            i <= args.len(),
            out@ == words_bytes(args@.subrange(0, i as int)),
        decreases args.len() - i,
    {
        assert(args@.subrange(0, i + 1).drop_last() =~= args@.subrange(0, i as int));
        match &args[i] {
            Argument::Constant(Constant::Number(n)) => {
                let u: u32 = *n as u32;
                out.push((u % 256) as u8);
                out.push(((u / 256) % 256) as u8);
                out.push(((u / 65536) % 256) as u8);
                out.push((u / 16777216) as u8);
            },
            _ => {
                out.push(0);
                out.push(0);
                out.push(0);
                out.push(0);
            },
        }
        assert(out@ =~= words_bytes(args@.subrange(0, i + 1)));
        i = i + 1;
    }
    assert(args@.subrange(0, args@.len() as int) =~= args@);
    out
}

/// Where `name` stands among `names`, if it does.
fn position_of(names: &Vec<String>, name: &str) -> (r: Option<usize>)
    ensures
        r matches Some(i) ==> i < names@.len() && names@[i as int]@ == name@,
        r is None ==> !texts(names@).contains(name@),
{
    let mut i: usize = 0;
    while i < names.len()
        invariant
            i <= names.len(),
            forall|k: int| 0 <= k < i ==> names@[k]@ != name@,
        decreases names.len() - i,
    {
        if text_eq(names[i].as_str(), name) {
            return Some(i);
        }
        i = i + 1;
    }
    None
}

/// The content of an object as the fold sees it.
pub open spec fn content_view(o: Option<Vec<u8>>) -> Option<Seq<u8>> {
    match o {
        Some(v) => Some(v@),
        None => None,
    }
}

/// The executable fold state stands for `st`: the same current label, and
/// the announced objects as parallel lists, sorted by name.
pub open spec fn state_matches(
    st: ObjectState,
    label: Option<String>,
    names: Seq<String>,
    contents: Seq<Option<Vec<u8>>>,
) -> bool {
    &&& st.0 == match label {
        Some(l) => Some(l@),
        None => None::<Seq<char>>,
    }
    &&& strictly_sorted(texts(names))
    &&& names.len() == contents.len()
    &&& forall|k: int|
        0 <= k < names.len() ==> #[trigger] st.1.contains_key(names[k]@) && st.1[names[k]@]
            == content_view(contents[k])
    &&& forall|n: Seq<char>| #[trigger] st.1.contains_key(n) ==> texts(names).contains(n)
}

/// Replacing the content at one position updates the matching object.
proof fn lemma_update_matches(
    st: ObjectState,
    label: Option<String>,
    names: Seq<String>,
    contents: Seq<Option<Vec<u8>>>,
    t: int,
    c: Option<Vec<u8>>,
)
    requires
        state_matches(st, label, names, contents),
        0 <= t < names.len(),
    ensures
        state_matches(
            (st.0, st.1.insert(names[t]@, content_view(c))),
            label,
            names,
            contents.update(t, c),
        ),
{
    let m = st.1.insert(names[t]@, content_view(c));
    assert forall|k: int| 0 <= k < names.len() implies #[trigger] m.contains_key(names[k]@)
        && m[names[k]@] == content_view(contents.update(t, c)[k]) by {
        assert(st.1.contains_key(names[k]@));
        if k != t {
            if k < t {
                assert(text_lt(texts(names)[k], texts(names)[t]));
                lemma_text_lt_irreflexive(names[k]@);
            } else {
                assert(text_lt(texts(names)[t], texts(names)[k]));
                lemma_text_lt_irreflexive(names[k]@);
            }
        }
    }
    assert forall|x: Seq<char>| #[trigger] m.contains_key(x) implies texts(names).contains(x) by {
        if x == names[t]@ {
            assert(texts(names)[t] == x);
        }
    }
}

/// The name of the object that `.type NAME, @object` announces, if the
/// directive is one.
fn announced_object<'a>(d: &String, args: &'a Vec<Argument>) -> (r: Option<&'a String>)
    ensures
        r is Some <==> is_object_type(d@, args@),
        r matches Some(n) ==> n@ == args@[0]->Symbol_0@,
{
    if text_eq(d.as_str(), ".type") && args.len() == 2 {
        match (&args[0], &args[1]) {
            (Argument::Symbol(n), Argument::Symbol(k)) => {
                if text_eq(k.as_str(), "@object") {
                    Some(n)
                } else {
                    None
                }
            },
            _ => None,
        }
    } else {
        None
    }
}

/// The string literal of an `.ascii` or `.asciz` directive with one operand.
fn ascii_payload<'a>(d: &String, args: &'a Vec<Argument>) -> (r: Option<&'a Vec<u8>>)
    ensures
        r is Some <==> is_ascii_data(d@, args@),
        r matches Some(b) ==> b@ == args@[0]->StringLiteral_0@,
{
    if (text_eq(d.as_str(), ".ascii") || text_eq(d.as_str(), ".asciz")) && args.len() == 1 {
        match &args[0] {
            Argument::StringLiteral(b) => Some(b),
            _ => None,
        }
    } else {
        None
    }
}

/// Builds each object that `.type NAME, @object` announces from the `.ascii`,
/// `.asciz` and `.word` directives under its label, sorted by name.
pub fn extract_data_objects(statements: &[Statement]) -> (r: Result<
    Vec<(String, Vec<u8>)>,
    AsmError,
>)
    ensures
        data_objects_outcome(statements@, r),
{
    let mut label: Option<String> = None;
    let mut names: Vec<String> = Vec::new();
    let mut contents: Vec<Option<Vec<u8>>> = Vec::new();
    let mut i: usize = 0;
    assert(statements@.subrange(0, 0) =~= Seq::<Statement>::empty());
    while i < statements.len()
        invariant
            i <= statements@.len(),
            fold_objects(statements@.subrange(0, i as int)) is Ok,
            state_matches(
                fold_objects(statements@.subrange(0, i as int))->Ok_0,
                label,
                names@,
                contents@,
            ),
        decreases statements.len() - i,
    {
        let ghost st = fold_objects(statements@.subrange(0, i as int))->Ok_0;
        assert(statements@.subrange(0, i + 1).drop_last() =~= statements@.subrange(0, i as int));
        assert(statements@.subrange(0, i + 1).last() == statements@[i as int]);
        let ghost next = object_step(st, statements@[i as int]);
        match &statements[i] {
            Statement::Label(l) => {
                label = Some(l.clone());
            },
            Statement::Directive(d, args) => {
                let slot = match &label {
                    Some(l) => position_of(&names, l.as_str()),
                    None => None,
                };
                proof {
                    if let Some(l) = st.0 {
                        if st.1.contains_key(l) {
                            let k = choose|k: int| 0 <= k < names@.len() && texts(names@)[k] == l;
                            assert(names@[k]@ == l);
                        }
                    }
                }
                assert(target(st) == match slot {
                    Some(t) => Some(names@[t as int]@),
                    None => None::<Seq<char>>,
                });
                if let Some(n) = announced_object(d, args) {
                    let ghost old_names = names@;
                    let ghost old_contents = contents@;
                    let pos = insert_name(&mut names, n.clone());
                    if names.len() > contents.len() {
                        proof {
                            if texts(old_names).contains(n@) {
                                assert(names@ == old_names);
                            }
                        }
                        contents.insert(pos, None);
                        proof {
                            let m = st.1.insert(n@, None);
                            assert(!st.1.contains_key(n@));
                            assert forall|k: int| 0 <= k < names@.len() implies #[trigger] m.contains_key(
                                names@[k]@,
                            ) && m[names@[k]@] == content_view(contents@[k]) by {
                                if k > pos {
                                    assert(names@[k] == old_names[k - 1]);
                                    assert(contents@[k] == old_contents[k - 1]);
                                    assert(st.1.contains_key(old_names[k - 1]@));
                                } else if k < pos {
                                    assert(names@[k] == old_names[k]);
                                    assert(contents@[k] == old_contents[k]);
                                    assert(st.1.contains_key(old_names[k]@));
                                }
                            }
                            assert forall|x: Seq<char>| #[trigger] m.contains_key(x) implies texts(
                                names@,
                            ).contains(x) by {
                                if x == n@ {
                                    assert(texts(names@)[pos as int] == x);
                                } else {
                                    let k = choose|k: int| 0 <= k < old_names.len() && texts(old_names)[k] == x;
                                    if k < pos {
                                        assert(texts(names@)[k] == x);
                                    } else {
                                        assert(texts(names@)[k + 1] == x);
                                    }
                                }
                            }
                        }
                    } else {
                        proof {
                            if !texts(old_names).contains(n@) {
                                assert(names@.len() == old_names.len() + 1);
                            }
                            let k = choose|k: int| 0 <= k < old_names.len() && texts(old_names)[k] == n@;
                            assert(st.1.contains_key(old_names[k]@));
                        }
                    }
                } else if let Some(data) = ascii_payload(d, args) {
                    if let Some(t) = slot {
                        let ghost before = contents@;
                        let mut cur: Option<Vec<u8>> = None;
                        core::mem::swap(&mut contents[t], &mut cur);
                        let filled = match cur {
                            Some(mut c) => {
                                append_bytes(&mut c, data);
                                c
                            },
                            None => {
                                let mut c: Vec<u8> = Vec::new();
                                append_bytes(&mut c, data);
                                c
                            },
                        };
                        contents.set(t, Some(filled));
                        proof {
                            assert(st.1.contains_key(names@[t as int]@));
                            assert(contents@ == before.update(t as int, Some(filled)));
                            lemma_update_matches(st, label, names@, before, t as int, Some(filled));
                        }
                    }
                } else if text_eq(d.as_str(), ".word") {
                    if let Some(t) = slot {
                        if contents[t].is_some() {
                            proof {
                                assert(st.1.contains_key(names@[t as int]@));
                                lemma_fold_error_persists(statements@, i + 1);
                            }
                            return Err(AsmError::DuplicateWordAssignment(names[t].clone()));
                        }
                        let ghost before = contents@;
                        let bytes = encode_words(args);
                        contents.set(t, Some(bytes));
                        proof {
                            assert(st.1.contains_key(names@[t as int]@));
                            lemma_update_matches(st, label, names@, before, t as int, Some(bytes));
                        }
                    }
                }
            },
            Statement::Instruction(_, _) => {},
        }
        i = i + 1;
    }
    assert(statements@.subrange(0, statements@.len() as int) =~= statements@);
    let ghost st = fold_objects(statements@)->Ok_0;
    let mut k: usize = 0;
    while k < contents.len()
        invariant
            k <= contents.len(),
            fold_objects(statements@) == Ok::<ObjectState, Seq<char>>(st),
            state_matches(st, label, names@, contents@),
            forall|j: int| 0 <= j < k ==> contents@[j] is Some,
        decreases contents.len() - k,
    {
        if contents[k].is_none() {
            let name = names[k].clone();
            proof {
                assert(st.1.contains_key(names@[k as int]@));
                assert(is_unfilled(st.1, name@));
                assert forall|m: Seq<char>| #[trigger] is_unfilled(st.1, m) && m != name@ implies text_lt(
                    name@,
                    m,
                ) by {
                    let j = choose|j: int| 0 <= j < names@.len() && texts(names@)[j] == m;
                    assert(st.1.contains_key(names@[j]@));
                    assert(j != k);
                    assert(texts(names@)[k as int] == name@);
                    if j > k {
                        assert(text_lt(texts(names@)[k as int], texts(names@)[j]));
                    }
                    if j < k {
                        assert(contents@[j] is Some);
                    }
                }
            }
            assert(fold_objects(statements@) == Ok::<ObjectState, Seq<char>>(st));
            assert(exists|n: Seq<char>| is_unfilled(st.1, n));
            return Err(AsmError::MissingObjectData(name));
        }
        k = k + 1;
    }
    let ghost filled = contents@;
    assert forall|n: Seq<char>| !is_unfilled(st.1, n) by {
        if st.1.contains_key(n) {
            let j = choose|j: int| 0 <= j < names@.len() && texts(names@)[j] == n;
            assert(st.1[names@[j]@] == content_view(contents@[j]));
        }
    }
    let mut out: Vec<(String, Vec<u8>)> = Vec::new();
    let mut k: usize = 0;
    while k < contents.len()
        invariant
            k <= contents.len(),
            contents@.len() == filled.len(),
            fold_objects(statements@) == Ok::<ObjectState, Seq<char>>(st),
            state_matches(st, label, names@, filled),
            filled.len() == names@.len(),
            out@.len() == k,
            forall|j: int| k <= j < filled.len() ==> contents@[j] == filled[j],
            forall|j: int| 0 <= j < filled.len() ==> filled[j] is Some,
            forall|j: int| 0 <= j < k ==> #[trigger] out@[j] == (names@[j], filled[j]->Some_0),
        decreases contents.len() - k,
    {
        let mut cur: Option<Vec<u8>> = None;
        core::mem::swap(&mut contents[k], &mut cur);
        let bytes = match cur {
            Some(c) => c,
            None => Vec::new(),
        };
        assert(cur == filled[k as int]);
        out.push((names[k].clone(), bytes));
        assert(forall|j: int| k < j < filled.len() ==> contents@[j] == filled[j]);
        k = k + 1;
    }
    proof {
        let v = out@;
        assert(v.map_values(|e: (String, Vec<u8>)| e.0) =~= names@) by {
            assert forall|i: int| 0 <= i < v.len() implies v[i].0 == names@[i] by {
                assert(v[i] == (names@[i], filled[i]->Some_0));
            }
        }
        assert forall|i: int| 0 <= i < v.len() implies #[trigger] st.1.contains_key(v[i].0@)
            && st.1[v[i].0@] == Some(v[i].1@) by {
            assert(v[i] == (names@[i], filled[i]->Some_0));
            assert(st.1.contains_key(names@[i]@));
        }
        assert forall|n: Seq<char>| st.1.contains_key(n) implies exists|i: int|
            0 <= i < v.len() && #[trigger] v[i].0@ == n by {
            let j = choose|j: int| 0 <= j < names@.len() && texts(names@)[j] == n;
            assert(v[j] == (names@[j], filled[j]->Some_0));
            assert(v[j].0@ == n);
        }
    }
    assert(fold_objects(statements@) == Ok::<ObjectState, Seq<char>>(st));
    assert(!exists|n: Seq<char>| is_unfilled(st.1, n));
    Ok(out)
}

} // verus!
