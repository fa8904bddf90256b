//! The template compiler.
//!
//! A template is SQL text in which `$name` stands for the binding called
//! `name` and `$$` for a dollar sign. Compiling it replaces each `$name` by a
//! numbered placeholder, `$1`, `$2` and so on, and lists the bindings in the
//! order of their numbers. Bindings are numbered in the order in which the
//! text first refers to them.

use crate::error::{ParseError, ParseErrorView};
use crate::search::{first_index, first_index_from, lemma_first_index_from};
use crate::text::{decimal, push_decimal, str_eq};
use vstd::prelude::*;

verus! {

/// Whether `c` may occur in the name of a binding: an ASCII letter, an ASCII
/// digit or an underscore.
pub open spec fn is_identifier_char(c: char) -> bool {
    ||| 'a' <= c <= 'z'
    ||| 'A' <= c <= 'Z'
    ||| '0' <= c <= '9'
    ||| c == '_'
}

/// The number of identifier characters that `text` holds from `pos` on,
/// up to the first character that is none.
pub open spec fn identifier_len(text: Seq<char>, pos: int) -> nat
    decreases text.len() - pos,
{
    if 0 <= pos < text.len() && is_identifier_char(text[pos]) {
        1 + identifier_len(text, pos + 1)
    } else {
        0
    }
}

/// The least binding `k >= from` among `count` bindings that `order` does not hold.
pub open spec fn first_unused(count: nat, order: Seq<int>, from: int) -> Option<int>
    decreases count - from,
{
    if from < 0 || from >= count {
        None
    } else if !order.contains(from) {
        Some(from)
    } else {
        first_unused(count, order, from + 1)
    }
}

/// Compiles `text` from `pos` on. `sql` is the output for the text before
/// `pos`, and `order` holds the bindings that this part refers to, each
/// once, in the order of their first reference.
///
/// The result is the whole output and the final order, or the first error
/// in the order of the text.
pub open spec fn compile_from(
    text: Seq<char>,
    names: Seq<Seq<char>>,
    pos: int,
    sql: Seq<char>,
    order: Seq<int>,
) -> Result<(Seq<char>, Seq<int>), ParseErrorView>
    decreases
        if pos < text.len() {
            text.len() - pos
        } else {
            0
        },
{
    if pos < 0 || pos >= text.len() {
        Ok((sql, order))
    } else if text[pos] != '$' {
        compile_from(text, names, pos + 1, sql.push(text[pos]), order)
    } else if pos + 1 < text.len() && text[pos + 1] == '$' {
        compile_from(text, names, pos + 2, sql.push('$'), order)
    } else {
        let len = identifier_len(text, pos + 1) as int;
        if len <= 0 {
            Err(
                ParseErrorView::EmptyIdentifier {
                    found: if pos + 1 < text.len() {
                        Some(text[pos + 1])
                    } else {
                        None
                    },
                },
            )
        } else {
            let name = text.subrange(pos + 1, pos + 1 + len);
            match first_index(names, name) {
                None => Err(ParseErrorView::UndefinedBinding { binding: name }),
                Some(k) => {
                    let order = if order.contains(k) {
                        order
                    } else {
                        order.push(k)
                    };
                    let slot = (first_index(order, k)->0 + 1) as nat;
                    compile_from(
                        text,
                        names,
                        pos + 1 + len,
                        sql.push('$') + decimal(slot),
                        order,
                    )
                },
            }
        }
    }
}

/// What compiling `text` against bindings called `names` gives: the SQL
/// with numbered placeholders and, for each number from 1 on, the index of
/// its binding; or the error.
///
/// A malformed `$` or an undefined binding is reported where the text has
/// it, the first of them first. A text without either is then refused if it
/// leaves a binding unused, and the first such binding is reported.
pub open spec fn compile(text: Seq<char>, names: Seq<Seq<char>>) -> Result<
    (Seq<char>, Seq<int>),
    ParseErrorView,
> {
    match compile_from(text, names, 0, Seq::empty(), Seq::empty()) {
        Err(e) => Err(e),
        Ok((sql, order)) => match first_unused(names.len(), order, 0) {
            Some(k) => Err(ParseErrorView::UnusedBinding { binding: names[k] }),
            None => Ok((sql, order)),
        },
    }
}

/// The names of `bindings`, in order.
pub open spec fn binding_names<P>(bindings: Seq<(&str, P)>) -> Seq<Seq<char>> {
    Seq::new(bindings.len(), |i: int| bindings[i].0@)
}

/// The values of the bindings that `order` lists, in that order.
pub open spec fn binding_values<P>(bindings: Seq<(&str, P)>, order: Seq<int>) -> Seq<P> {
    Seq::new(order.len(), |i: int| bindings[order[i]].1)
}

/// Whether `result` is what compiling `text` with `bindings` returns: the
/// SQL and the values in the order that [`compile`] gives, or its error.
pub open spec fn is_compiled<P>(
    text: Seq<char>,
    bindings: Seq<(&str, P)>,
    result: Result<(String, Vec<P>), ParseError>,
) -> bool {
    match compile(text, binding_names(bindings)) {
        Ok((sql, order)) => match result {
            Ok((out, parameters)) => out@ == sql && parameters@ == binding_values(bindings, order),
            Err(_) => false,
        },
        Err(e) => match result {
            Ok(_) => false,
            Err(err) => err@ == e,
        },
    }
}

/// Compiling is deterministic: two results for the same text and bindings
/// are both errors, and the same error, or hold the same SQL and the same
/// parameters in the same order.
pub proof fn lemma_compile_deterministic<P>(
    text: Seq<char>,
    bindings: Seq<(&str, P)>,
    first: Result<(String, Vec<P>), ParseError>,
    second: Result<(String, Vec<P>), ParseError>,
)
    requires
        is_compiled(text, bindings, first),
        is_compiled(text, bindings, second),
    ensures
        match (first, second) {
            (Ok((sql1, parameters1)), Ok((sql2, parameters2))) => sql1@ == sql2@ && parameters1@
                == parameters2@,
            (Err(e1), Err(e2)) => e1@ == e2@,
            _ => false,
        },
{
}

/// Whether `order` lists bindings among `count`, none of them twice.
pub open spec fn is_order(order: Seq<int>, count: nat) -> bool {
    &&& order.no_duplicates()
    &&& forall|i: int| 0 <= i < order.len() ==> 0 <= #[trigger] order[i] < count
}

/// Compiling the rest of a text keeps the order it was given and extends it
/// by bindings that it did not hold.
pub proof fn lemma_compile_from_extends(
    text: Seq<char>,
    names: Seq<Seq<char>>,
    pos: int,
    sql: Seq<char>,
    order: Seq<int>,
)
    requires
        is_order(order, names.len()),
    ensures
        match compile_from(text, names, pos, sql, order) {
            Ok((_, last)) => is_order(last, names.len()) && order.is_prefix_of(last),
            Err(_) => true,
        },
    decreases
        if pos < text.len() {
            text.len() - pos
        } else {
            0
        },
{
    if pos < 0 || pos >= text.len() {
    } else if text[pos] != '$' {
        lemma_compile_from_extends(text, names, pos + 1, sql.push(text[pos]), order);
    } else if pos + 1 < text.len() && text[pos + 1] == '$' {
        lemma_compile_from_extends(text, names, pos + 2, sql.push('$'), order);
    } else {
        let len = identifier_len(text, pos + 1) as int;
        if len > 0 {
            let name = text.subrange(pos + 1, pos + 1 + len);
            lemma_first_index_from(names, name, 0);
            match first_index(names, name) {
                None => {},
                Some(k) => {
                    let next = if order.contains(k) {
                        order
                    } else {
                        order.push(k)
                    };
                    let slot = (first_index(next, k)->0 + 1) as nat;
                    lemma_compile_from_extends(
                        text,
                        names,
                        pos + 1 + len,
                        sql.push('$') + decimal(slot),
                        next,
                    );
                },
            }
        }
    }
}

/// What [`first_unused`] finds is the least binding at or after `from`
/// that `order` does not hold.
pub proof fn lemma_first_unused(count: nat, order: Seq<int>, from: int)
    requires
        0 <= from,
    ensures
        match first_unused(count, order, from) {
            Some(k) => from <= k < count && !order.contains(k) && forall|j: int|
                from <= j < k ==> order.contains(j),
            None => forall|j: int| from <= j < count ==> order.contains(j),
        },
    decreases count - from,
{
    if from < count && order.contains(from) {
        lemma_first_unused(count, order, from + 1);
    }
}

/// In a template that compiles, every binding has exactly one number: the
/// parameters are the bindings, each once, in the order of first reference.
pub proof fn lemma_compile_numbers_each_binding_once(text: Seq<char>, names: Seq<Seq<char>>)
    ensures
        match compile(text, names) {
            Ok((_, order)) => {
                &&& order.len() == names.len()
                &&& order.no_duplicates()
                &&& forall|k: int| 0 <= k < names.len() ==> order.contains(k)
                &&& forall|i: int| 0 <= i < order.len() ==> 0 <= #[trigger] order[i] < names.len()
            },
            Err(_) => true,
        },
{
    let none = Seq::<int>::empty();
    lemma_compile_from_extends(text, names, 0, Seq::empty(), none);
    if let Ok((_, order)) = compile(text, names) {
        lemma_first_unused(names.len(), order, 0);
        let all = vstd::set_lib::set_int_range(0, names.len() as int);
        assert(order.to_set() =~= all) by {
            assert forall|k: int| all.contains(k) implies order.to_set().contains(k) by {
                assert(order.contains(k));
            }
            assert forall|k: int| order.to_set().contains(k) implies all.contains(k) by {
                let i = choose|i: int| 0 <= i < order.len() && order[i] == k;
                assert(0 <= order[i] < names.len());
            }
        }
        order.unique_seq_to_set();
        vstd::set_lib::lemma_int_range(0, names.len() as int);
    }
}

/// Decides [`is_identifier_char`].
pub fn identifier_char(c: char) -> (b: bool)
    ensures
        b == is_identifier_char(c),
{
    ('a' <= c && c <= 'z') || ('A' <= c && c <= 'Z') || ('0' <= c && c <= '9') || c == '_'
}

/// The characters of `text`, in order.
pub fn characters(text: &str) -> (chars: Vec<char>)
    ensures
        chars@ == text@,
{
    let mut chars: Vec<char> = Vec::new();
    for c in it: text.chars()
        invariant
            chars@ == it.seq().take(it.index() as int),
            it.seq() == text@,
    {
        chars.push(c);
    }
    chars
}

/// Reads the identifier that starts at `start`: the longest run of
/// identifier characters there. Returns it with the position after it.
///
/// Fails with `EmptyIdentifier` exactly when no identifier character stands
/// at `start`; `found` is then the character at `start`, or `None` where
/// the text ends there.
pub fn next_identifier(chars: &[char], start: usize) -> (result: Result<(String, usize), ParseError>)
    ensures
        match result {
            Ok((name, end)) => {
                &&& identifier_len(chars@, start as int) > 0
                &&& end == start + identifier_len(chars@, start as int)
                &&& end <= chars.len()
                &&& name@ == chars@.subrange(start as int, end as int)
            },
            Err(e) => {
                &&& identifier_len(chars@, start as int) == 0
                &&& e@ == ParseErrorView::EmptyIdentifier {
                    found: if start < chars.len() {
                        Some(chars@[start as int])
                    } else {
                        None
                    },
                }
            },
        },
{
    if start >= chars.len() {
        return Err(ParseError::EmptyIdentifier { found: None });
    }
    let mut name = String::new();
    let mut end: usize = start;
    while end < chars.len() && identifier_char(chars[end])
        invariant
            start <= end <= chars.len(),
            name@ == chars@.subrange(start as int, end as int),
            identifier_len(chars@, start as int) == (end - start) + identifier_len(
                chars@,
                end as int,
            ),
        decreases chars.len() - end,
    {
        name.push(chars[end]);
        assert(chars@.subrange(start as int, end as int).push(chars@[end as int])
            =~= chars@.subrange(start as int, end as int + 1));
        end = end + 1;
    }
    if end == start {
        Err(ParseError::EmptyIdentifier { found: Some(chars[start]) })
    } else {
        Ok((name, end))
    }
}

/// The index of the first binding called `name`, if there is one.
fn position<P>(bindings: &[(&str, P)], name: &str) -> (found: Option<usize>)
    ensures
        match found {
            Some(k) => first_index(binding_names(bindings@), name@) == Some(k as int)
                && k < bindings.len(),
            None => first_index(binding_names(bindings@), name@) is None,
        },
{
    let ghost names = binding_names(bindings@);
    let mut k: usize = 0;
    while k < bindings.len()
        invariant
            k <= bindings.len(),
            names == binding_names(bindings@),
            first_index(names, name@) == first_index_from(names, name@, k as int),
        decreases bindings.len() - k,
    {
        if str_eq(bindings[k].0, name) {
            return Some(k);
        }
        k = k + 1;
    }
    None
}

/// Compiles a template: replaces each `$name` in `text` by the number of
/// its binding, and each `$$` by `$`.
///
/// Returns the SQL and the values of the bindings in the order of their
/// numbers, as [`compile`] gives them for `text` and the names of
/// `bindings`. A name is looked up among `bindings` from the front, so of
/// two bindings with one name the first is meant.
///
/// # Errors
///
/// The error that [`compile`] gives: the first `$` that no identifier and no
/// `$` follows, or the first reference to a name that no binding has,
/// whichever the text has first; failing both, the first binding that the
/// text does not refer to.
pub fn parse<P: Copy>(text: &str, bindings: &[(&str, P)]) -> (result: Result<
    (String, Vec<P>),
    ParseError,
>)
    ensures
        is_compiled(text@, bindings@, result),
{
    let chars = characters(text);
    let ghost names = binding_names(bindings@);
    let mut sql = String::new();
    let mut parameters: Vec<P> = Vec::new();
    let mut slots: Vec<Option<usize>> = Vec::new();
    while slots.len() < bindings.len()
        invariant
            slots.len() <= bindings.len(),
            forall|k: int| 0 <= k < slots.len() ==> slots@[k] is None,
        decreases bindings.len() - slots.len(),
    {
        slots.push(None);
    }
    let ghost mut order: Seq<int> = Seq::empty();
    let mut pos: usize = 0;
    while pos < chars.len()
        invariant
            chars@ == text@,
            names == binding_names(bindings@),
            pos <= chars.len(),
            slots.len() == bindings.len(),
            compile_from(text@, names, pos as int, sql@, order) == compile_from(
                text@,
                names,
                0,
                Seq::empty(),
                Seq::empty(),
            ),
            order.no_duplicates(),
            parameters@ == binding_values(bindings@, order),
            forall|i: int| 0 <= i < order.len() ==> 0 <= #[trigger] order[i] < bindings.len(),
            forall|k: int|
                0 <= k < slots.len() ==> match #[trigger] slots@[k] {
                    Some(slot) => 1 <= slot <= order.len() && order[slot - 1] == k,
                    None => !order.contains(k),
                },
        decreases chars.len() - pos,
    {
        let ch = chars[pos];
        if ch != '$' {
            sql.push(ch);
            pos = pos + 1;
        } else if pos + 1 < chars.len() && chars[pos + 1] == '$' {
            sql.push('$');
            pos = pos + 2;
        } else {
            let (name, end) = match next_identifier(chars.as_slice(), pos + 1) {
                Ok(found) => found,
                Err(e) => {
                    return Err(e);
                },
            };
            let argument = match position(bindings, name.as_str()) {
                Some(k) => k,
                None => {
                    return Err(ParseError::UndefinedBinding { binding: name });
                },
            };
            let ghost previous = order;
            let index = match slots[argument] {
                Some(slot) => slot,
                None => {
                    parameters.push(bindings[argument].1);
                    let slot = parameters.len();
                    slots.set(argument, Some(slot));
                    proof {
                        order = order.push(argument as int);
                        assert(parameters@ =~= binding_values(bindings@, order));
                        assert forall|k: int| 0 <= k < slots.len() implies match #[trigger] slots@[k] {
                            Some(slot) => 1 <= slot <= order.len() && order[slot - 1] == k,
                            None => !order.contains(k),
                        } by {
                            if k != argument {
                                match slots@[k] {
                                    Some(s) => {
                                        assert(order[s - 1] == previous[s - 1]);
                                    },
                                    None => {
                                        assert forall|i: int| 0 <= i < order.len() implies order[i]
                                            != k by {
                                            if i < previous.len() {
                                                assert(previous.contains(previous[i]));
                                            }
                                        }
                                    },
                                }
                            }
                        }
                    }
                    slot
                },
            };
            proof {
                lemma_first_index_from(order, argument as int, 0);
                assert(order[index - 1] == argument);
                assert(first_index(order, argument as int) == Some(index - 1));
                assert(previous.contains(argument as int) ==> order == previous);
            }
            sql.push('$');
            push_decimal(&mut sql, index);
            pos = end;
        }
    }
    let mut k: usize = 0;
    while k < bindings.len()
        invariant
            k <= bindings.len(),
            slots.len() == bindings.len(),
            names == binding_names(bindings@),
            compile_from(text@, names, 0, Seq::empty(), Seq::empty()) == Ok::<
                (Seq<char>, Seq<int>),
                ParseErrorView,
            >((sql@, order)),
            parameters@ == binding_values(bindings@, order),
            first_unused(names.len(), order, 0) == first_unused(names.len(), order, k as int),
            forall|k: int|
                0 <= k < slots.len() ==> match #[trigger] slots@[k] {
                    Some(slot) => 1 <= slot <= order.len() && order[slot - 1] == k,
                    None => !order.contains(k),
                },
        decreases bindings.len() - k,
    {
        if slots[k].is_none() {
            return Err(ParseError::UnusedBinding { binding: bindings[k].0.to_owned() });
        }
        k = k + 1;
    }
    Ok((sql, parameters))
}

} // verus!
