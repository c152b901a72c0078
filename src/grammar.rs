use vstd::prelude::*;
use crate::types::{is_upper, CollModel, NodeModel, PropModel};
use crate::text::is_ws;

verus! {

/// Why a text is structurally invalid.
#[derive(Debug, Clone, Copy, PartialEq, Eq, Structural)]
pub enum InvalidReason {
    /// The text holds no game tree.
    NoGameTrees,
    /// A game tree holds no node.
    EmptySequence,
    /// A property has no value.
    EmptyValues,
}

/// The first error met in a text; positions count characters.
#[derive(Debug, Clone, Copy, PartialEq, Eq, Structural)]
pub enum ParseError {
    /// The text ended while a token was still expected.
    Eof,
    /// The character `expected` was not found at position `at`.
    Expected { expected: char, at: usize },
    /// No property identifier at position `at`.
    ExpectedIdent { at: usize },
    /// A structural invariant is broken.
    Invalid(InvalidReason),
}

/// A parse of part of a text: what was read, and where reading stopped.
pub type Step<T> = Result<(T, int), ParseError>;

pub open spec fn prepend<T>(x: T, r: Step<Seq<T>>) -> Step<Seq<T>> {
    match r {
        Ok((xs, j)) => Ok((seq![x] + xs, j)),
        Err(e) => Err(e),
    }
}

/// `r` with `acc` put before what it read.
pub open spec fn prefix_with<T>(acc: Seq<T>, r: Step<Seq<T>>) -> Step<Seq<T>> {
    match r {
        Ok((xs, j)) => Ok((acc + xs, j)),
        Err(e) => Err(e),
    }
}

pub proof fn lemma_prefix_prepend<T>(acc: Seq<T>, x: T, r: Step<Seq<T>>)
    ensures
        prefix_with(acc, prepend(x, r)) == prefix_with(acc.push(x), r),
{
    if let Ok((xs, j)) = r {
        assert(acc + (seq![x] + xs) =~= acc.push(x) + xs);
    }
}

pub proof fn lemma_prefix_empty<T>(acc: Seq<T>, j: int)
    ensures
        prefix_with(acc, Ok((Seq::<T>::empty(), j))) == Ok::<(Seq<T>, int), ParseError>((acc, j)),
{
    assert(acc + Seq::<T>::empty() =~= acc);
}

/// The first position from `i` on that holds no whitespace.
pub open spec fn skip_ws(s: Seq<char>, i: int) -> int
    decreases s.len() - i,
{
    if 0 <= i < s.len() && is_ws(s[i]) {
        skip_ws(s, i + 1)
    } else {
        i
    }
}

/// The first position from `i` on that holds no upper-case letter.
pub open spec fn ident_end(s: Seq<char>, i: int) -> int
    decreases s.len() - i,
{
    if 0 <= i < s.len() && is_upper(s[i]) {
        ident_end(s, i + 1)
    } else {
        i
    }
}

/// Reading the character `c` at `i`.
pub open spec fn expect_at(s: Seq<char>, i: int, c: char) -> Result<int, ParseError> {
    if !(0 <= i < s.len()) {
        Err(ParseError::Eof)
    } else if s[i] == c {
        Ok(i + 1)
    } else {
        Err(ParseError::Expected { expected: c, at: i as usize })
    }
}

/// A property identifier at `i`.
pub open spec fn ident_at(s: Seq<char>, i: int) -> Step<Seq<char>> {
    let e = ident_end(s, i);
    if e == i {
        Err(ParseError::ExpectedIdent { at: i as usize })
    } else {
        Ok((s.subrange(i, e), e))
    }
}

/// The rest of a value after its `[`: up to the first unescaped `]`, with
/// `\` taking the next character as it is.
pub open spec fn value_body(s: Seq<char>, i: int) -> Step<Seq<char>>
    decreases s.len() - i,
{
    if !(0 <= i < s.len()) {
        Err(ParseError::Eof)
    } else if s[i] == ']' {
        Ok((Seq::empty(), i + 1))
    } else if s[i] == '\\' {
        if i + 1 >= s.len() {
            Err(ParseError::Eof)
        } else {
            prepend(s[i + 1], value_body(s, i + 2))
        }
    } else {
        prepend(s[i], value_body(s, i + 1))
    }
}

/// One bracketed value at `i`.
pub open spec fn value_at(s: Seq<char>, i: int) -> Step<Seq<char>> {
    match expect_at(s, i, '[') {
        Err(e) => Err(e),
        Ok(j) => value_body(s, j),
    }
}

/// The values that follow one another from `i` on.
pub open spec fn values_from(s: Seq<char>, i: int) -> Step<Seq<Seq<char>>>
    decreases s.len() - i,
{
    if 0 <= i < s.len() && s[i] == '[' {
        match value_at(s, i) {
            Err(e) => Err(e),
            Ok((v, j)) => {
                let k = skip_ws(s, j);
                if k <= i || k > s.len() {
                    Err(ParseError::Eof)
                } else {
                    prepend(v, values_from(s, k))
                }
            },
        }
    } else {
        Ok((Seq::empty(), i))
    }
}

/// The value list of a property, which may not be empty.
pub open spec fn values_at(s: Seq<char>, i: int) -> Step<Seq<Seq<char>>> {
    match values_from(s, skip_ws(s, i)) {
        Err(e) => Err(e),
        Ok((vs, j)) => if vs.len() == 0 {
            Err(ParseError::Invalid(InvalidReason::EmptyValues))
        } else {
            Ok((vs, j))
        },
    }
}

/// The properties of a node from `i` on, up to `;`, `(`, `)` or the end.
pub open spec fn props_from(s: Seq<char>, i: int) -> Step<Seq<PropModel>>
    decreases s.len() - i,
{
    if !(0 <= i < s.len()) || s[i] == ';' || s[i] == '(' || s[i] == ')' {
        Ok((Seq::empty(), i))
    } else {
        match ident_at(s, i) {
            Err(e) => Err(e),
            Ok((id, e)) => match values_at(s, e) {
                Err(x) => Err(x),
                Ok((vs, j)) => {
                    let k = skip_ws(s, j);
                    if k <= i || k > s.len() {
                        Err(ParseError::Eof)
                    } else {
                        prepend(PropModel { ident: id, values: vs }, props_from(s, k))
                    }
                },
            },
        }
    }
}

/// One node at `i`: `;` and its properties.
pub open spec fn node_at(s: Seq<char>, i: int) -> Step<Seq<PropModel>> {
    match expect_at(s, i, ';') {
        Err(e) => Err(e),
        Ok(j) => props_from(s, skip_ws(s, j)),
    }
}

/// The nodes that follow one another from `i` on.
pub open spec fn nodes_from(s: Seq<char>, i: int) -> Step<Seq<Seq<PropModel>>>
    decreases s.len() - i,
{
    if 0 <= i < s.len() && s[i] == ';' {
        match node_at(s, i) {
            Err(e) => Err(e),
            Ok((ps, j)) => {
                let k = skip_ws(s, j);
                if k <= i || k > s.len() {
                    Err(ParseError::Eof)
                } else {
                    prepend(ps, nodes_from(s, k))
                }
            },
        }
    } else {
        Ok((Seq::empty(), i))
    }
}

/// The node sequence of a game tree, which may not be empty.
pub open spec fn nodes_at(s: Seq<char>, i: int) -> Step<Seq<Seq<PropModel>>> {
    match nodes_from(s, skip_ws(s, i)) {
        Err(e) => Err(e),
        Ok((ns, j)) => if ns.len() == 0 {
            Err(ParseError::Invalid(InvalidReason::EmptySequence))
        } else {
            Ok((ns, j))
        },
    }
}

/// A node sequence as a chain, each node the single child of the one before,
/// with `vars` as the children of the last.
pub open spec fn chain(ns: Seq<Seq<PropModel>>, vars: Seq<NodeModel>) -> NodeModel
    decreases ns.len(),
{
    if ns.len() <= 1 {
        NodeModel { props: ns[0], children: vars }
    } else {
        NodeModel { props: ns[0], children: seq![chain(ns.drop_first(), vars)] }
    }
}

/// A game tree at `i`: `(`, a node sequence, its variations, `)`.
pub open spec fn tree_at(s: Seq<char>, i: int) -> Step<NodeModel>
    decreases s.len() - i, 0int,
{
    match expect_at(s, skip_ws(s, i), '(') {
        Err(e) => Err(e),
        Ok(j) => match nodes_at(s, skip_ws(s, j)) {
            Err(e) => Err(e),
            Ok((ns, k)) => {
                let m = skip_ws(s, k);
                if m <= i || m > s.len() {
                    Err(ParseError::Eof)
                } else {
                    match vars_from(s, m) {
                        Err(e) => Err(e),
                        Ok((vs, p)) => match expect_at(s, p, ')') {
                            Err(e) => Err(e),
                            Ok(q) => Ok((chain(ns, vs), q)),
                        },
                    }
                }
            },
        },
    }
}

/// The variations that follow one another from `i` on.
pub open spec fn vars_from(s: Seq<char>, i: int) -> Step<Seq<NodeModel>>
    decreases s.len() - i, 1int,
{
    if 0 <= i < s.len() && s[i] == '(' {
        match tree_at(s, i) {
            Err(e) => Err(e),
            Ok((n, j)) => {
                let k = skip_ws(s, j);
                if k <= i || k > s.len() {
                    Err(ParseError::Eof)
                } else {
                    prepend(n, vars_from(s, k))
                }
            },
        }
    } else {
        Ok((Seq::empty(), i))
    }
}

/// The game trees from `i` to the end of the text.
pub open spec fn trees_from(s: Seq<char>, i: int) -> Step<Seq<NodeModel>>
    decreases s.len() - i,
{
    if 0 <= i < s.len() {
        match tree_at(s, i) {
            Err(e) => Err(e),
            Ok((n, j)) => {
                let k = skip_ws(s, j);
                if k <= i || k > s.len() {
                    Err(ParseError::Eof)
                } else {
                    prepend(n, trees_from(s, k))
                }
            },
        }
    } else {
        Ok((Seq::empty(), i))
    }
}

/// What a whole text reads as: its game trees, of which there must be one or
/// more, or the first error.
pub open spec fn parse_text(s: Seq<char>) -> Result<CollModel, ParseError> {
    match trees_from(s, skip_ws(s, 0)) {
        Err(e) => Err(e),
        Ok((gs, _)) => if gs.len() == 0 {
            Err(ParseError::Invalid(InvalidReason::NoGameTrees))
        } else {
            Ok(gs)
        },
    }
}

} // verus!
