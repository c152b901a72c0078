use vstd::prelude::*;
use crate::types::{
    coll_view, valid_coll, lemma_node_view, node_view, props_view, strings_view, NodeModel,
    PropModel, SgfCollection, SgfGame, SgfNode, SgfProperty,
};
use crate::laws::lemma_parse_valid;
use crate::text::{chars_of, is_whitespace, string_of};
use crate::grammar::{
    chain, expect_at, ident_at, ident_end, lemma_prefix_empty, lemma_prefix_prepend,
    nodes_at, nodes_from, node_at, parse_text, prefix_with, props_from, skip_ws, tree_at,
    trees_from, value_at, value_body, values_at, values_from, vars_from, InvalidReason, Step,
    ParseError,
};

verus! {

/// Reads a whole text as a collection of games.
pub fn parse_sgf_collection(input: &str) -> (r: Result<SgfCollection, ParseError>)
    ensures
        match parse_text(input@) {
            Ok(c) => r matches Ok(x) && coll_view(x) == c,
            Err(e) => r == Err::<SgfCollection, ParseError>(e),
        },
        r matches Ok(x) ==> valid_coll(coll_view(x)),
{
    let mut p = Parser::new(input);
    let ghost s = p.chars@;
    let mut games: Vec<SgfGame> = Vec::new();
    p.skip_ws();
    let ghost start = p.idx as int;
    proof {
        assert(prefix_with(Seq::<NodeModel>::empty(), trees_from(s, start)) == trees_from(s, start)) by {
            if let Ok((xs, j)) = trees_from(s, start) {
                assert(Seq::<NodeModel>::empty() + xs =~= xs);
            }
        }
    }
    while !p.is_eof()
        invariant
            p.chars@ == s,
            s == input@,
            p.idx <= s.len(),
            start == skip_ws(s, 0),
            prefix_with(games_view(games@), trees_from(s, p.idx as int)) == trees_from(s, start),
        decreases s.len() - p.idx,
    {
        let g = p.parse_game_tree();
        match g {
            Err(e) => {
                return Err(e);
            },
            Ok(g) => {
                let ghost n = node_view(g.root);
                let ghost before = games_view(games@);
                proof {
                    lemma_prefix_prepend(games_view(games@), n, trees_from(s, skip_ws(s, p.idx as int)));
                }
                games.push(g);
                p.skip_ws();
                proof {
                    assert(games_view(games@) =~= before.push(n));
                }
            },
        }
    }
    proof {
        lemma_prefix_empty(games_view(games@), p.idx as int);
    }
    if games.len() == 0 {
        return Err(ParseError::Invalid(InvalidReason::NoGameTrees));
    }
    let r = SgfCollection { games };
    proof {
        assert(coll_view(r) =~= games_view(r.games@));
        lemma_parse_valid(input@);
    }
    Ok(r)
}

pub open spec fn games_view(v: Seq<SgfGame>) -> Seq<NodeModel> {
    v.map_values(|g: SgfGame| node_view(g.root))
}

pub open spec fn nodes_view(v: Seq<SgfNode>) -> Seq<NodeModel> {
    v.map_values(|n: SgfNode| node_view(n))
}

pub open spec fn prop_lists_view(v: Seq<Vec<SgfProperty>>) -> Seq<Seq<PropModel>> {
    v.map_values(|p: Vec<SgfProperty>| props_view(p@))
}

/// What is left of reading a game tree once its node sequence `ns` has been
/// read and its variations start at `m`.
spec fn tree_rest(s: Seq<char>, ns: Seq<Seq<PropModel>>, m: int) -> Step<NodeModel> {
    match vars_from(s, m) {
        Err(e) => Err(e),
        Ok((vs, p)) => match expect_at(s, p, ')') {
            Err(e) => Err(e),
            Ok(q) => Ok((chain(ns, vs), q)),
        },
    }
}

/// A cursor over the characters of a text.
struct Parser {
    chars: Vec<char>,
    idx: usize,
}

/// `b` reads the same text as `a`, at a position no earlier and in range.
spec fn moved_on(a: Parser, b: Parser) -> bool {
    &&& b.chars@ == a.chars@
    &&& a.idx <= b.idx <= b.chars@.len()
}

impl Parser {
    fn new(src: &str) -> (r: Parser)
        ensures
            r.chars@ == src@,
            r.idx == 0,
    {
        Parser { chars: chars_of(src), idx: 0 }
    }

    fn is_eof(&self) -> (r: bool)
        ensures
            r == (self.idx >= self.chars@.len()),
    {
        self.idx >= self.chars.len()
    }

    fn peek(&self) -> (r: Option<char>)
        ensures
            r == (if self.idx < self.chars@.len() {
                Some(self.chars@[self.idx as int])
            } else {
                None
            }),
    {
        if self.idx < self.chars.len() {
            Some(self.chars[self.idx])
        } else {
            None
        }
    }

    fn next(&mut self) -> (r: Option<char>)
        requires
            old(self).idx <= old(self).chars@.len(),
        ensures
            moved_on(*old(self), *final(self)),
            old(self).idx < old(self).chars@.len() ==> r == Some(old(self).chars@[old(self).idx as int])
                && final(self).idx == old(self).idx + 1,
            old(self).idx >= old(self).chars@.len() ==> r is None,
    {
        if self.idx < self.chars.len() {
            let c = self.chars[self.idx];
            self.idx += 1;
            Some(c)
        } else {
            None
        }
    }

    fn skip_ws(&mut self)
        requires
            old(self).idx <= old(self).chars@.len(),
        ensures
            moved_on(*old(self), *final(self)),
            final(self).idx == skip_ws(old(self).chars@, old(self).idx as int),
    {
        let ghost s = self.chars@;
        let ghost start = self.idx as int;
        let ghost i0 = start;
        while self.idx < self.chars.len() && is_whitespace(self.chars[self.idx])
            invariant
                self.chars@ == s,
                s == old(self).chars@,
                i0 == old(self).idx,
                start <= self.idx <= s.len(),
                skip_ws(s, self.idx as int) == skip_ws(s, start),
            decreases s.len() - self.idx,
        {
            self.idx += 1;
        }
    }

    fn expect(&mut self, expected: char) -> (r: Result<(), ParseError>)
        requires
            old(self).idx <= old(self).chars@.len(),
        ensures
            moved_on(*old(self), *final(self)),
            match expect_at(old(self).chars@, old(self).idx as int, expected) {
                Ok(j) => r is Ok && final(self).idx == j,
                Err(e) => r == Err::<(), ParseError>(e),
            },
    {
        match self.next() {
            Some(c) => {
                if c == expected {
                    Ok(())
                } else {
                    Err(ParseError::Expected { expected, at: self.idx - 1 })
                }
            },
            None => Err(ParseError::Eof),
        }
    }

    fn parse_game_tree(&mut self) -> (r: Result<SgfGame, ParseError>)
        requires
            old(self).idx <= old(self).chars@.len(),
        ensures
            moved_on(*old(self), *final(self)),
            r is Ok ==> final(self).idx > old(self).idx,
            match tree_at(old(self).chars@, old(self).idx as int) {
                Ok((n, j)) => r matches Ok(g) && node_view(g.root) == n && final(self).idx == j,
                Err(e) => r == Err::<SgfGame, ParseError>(e),
            },
        decreases self.chars@.len() - self.idx,
    {
        let ghost s = self.chars@;
        let ghost i0 = self.idx as int;
        self.skip_ws();
        match self.expect('(') {
            Err(e) => { return Err(e); },
            Ok(()) => {},
        }
        self.skip_ws();
        let nodes = match self.parse_node_sequence() {
            Err(e) => { return Err(e); },
            Ok(nodes) => nodes,
        };
        self.skip_ws();
        let ghost m = self.idx as int;
        let mut variations: Vec<SgfNode> = Vec::new();
        proof {
            assert(prefix_with(nodes_view(variations@), vars_from(s, m)) == vars_from(s, m)) by {
                if let Ok((xs, j)) = vars_from(s, m) {
                    assert(Seq::<NodeModel>::empty() + xs =~= xs);
                }
            }
        }
        while self.idx < self.chars.len() && self.chars[self.idx] == '('
            invariant
                self.chars@ == s,
                s == old(self).chars@,
                i0 == old(self).idx,
                tree_at(s, i0) == tree_rest(s, prop_lists_view(nodes@), m),
                i0 < m <= self.idx <= s.len(),
                prefix_with(nodes_view(variations@), vars_from(s, self.idx as int)) == vars_from(s, m),
            decreases s.len() - self.idx,
        {
            match self.parse_game_tree() {
                Err(e) => { return Err(e); },
                Ok(g) => {
                    let ghost n = node_view(g.root);
                    let ghost before = nodes_view(variations@);
                    proof {
                        lemma_prefix_prepend(before, n, vars_from(s, skip_ws(s, self.idx as int)));
                    }
                    variations.push(g.root);
                    self.skip_ws();
                    proof {
                        assert(nodes_view(variations@) =~= before.push(n));
                    }
                },
            }
        }
        proof {
            lemma_prefix_empty(nodes_view(variations@), self.idx as int);
        }
        match self.expect(')') {
            Err(e) => { return Err(e); },
            Ok(()) => {},
        }
        let root = build_chain(nodes, variations);
        Ok(SgfGame { root })
    }

    fn parse_node_sequence(&mut self) -> (r: Result<Vec<Vec<SgfProperty>>, ParseError>)
        requires
            old(self).idx <= old(self).chars@.len(),
        ensures
            moved_on(*old(self), *final(self)),
            match nodes_at(old(self).chars@, old(self).idx as int) {
                Ok((ns, j)) => r matches Ok(v) && prop_lists_view(v@) == ns && final(self).idx == j,
                Err(e) => r == Err::<Vec<Vec<SgfProperty>>, ParseError>(e),
            },
    {
        let ghost s = self.chars@;
        let ghost i0 = self.idx as int;
        self.skip_ws();
        let ghost start = self.idx as int;
        let mut nodes: Vec<Vec<SgfProperty>> = Vec::new();
        proof {
            assert(prefix_with(prop_lists_view(nodes@), nodes_from(s, start)) == nodes_from(s, start)) by {
                if let Ok((xs, j)) = nodes_from(s, start) {
                    assert(Seq::<Seq<PropModel>>::empty() + xs =~= xs);
                }
            }
        }
        while self.idx < self.chars.len() && self.chars[self.idx] == ';'
            invariant
                self.chars@ == s,
                s == old(self).chars@,
                i0 == old(self).idx,
                start == skip_ws(s, i0),
                i0 <= start <= self.idx <= s.len(),
                prefix_with(prop_lists_view(nodes@), nodes_from(s, self.idx as int)) == nodes_from(s, start),
            decreases s.len() - self.idx,
        {
            match self.parse_node() {
                Err(e) => { return Err(e); },
                Ok(props) => {
                    let ghost ps = props_view(props@);
                    let ghost before = prop_lists_view(nodes@);
                    proof {
                        lemma_prefix_prepend(before, ps, nodes_from(s, skip_ws(s, self.idx as int)));
                    }
                    nodes.push(props);
                    self.skip_ws();
                    proof {
                        assert(prop_lists_view(nodes@) =~= before.push(ps));
                    }
                },
            }
        }
        proof {
            lemma_prefix_empty(prop_lists_view(nodes@), self.idx as int);
        }
        if nodes.len() == 0 {
            return Err(ParseError::Invalid(InvalidReason::EmptySequence));
        }
        Ok(nodes)
    }

    fn parse_node(&mut self) -> (r: Result<Vec<SgfProperty>, ParseError>)
        requires
            old(self).idx <= old(self).chars@.len(),
        ensures
            moved_on(*old(self), *final(self)),
            r is Ok ==> final(self).idx > old(self).idx,
            match node_at(old(self).chars@, old(self).idx as int) {
                Ok((ps, j)) => r matches Ok(v) && props_view(v@) == ps && final(self).idx == j,
                Err(e) => r == Err::<Vec<SgfProperty>, ParseError>(e),
            },
    {
        let ghost s = self.chars@;
        let ghost i0 = self.idx as int;
        match self.expect(';') {
            Err(e) => { return Err(e); },
            Ok(()) => {},
        }
        self.skip_ws();
        let ghost start = self.idx as int;
        let mut props: Vec<SgfProperty> = Vec::new();
        proof {
            assert(prefix_with(props_view(props@), props_from(s, start)) == props_from(s, start)) by {
                if let Ok((xs, j)) = props_from(s, start) {
                    assert(Seq::<PropModel>::empty() + xs =~= xs);
                }
            }
        }
        loop
            invariant
                self.chars@ == s,
                s == old(self).chars@,
                i0 == old(self).idx,
                node_at(s, i0) == props_from(s, start),
                i0 <= start <= self.idx <= s.len(),
                prefix_with(props_view(props@), props_from(s, self.idx as int)) == props_from(s, start),
            ensures
                props_from(s, self.idx as int) == Ok::<(Seq<PropModel>, int), ParseError>((Seq::<PropModel>::empty(), self.idx as int)),
            decreases s.len() - self.idx,
        {
            match self.peek() {
                None => { break; },
                Some(c) => {
                    if c == ';' || c == '(' || c == ')' {
                        break;
                    }
                },
            }
            let ident = match self.parse_ident() {
                Err(e) => { return Err(e); },
                Ok(ident) => ident,
            };
            let values = match self.parse_values() {
                Err(e) => { return Err(e); },
                Ok(values) => values,
            };
            let prop = SgfProperty { ident, values };
            let ghost before = props_view(props@);
            proof {
                lemma_prefix_prepend(before, prop@, props_from(s, skip_ws(s, self.idx as int)));
            }
            props.push(prop);
            self.skip_ws();
            proof {
                assert(props_view(props@) =~= before.push(prop@));
            }
        }
        proof {
            lemma_prefix_empty(props_view(props@), self.idx as int);
        }
        Ok(props)
    }

    fn parse_ident(&mut self) -> (r: Result<String, ParseError>)
        requires
            old(self).idx <= old(self).chars@.len(),
        ensures
            moved_on(*old(self), *final(self)),
            match ident_at(old(self).chars@, old(self).idx as int) {
                Ok((id, j)) => r matches Ok(x) && x@ == id && final(self).idx == j,
                Err(e) => r == Err::<String, ParseError>(e),
            },
    {
        let ghost s = self.chars@;
        let start = self.idx;
        let ghost i0 = start as int;
        let mut ident: Vec<char> = Vec::new();
        while self.idx < self.chars.len() && 'A' <= self.chars[self.idx] && self.chars[self.idx] <= 'Z'
            invariant
                self.chars@ == s,
                s == old(self).chars@,
                i0 == old(self).idx,
                start <= self.idx <= s.len(),
                ident@ == s.subrange(start as int, self.idx as int),
                ident_end(s, self.idx as int) == ident_end(s, start as int),
            decreases s.len() - self.idx,
        {
            ident.push(self.chars[self.idx]);
            self.idx += 1;
            proof {
                assert(ident@ =~= s.subrange(start as int, self.idx as int));
            }
        }
        if ident.len() == 0 {
            return Err(ParseError::ExpectedIdent { at: start });
        }
        Ok(string_of(&ident))
    }

    fn parse_values(&mut self) -> (r: Result<Vec<String>, ParseError>)
        requires
            old(self).idx <= old(self).chars@.len(),
        ensures
            moved_on(*old(self), *final(self)),
            match values_at(old(self).chars@, old(self).idx as int) {
                Ok((vs, j)) => r matches Ok(v) && strings_view(v@) == vs && final(self).idx == j,
                Err(e) => r == Err::<Vec<String>, ParseError>(e),
            },
    {
        let ghost s = self.chars@;
        let ghost i0 = self.idx as int;
        self.skip_ws();
        let ghost start = self.idx as int;
        let mut values: Vec<String> = Vec::new();
        proof {
            assert(prefix_with(strings_view(values@), values_from(s, start)) == values_from(s, start)) by {
                if let Ok((xs, j)) = values_from(s, start) {
                    assert(Seq::<Seq<char>>::empty() + xs =~= xs);
                }
            }
        }
        while self.idx < self.chars.len() && self.chars[self.idx] == '['
            invariant
                self.chars@ == s,
                s == old(self).chars@,
                i0 == old(self).idx,
                start == skip_ws(s, i0),
                i0 <= start <= self.idx <= s.len(),
                prefix_with(strings_view(values@), values_from(s, self.idx as int)) == values_from(s, start),
            decreases s.len() - self.idx,
        {
            match self.parse_value() {
                Err(e) => { return Err(e); },
                Ok(v) => {
                    let ghost before = strings_view(values@);
                    proof {
                        lemma_prefix_prepend(before, v@, values_from(s, skip_ws(s, self.idx as int)));
                    }
                    values.push(v);
                    self.skip_ws();
                    proof {
                        assert(strings_view(values@) =~= before.push(v@));
                    }
                },
            }
        }
        proof {
            lemma_prefix_empty(strings_view(values@), self.idx as int);
        }
        if values.len() == 0 {
            return Err(ParseError::Invalid(InvalidReason::EmptyValues));
        }
        Ok(values)
    }

    fn parse_value(&mut self) -> (r: Result<String, ParseError>)
        requires
            old(self).idx <= old(self).chars@.len(),
        ensures
            moved_on(*old(self), *final(self)),
            r is Ok ==> final(self).idx > old(self).idx,
            match value_at(old(self).chars@, old(self).idx as int) {
                Ok((v, j)) => r matches Ok(x) && x@ == v && final(self).idx == j,
                Err(e) => r == Err::<String, ParseError>(e),
            },
    {
        let ghost s = self.chars@;
        let ghost i0 = self.idx as int;
        match self.expect('[') {
            Err(e) => { return Err(e); },
            Ok(()) => {},
        }
        let ghost start = self.idx as int;
        let mut out: Vec<char> = Vec::new();
        proof {
            assert(prefix_with(out@, value_body(s, start)) == value_body(s, start)) by {
                if let Ok((xs, j)) = value_body(s, start) {
                    assert(Seq::<char>::empty() + xs =~= xs);
                }
            }
        }
        loop
            invariant
                self.chars@ == s,
                s == old(self).chars@,
                i0 == old(self).idx,
                value_at(s, i0) == value_body(s, start),
                i0 <= start <= self.idx <= s.len(),
                prefix_with(out@, value_body(s, self.idx as int)) == value_body(s, start),
            decreases s.len() - self.idx,
        {
            let ghost i = self.idx as int;
            match self.next() {
                None => { return Err(ParseError::Eof); },
                Some(c) => {
                    if c == ']' {
                        proof {
                            lemma_prefix_empty(out@, self.idx as int);
                        }
                        return Ok(string_of(&out));
                    } else if c == '\\' {
                        match self.next() {
                            None => { return Err(ParseError::Eof); },
                            Some(e) => {
                                proof {
                                    lemma_prefix_prepend(out@, e, value_body(s, i + 2));
                                }
                                out.push(e);
                            },
                        }
                    } else {
                        proof {
                            lemma_prefix_prepend(out@, c, value_body(s, i + 1));
                        }
                        out.push(c);
                    }
                },
            }
        }
    }
}

/// Links a node sequence into a chain, the variations hung below its last
/// node.
fn build_chain(nodes: Vec<Vec<SgfProperty>>, variations: Vec<SgfNode>) -> (r: SgfNode)
    requires
        nodes@.len() >= 1,
    ensures
        node_view(r) == chain(prop_lists_view(nodes@), nodes_view(variations@)),
{
    let ghost ns = prop_lists_view(nodes@);
    let ghost vs = nodes_view(variations@);
    let mut nodes = nodes;
    let last = nodes.pop().unwrap();
    let mut cur = SgfNode { properties: last, children: variations };
    proof {
        lemma_node_view(cur);
        assert(node_view(cur).children =~= vs);
        assert(ns.subrange(nodes@.len() as int, ns.len() as int) =~= seq![ns.last()]);
    }
    while nodes.len() > 0
        invariant
            nodes@.len() < ns.len(),
            ns == prop_lists_view(nodes@) + ns.subrange(nodes@.len() as int, ns.len() as int),
            node_view(cur) == chain(ns.subrange(nodes@.len() as int, ns.len() as int), vs),
        decreases nodes@.len(),
    {
        let ghost k = nodes@.len() as int;
        let props = nodes.pop().unwrap();
        let mut children: Vec<SgfNode> = Vec::new();
        children.push(cur);
        let next = SgfNode { properties: props, children };
        proof {
            lemma_node_view(next);
            let sub = ns.subrange(k - 1, ns.len() as int);
            assert(sub.drop_first() =~= ns.subrange(k, ns.len() as int));
            assert(sub[0] == props_view(props@));
            assert(node_view(next).children =~= seq![chain(sub.drop_first(), vs)]);
        }
        cur = next;
    }
    proof {
        assert(ns.subrange(0, ns.len() as int) =~= ns);
    }
    cur
}

} // verus!
