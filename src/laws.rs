use vstd::prelude::*;
use crate::types::{is_upper, valid_coll, valid_ident, valid_node, valid_prop, CollModel, NodeModel, PropModel};
use crate::text::is_ws;
use crate::serializer::{escape, escape_char, ser_coll, ser_props, ser_seq, ser_tree, ser_values, ser_vars};
use crate::grammar::{
    chain, expect_at, ident_at, ident_end, node_at, nodes_at, nodes_from, parse_text, props_from,
    skip_ws, tree_at, trees_from, value_body, values_at, values_from, vars_from,
    ParseError,
};

verus! {

/// `x` stands in `s` from position `i` on.
spec fn at(s: Seq<char>, i: int, x: Seq<char>) -> bool {
    0 <= i && i + x.len() <= s.len() && s.subrange(i, i + x.len()) == x
}

proof fn lemma_at_index(s: Seq<char>, i: int, x: Seq<char>, j: int)
    requires
        at(s, i, x),
        0 <= j < x.len(),
    ensures
        s[i + j] == x[j],
{
    assert(s.subrange(i, i + x.len())[j] == s[i + j]);
}

proof fn lemma_at(s: Seq<char>, i: int, a: Seq<char>, b: Seq<char>)
    requires
        at(s, i, a + b),
    ensures
        at(s, i, a),
        at(s, i + a.len(), b),
        forall|j: int| 0 <= j < a.len() ==> s[i + j] == #[trigger] a[j],
        forall|j: int| 0 <= j < b.len() ==> s[i + a.len() + j] == #[trigger] b[j],
{
    let w = s.subrange(i, i + (a + b).len());
    assert forall|j: int| 0 <= j < a.len() implies s[i + j] == #[trigger] a[j] by {
        assert(w[j] == (a + b)[j]);
    }
    assert forall|j: int| 0 <= j < b.len() implies s[i + a.len() + j] == #[trigger] b[j] by {
        assert(w[a.len() + j] == (a + b)[a.len() + j]);
    }
    assert(s.subrange(i, i + a.len()) =~= a);
    assert(s.subrange(i + a.len(), i + a.len() + b.len()) =~= b);
}

/// A position where a node's property list ends: `;`, `(`, `)` or the end.
spec fn boundary(s: Seq<char>, k: int) -> bool {
    k == s.len() || (0 <= k < s.len() && (s[k] == ';' || s[k] == '(' || s[k] == ')'))
}

proof fn lemma_chars()
    ensures
        !is_ws(';') && !is_ws('(') && !is_ws(')') && !is_ws('['),
        forall|c: char| is_upper(c) ==> !is_ws(c) && c != ';' && c != '(' && c != ')' && c != '[',
        !is_upper('['),
{
    assert forall|c: char| is_upper(c) implies !is_ws(c) && c != ';' && c != '(' && c != ')' && c != '[' by {
        assert(c as u32 >= 65 && c as u32 <= 90);
    }
}

proof fn lemma_ident_end(s: Seq<char>, i: int, id: Seq<char>)
    requires
        at(s, i, id),
        forall|j: int| 0 <= j < id.len() ==> is_upper(#[trigger] id[j]),
        !(0 <= i + id.len() < s.len() && is_upper(s[i + id.len()])),
    ensures
        ident_end(s, i) == i + id.len(),
    decreases id.len(),
{
    if id.len() > 0 {
        assert(id =~= seq![id[0]] + id.drop_first());
        lemma_at(s, i, seq![id[0]], id.drop_first());
        lemma_at_index(s, i, id, 0);
        lemma_ident_end(s, i + 1, id.drop_first());
    }
}

proof fn lemma_value_body(s: Seq<char>, i: int, v: Seq<char>)
    requires
        at(s, i, escape(v) + seq![']']),
    ensures
        value_body(s, i) == Ok::<(Seq<char>, int), ParseError>((v, i + escape(v).len() + 1)),
    decreases v.len(),
{
    lemma_at(s, i, escape(v), seq![']']);
    lemma_at_index(s, i, escape(v) + seq![']'], 0);
    if v.len() > 0 {
        let c = v[0];
        let rest = v.drop_first();
        assert(escape(v) + seq![']'] =~= escape_char(c) + (escape(rest) + seq![']']));
        lemma_at(s, i, escape_char(c), escape(rest) + seq![']']);
        if c == '\\' || c == ']' {
            lemma_at_index(s, i, escape(v) + seq![']'], 1);
        }
        lemma_value_body(s, i + escape_char(c).len(), rest);
        assert(seq![c] + rest =~= v);
    } else {
        assert(v =~= Seq::<char>::empty());
    }
}

proof fn lemma_values(s: Seq<char>, i: int, vs: Seq<Seq<char>>)
    requires
        at(s, i, ser_values(vs)),
        ({
            let e = i + ser_values(vs).len();
            !(0 <= e < s.len()) || (!is_ws(s[e]) && s[e] != '[')
        }),
    ensures
        values_from(s, i) == Ok::<(Seq<Seq<char>>, int), ParseError>((vs, i + ser_values(vs).len())),
    decreases vs.len(),
{
    lemma_chars();
    if vs.len() > 0 {
        let a = seq!['['] + escape(vs[0]) + seq![']'];
        let rest = vs.drop_first();
        lemma_at(s, i, a, ser_values(rest));
        lemma_at_index(s, i, a, 0);
        assert(a =~= seq!['['] + (escape(vs[0]) + seq![']']));
        lemma_at(s, i, seq!['['], escape(vs[0]) + seq![']']);
        lemma_value_body(s, i + 1, vs[0]);
        let j = i + a.len();
        if rest.len() > 0 {
            assert(ser_values(rest)[0] == '[');
            lemma_at_index(s, j, ser_values(rest), 0);
        }
        assert(skip_ws(s, j) == j);
        lemma_values(s, j, rest);
        assert(seq![vs[0]] + rest =~= vs);
    } else {
        assert(vs =~= Seq::<Seq<char>>::empty());
    }
}

proof fn lemma_props(s: Seq<char>, i: int, ps: Seq<PropModel>)
    requires
        at(s, i, ser_props(ps)),
        forall|k: int| 0 <= k < ps.len() ==> valid_prop(#[trigger] ps[k]),
        boundary(s, i + ser_props(ps).len()),
    ensures
        props_from(s, i) == Ok::<(Seq<PropModel>, int), ParseError>((ps, i + ser_props(ps).len())),
    decreases ps.len(),
{
    lemma_chars();
    if ps.len() > 0 {
        let p = ps[0];
        let rest = ps.drop_first();
        assert(valid_prop(p));
        assert forall|k: int| 0 <= k < rest.len() implies valid_prop(#[trigger] rest[k]) by {
            assert(valid_prop(ps[k + 1]));
        }
        assert(ser_props(ps) =~= p.ident + (ser_values(p.values) + ser_props(rest)));
        lemma_at(s, i, p.ident, ser_values(p.values) + ser_props(rest));
        let e1 = i + p.ident.len();
        lemma_at(s, e1, ser_values(p.values), ser_props(rest));
        let e2 = e1 + ser_values(p.values).len();
        assert(is_upper(p.ident[0]));
        assert(ser_values(p.values)[0] == '[');
        lemma_at_index(s, i, p.ident, 0);
        lemma_at_index(s, e1, ser_values(p.values), 0);
        lemma_ident_end(s, i, p.ident);
        assert(ident_at(s, i) == Ok::<(Seq<char>, int), ParseError>((p.ident, e1)));
        assert(skip_ws(s, e1) == e1);
        if rest.len() > 0 {
            assert(valid_prop(rest[0]));
            assert(is_upper(rest[0].ident[0]));
            assert(ser_props(rest) =~= rest[0].ident + (ser_values(rest[0].values) + ser_props(rest.drop_first())));
            assert(ser_props(rest)[0] == rest[0].ident[0]);
            lemma_at_index(s, e2, ser_props(rest), 0);
        }
        lemma_values(s, e1, p.values);
        assert(values_at(s, e1) == Ok::<(Seq<Seq<char>>, int), ParseError>((p.values, e2)));
        assert(skip_ws(s, e2) == e2);
        lemma_props(s, e2, rest);
        assert(seq![p] + rest =~= ps);
    } else {
        assert(ps =~= Seq::<PropModel>::empty());
    }
}

/// The property lists of a node and of its single-child descendants.
spec fn chain_props(n: NodeModel) -> Seq<Seq<PropModel>>
    decreases n,
{
    if n.children.len() == 1 {
        seq![n.props] + chain_props(n.children[0])
    } else {
        seq![n.props]
    }
}

/// The first node at or below `n`, going down single children, that does not
/// have exactly one child.
spec fn chain_end(n: NodeModel) -> NodeModel
    decreases n,
{
    if n.children.len() == 1 {
        chain_end(n.children[0])
    } else {
        n
    }
}

/// The text of the node sequence that starts at `n`.
spec fn nodes_text(n: NodeModel) -> Seq<char>
    decreases n,
{
    seq![';'] + ser_props(n.props) + if n.children.len() == 1 {
        nodes_text(n.children[0])
    } else {
        Seq::empty()
    }
}

proof fn lemma_chain(n: NodeModel)
    requires
        valid_node(n),
    ensures
        chain(chain_props(n), chain_end(n).children) == n,
        ser_seq(n) == nodes_text(n) + ser_vars(chain_end(n), 0),
        chain_end(n).children.len() != 1,
        valid_node(chain_end(n)),
        chain_props(n).len() >= 1,
        chain_end(n) == n || decreases_to!(n => chain_end(n)),
    decreases n,
{
    if n.children.len() == 1 {
        let c = n.children[0];
        assert(valid_node(n.children[0]));
        lemma_chain(c);
        let e = chain_end(c);
        assert(chain_props(n).drop_first() =~= chain_props(c));
        assert(seq![c] =~= n.children);
        assert(ser_seq(n) =~= nodes_text(n) + ser_vars(e, 0));
    } else {
        if n.children.len() == 0 {
            assert(ser_vars(n, 0) =~= Seq::<char>::empty());
        }
        assert(ser_seq(n) =~= nodes_text(n) + ser_vars(n, 0));
    }
}

proof fn lemma_nodes(s: Seq<char>, i: int, n: NodeModel)
    requires
        valid_node(n),
        at(s, i, nodes_text(n)),
        ({
            let e = i + nodes_text(n).len();
            0 <= e < s.len() && (s[e] == '(' || s[e] == ')')
        }),
    ensures
        nodes_from(s, i) == Ok::<(Seq<Seq<PropModel>>, int), ParseError>((chain_props(n), i + nodes_text(n).len())),
    decreases n,
{
    lemma_chars();
    let e = i + nodes_text(n).len();
    let tail = if n.children.len() == 1 { nodes_text(n.children[0]) } else { Seq::<char>::empty() };
    assert(nodes_text(n) =~= seq![';'] + (ser_props(n.props) + tail));
    lemma_at(s, i, seq![';'], ser_props(n.props) + tail);
    lemma_at(s, i + 1, ser_props(n.props), tail);
    let j = i + 1 + ser_props(n.props).len();
    lemma_at_index(s, i, seq![';'], 0);
    if n.children.len() == 1 {
        assert(tail[0] == ';');
        lemma_at_index(s, j, tail, 0);
    }
    if n.props.len() > 0 {
        assert(valid_prop(n.props[0]));
        assert(ser_props(n.props) =~= n.props[0].ident + (ser_values(n.props[0].values) + ser_props(n.props.drop_first())));
        assert(ser_props(n.props)[0] == n.props[0].ident[0]);
        assert(is_upper(n.props[0].ident[0]));
        lemma_at_index(s, i + 1, ser_props(n.props), 0);
    } else {
        assert(ser_props(n.props) =~= Seq::<char>::empty());
    }
    assert(skip_ws(s, i + 1) == i + 1);
    lemma_props(s, i + 1, n.props);
    assert(node_at(s, i) == Ok::<(Seq<PropModel>, int), ParseError>((n.props, j)));
    assert(skip_ws(s, j) == j);
    if n.children.len() == 1 {
        assert(valid_node(n.children[0]));
        lemma_nodes(s, j, n.children[0]);
    } else {
        assert(j == e);
        assert(nodes_from(s, j) == Ok::<(Seq<Seq<PropModel>>, int), ParseError>((Seq::empty(), j)));
    }
    assert(chain_props(n) =~= seq![n.props] + if n.children.len() == 1 {
        chain_props(n.children[0])
    } else {
        Seq::empty()
    });
}

proof fn lemma_tree(s: Seq<char>, i: int, n: NodeModel)
    requires
        valid_node(n),
        at(s, i, ser_tree(n)),
    ensures
        tree_at(s, i) == Ok::<(NodeModel, int), ParseError>((n, i + ser_tree(n).len())),
    decreases n, n.children.len() + 2,
{
    lemma_chars();
    lemma_chain(n);
    let end = chain_end(n);
    let nt = nodes_text(n);
    let v = ser_vars(end, 0);
    assert(ser_tree(n) =~= seq!['('] + (nt + (v + seq![')'])));
    lemma_at(s, i, seq!['('], nt + (v + seq![')']));
    lemma_at(s, i + 1, nt, v + seq![')']);
    lemma_at(s, i + 1 + nt.len(), v, seq![')']);
    let e = i + 1 + nt.len();
    lemma_at_index(s, i, seq!['('], 0);
    assert(nt =~= seq![';'] + (ser_props(n.props) + if n.children.len() == 1 {
        nodes_text(n.children[0])
    } else {
        Seq::empty()
    }));
    lemma_at_index(s, i + 1, nt, 0);
    lemma_at_index(s, e + v.len(), seq![')'], 0);
    assert(skip_ws(s, i) == i);
    assert(expect_at(s, i, '(') == Ok::<int, ParseError>(i + 1));
    assert(nt[0] == ';');
    assert(skip_ws(s, i + 1) == i + 1);
    if end.children.len() >= 2 {
        assert(v[0] == '(');
        lemma_at_index(s, e, v, 0);
    } else {
        assert(v =~= Seq::<char>::empty());
    }
    lemma_nodes(s, i + 1, n);
    assert(nodes_at(s, i + 1) == Ok::<(Seq<Seq<PropModel>>, int), ParseError>((chain_props(n), e)));
    assert(skip_ws(s, e) == e);
    lemma_vars(s, e, end, 0);
    assert(end.children.subrange(0, end.children.len() as int) =~= end.children);
    let p = e + v.len();
    assert(expect_at(s, p, ')') == Ok::<int, ParseError>(p + 1));
}

proof fn lemma_vars(s: Seq<char>, i: int, e: NodeModel, k: int)
    requires
        valid_node(e),
        0 <= k <= e.children.len(),
        at(s, i, ser_vars(e, k)),
        0 <= i + ser_vars(e, k).len() < s.len(),
        s[i + ser_vars(e, k).len()] == ')',
    ensures
        vars_from(s, i) == Ok::<(Seq<NodeModel>, int), ParseError>(
            (e.children.subrange(k, e.children.len() as int), i + ser_vars(e, k).len()),
        ),
    decreases e, e.children.len() - k + 1,
{
    lemma_chars();
    if k == e.children.len() {
        assert(ser_vars(e, k) =~= Seq::<char>::empty());
        assert(e.children.subrange(k, e.children.len() as int) =~= Seq::<NodeModel>::empty());
    } else {
        let c = e.children[k];
        assert(valid_node(c));
        let t = ser_tree(c);
        let rest = ser_vars(e, k + 1);
        assert(ser_vars(e, k) =~= t + rest);
        lemma_at(s, i, t, rest);
        assert(t[0] == '(');
        lemma_at_index(s, i, t, 0);
        lemma_tree(s, i, c);
        let j = i + t.len();
        if k + 1 < e.children.len() {
            assert(rest[0] == '(');
            lemma_at_index(s, j, rest, 0);
        }
        assert(skip_ws(s, j) == j);
        lemma_vars(s, j, e, k + 1);
        assert(seq![c] + e.children.subrange(k + 1, e.children.len() as int) =~= e.children.subrange(k, e.children.len() as int));
    }
}

proof fn lemma_trees(s: Seq<char>, i: int, c: CollModel)
    requires
        forall|k: int| 0 <= k < c.len() ==> valid_node(#[trigger] c[k]),
        at(s, i, ser_coll(c)),
        i + ser_coll(c).len() == s.len(),
    ensures
        trees_from(s, i) == Ok::<(Seq<NodeModel>, int), ParseError>((c, s.len() as int)),
    decreases c.len(),
{
    lemma_chars();
    if c.len() > 0 {
        let t = ser_tree(c[0]);
        let rest = c.drop_first();
        lemma_at(s, i, t, ser_coll(rest));
        assert(t[0] == '(');
        lemma_at_index(s, i, t, 0);
        assert(valid_node(c[0]));
        lemma_tree(s, i, c[0]);
        let j = i + t.len();
        if rest.len() > 0 {
            assert(ser_coll(rest)[0] == '(');
            lemma_at_index(s, j, ser_coll(rest), 0);
        }
        assert(skip_ws(s, j) == j);
        assert forall|k: int| 0 <= k < rest.len() implies valid_node(#[trigger] rest[k]) by {
            assert(valid_node(c[k + 1]));
        }
        lemma_trees(s, j, rest);
        assert(seq![c[0]] + rest =~= c);
    } else {
        assert(c =~= Seq::<NodeModel>::empty());
    }
}

/// Reading the text of a structurally valid collection gives that collection
/// back.
pub proof fn lemma_round_trip(c: CollModel)
    requires
        valid_coll(c),
    ensures
        parse_text(ser_coll(c)) == Ok::<CollModel, ParseError>(c),
{
    let s = ser_coll(c);
    assert(s.subrange(0, s.len() as int) =~= s);
    lemma_trees(s, 0, c);
    lemma_at(s, 0, ser_tree(c[0]), ser_coll(c.drop_first()));
    lemma_at_index(s, 0, ser_tree(c[0]), 0);
    assert(s[0] == '(');
    lemma_chars();
    assert(skip_ws(s, 0) == 0);
}

/// Serializing what was read from the text of a structurally valid
/// collection gives that same text again.
pub proof fn lemma_reserialize(c: CollModel)
    requires
        valid_coll(c),
    ensures
        parse_text(ser_coll(c)) is Ok,
        ser_coll(parse_text(ser_coll(c))->Ok_0) == ser_coll(c),
{
    lemma_round_trip(c);
}

proof fn lemma_escape_concat(a: Seq<char>, b: Seq<char>)
    ensures
        escape(a + b) == escape(a) + escape(b),
    decreases a.len(),
{
    if a.len() == 0 {
        assert(a + b =~= b);
        assert(escape(a) + escape(b) =~= escape(b));
    } else {
        assert((a + b).drop_first() =~= a.drop_first() + b);
        lemma_escape_concat(a.drop_first(), b);
        assert(escape(a + b) =~= escape(a) + escape(b));
    }
}

/// Escaping a value writes each `\` and `]` in it with a `\` before it, at
/// the place where the escaped text of what precedes it ends; and reading
/// the escaped value back, up to the closing `]`, gives the value exactly.
pub proof fn lemma_escape(v: Seq<char>)
    ensures
        value_body(escape(v) + seq![']'], 0) == Ok::<(Seq<char>, int), ParseError>(
            (v, escape(v).len() + 1int),
        ),
        forall|j: int|
            0 <= j < v.len() && (v[j] == '\\' || v[j] == ']') ==> {
                let k = #[trigger] escape(v.subrange(0, j)).len() as int;
                escape(v)[k] == '\\' && escape(v)[k + 1] == v[j]
            },
{
    let s = escape(v) + seq![']'];
    assert(s.subrange(0, s.len() as int) =~= s);
    lemma_value_body(s, 0, v);
    assert forall|j: int| 0 <= j < v.len() && (v[j] == '\\' || v[j] == ']') implies {
        let k = #[trigger] escape(v.subrange(0, j)).len() as int;
        escape(v)[k] == '\\' && escape(v)[k + 1] == v[j]
    } by {
        let a = v.subrange(0, j);
        let b = v.subrange(j + 1, v.len() as int);
        assert(v =~= a + (seq![v[j]] + b));
        lemma_escape_concat(a, seq![v[j]] + b);
        lemma_escape_concat(seq![v[j]], b);
        assert(seq![v[j]].drop_first() =~= Seq::<char>::empty());
        assert(escape(seq![v[j]].drop_first()) =~= Seq::<char>::empty());
        assert(escape(seq![v[j]]) =~= escape_char(v[j]));
    }
}

proof fn lemma_ident_end_upper(s: Seq<char>, i: int)
    requires
        0 <= i <= s.len(),
    ensures
        i <= ident_end(s, i) <= s.len(),
        forall|j: int| i <= j < ident_end(s, i) ==> is_upper(#[trigger] s[j]),
    decreases s.len() - i,
{
    if i < s.len() && is_upper(s[i]) {
        lemma_ident_end_upper(s, i + 1);
    }
}

proof fn lemma_props_valid(s: Seq<char>, i: int)
    requires
        0 <= i <= s.len(),
        props_from(s, i) is Ok,
    ensures
        forall|k: int|
            0 <= k < props_from(s, i)->Ok_0.0.len() ==> valid_prop(
                #[trigger] props_from(s, i)->Ok_0.0[k],
            ),
    decreases s.len() - i,
{
    if !(0 <= i < s.len()) || s[i] == ';' || s[i] == '(' || s[i] == ')' {
    } else {
        lemma_ident_end_upper(s, i);
        let (id, e) = ident_at(s, i)->Ok_0;
        assert(valid_ident(id)) by {
            assert forall|j: int| 0 <= j < id.len() implies is_upper(#[trigger] id[j]) by {
                assert(id[j] == s[i + j]);
            }
        }
        let (vs, j) = values_at(s, e)->Ok_0;
        let k = skip_ws(s, j);
        lemma_props_valid(s, k);
        let ps = props_from(s, i)->Ok_0.0;
        assert forall|m: int| 0 <= m < ps.len() implies valid_prop(#[trigger] ps[m]) by {
            if m > 0 {
                assert(ps[m] == props_from(s, k)->Ok_0.0[m - 1]);
            }
        }
    }
}

proof fn lemma_nodes_valid(s: Seq<char>, i: int)
    requires
        0 <= i <= s.len(),
        nodes_from(s, i) is Ok,
    ensures
        forall|k: int, m: int|
            0 <= k < nodes_from(s, i)->Ok_0.0.len() && 0 <= m < nodes_from(s, i)->Ok_0.0[k].len()
                ==> valid_prop(#[trigger] nodes_from(s, i)->Ok_0.0[k][m]),
    decreases s.len() - i,
{
    if 0 <= i < s.len() && s[i] == ';' {
        lemma_skip_ws_bounds(s, i + 1);
        lemma_props_valid(s, skip_ws(s, i + 1));
        let (ps, j) = node_at(s, i)->Ok_0;
        let k = skip_ws(s, j);
        lemma_nodes_valid(s, k);
        let ns = nodes_from(s, i)->Ok_0.0;
        assert forall|a: int, m: int| 0 <= a < ns.len() && 0 <= m < ns[a].len() implies valid_prop(
            #[trigger] ns[a][m],
        ) by {
            if a > 0 {
                assert(ns[a] == nodes_from(s, k)->Ok_0.0[a - 1]);
            }
        }
    }
}

proof fn lemma_skip_ws_bounds(s: Seq<char>, i: int)
    requires
        0 <= i <= s.len(),
    ensures
        i <= skip_ws(s, i) <= s.len(),
    decreases s.len() - i,
{
    if i < s.len() && is_ws(s[i]) {
        lemma_skip_ws_bounds(s, i + 1);
    }
}

proof fn lemma_chain_valid(ns: Seq<Seq<PropModel>>, vs: Seq<NodeModel>)
    requires
        ns.len() >= 1,
        forall|k: int, m: int| 0 <= k < ns.len() && 0 <= m < ns[k].len() ==> valid_prop(#[trigger] ns[k][m]),
        forall|k: int| 0 <= k < vs.len() ==> valid_node(#[trigger] vs[k]),
    ensures
        valid_node(chain(ns, vs)),
    decreases ns.len(),
{
    assert forall|m: int| 0 <= m < ns[0].len() implies valid_prop(#[trigger] ns[0][m]) by {}
    if ns.len() > 1 {
        let rest = ns.drop_first();
        assert forall|k: int, m: int| 0 <= k < rest.len() && 0 <= m < rest[k].len() implies valid_prop(
            #[trigger] rest[k][m],
        ) by {
            assert(rest[k] == ns[k + 1]);
        }
        lemma_chain_valid(rest, vs);
    }
}

proof fn lemma_tree_valid(s: Seq<char>, i: int)
    requires
        0 <= i <= s.len(),
        tree_at(s, i) is Ok,
    ensures
        valid_node(tree_at(s, i)->Ok_0.0),
    decreases s.len() - i, 0int,
{
    lemma_skip_ws_bounds(s, i);
    let j = expect_at(s, skip_ws(s, i), '(')->Ok_0;
    lemma_skip_ws_bounds(s, j);
    lemma_skip_ws_bounds(s, skip_ws(s, j));
    lemma_nodes_valid(s, skip_ws(s, skip_ws(s, j)));
    let (ns, k) = nodes_at(s, skip_ws(s, j))->Ok_0;
    let m = skip_ws(s, k);
    lemma_vars_valid(s, m);
    let (vs, p) = vars_from(s, m)->Ok_0;
    lemma_chain_valid(ns, vs);
}

proof fn lemma_vars_valid(s: Seq<char>, i: int)
    requires
        0 <= i <= s.len(),
        vars_from(s, i) is Ok,
    ensures
        forall|k: int|
            0 <= k < vars_from(s, i)->Ok_0.0.len() ==> valid_node(
                #[trigger] vars_from(s, i)->Ok_0.0[k],
            ),
    decreases s.len() - i, 1int,
{
    if 0 <= i < s.len() && s[i] == '(' {
        lemma_tree_valid(s, i);
        let (n, j) = tree_at(s, i)->Ok_0;
        let k = skip_ws(s, j);
        lemma_vars_valid(s, k);
        let vs = vars_from(s, i)->Ok_0.0;
        assert forall|a: int| 0 <= a < vs.len() implies valid_node(#[trigger] vs[a]) by {
            if a > 0 {
                assert(vs[a] == vars_from(s, k)->Ok_0.0[a - 1]);
            }
        }
    }
}

proof fn lemma_trees_valid(s: Seq<char>, i: int)
    requires
        0 <= i <= s.len(),
        trees_from(s, i) is Ok,
    ensures
        forall|k: int|
            0 <= k < trees_from(s, i)->Ok_0.0.len() ==> valid_node(
                #[trigger] trees_from(s, i)->Ok_0.0[k],
            ),
    decreases s.len() - i,
{
    if 0 <= i < s.len() {
        lemma_tree_valid(s, i);
        let (n, j) = tree_at(s, i)->Ok_0;
        let k = skip_ws(s, j);
        lemma_trees_valid(s, k);
        let gs = trees_from(s, i)->Ok_0.0;
        assert forall|a: int| 0 <= a < gs.len() implies valid_node(#[trigger] gs[a]) by {
            if a > 0 {
                assert(gs[a] == trees_from(s, k)->Ok_0.0[a - 1]);
            }
        }
    }
}

/// Whatever a text reads as is a structurally valid collection: at least
/// one game, every property with a non-empty upper-case identifier and at
/// least one value.
pub proof fn lemma_parse_valid(s: Seq<char>)
    requires
        parse_text(s) is Ok,
    ensures
        valid_coll(parse_text(s)->Ok_0),
{
    lemma_skip_ws_bounds(s, 0);
    lemma_trees_valid(s, skip_ws(s, 0));
}

} // verus!
