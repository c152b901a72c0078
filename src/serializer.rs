use vstd::prelude::*;
use crate::types::{coll_view, lemma_node_view, node_view, props_view, strings_view, CollModel, NodeModel, PropModel, SgfCollection, SgfNode, SgfProperty};
use crate::text::{chars_of, string_of};

verus! {

/// The escaped form of one character of a value.
pub open spec fn escape_char(c: char) -> Seq<char> {
    if c == '\\' || c == ']' {
        seq!['\\', c]
    } else {
        seq![c]
    }
}

/// A value with `\` written `\\` and `]` written `\]`.
pub open spec fn escape(v: Seq<char>) -> Seq<char>
    decreases v.len(),
{
    if v.len() == 0 {
        Seq::empty()
    } else {
        escape_char(v[0]) + escape(v.drop_first())
    }
}

/// Each value in brackets, escaped.
pub open spec fn ser_values(vs: Seq<Seq<char>>) -> Seq<char>
    decreases vs.len(),
{
    if vs.len() == 0 {
        Seq::empty()
    } else {
        seq!['['] + escape(vs[0]) + seq![']'] + ser_values(vs.drop_first())
    }
}

/// Each property as its identifier followed by its values.
pub open spec fn ser_props(ps: Seq<PropModel>) -> Seq<char>
    decreases ps.len(),
{
    if ps.len() == 0 {
        Seq::empty()
    } else {
        ps[0].ident + ser_values(ps[0].values) + ser_props(ps.drop_first())
    }
}

/// A node and what lies below it: `;` and its properties, then its single
/// child inline, or each of two or more children in parentheses.
pub open spec fn ser_seq(n: NodeModel) -> Seq<char>
    decreases n, n.children.len() + 1,
{
    seq![';'] + ser_props(n.props) + if n.children.len() == 0 {
        Seq::empty()
    } else if n.children.len() == 1 {
        ser_seq(n.children[0])
    } else {
        ser_vars(n, 0)
    }
}

/// The children of `n` from index `k` on, each in parentheses.
pub open spec fn ser_vars(n: NodeModel, k: int) -> Seq<char>
    decreases n, n.children.len() - k,
{
    if 0 <= k < n.children.len() {
        seq!['('] + ser_seq(n.children[k]) + seq![')'] + ser_vars(n, k + 1)
    } else {
        Seq::empty()
    }
}

/// One game: its root's sequence in parentheses.
pub open spec fn ser_tree(n: NodeModel) -> Seq<char> {
    seq!['('] + ser_seq(n) + seq![')']
}

/// The games one after another, with nothing between them.
pub open spec fn ser_coll(c: CollModel) -> Seq<char>
    decreases c.len(),
{
    if c.len() == 0 {
        Seq::empty()
    } else {
        ser_tree(c[0]) + ser_coll(c.drop_first())
    }
}

/// Writes a collection as text.
pub fn serialize_sgf_collection(collection: &SgfCollection) -> (r: String)
    ensures
        r@ == ser_coll(coll_view(*collection)),
{
    let ghost c = coll_view(*collection);
    let mut out: Vec<char> = Vec::new();
    let mut k: usize = 0;
    assert(c.subrange(0, c.len() as int) =~= c);
    while k < collection.games.len()
        invariant
            k <= collection.games@.len(),
            c == coll_view(*collection),
            out@ + ser_coll(c.subrange(k as int, c.len() as int)) == ser_coll(c),
        decreases collection.games@.len() - k,
    {
        proof {
            let rest = c.subrange(k as int, c.len() as int);
            assert(rest.drop_first() =~= c.subrange(k + 1, c.len() as int));
            assert(rest[0] == node_view(collection.games@[k as int].root));
        }
        serialize_tree(&collection.games[k].root, &mut out);
        k += 1;
    }
    proof {
        assert(c.subrange(k as int, c.len() as int) =~= Seq::<NodeModel>::empty());
        assert(out@ =~= out@ + Seq::<char>::empty());
    }
    string_of(&out)
}

fn serialize_tree(root: &SgfNode, out: &mut Vec<char>)
    ensures
        final(out)@ == old(out)@ + ser_tree(node_view(*root)),
{
    out.push('(');
    serialize_sequence_and_variations(root, out);
    out.push(')');
    proof {
        assert(final(out)@ =~= old(out)@ + ser_tree(node_view(*root)));
    }
}

fn serialize_sequence_and_variations(node: &SgfNode, out: &mut Vec<char>)
    ensures
        final(out)@ == old(out)@ + ser_seq(node_view(*node)),
    decreases node,
{
    let ghost target = old(out)@ + ser_seq(node_view(*node));
    let mut cur = node;
    loop
        invariant_except_break
            out@ + ser_seq(node_view(*cur)) == target,
        invariant
            *cur == *node || decreases_to!(*node => *cur),
        ensures
            cur.children@.len() != 1,
            cur.children@.len() == 0 ==> out@ == target,
            cur.children@.len() >= 2 ==> out@ + ser_vars(node_view(*cur), 0) == target,
        decreases ser_seq(node_view(*cur)).len(),
    {
        let ghost m = node_view(*cur);
        let ghost before = out@;
        proof {
            lemma_node_view(*cur);
        }
        out.push(';');
        serialize_properties(&cur.properties, out);
        proof {
            assert(out@ =~= before + seq![';'] + ser_props(m.props));
        }
        if cur.children.len() == 1 {
            proof {
                assert(out@ + ser_seq(node_view(cur.children@[0])) =~= target);
                assert(decreases_to!(*cur => cur.children@[0]));
            }
            cur = &cur.children[0];
        } else {
            proof {
                if cur.children@.len() == 0 {
                    assert(out@ =~= target);
                } else {
                    assert(out@ + ser_vars(m, 0) =~= target);
                }
            }
            break;
        }
    }
    let ghost m = node_view(*cur);
    proof {
        lemma_node_view(*cur);
    }
    if cur.children.len() == 0 {
        return;
    }
    let mut k: usize = 0;
    while k < cur.children.len()
        invariant
            m == node_view(*cur),
            m.children.len() == cur.children@.len() >= 2,
            forall|i: int| 0 <= i < cur.children@.len() ==> #[trigger] m.children[i] == node_view(cur.children@[i]),
            k <= cur.children@.len(),
            out@ + ser_vars(m, k as int) == target,
            *cur == *node || decreases_to!(*node => *cur),
        decreases cur.children@.len() - k,
    {
        out.push('(');
        assert(decreases_to!(*cur => cur.children@[k as int]));
        serialize_sequence_and_variations(&cur.children[k], out);
        out.push(')');
        proof {
            assert(out@ + ser_vars(m, k + 1) =~= target);
        }
        k += 1;
    }
    proof {
        assert(out@ =~= target);
    }
}

fn serialize_properties(props: &Vec<SgfProperty>, out: &mut Vec<char>)
    ensures
        final(out)@ == old(out)@ + ser_props(props_view(props@)),
{
    let ghost ps = props_view(props@);
    let ghost target = old(out)@ + ser_props(ps);
    let mut k: usize = 0;
    assert(ps.subrange(0, ps.len() as int) =~= ps);
    while k < props.len()
        invariant
            k <= props@.len(),
            ps == props_view(props@),
            out@ + ser_props(ps.subrange(k as int, ps.len() as int)) == target,
        decreases props@.len() - k,
    {
        let prop = &props[k];
        let ghost rest = ps.subrange(k as int, ps.len() as int);
        proof {
            assert(rest.drop_first() =~= ps.subrange(k + 1, ps.len() as int));
            assert(rest[0] == prop@);
        }
        let ident = chars_of(prop.ident.as_str());
        let mut j: usize = 0;
        assert(ident@.subrange(0, ident@.len() as int) =~= ident@);
        assert(out@ + ser_props(rest) =~= out@ + ident@ + ser_values(prop@.values) + ser_props(rest.drop_first()));
        while j < ident.len()
            invariant
                j <= ident@.len(),
                out@ + ident@.subrange(j as int, ident@.len() as int) + ser_values(prop@.values)
                    + ser_props(rest.drop_first()) == target,
            decreases ident@.len() - j,
        {
            proof {
                assert(out@ + ident@.subrange(j as int, ident@.len() as int) =~= out@.push(ident@[j as int])
                    + ident@.subrange(j + 1, ident@.len() as int));
            }
            out.push(ident[j]);
            j += 1;
        }
        let ghost vs = prop@.values;
        let mut i: usize = 0;
        assert(vs.subrange(0, vs.len() as int) =~= vs);
        assert(out@ + ser_values(vs) + ser_props(rest.drop_first()) == target);
        while i < prop.values.len()
            invariant
                i <= prop.values@.len(),
                vs == strings_view(prop.values@),
                out@ + ser_values(vs.subrange(i as int, vs.len() as int))
                    + ser_props(rest.drop_first()) == target,
            decreases prop.values@.len() - i,
        {
            let ghost vrest = vs.subrange(i as int, vs.len() as int);
            proof {
                assert(vrest.drop_first() =~= vs.subrange(i + 1, vs.len() as int));
            }
            let ghost before = out@;
            out.push('[');
            escape_value(prop.values[i].as_str(), out);
            out.push(']');
            proof {
                assert(out@ + ser_values(vs.subrange(i + 1, vs.len() as int)) =~= before + ser_values(vrest));
            }
            i += 1;
        }
        proof {
            assert(out@ + ser_props(rest.drop_first()) =~= target);
        }
        k += 1;
    }
    proof {
        assert(out@ =~= target);
    }
}

fn escape_value(value: &str, out: &mut Vec<char>)
    ensures
        final(out)@ == old(out)@ + escape(value@),
{
    let v = chars_of(value);
    let ghost target = old(out)@ + escape(v@);
    let mut i: usize = 0;
    assert(v@.subrange(0, v@.len() as int) =~= v@);
    while i < v.len()
        invariant
            i <= v@.len(),
            out@ + escape(v@.subrange(i as int, v@.len() as int)) == target,
        decreases v@.len() - i,
    {
        let c = v[i];
        proof {
            assert(v@.subrange(i as int, v@.len() as int).drop_first() =~= v@.subrange(i + 1, v@.len() as int));
        }
        if c == '\\' || c == ']' {
            out.push('\\');
        }
        out.push(c);
        proof {
            assert(out@ + escape(v@.subrange(i + 1, v@.len() as int)) =~= target);
        }
        i += 1;
    }
    proof {
        assert(out@ =~= target);
    }
}

} // verus!
