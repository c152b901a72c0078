use vstd::prelude::*;

verus! {

/// A property as a mathematical value: its identifier and its values.
pub struct PropModel {
    pub ident: Seq<char>,
    pub values: Seq<Seq<char>>,
}

/// A node as a mathematical value: its properties and its child nodes.
pub struct NodeModel {
    pub props: Seq<PropModel>,
    pub children: Seq<NodeModel>,
}

/// A whole collection: the root node of each game, in order.
pub type CollModel = Seq<NodeModel>;

#[derive(Debug, PartialEq, Eq)]
pub struct SgfProperty {
    pub ident: String,
    pub values: Vec<String>,
}

#[derive(Debug, PartialEq, Eq)]
pub struct SgfNode {
    pub properties: Vec<SgfProperty>,
    pub children: Vec<SgfNode>,
}

#[derive(Debug, PartialEq, Eq)]
pub struct SgfGame {
    pub root: SgfNode,
}

#[derive(Debug, PartialEq, Eq)]
pub struct SgfCollection {
    pub games: Vec<SgfGame>,
}

pub open spec fn strings_view(v: Seq<String>) -> Seq<Seq<char>> {
    v.map_values(|s: String| s@)
}

impl View for SgfProperty {
    type V = PropModel;

    open spec fn view(&self) -> PropModel {
        PropModel { ident: self.ident@, values: strings_view(self.values@) }
    }
}

pub open spec fn props_view(v: Seq<SgfProperty>) -> Seq<PropModel> {
    v.map_values(|p: SgfProperty| p@)
}

/// The model of a node.
pub open spec fn node_view(n: SgfNode) -> NodeModel
    decreases n, n.children@.len() + 1,
{
    NodeModel { props: props_view(n.properties@), children: children_view(n, 0) }
}

/// The models of the children of `n` from index `k` on.
pub open spec fn children_view(n: SgfNode, k: int) -> Seq<NodeModel>
    decreases n, n.children@.len() - k,
{
    if 0 <= k < n.children@.len() {
        seq![node_view(n.children@[k])].add(children_view(n, k + 1))
    } else {
        Seq::empty()
    }
}


/// `children_view` lists the models of the children, one for one.
pub proof fn lemma_children_view(n: SgfNode, k: int)
    requires
        0 <= k <= n.children@.len(),
    ensures
        children_view(n, k).len() == n.children@.len() - k,
        forall|i: int|
            0 <= i < n.children@.len() - k ==> #[trigger] children_view(n, k)[i] == node_view(
                n.children@[k + i],
            ),
    decreases n.children@.len() - k,
{
    if k < n.children@.len() {
        lemma_children_view(n, k + 1);
        assert forall|i: int| 0 <= i < n.children@.len() - k implies #[trigger] children_view(
            n,
            k,
        )[i] == node_view(n.children@[k + i]) by {
            if i > 0 {
                assert(children_view(n, k)[i] == children_view(n, k + 1)[i - 1]);
            }
        }
    }
}

/// The models of the children of a node are the models of its child nodes.
pub proof fn lemma_node_view(n: SgfNode)
    ensures
        node_view(n).props == props_view(n.properties@),
        node_view(n).children.len() == n.children@.len(),
        forall|i: int|
            0 <= i < n.children@.len() ==> #[trigger] node_view(n).children[i] == node_view(
                n.children@[i],
            ),
{
    lemma_children_view(n, 0);
}

/// An identifier: one or more ASCII upper-case letters.
pub open spec fn is_upper(c: char) -> bool {
    'A' <= c && c <= 'Z'
}

pub open spec fn valid_ident(id: Seq<char>) -> bool {
    id.len() > 0 && forall|i: int| 0 <= i < id.len() ==> is_upper(#[trigger] id[i])
}

pub open spec fn valid_prop(p: PropModel) -> bool {
    valid_ident(p.ident) && p.values.len() > 0
}

/// Every property of the node and of all nodes below it is valid.
pub open spec fn valid_node(n: NodeModel) -> bool
    decreases n,
{
    &&& forall|i: int| 0 <= i < n.props.len() ==> valid_prop(#[trigger] n.props[i])
    &&& forall|i: int| 0 <= i < n.children.len() ==> valid_node(#[trigger] n.children[i])
}

/// A structurally valid collection: at least one game, every node valid.
pub open spec fn valid_coll(c: CollModel) -> bool {
    c.len() > 0 && forall|i: int| 0 <= i < c.len() ==> valid_node(#[trigger] c[i])
}

pub open spec fn coll_view(c: SgfCollection) -> CollModel {
    c.games@.map_values(|g: SgfGame| node_view(g.root))
}

/// Why a collection built outside the parser is not fit for onward use.
#[derive(Debug, Clone, Copy, PartialEq, Eq, Structural)]
pub enum ValidationError {
    /// The collection holds no game.
    NoGames,
}

/// Accepts a collection for onward use exactly when it holds at least one
/// game.
pub fn validate_sgf(sgf: &SgfCollection) -> (r: Result<(), ValidationError>)
    ensures
        r is Ok <==> sgf.games@.len() > 0,
        r is Err ==> r == Err::<(), ValidationError>(ValidationError::NoGames),
{
    if sgf.games.len() == 0 {
        return Err(ValidationError::NoGames);
    }
    Ok(())
}

impl SgfNode {
    /// A node with no properties and no children.
    pub fn empty() -> (r: SgfNode)
        ensures
            r.properties@.len() == 0,
            r.children@.len() == 0,
            node_view(r) == (NodeModel { props: Seq::empty(), children: Seq::empty() }),
    {
        let r = SgfNode { properties: Vec::new(), children: Vec::new() };
        proof {
            lemma_node_view(r);
            assert(node_view(r).props =~= Seq::empty());
            assert(node_view(r).children =~= Seq::empty());
        }
        r
    }
}

} // verus!
