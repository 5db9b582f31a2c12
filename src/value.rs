use vstd::prelude::*;

verus! {

broadcast use vstd::std_specs::vec::group_vec_axioms;

/// A decoded data item.
#[derive(Debug, PartialEq)]
pub enum Ipld {
    Null,
    Bool(bool),
    Integer(i128),
    /// The IEEE-754 binary64 bit pattern of a float.
    Float(u64),
    Bytes(Vec<u8>),
    String(String),
    List(Vec<Ipld>),
    /// Entries in strictly increasing key order.
    Dict(Vec<(String, Ipld)>),
    /// The binary form of a content identifier.
    Link(Vec<u8>),
}

/// The mathematical model of an `Ipld` value.
pub enum Node {
    Null,
    Bool(bool),
    Integer(int),
    Float(u64),
    Bytes(Seq<u8>),
    Text(Seq<char>),
    List(Seq<Node>),
    Dict(Seq<(Seq<char>, Node)>),
    Link(Seq<u8>),
}

impl Ipld {
    pub open spec fn node(&self) -> Node
        decreases self,
    {
        match self {
            Ipld::Null => Node::Null,
            Ipld::Bool(b) => Node::Bool(*b),
            Ipld::Integer(i) => Node::Integer(*i as int),
            Ipld::Float(f) => Node::Float(*f),
            Ipld::Bytes(b) => Node::Bytes(b@),
            Ipld::String(s) => Node::Text(s@),
            Ipld::List(v) => Node::List(
                Seq::new(v.len() as nat, |i: int| if 0 <= i < v.len() { v[i].node() } else { Node::Null }),
            ),
            Ipld::Dict(v) => Node::Dict(
                Seq::new(v.len() as nat, |i: int| if 0 <= i < v.len() { (v[i].0@, v[i].1.node()) } else { (Seq::empty(), Node::Null) }),
            ),
            Ipld::Link(c) => Node::Link(c@),
        }
    }
}

} // verus!

verus! {

/// The models of a list's items.
pub open spec fn nodes(v: Seq<Ipld>) -> Seq<Node> {
    Seq::new(v.len(), |i: int| v[i].node())
}

/// The models of a map's entries.
pub open spec fn entries(v: Seq<(String, Ipld)>) -> Seq<(Seq<char>, Node)> {
    Seq::new(v.len(), |i: int| (v[i].0@, v[i].1.node()))
}

} // verus!

verus! {

pub proof fn lemma_list_node(v: Vec<Ipld>)
    ensures
        Ipld::List(v).node() == Node::List(nodes(v@)),
{
    assert(Ipld::List(v).node()->List_0 =~= nodes(v@));
}

pub proof fn lemma_dict_node(v: Vec<(String, Ipld)>)
    ensures
        Ipld::Dict(v).node() == Node::Dict(entries(v@)),
{
    assert(Ipld::Dict(v).node()->Dict_0 =~= entries(v@));
}

} // verus!
