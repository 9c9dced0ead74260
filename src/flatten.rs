//! Projections of a tree: the flat address-to-value listing, the labelled display
//! tree, the one-level iteration view, and display text.
use crate::psets::{
    lemma_children_view, opt_view, NestedModel, Pset, PsetId, PsetModel, PsetNestedValue, Psets,
    PsetsModel,
};
use crate::value::{DynamicValue, JsonValue};
use vstd::prelude::*;
use vstd::string::*;

verus! {

/// A cell of the flat projection.
#[derive(Debug)]
pub enum PsetFlattenedValue {
    Pset(Pset),
    PsetId(PsetId),
    Value(DynamicValue),
}

/// Model of a `PsetFlattenedValue`.
pub enum FlatModel {
    Pset(PsetModel),
    PsetId(PsetId),
    Value(JsonValue),
}

impl View for PsetFlattenedValue {
    type V = FlatModel;

    open spec fn view(&self) -> FlatModel {
        match self {
            PsetFlattenedValue::Pset(x) => FlatModel::Pset(x@),
            PsetFlattenedValue::PsetId(x) => FlatModel::PsetId(*x),
            PsetFlattenedValue::Value(v) => FlatModel::Value(v@),
        }
    }
}

impl PsetFlattenedValue {
    pub fn copy(&self) -> (r: PsetFlattenedValue)
        ensures
            r@ == self@,
    {
        match self {
            PsetFlattenedValue::Pset(x) => PsetFlattenedValue::Pset(x.copy()),
            PsetFlattenedValue::PsetId(x) => PsetFlattenedValue::PsetId(*x),
            PsetFlattenedValue::Value(v) => PsetFlattenedValue::Value(v.copy()),
        }
    }
}

/// The model of a flat listing.
pub open spec fn flat_view(s: Seq<(String, PsetFlattenedValue)>) -> Seq<(Seq<char>, FlatModel)> {
    s.map_values(|x: (String, PsetFlattenedValue)| (x.0@, x.1@))
}

/// The address of a child: the parent's address, the delimiter, the key; a child
/// of the root has the key alone.
pub open spec fn prefix_of(addr: Option<Seq<char>>, delim: Seq<char>) -> Seq<char> {
    match addr {
        Some(a) => a + delim,
        None => Seq::empty(),
    }
}

pub open spec fn addr_or_empty(addr: Option<Seq<char>>) -> Seq<char> {
    match addr {
        Some(a) => a,
        None => Seq::empty(),
    }
}

/// The flat listing of a tree at address `addr`: a leaf gives one entry at that
/// address; a nested node gives its children's listings in order, each child at
/// its own address; an opaque child gives one `Value` entry.
pub open spec fn flatten_spec(p: PsetsModel, delim: Seq<char>, addr: Option<Seq<char>>) -> Seq<
    (Seq<char>, FlatModel),
>
    decreases p, 0int,
{
    match p {
        PsetsModel::Pset(x) => seq![(addr_or_empty(addr), FlatModel::Pset(x))],
        PsetsModel::PsetId(x) => seq![(addr_or_empty(addr), FlatModel::PsetId(x))],
        PsetsModel::Nested(e) => flatten_children(e, delim, prefix_of(addr, delim), e.len() as int),
    }
}

/// The listings of the first `n` children, under the given address prefix.
pub open spec fn flatten_children(
    e: Seq<(Seq<char>, NestedModel)>,
    delim: Seq<char>,
    prefix: Seq<char>,
    n: int,
) -> Seq<(Seq<char>, FlatModel)>
    decreases e, n,
{
    if n <= 0 || n > e.len() {
        Seq::empty()
    } else {
        flatten_children(e, delim, prefix, n - 1) + match e[n - 1].1 {
            NestedModel::Psets(q) => flatten_spec(q, delim, Some(prefix + e[n - 1].0)),
            NestedModel::Any(v) => seq![(prefix + e[n - 1].0, FlatModel::Value(v))],
        }
    }
}

fn concat(a: &str, b: &str) -> (r: String)
    ensures
        r@ == a@ + b@,
{
    let mut r = String::from_str(a);
    r.append(b);
    r
}

proof fn lemma_flat_view_push(s: Seq<(String, PsetFlattenedValue)>, x: (String, PsetFlattenedValue))
    ensures
        flat_view(s.push(x)) == flat_view(s).push((x.0@, x.1@)),
{
    assert(flat_view(s.push(x)) =~= flat_view(s).push((x.0@, x.1@)));
}

#[verifier::loop_isolation(false)]
fn flatten_into(
    p: &Psets,
    delim: &str,
    addr: Option<&String>,
    out: &mut Vec<(String, PsetFlattenedValue)>,
)
    ensures
        flat_view(final(out)@) == flat_view(old(out)@) + flatten_spec(
            p@,
            delim@,
            match addr {
                Some(a) => Some(a@),
                None => None,
            },
        ),
    decreases p,
{
    let ghost av = match addr {
        Some(a) => Some(a@),
        None => None::<Seq<char>>,
    };
    let here = match addr {
        Some(a) => a.clone(),
        None => String::new(),
    };
    match p {
        Psets::Pset(x) => {
            let ghost before = out@;
            out.push((here, PsetFlattenedValue::Pset(x.copy())));
            proof {
                lemma_flat_view_push(before, out@.last());
                assert(out@ == before.push(out@.last()));
            }
            assert(flat_view(out@) =~= flat_view(before) + flatten_spec(p@, delim@, av));
        },
        Psets::PsetId(x) => {
            let ghost before = out@;
            out.push((here, PsetFlattenedValue::PsetId(*x)));
            proof {
                lemma_flat_view_push(before, out@.last());
                assert(out@ == before.push(out@.last()));
            }
            assert(flat_view(out@) =~= flat_view(before) + flatten_spec(p@, delim@, av));
        },
        Psets::Nested(entries) => {
            let ghost start = flat_view(out@);
            let ghost e = p@->Nested_0;
            proof {
                lemma_children_view(entries@);
            }
            let prefix = match addr {
                Some(a) => concat(a.as_str(), delim),
                None => String::new(),
            };
            assert(prefix@ == prefix_of(av, delim@));
            let mut i: usize = 0;
            while i < entries.len()
                invariant
                    i <= entries.len(),
                    e.len() == entries.len(),
                    flat_view(out@) == start + flatten_children(e, delim@, prefix@, i as int),
                decreases entries.len() - i,
            {
                proof {
                    vstd::std_specs::vec::axiom_vec_index_decreases(*entries, i as int);
                }
                let sub = concat(prefix.as_str(), entries[i].0.as_str());
                assert(e[i as int] == (entries[i as int].0@, entries[i as int].1@));
                let ghost mid = flat_view(out@);
                match &entries[i].1 {
                    PsetNestedValue::Psets(q) => {
                        flatten_into(q, delim, Some(&sub), out);
                    },
                    PsetNestedValue::Any(v) => {
                        let ghost before = out@;
                        out.push((sub, PsetFlattenedValue::Value(v.copy())));
                        proof {
                            lemma_flat_view_push(before, out@.last());
                            assert(out@ == before.push(out@.last()));
                        }
                    },
                }
                assert(flat_view(out@) =~= start + flatten_children(e, delim@, prefix@, i + 1));
                i += 1;
            }
        },
    }
}

impl Psets {
    /// The flat listing of the tree, with addresses joined by `delimiter` (`":"`
    /// when none is given), starting from `addr` (the root has none).
    pub fn rust_flatten(&self, delimiter: Option<&String>, addr: Option<&String>) -> (r: Vec<
        (String, PsetFlattenedValue),
    >)
        ensures
            flat_view(r@) == flatten_spec(
                self@,
                match delimiter {
                    Some(d) => d@,
                    None => ":"@,
                },
                match addr {
                    Some(a) => Some(a@),
                    None => None,
                },
            ),
    {
        let mut out: Vec<(String, PsetFlattenedValue)> = Vec::new();
        let default = String::from_str(":");
        let delim: &str = match delimiter {
            Some(d) => d.as_str(),
            None => default.as_str(),
        };
        flatten_into(self, delim, addr, &mut out);
        assert(flat_view(Seq::<(String, PsetFlattenedValue)>::empty()) =~= Seq::empty());
        assert(flat_view(out@) =~= flatten_spec(
            self@,
            match delimiter {
                Some(d) => d@,
                None => ":"@,
            },
            match addr {
                Some(a) => Some(a@),
                None => None,
            },
        ));
        out
    }

    /// The flat listing of the whole tree, with addresses joined by `delimiter`.
    pub fn flatten(&self, delimiter: &String) -> (r: Vec<(String, PsetFlattenedValue)>)
        ensures
            flat_view(r@) == flatten_spec(self@, delimiter@, None),
    {
        self.rust_flatten(Some(delimiter), None)
    }
}

/// A node label of the display tree: an optional address and an optional cell.
#[derive(Debug)]
pub struct PsetFlattenedValueWithAddress {
    pub addr: Option<String>,
    pub entity: Option<PsetFlattenedValue>,
}

/// The display tree of a `Psets`.
#[derive(Debug)]
pub struct PsetTree {
    pub node: PsetFlattenedValueWithAddress,
    pub children: Vec<PsetTree>,
}

/// Model of a node label.
pub struct LabelModel {
    pub addr: Option<Seq<char>>,
    pub entity: Option<FlatModel>,
}

/// Model of a display tree.
pub struct TreeModel {
    pub node: LabelModel,
    pub children: Seq<TreeModel>,
}

impl View for PsetFlattenedValueWithAddress {
    type V = LabelModel;

    open spec fn view(&self) -> LabelModel {
        LabelModel {
            addr: opt_view(self.addr),
            entity: match self.entity {
                Some(x) => Some(x@),
                None => None,
            },
        }
    }
}

impl View for PsetTree {
    type V = TreeModel;

    open spec fn view(&self) -> TreeModel
        decreases self,
    {
        TreeModel { node: self.node@, children: subtrees_view(self.children@) }
    }
}

/// The models of a sequence of subtrees, in order.
pub open spec fn subtrees_view(s: Seq<PsetTree>) -> Seq<TreeModel>
    decreases s,
{
    if s.len() == 0 {
        Seq::empty()
    } else {
        subtrees_view(s.drop_last()).push(s.last().view())
    }
}

pub proof fn lemma_subtrees_view(s: Seq<PsetTree>)
    ensures
        subtrees_view(s).len() == s.len(),
        forall|j: int| 0 <= j < s.len() ==> #[trigger] subtrees_view(s)[j] == s[j]@,
    decreases s.len(),
{
    if s.len() > 0 {
        lemma_subtrees_view(s.drop_last());
        assert(subtrees_view(s) == subtrees_view(s.drop_last()).push(s.last()@));
    } else {
        assert(subtrees_view(s) == Seq::<TreeModel>::empty());
    }
}

pub open spec fn leaf_tree(addr: Option<Seq<char>>, f: FlatModel) -> TreeModel {
    TreeModel { node: LabelModel { addr, entity: Some(f) }, children: Seq::empty() }
}

/// The display tree at address `addr`: a leaf is a childless node holding it; a
/// nested node holds no cell and has one child per key, addressed by the key.
pub open spec fn tree_spec(p: PsetsModel, addr: Option<Seq<char>>) -> TreeModel
    decreases p, 0int,
{
    match p {
        PsetsModel::Pset(x) => leaf_tree(addr, FlatModel::Pset(x)),
        PsetsModel::PsetId(x) => leaf_tree(addr, FlatModel::PsetId(x)),
        PsetsModel::Nested(e) => TreeModel {
            node: LabelModel { addr, entity: None },
            children: tree_children(e, e.len() as int),
        },
    }
}

/// The display trees of the first `n` children.
pub open spec fn tree_children(e: Seq<(Seq<char>, NestedModel)>, n: int) -> Seq<TreeModel>
    decreases e, n,
{
    if n <= 0 || n > e.len() {
        Seq::empty()
    } else {
        tree_children(e, n - 1).push(
            match e[n - 1].1 {
                NestedModel::Psets(q) => tree_spec(q, Some(e[n - 1].0)),
                NestedModel::Any(v) => leaf_tree(Some(e[n - 1].0), FlatModel::Value(v)),
            },
        )
    }
}

fn leaf_node(addr: Option<String>, f: PsetFlattenedValue) -> (r: PsetTree)
    ensures
        r@ == leaf_tree(opt_view(addr), f@),
{
    let r = PsetTree {
        node: PsetFlattenedValueWithAddress { addr, entity: Some(f) },
        children: Vec::new(),
    };
    assert(r@.children =~= Seq::<TreeModel>::empty());
    r
}

impl Psets {
    /// The display tree, with the root at address `addr`.
    #[verifier::loop_isolation(false)]
    pub fn as_tree(&self, addr: Option<String>) -> (r: PsetTree)
        ensures
            r@ == tree_spec(self@, opt_view(addr)),
        decreases self,
    {
        match self {
            Psets::Pset(x) => leaf_node(addr, PsetFlattenedValue::Pset(x.copy())),
            Psets::PsetId(x) => leaf_node(addr, PsetFlattenedValue::PsetId(*x)),
            Psets::Nested(entries) => {
                let ghost e = self@->Nested_0;
                proof {
                    lemma_children_view(entries@);
                }
                let mut children: Vec<PsetTree> = Vec::new();
                let mut i: usize = 0;
                while i < entries.len()
                    invariant
                        i <= entries.len(),
                        e.len() == entries.len(),
                        children.len() == i,
                        forall|j: int|
                            0 <= j < i ==> (#[trigger] children[j])@ == tree_children(e, i as int)[j],
                        tree_children(e, i as int).len() == i,
                    decreases entries.len() - i,
                {
                    proof {
                        vstd::std_specs::vec::axiom_vec_index_decreases(*entries, i as int);
                    }
                    assert(e[i as int] == (entries[i as int].0@, entries[i as int].1@));
                    let child = match &entries[i].1 {
                        PsetNestedValue::Psets(q) => q.as_tree(Some(entries[i].0.clone())),
                        PsetNestedValue::Any(v) => leaf_node(
                            Some(entries[i].0.clone()),
                            PsetFlattenedValue::Value(v.copy()),
                        ),
                    };
                    children.push(child);
                    i += 1;
                }
                let r = PsetTree { node: PsetFlattenedValueWithAddress { addr, entity: None }, children };
                proof {
                    lemma_subtrees_view(children@);
                }
                assert(r@.children =~= tree_children(e, e.len() as int));
                r
            },
        }
    }
}

/// The one-level view of a tree: a leaf gives itself under no key; a nested node
/// gives each child under its key, in order.
pub open spec fn pairs_of(p: PsetsModel) -> Seq<(Option<Seq<char>>, NestedModel)> {
    match p {
        PsetsModel::Nested(e) => Seq::new(e.len(), |i: int| (Some(e[i].0), e[i].1)),
        _ => seq![(None, NestedModel::Psets(p))],
    }
}

/// A forward, non-restartable walk over the one-level view of a tree.
pub struct PsetsIterator {
    pub entity: Psets,
    pub index: usize,
}

impl PsetsIterator {
    /// A walk from the start of the view of `entity`.
    pub fn new(entity: &Psets) -> (r: PsetsIterator)
        ensures
            r.entity@ == entity@,
            r.index == 0,
    {
        PsetsIterator { entity: entity.copy(), index: 0 }
    }

    /// The next pair of the view, if any is left.
    pub fn next(&mut self) -> (r: Option<(Option<String>, PsetNestedValue)>)
        ensures
            final(self).entity@ == old(self).entity@,
            old(self).index < pairs_of(old(self).entity@).len() ==> {
                &&& r matches Some(x)
                &&& (opt_view(x.0), x.1@) == pairs_of(old(self).entity@)[old(self).index as int]
                &&& final(self).index == old(self).index + 1
            },
            old(self).index >= pairs_of(old(self).entity@).len() ==> {
                &&& r is None
                &&& final(self).index == old(self).index
            },
    {
        let i = self.index;
        match &self.entity {
            Psets::Nested(entries) => {
                proof {
                    lemma_children_view(entries@);
                }
                if i < entries.len() {
                    let key = entries[i].0.clone();
                    let child = entries[i].1.copy();
                    self.index = i + 1;
                    Some((Some(key), child))
                } else {
                    None
                }
            },
            _ => {
                if i == 0 {
                    let me = self.entity.copy();
                    self.index = 1;
                    Some((None, PsetNestedValue::Psets(me)))
                } else {
                    None
                }
            },
        }
    }
}

impl Psets {
    /// A fresh walk over the one-level view.
    pub fn iter(&self) -> (r: PsetsIterator)
        ensures
            r.entity@ == self@,
            r.index == 0,
    {
        PsetsIterator::new(self)
    }
}

} // verus!
