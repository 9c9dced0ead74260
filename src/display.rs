//! Display text of the entities and of the display tree.
use crate::flatten::{
    lemma_subtrees_view, tree_spec, FlatModel, LabelModel, PsetFlattenedValue,
    PsetFlattenedValueWithAddress, PsetTree, TreeModel,
};
use crate::psets::{nested_json, pset_id_json, pset_json, Pset, PsetId, PsetNestedValue, Psets};
use crate::value::json_text;
use vstd::prelude::*;
use vstd::string::*;

verus! {

/// The text of a `PsetId`: its name around its wire form.
pub open spec fn pset_id_text(x: PsetId) -> Seq<char> {
    "PsetId("@ + json_text(pset_id_json(x)) + ")"@
}

/// The text of a cell: a leaf as its name around its wire form, a value as its JSON text.
pub open spec fn flat_text(f: FlatModel) -> Seq<char> {
    match f {
        FlatModel::Pset(x) => "Pset("@ + json_text(pset_json(x)) + ")"@,
        FlatModel::PsetId(x) => pset_id_text(x),
        FlatModel::Value(v) => json_text(v),
    }
}

/// The text of a node label; a node without address is labelled `Psets`.
pub open spec fn label_text(l: LabelModel) -> Seq<char> {
    match (l.addr, l.entity) {
        (None, None) => "Psets"@,
        (Some(a), None) => a,
        (None, Some(f)) => "Psets: "@ + flat_text(f),
        (Some(a), Some(f)) => a + ": "@ + flat_text(f),
    }
}

/// The text of a display tree: one line per node, in pre-order, each indented by
/// two spaces per level below the root.
pub open spec fn tree_text(t: TreeModel, indent: Seq<char>) -> Seq<char>
    decreases t, 0int,
{
    indent + label_text(t.node) + "\n"@ + subtrees_text(
        t.children,
        indent + "  "@,
        t.children.len() as int,
    )
}

/// The text of the first `n` subtrees.
pub open spec fn subtrees_text(s: Seq<TreeModel>, indent: Seq<char>, n: int) -> Seq<char>
    decreases s, n,
{
    if n <= 0 || n > s.len() {
        Seq::empty()
    } else {
        subtrees_text(s, indent, n - 1) + tree_text(s[n - 1], indent)
    }
}

impl PsetId {
    /// `PsetId(<wire form>)`.
    pub fn to_string(&self) -> (r: String)
        ensures
            r@ == pset_id_text(*self),
    {
        let mut r = String::from_str("PsetId(");
        r.append(self.to_json().to_json_text().as_str());
        r.append(")");
        r
    }
}

impl Pset {
    /// `Pset(<wire form>)`.
    pub fn to_string(&self) -> (r: String)
        ensures
            r@ == flat_text(FlatModel::Pset(self@)),
    {
        let mut r = String::from_str("Pset(");
        r.append(self.to_json().to_json_text().as_str());
        r.append(")");
        r
    }
}

impl PsetFlattenedValue {
    pub fn to_string(&self) -> (r: String)
        ensures
            r@ == flat_text(self@),
    {
        match self {
            PsetFlattenedValue::Pset(x) => x.to_string(),
            PsetFlattenedValue::PsetId(x) => x.to_string(),
            PsetFlattenedValue::Value(v) => v.to_json_text(),
        }
    }
}

impl PsetFlattenedValueWithAddress {
    pub fn to_string(&self) -> (r: String)
        ensures
            r@ == label_text(self@),
    {
        match (&self.addr, &self.entity) {
            (None, None) => String::from_str("Psets"),
            (Some(a), None) => a.clone(),
            (None, Some(f)) => {
                let mut r = String::from_str("Psets: ");
                r.append(f.to_string().as_str());
                r
            },
            (Some(a), Some(f)) => {
                let mut r = a.clone();
                r.append(": ");
                r.append(f.to_string().as_str());
                r
            },
        }
    }
}

#[verifier::loop_isolation(false)]
fn write_tree(t: &PsetTree, indent: &str, out: &mut String)
    ensures
        final(out)@ == old(out)@ + tree_text(t@, indent@),
    decreases t,
{
    let ghost start = out@;
    out.append(indent);
    out.append(t.node.to_string().as_str());
    out.append("\n");
    let mut deeper = String::from_str(indent);
    deeper.append("  ");
    proof {
        lemma_subtrees_view(t.children@);
    }
    let ghost m = t@.children;
    let mut i: usize = 0;
    while i < t.children.len()
        invariant
            i <= t.children.len(),
            m.len() == t.children.len(),
            out@ == start + indent@ + label_text(t@.node) + "\n"@ + subtrees_text(
                m,
                deeper@,
                i as int,
            ),
        decreases t.children.len() - i,
    {
        proof {
            vstd::std_specs::vec::axiom_vec_index_decreases(t.children, i as int);
        }
        write_tree(&t.children[i], deeper.as_str(), out);
        assert(m[i as int] == t.children[i as int]@);
        i += 1;
    }
    assert(out@ =~= start + tree_text(t@, indent@));
}

impl PsetTree {
    /// The text of the tree, the root unindented.
    pub fn to_string(&self) -> (r: String)
        ensures
            r@ == tree_text(self@, Seq::empty()),
    {
        let mut out = String::new();
        write_tree(self, "", &mut out);
        proof {
            reveal_strlit("");
        }
        out
    }
}

impl Psets {
    /// The text of the display tree of the whole tree.
    pub fn to_string(&self) -> (r: String)
        ensures
            r@ == tree_text(tree_spec(self@, None), Seq::empty()),
    {
        self.as_tree(None).to_string()
    }
}

impl PsetNestedValue {
    /// A subtree's display text, or a value's JSON text.
    pub fn to_string(&self) -> (r: String)
        ensures
            self is Psets ==> r@ == tree_text(tree_spec(self->Psets_0@, None), Seq::empty()),
            self is Any ==> r@ == json_text(nested_json(self@)),
    {
        match self {
            PsetNestedValue::Psets(x) => x.to_string(),
            PsetNestedValue::Any(v) => v.to_json_text(),
        }
    }
}

} // verus!
