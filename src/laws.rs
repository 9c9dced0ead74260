//! Laws that relate the operations of the library to each other.
use crate::errors::{LeafField, ParseError};
use crate::psets::{
    entry_error, fits,
    children_json, field_of, first_error, lemma_children_json, lemma_field_value,
    lemma_parse_children, named_before, parse_children, parse_nested, parse_pset, parse_pset_id,
    parse_psets, pset_id_json, pset_json, psets_json, NestedModel, PsetId, PsetModel, Psets,
    PsetsModel,
};
use crate::flatten::{flatten_children, flatten_spec, pairs_of, prefix_of, FlatModel};
use crate::value::{json_wf, keys_unique, lemma_members_wf, JsonValue};
use vstd::prelude::*;

verus! {

/// The trees that read back as themselves: every nested node's wire form must not
/// read as a leaf, and no opaque child may be an object (an object always reads
/// as a tree).
pub open spec fn is_canonical(p: PsetsModel) -> bool
    decreases p, 0int,
{
    match p {
        PsetsModel::Nested(e) => parse_pset(psets_json(p)) is Err && parse_pset_id(psets_json(p))
            is Err && children_canonical(e, e.len() as int),
        _ => true,
    }
}

/// The first `n` children are canonical subtrees or non-object values.
pub open spec fn children_canonical(e: Seq<(Seq<char>, NestedModel)>, n: int) -> bool
    decreases e, n,
{
    if n <= 0 || n > e.len() {
        true
    } else {
        children_canonical(e, n - 1) && match e[n - 1].1 {
            NestedModel::Psets(q) => is_canonical(q),
            NestedModel::Any(v) => !(v is Object),
        }
    }
}

proof fn lemma_children_canonical(e: Seq<(Seq<char>, NestedModel)>, n: int)
    requires
        0 <= n <= e.len(),
        children_canonical(e, n),
    ensures
        forall|j: int|
            0 <= j < n ==> match #[trigger] e[j].1 {
                NestedModel::Psets(q) => is_canonical(q),
                NestedModel::Any(v) => !(v is Object),
            },
    decreases n,
{
    if n > 0 {
        lemma_children_canonical(e, n - 1);
    }
}

/// The wire names read as their fields.
pub proof fn lemma_field_names()
    ensures
        field_of("id"@) == Some(LeafField::Id),
        field_of("class"@) == Some(LeafField::Class),
        field_of("value"@) == Some(LeafField::Value),
        field_of("value-type"@) == Some(LeafField::ValueType),
{
    reveal_strlit("id");
    reveal_strlit("id_");
    reveal_strlit("class");
    reveal_strlit("class_");
    reveal_strlit("value");
    reveal_strlit("value-type");
    reveal_strlit("value_type");
    assert("value"@[0] != "class"@[0]);
    assert("value-type"@[5] != "value_type"@[5]);
    assert("value-type"@.len() != "value"@.len());
    assert("value-type"@.len() != "class_"@.len());
    assert("value-type"@.len() != "class"@.len());
    assert("value-type"@.len() != "id_"@.len());
    assert("value-type"@.len() != "id"@.len());
}

/// A `PsetId` reads back from its wire form.
pub proof fn lemma_pset_id_round_trip(x: PsetId)
    ensures
        parse_pset_id(pset_id_json(x)) == Ok::<PsetId, ParseError>(x),
{
    lemma_field_names();
    let e = pset_id_json(x)->Object_0;
    assert(field_of(e[0].0) == Some(LeafField::Id));
    assert(!named_before(e, 0, LeafField::Id));
    assert(fits(LeafField::Id, e[0].1));
    assert(entry_error(e, 0, false) is None);
    reveal_with_fuel(first_error, 2);
    assert(first_error(e, 1, false) is None);
    assert(named_before(e, 1, LeafField::Id));
    lemma_field_value(e, false, 0, LeafField::Id);
}

/// A `Pset` reads back from its wire form.
pub proof fn lemma_pset_round_trip(x: PsetModel)
    ensures
        parse_pset(pset_json(x)) == Ok::<PsetModel, ParseError>(x),
{
    lemma_field_names();
    let e = pset_json(x)->Object_0;
    assert(field_of(e[0].0) == Some(LeafField::Class));
    assert(field_of(e[1].0) == Some(LeafField::Id));
    assert(field_of(e[2].0) == Some(LeafField::Value));
    assert(field_of(e[3].0) == Some(LeafField::ValueType));
    assert forall|k: int, f: LeafField|
        0 <= k < 4 && field_of(e[k].0) == Some(f) implies !named_before(e, k, f) by {
        assert forall|j: int| 0 <= j < k implies #[trigger] field_of(e[j].0) != Some(f) by {
            if j == 0 {
            } else if j == 1 {
            } else {
            }
        }
    }
    reveal_with_fuel(first_error, 5);
    assert(first_error(e, 1, true) is None);
    assert(first_error(e, 2, true) is None);
    assert(first_error(e, 3, true) is None);
    assert(first_error(e, 4, true) is None);
    assert(named_before(e, 4, LeafField::Id));
    assert(named_before(e, 4, LeafField::Class));
    assert(named_before(e, 4, LeafField::Value));
    assert(named_before(e, 4, LeafField::ValueType));
    lemma_field_value(e, true, 0, LeafField::Class);
    lemma_field_value(e, true, 1, LeafField::Id);
    lemma_field_value(e, true, 2, LeafField::Value);
    lemma_field_value(e, true, 3, LeafField::ValueType);
}

/// A value that is not an object never reads as a tree.
pub proof fn lemma_non_object_is_refused(v: JsonValue)
    requires
        !(v is Object),
    ensures
        parse_psets(v) == Err::<PsetsModel, ParseError>(ParseError::InvalidType),
        parse_nested(v) == NestedModel::Any(v),
{
}

/// Reading as a tree succeeds exactly on objects: an object that reads as
/// neither leaf falls back to a nested node, one child per entry in order; any
/// other value is refused as of the wrong type.
pub proof fn lemma_objects_read(v: JsonValue)
    ensures
        parse_psets(v) is Ok <==> v is Object,
        !(v is Object) ==> parse_psets(v) == Err::<PsetsModel, ParseError>(ParseError::InvalidType),
        (v is Object && parse_pset(v) is Err && parse_pset_id(v) is Err) ==> parse_psets(v)
            == Ok::<PsetsModel, ParseError>(
            PsetsModel::Nested(parse_children(v->Object_0, v->Object_0.len() as int)),
        ),
{
}

/// Round trip: a canonical tree reads back from its wire form. Leaves always
/// are canonical.
pub proof fn lemma_psets_round_trip(p: PsetsModel)
    requires
        is_canonical(p),
    ensures
        parse_psets(psets_json(p)) == Ok::<PsetsModel, ParseError>(p),
    decreases p,
{
    match p {
        PsetsModel::Pset(x) => {
            lemma_pset_round_trip(x);
        },
        PsetsModel::PsetId(x) => {
            lemma_pset_id_round_trip(x);
            lemma_field_names();
            let e = pset_id_json(x)->Object_0;
            assert(field_of(e[0].0) == Some(LeafField::Id));
            assert(entry_error(e, 0, true) is None);
            reveal_with_fuel(first_error, 2);
            assert(first_error(e, 1, true) is None);
            assert(!named_before(e, 1, LeafField::Class));
        },
        PsetsModel::Nested(e) => {
            let n = e.len() as int;
            let cj = children_json(e, n);
            lemma_children_json(e, n);
            lemma_children_canonical(e, n);
            lemma_parse_children(cj, n);
            assert forall|j: int| 0 <= j < n implies #[trigger] parse_children(cj, n)[j] == e[j] by {
                match e[j].1 {
                    NestedModel::Psets(q) => {
                        lemma_psets_round_trip(q);
                    },
                    NestedModel::Any(v) => {
                        lemma_non_object_is_refused(v);
                    },
                }
            }
            assert(parse_children(cj, n) =~= e);
        },
    }
}

/// Round trip on the library's own types: reading back the wire form of a
/// canonical tree gives the same tree.
pub proof fn lemma_round_trip(p: Psets)
    requires
        is_canonical(p@),
    ensures
        parse_psets(psets_json(p@)) == Ok::<PsetsModel, ParseError>(p@),
{
    lemma_psets_round_trip(p@);
}

/// A tree is well formed when every nested node has distinct keys and every
/// value in it is well formed.
pub open spec fn psets_wf(p: PsetsModel) -> bool
    decreases p, 0int,
{
    match p {
        PsetsModel::Pset(x) => json_wf(x.value),
        PsetsModel::PsetId(_) => true,
        PsetsModel::Nested(e) => keys_unique(e) && children_wf(e, e.len() as int),
    }
}

/// The first `n` children are well formed.
pub open spec fn children_wf(e: Seq<(Seq<char>, NestedModel)>, n: int) -> bool
    decreases e, n,
{
    if n <= 0 || n > e.len() {
        true
    } else {
        children_wf(e, n - 1) && match e[n - 1].1 {
            NestedModel::Psets(q) => psets_wf(q),
            NestedModel::Any(v) => json_wf(v),
        }
    }
}

proof fn lemma_children_wf(e: Seq<(Seq<char>, NestedModel)>, n: int)
    requires
        0 <= n <= e.len(),
        forall|j: int|
            0 <= j < n ==> match #[trigger] e[j].1 {
                NestedModel::Psets(q) => psets_wf(q),
                NestedModel::Any(v) => json_wf(v),
            },
    ensures
        children_wf(e, n),
    decreases n,
{
    if n > 0 {
        lemma_children_wf(e, n - 1);
    }
}

/// Reading a well-formed value gives a well-formed tree: in particular every
/// nested node has distinct keys.
pub proof fn lemma_parse_wf(v: JsonValue)
    requires
        json_wf(v),
        parse_psets(v) is Ok,
    ensures
        psets_wf(parse_psets(v)->Ok_0),
    decreases v,
{
    match v {
        JsonValue::Object(m) => {
            let n = m.len() as int;
            lemma_members_wf(m, n);
            match parse_pset(v) {
                Ok(x) => {
                    let c = choose|j: int| 0 <= j < m.len() && #[trigger] field_of(m[j].0) == Some(
                        LeafField::Value,
                    );
                    assert(named_before(m, n, LeafField::Value));
                    assert(json_wf(m[c].1));
                },
                Err(_) => {
                    if parse_pset_id(v) is Err {
                        let c = parse_children(m, n);
                        lemma_parse_children(m, n);
                        assert forall|j: int|
                            0 <= j < n implies match #[trigger] c[j].1 {
                            NestedModel::Psets(q) => psets_wf(q),
                            NestedModel::Any(w) => json_wf(w),
                        } by {
                            assert(json_wf(m[j].1));
                            if parse_psets(m[j].1) is Ok {
                                lemma_parse_wf(m[j].1);
                            }
                        }
                        lemma_children_wf(c, n);
                        assert(keys_unique(c));
                    }
                },
            }
        },
        _ => {},
    }
}

/// Flattening a leaf at the root gives exactly one entry, under the empty
/// address, holding the leaf.
pub proof fn lemma_leaf_flatten(p: PsetsModel, delim: Seq<char>)
    requires
        !(p is Nested),
    ensures
        flatten_spec(p, delim, None).len() == 1,
        flatten_spec(p, delim, None)[0].0 == Seq::<char>::empty(),
        p matches PsetsModel::Pset(x) ==> flatten_spec(p, delim, None)[0].1 == FlatModel::Pset(x),
        p matches PsetsModel::PsetId(x) ==> flatten_spec(p, delim, None)[0].1 == FlatModel::PsetId(
            x,
        ),
{
}

/// No key of any nested node, at any depth, holds the character `c`.
pub open spec fn keys_avoid(p: PsetsModel, c: char) -> bool
    decreases p, 0int,
{
    match p {
        PsetsModel::Nested(e) => children_avoid(e, c, e.len() as int),
        _ => true,
    }
}

/// No key among the first `n` children, nor in their subtrees, holds `c`.
pub open spec fn children_avoid(e: Seq<(Seq<char>, NestedModel)>, c: char, n: int) -> bool
    decreases e, n,
{
    if n <= 0 || n > e.len() {
        true
    } else {
        children_avoid(e, c, n - 1) && !e[n - 1].0.contains(c) && match e[n - 1].1 {
            NestedModel::Psets(q) => keys_avoid(q, c),
            NestedModel::Any(_) => true,
        }
    }
}

/// The addresses of a listing are pairwise distinct.
pub open spec fn addresses_unique(s: Seq<(Seq<char>, FlatModel)>) -> bool {
    forall|i: int, j: int| 0 <= i < j < s.len() ==> s[i].0 != s[j].0
}

pub open spec fn starts_with(x: Seq<char>, pre: Seq<char>) -> bool {
    x.len() >= pre.len() && x.subrange(0, pre.len() as int) == pre
}

/// An address at `base` or below it.
pub open spec fn at_or_below(x: Seq<char>, base: Seq<char>, c: char) -> bool {
    x == base || starts_with(x, base.push(c))
}

proof fn lemma_children_avoid(e: Seq<(Seq<char>, NestedModel)>, c: char, n: int)
    requires
        0 <= n <= e.len(),
        children_avoid(e, c, n),
    ensures
        forall|j: int|
            0 <= j < n ==> !(#[trigger] e[j]).0.contains(c) && match e[j].1 {
                NestedModel::Psets(q) => keys_avoid(q, c),
                NestedModel::Any(_) => true,
            },
    decreases n,
{
    if n > 0 {
        lemma_children_avoid(e, c, n - 1);
    }
}

/// Below two different keys that do not hold `c`, no address is shared.
proof fn lemma_keys_part(x: Seq<char>, pre: Seq<char>, k1: Seq<char>, k2: Seq<char>, c: char)
    requires
        k1 != k2,
        !k1.contains(c),
        !k2.contains(c),
    ensures
        at_or_below(x, pre + k1, c) ==> !at_or_below(x, pre + k2, c),
{
    if at_or_below(x, pre + k1, c) && at_or_below(x, pre + k2, c) {
        lemma_keys_part_both(x, pre, k1, k2, c);
    }
}

proof fn lemma_keys_part_both(x: Seq<char>, pre: Seq<char>, k1: Seq<char>, k2: Seq<char>, c: char)
    requires
        !k1.contains(c),
        !k2.contains(c),
        at_or_below(x, pre + k1, c),
        at_or_below(x, pre + k2, c),
    ensures
        k1 == k2,
{
    let b1 = pre + k1;
    let b2 = pre + k2;
    assert(x.subrange(0, b1.len() as int) == b1) by {
        if x != b1 {
            assert(b1.push(c).subrange(0, b1.len() as int) =~= b1);
            assert(x.subrange(0, b1.len() as int) =~= x.subrange(0, b1.len() + 1int).subrange(
                0,
                b1.len() as int,
            ));
        } else {
            assert(x.subrange(0, b1.len() as int) =~= x);
        }
    }
    assert(x.subrange(0, b2.len() as int) == b2) by {
        if x != b2 {
            assert(b2.push(c).subrange(0, b2.len() as int) =~= b2);
            assert(x.subrange(0, b2.len() as int) =~= x.subrange(0, b2.len() + 1int).subrange(
                0,
                b2.len() as int,
            ));
        } else {
            assert(x.subrange(0, b2.len() as int) =~= x);
        }
    }
    if k1.len() == k2.len() {
        assert(k1 =~= k2) by {
            assert forall|i: int| 0 <= i < k1.len() implies k1[i] == k2[i] by {
                assert(b1[pre.len() + i] == x[pre.len() + i]);
                assert(b2[pre.len() + i] == x[pre.len() + i]);
            }
        }
    } else if k1.len() < k2.len() {
        assert(x != b1);
        assert(x[b1.len() as int] == c) by {
            assert(x.subrange(0, b1.len() + 1int)[b1.len() as int] == b1.push(c)[b1.len() as int]);
        }
        assert(k2[k1.len() as int] == c) by {
            assert(b2[b1.len() as int] == x[b1.len() as int]);
        }
    } else {
        assert(x != b2);
        assert(x[b2.len() as int] == c) by {
            assert(x.subrange(0, b2.len() + 1int)[b2.len() as int] == b2.push(c)[b2.len() as int]);
        }
        assert(k1[k2.len() as int] == c) by {
            assert(b1[b2.len() as int] == x[b2.len() as int]);
        }
    }
}

proof fn lemma_children_wf_get(e: Seq<(Seq<char>, NestedModel)>, n: int)
    requires
        0 <= n <= e.len(),
        children_wf(e, n),
    ensures
        forall|j: int|
            0 <= j < n ==> match #[trigger] e[j].1 {
                NestedModel::Psets(q) => psets_wf(q),
                NestedModel::Any(v) => json_wf(v),
            },
    decreases n,
{
    if n > 0 {
        lemma_children_wf_get(e, n - 1);
    }
}

/// An address below `b` followed by `c` and a key is below `b`.
proof fn lemma_below_extends(x: Seq<char>, b: Seq<char>, k: Seq<char>, c: char)
    requires
        at_or_below(x, b.push(c) + k, c),
    ensures
        at_or_below(x, b, c),
{
    let base = b.push(c) + k;
    assert(base.subrange(0, b.len() + 1int) =~= b.push(c));
    if x == base {
        assert(x.subrange(0, b.len() + 1int) =~= b.push(c));
    } else {
        assert(base.push(c).subrange(0, b.len() + 1int) =~= b.push(c));
        assert(x.subrange(0, b.len() + 1int) =~= x.subrange(0, base.len() + 1int).subrange(
            0,
            b.len() + 1int,
        ));
    }
}

/// Every address of the listing of a subtree at `b` is `b` or below it.
proof fn lemma_flatten_below(p: PsetsModel, c: char, b: Seq<char>)
    ensures
        forall|i: int|
            0 <= i < flatten_spec(p, seq![c], Some(b)).len() ==> at_or_below(
                #[trigger] flatten_spec(p, seq![c], Some(b))[i].0,
                b,
                c,
            ),
    decreases p, 0int,
{
    match p {
        PsetsModel::Nested(e) => {
            let d = seq![c];
            let pre = b + d;
            assert(pre =~= b.push(c));
            lemma_children_below(e, c, pre, e.len() as int);
            let s = flatten_spec(p, d, Some(b));
            assert(s == flatten_children(e, d, pre, e.len() as int));
            assert forall|i: int| 0 <= i < s.len() implies at_or_below(#[trigger] s[i].0, b, c) by {
                assert(exists|j: int|
                    0 <= j < e.len() && at_or_below(
                        flatten_children(e, seq![c], pre, e.len() as int)[i].0,
                        pre + (#[trigger] e[j]).0,
                        c,
                    ));
                let j = choose|j: int|
                    0 <= j < e.len() && at_or_below(s[i].0, pre + (#[trigger] e[j]).0, c);
                lemma_below_extends(s[i].0, b, e[j].0, c);
            }
        },
        _ => {},
    }
}

/// Every address of the listings of the first `n` children under `pre` is at or
/// below the prefixed key of one of them.
proof fn lemma_children_below(e: Seq<(Seq<char>, NestedModel)>, c: char, pre: Seq<char>, n: int)
    requires
        0 <= n <= e.len(),
    ensures
        forall|i: int|
            0 <= i < flatten_children(e, seq![c], pre, n).len() ==> exists|j: int|
                0 <= j < n && at_or_below(
                    #[trigger] flatten_children(e, seq![c], pre, n)[i].0,
                    pre + (#[trigger] e[j]).0,
                    c,
                ),
    decreases e, n,
{
    if n > 0 {
        let d = seq![c];
        lemma_children_below(e, c, pre, n - 1);
        let a = flatten_children(e, d, pre, n - 1);
        let k = e[n - 1].0;
        let t = match e[n - 1].1 {
            NestedModel::Psets(q) => flatten_spec(q, d, Some(pre + k)),
            NestedModel::Any(v) => seq![(pre + k, FlatModel::Value(v))],
        };
        match e[n - 1].1 {
            NestedModel::Psets(q) => {
                lemma_flatten_below(q, c, pre + k);
            },
            NestedModel::Any(v) => {},
        }
        let s = flatten_children(e, d, pre, n);
        assert(s == a + t);
        assert forall|i: int| 0 <= i < s.len() implies exists|j: int|
            0 <= j < n && at_or_below(#[trigger] s[i].0, pre + (#[trigger] e[j]).0, c) by {
            if i < a.len() {
                assert(s[i] == a[i]);
                let j = choose|j: int|
                    0 <= j < n - 1 && at_or_below(a[i].0, pre + (#[trigger] e[j]).0, c);
                assert(0 <= j < n && at_or_below(s[i].0, pre + e[j].0, c));
            } else {
                assert(s[i] == t[i - a.len()]);
                assert(at_or_below(t[i - a.len()].0, pre + k, c));
                assert(0 <= n - 1 < n && at_or_below(s[i].0, pre + e[n - 1].0, c));
            }
        }
    }
}

/// Addresses are unique: in a tree whose nested nodes have distinct keys, none
/// of which holds the one-character delimiter, no two entries of the flat
/// listing share an address. (With a longer delimiter this can fail: keys `x`
/// then `az`, and `xa` then `z`, both give `xaaaz` under `aa`.)
pub proof fn lemma_flatten_addresses_unique(p: PsetsModel, c: char, addr: Option<Seq<char>>)
    requires
        psets_wf(p),
        keys_avoid(p, c),
    ensures
        addresses_unique(flatten_spec(p, seq![c], addr)),
    decreases p, 0int,
{
    match p {
        PsetsModel::Nested(e) => {
            lemma_children_unique(e, c, prefix_of(addr, seq![c]), e.len() as int);
        },
        _ => {},
    }
}

proof fn lemma_children_unique(e: Seq<(Seq<char>, NestedModel)>, c: char, pre: Seq<char>, n: int)
    requires
        0 <= n <= e.len(),
        keys_unique(e),
        children_wf(e, e.len() as int),
        children_avoid(e, c, e.len() as int),
    ensures
        addresses_unique(flatten_children(e, seq![c], pre, n)),
    decreases e, n,
{
    if n > 0 {
        let d = seq![c];
        lemma_children_unique(e, c, pre, n - 1);
        lemma_children_below(e, c, pre, n - 1);
        lemma_children_wf_get(e, e.len() as int);
        lemma_children_avoid(e, c, e.len() as int);
        let a = flatten_children(e, d, pre, n - 1);
        let k = e[n - 1].0;
        let t = match e[n - 1].1 {
            NestedModel::Psets(q) => flatten_spec(q, d, Some(pre + k)),
            NestedModel::Any(v) => seq![(pre + k, FlatModel::Value(v))],
        };
        assert(!(e[n - 1]).0.contains(c));
        match e[n - 1].1 {
            NestedModel::Psets(q) => {
                lemma_flatten_below(q, c, pre + k);
                lemma_flatten_addresses_unique(q, c, Some(pre + k));
            },
            NestedModel::Any(v) => {},
        }
        assert forall|y: int| 0 <= y < t.len() implies at_or_below(#[trigger] t[y].0, pre + k, c) by {
        }
        let s = flatten_children(e, d, pre, n);
        assert(s == a + t);
        assert forall|i: int, j: int| 0 <= i < j < s.len() implies s[i].0 != s[j].0 by {
            if j < a.len() {
                assert(s[i] == a[i] && s[j] == a[j]);
            } else if i >= a.len() {
                assert(s[i] == t[i - a.len()] && s[j] == t[j - a.len()]);
            } else {
                assert(s[i] == a[i] && s[j] == t[j - a.len()]);
                let w = choose|w: int|
                    0 <= w < n - 1 && at_or_below(a[i].0, pre + (#[trigger] e[w]).0, c);
                assert(e[w].0 != k);
                assert(!(e[w]).0.contains(c));
                lemma_keys_part(a[i].0, pre, e[w].0, k, c);
            }
        }
    }
}

/// Iteration shape: the one-level view of a leaf is exactly one pair, under no
/// key, holding the leaf; that of a nested node has exactly one pair per child,
/// under the child's key, in order.
pub proof fn lemma_iteration_shape(p: PsetsModel)
    ensures
        !(p is Nested) ==> pairs_of(p) == seq![(None::<Seq<char>>, NestedModel::Psets(p))],
        p matches PsetsModel::Nested(e) ==> {
            &&& pairs_of(p).len() == e.len()
            &&& forall|i: int|
                0 <= i < e.len() ==> #[trigger] pairs_of(p)[i] == (Some(e[i].0), e[i].1)
        },
{
}

} // verus!
