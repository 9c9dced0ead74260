//! The dynamic value: a closed JSON-like variant, its mathematical model, and its
//! canonical compact JSON text.
use vstd::prelude::*;
use vstd::string::*;

verus! {

/// A JSON number. Integers keep their exact value; any other number is held as the
/// shortest decimal text that reads back as the same binary64 value.
#[derive(Clone, Debug, PartialEq)]
pub enum JsonNumber {
    Int(i128),
    Float(String),
}

/// A dynamic value. Object entries keep their insertion order.
#[derive(Debug)]
pub enum DynamicValue {
    Null,
    Bool(bool),
    Number(JsonNumber),
    String(String),
    Array(Vec<DynamicValue>),
    Object(Vec<(String, DynamicValue)>),
}

/// Mathematical model of a `JsonNumber`.
pub enum NumberModel {
    Int(int),
    Float(Seq<char>),
}

/// Mathematical model of a `DynamicValue`.
pub enum JsonValue {
    Null,
    Bool(bool),
    Number(NumberModel),
    Str(Seq<char>),
    Array(Seq<JsonValue>),
    Object(Seq<(Seq<char>, JsonValue)>),
}

impl View for JsonNumber {
    type V = NumberModel;

    open spec fn view(&self) -> NumberModel {
        match self {
            JsonNumber::Int(i) => NumberModel::Int(*i as int),
            JsonNumber::Float(t) => NumberModel::Float(t@),
        }
    }
}

impl View for DynamicValue {
    type V = JsonValue;

    open spec fn view(&self) -> JsonValue
        decreases self,
    {
        match self {
            DynamicValue::Null => JsonValue::Null,
            DynamicValue::Bool(b) => JsonValue::Bool(*b),
            DynamicValue::Number(n) => JsonValue::Number(n@),
            DynamicValue::String(s) => JsonValue::Str(s@),
            DynamicValue::Array(items) => JsonValue::Array(
                Seq::new(
                    items.len() as nat,
                    |i: int|
                        if 0 <= i < items.len() {
                            items[i].view()
                        } else {
                            JsonValue::Null
                        },
                ),
            ),
            DynamicValue::Object(entries) => JsonValue::Object(members_view(entries@)),
        }
    }
}

/// The model of a sequence of object entries, in order.
pub open spec fn members_view(s: Seq<(String, DynamicValue)>) -> Seq<(Seq<char>, JsonValue)>
    decreases s,
{
    if s.len() == 0 {
        Seq::empty()
    } else {
        members_view(s.drop_last()).push((s.last().0@, s.last().1.view()))
    }
}

pub proof fn lemma_members_view(s: Seq<(String, DynamicValue)>)
    ensures
        members_view(s).len() == s.len(),
        forall|j: int|
            0 <= j < s.len() ==> #[trigger] members_view(s)[j] == (s[j].0@, s[j].1@),
    decreases s.len(),
{
    if s.len() > 0 {
        lemma_members_view(s.drop_last());
        assert(members_view(s) == members_view(s.drop_last()).push((s.last().0@, s.last().1@)));
    } else {
        assert(members_view(s) == Seq::<(Seq<char>, JsonValue)>::empty());
    }
}

impl DynamicValue {
    /// A copy of the value; unlike the derived `clone`, its result is stated.
    #[verifier::loop_isolation(false)]
    pub fn copy(&self) -> (r: DynamicValue)
        ensures
            r@ == self@,
        decreases self,
    {
        match self {
            DynamicValue::Null => DynamicValue::Null,
            DynamicValue::Bool(b) => DynamicValue::Bool(*b),
            DynamicValue::Number(JsonNumber::Int(i)) => DynamicValue::Number(JsonNumber::Int(*i)),
            DynamicValue::Number(JsonNumber::Float(t)) => DynamicValue::Number(
                JsonNumber::Float(t.clone()),
            ),
            DynamicValue::String(s) => DynamicValue::String(s.clone()),
            DynamicValue::Array(items) => {
                let mut out: Vec<DynamicValue> = Vec::new();
                let mut i: usize = 0;
                while i < items.len()
                    invariant
                        i <= items.len(),
                        out.len() == i,
                        forall|j: int| 0 <= j < i ==> #[trigger] out[j]@ == items[j]@,
                    decreases items.len() - i,
                {
                    proof {
                        vstd::std_specs::vec::axiom_vec_index_decreases(*items, i as int);
                    }
                    out.push(items[i].copy());
                    i += 1;
                }
                let r = DynamicValue::Array(out);
                assert(r@ == self@) by {
                    assert(r@->Array_0 =~= self@->Array_0) by {
                        assert forall|j: int| 0 <= j < out.len() implies r@->Array_0[j]
                            == self@->Array_0[j] by {
                            assert(out[j]@ == items[j]@);
                        }
                    }
                }
                r
            },
            DynamicValue::Object(entries) => {
                let mut out: Vec<(String, DynamicValue)> = Vec::new();
                let mut i: usize = 0;
                while i < entries.len()
                    invariant
                        i <= entries.len(),
                        out.len() == i,
                        forall|j: int|
                            0 <= j < i ==> (#[trigger] out[j]).0@ == entries[j].0@ && out[j].1@
                                == entries[j].1@,
                    decreases entries.len() - i,
                {
                    proof {
                        vstd::std_specs::vec::axiom_vec_index_decreases(*entries, i as int);
                    }
                    let v = entries[i].1.copy();
                    out.push((entries[i].0.clone(), v));
                    i += 1;
                }
                let r = DynamicValue::Object(out);
                proof {
                    lemma_members_view(out@);
                    lemma_members_view(entries@);
                }
                assert(r@ == self@) by {
                    assert(r@->Object_0 =~= self@->Object_0) by {
                        assert forall|j: int| 0 <= j < out.len() implies r@->Object_0[j]
                            == self@->Object_0[j] by {
                            assert(out[j].1@ == entries[j].1@);

                        }
                    }
                }
                r
            },
        }
    }
}

/// The keys of a sequence of entries are pairwise distinct.
pub open spec fn keys_unique<V>(e: Seq<(Seq<char>, V)>) -> bool {
    forall|i: int, j: int| 0 <= i < j < e.len() ==> e[i].0 != e[j].0
}

/// Every object in the value, at any depth, has distinct keys.
pub open spec fn json_wf(v: JsonValue) -> bool
    decreases v, 0int,
{
    match v {
        JsonValue::Array(items) => items_wf(items, items.len() as int),
        JsonValue::Object(m) => keys_unique(m) && members_wf(m, m.len() as int),
        _ => true,
    }
}

/// The first `n` items are well formed.
pub open spec fn items_wf(s: Seq<JsonValue>, n: int) -> bool
    decreases s, n,
{
    if n <= 0 || n > s.len() {
        true
    } else {
        items_wf(s, n - 1) && json_wf(s[n - 1])
    }
}

/// The values of the first `n` entries are well formed.
pub open spec fn members_wf(m: Seq<(Seq<char>, JsonValue)>, n: int) -> bool
    decreases m, n,
{
    if n <= 0 || n > m.len() {
        true
    } else {
        members_wf(m, n - 1) && json_wf(m[n - 1].1)
    }
}

pub proof fn lemma_members_wf(m: Seq<(Seq<char>, JsonValue)>, n: int)
    requires
        0 <= n <= m.len(),
    ensures
        members_wf(m, n) <==> forall|j: int| 0 <= j < n ==> #[trigger] json_wf(m[j].1),
    decreases n,
{
    if n > 0 {
        lemma_members_wf(m, n - 1);
        if members_wf(m, n) {
            assert forall|j: int| 0 <= j < n implies #[trigger] json_wf(m[j].1) by {
                if j < n - 1 {
                    assert(members_wf(m, n - 1));
                }
            }
        }
        if forall|j: int| 0 <= j < n ==> #[trigger] json_wf(m[j].1) {
            assert(json_wf(m[n - 1].1));
            assert forall|j: int| 0 <= j < n - 1 implies #[trigger] json_wf(m[j].1) by {
                assert(0 <= j < n);
            }
        }
    }
}

/// What serde_json writes for a JSON string holding these characters: the quoted,
/// escaped literal.
pub uninterp spec fn quoted(s: Seq<char>) -> Seq<char>;

/// Relies on serde_json's `Display` for `Value`, applied to a string value: it
/// writes the quoted and escaped literal, a function of the characters alone.
#[verifier::external_body]
fn quote(s: &str) -> (r: String)
    ensures
        r@ == quoted(s@),
{
    serde_json::Value::String(s.to_string()).to_string()
}

/// The text of one decimal digit.
pub open spec fn digit_text(d: int) -> Seq<char> {
    if d == 0 {
        "0"@
    } else if d == 1 {
        "1"@
    } else if d == 2 {
        "2"@
    } else if d == 3 {
        "3"@
    } else if d == 4 {
        "4"@
    } else if d == 5 {
        "5"@
    } else if d == 6 {
        "6"@
    } else if d == 7 {
        "7"@
    } else if d == 8 {
        "8"@
    } else {
        "9"@
    }
}

/// The decimal digits of a natural number, most significant first.
pub open spec fn decimal(n: nat) -> Seq<char>
    decreases n,
{
    if n < 10 {
        digit_text(n as int)
    } else {
        decimal(n / 10) + digit_text((n % 10) as int)
    }
}

/// The canonical text of a JSON number.
pub open spec fn number_text(n: NumberModel) -> Seq<char> {
    match n {
        NumberModel::Int(i) => if i < 0 {
            "-"@ + decimal((-i) as nat)
        } else {
            decimal(i as nat)
        },
        NumberModel::Float(t) => t,
    }
}

/// The canonical compact JSON text of a value: no whitespace, entries in order.
pub open spec fn json_text(v: JsonValue) -> Seq<char>
    decreases v, 0int,
{
    match v {
        JsonValue::Null => "null"@,
        JsonValue::Bool(b) => if b {
            "true"@
        } else {
            "false"@
        },
        JsonValue::Number(n) => number_text(n),
        JsonValue::Str(s) => quoted(s),
        JsonValue::Array(items) => "["@ + items_text(items, items.len() as int) + "]"@,
        JsonValue::Object(members) => "{"@ + members_text(members, members.len() as int) + "}"@,
    }
}

/// The first `n` items, separated by commas.
pub open spec fn items_text(s: Seq<JsonValue>, n: int) -> Seq<char>
    decreases s, n,
{
    if n <= 0 || n > s.len() {
        Seq::empty()
    } else if n == 1 {
        json_text(s[0])
    } else {
        items_text(s, n - 1) + ","@ + json_text(s[n - 1])
    }
}

/// The text of one object entry: the quoted key, a colon, the value.
pub open spec fn member_text(m: (Seq<char>, JsonValue)) -> Seq<char>
    decreases m, 0int,
{
    quoted(m.0) + ":"@ + json_text(m.1)
}

/// The first `n` object entries, separated by commas.
pub open spec fn members_text(s: Seq<(Seq<char>, JsonValue)>, n: int) -> Seq<char>
    decreases s, n,
{
    if n <= 0 || n > s.len() {
        Seq::empty()
    } else if n == 1 {
        member_text(s[0])
    } else {
        members_text(s, n - 1) + ","@ + member_text(s[n - 1])
    }
}

fn write_digit(d: u128, out: &mut String)
    requires
        d < 10,
    ensures
        final(out)@ == old(out)@ + digit_text(d as int),
{
    let t: &str = if d == 0 {
        "0"
    } else if d == 1 {
        "1"
    } else if d == 2 {
        "2"
    } else if d == 3 {
        "3"
    } else if d == 4 {
        "4"
    } else if d == 5 {
        "5"
    } else if d == 6 {
        "6"
    } else if d == 7 {
        "7"
    } else if d == 8 {
        "8"
    } else {
        "9"
    };
    out.append(t);
}

fn write_decimal(n: u128, out: &mut String)
    ensures
        final(out)@ == old(out)@ + decimal(n as nat),
    decreases n,
{
    if n < 10 {
        write_digit(n, out);
    } else {
        write_decimal(n / 10, out);
        write_digit(n % 10, out);
        assert(final(out)@ == old(out)@ + decimal(n as nat));
    }
}

fn write_number(n: &JsonNumber, out: &mut String)
    ensures
        final(out)@ == old(out)@ + number_text(n@),
{
    match n {
        JsonNumber::Int(i) => {
            if *i < 0 {
                out.append("-");
                let m: u128 = (-(*i + 1)) as u128 + 1;
                write_decimal(m, out);
            } else {
                write_decimal(*i as u128, out);
            }
        },
        JsonNumber::Float(t) => {
            out.append(t.as_str());
        },
    }
}

#[verifier::loop_isolation(false)]
fn write_json(v: &DynamicValue, out: &mut String)
    ensures
        final(out)@ == old(out)@ + json_text(v@),
    decreases v,
{
    match v {
        DynamicValue::Null => out.append("null"),
        DynamicValue::Bool(b) => if *b {
            out.append("true")
        } else {
            out.append("false")
        },
        DynamicValue::Number(n) => write_number(n, out),
        DynamicValue::String(s) => {
            let q = quote(s.as_str());
            out.append(q.as_str());
        },
        DynamicValue::Array(items) => {
            let ghost start = out@;
            let ghost model = v@->Array_0;
            out.append("[");
            let mut i: usize = 0;
            while i < items.len()
                invariant
                    i <= items.len(),
                    model.len() == items.len(),
                    out@ == start + "["@ + items_text(model, i as int),
                decreases items.len() - i,
            {
                if i > 0 {
                    out.append(",");
                }
                proof {
                    vstd::std_specs::vec::axiom_vec_index_decreases(*items, i as int);
                }
                write_json(&items[i], out);
                assert(model[i as int] == items[i as int]@);
                i += 1;
            }
            out.append("]");
        },
        DynamicValue::Object(entries) => {
            let ghost start = out@;
            let ghost model = v@->Object_0;
            proof {
                lemma_members_view(entries@);
            }
            out.append("{");
            let mut i: usize = 0;
            while i < entries.len()
                invariant
                    i <= entries.len(),
                    model.len() == entries.len(),
                    out@ == start + "{"@ + members_text(model, i as int),
                decreases entries.len() - i,
            {
                if i > 0 {
                    out.append(",");
                }
                let ghost sep = out@;
                let q = quote(entries[i].0.as_str());
                out.append(q.as_str());
                out.append(":");
                proof {
                    vstd::std_specs::vec::axiom_vec_index_decreases(*entries, i as int);
                }
                write_json(&entries[i].1, out);
                assert(model[i as int] == (entries[i as int].0@, entries[i as int].1@));
                assert(out@ =~= sep + member_text(model[i as int]));
                i += 1;
            }
            out.append("}");
        },
    }
}

/// How a number is handed to a host runtime: as an unsigned integer where it is
/// one that fits 64 bits, else as a signed one, else as a float given by its text.
#[derive(Clone, Debug, PartialEq)]
pub enum HostNumber {
    Unsigned(u64),
    Signed(i64),
    Float(String),
}

impl JsonNumber {
    /// The host form of the number: unsigned first, then signed, then float.
    pub fn to_host(&self) -> (r: HostNumber)
        ensures
            match self@ {
                NumberModel::Int(i) => if 0 <= i <= u64::MAX {
                    r == HostNumber::Unsigned(i as u64)
                } else if i64::MIN <= i <= i64::MAX {
                    r == HostNumber::Signed(i as i64)
                } else {
                    r matches HostNumber::Float(t) && t@ == number_text(self@)
                },
                NumberModel::Float(t) => r matches HostNumber::Float(s) && s@ == t,
            },
    {
        match self {
            JsonNumber::Int(i) => {
                if 0 <= *i && *i <= u64::MAX as i128 {
                    HostNumber::Unsigned(*i as u64)
                } else if i64::MIN as i128 <= *i && *i <= i64::MAX as i128 {
                    HostNumber::Signed(*i as i64)
                } else {
                    let mut t = String::new();
                    write_number(self, &mut t);
                    HostNumber::Float(t)
                }
            },
            JsonNumber::Float(t) => HostNumber::Float(t.clone()),
        }
    }
}

impl DynamicValue {
    /// The canonical compact JSON text of the value.
    pub fn to_json_text(&self) -> (r: String)
        ensures
            r@ == json_text(self@),
    {
        let mut out = String::new();
        write_json(self, &mut out);
        out
    }
}

} // verus!
