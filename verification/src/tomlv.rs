//! TOML documents as plain values, and reading them with the `toml` crate.

use vstd::prelude::*;
use vstd::string::StringExecFns;

verus! {

/// A TOML value. Floats and date-times, which no setting takes, are kept by
/// their type name only.
pub enum TomlValue {
    String(String),
    Integer(i64),
    Boolean(bool),
    Array(Vec<TomlValue>),
    Table(TomlTable),
    Other(String),
}

/// A TOML table: its entries. The tables that `parse_toml` reads keep their
/// keys distinct and in key order, and `insert` keeps both.
pub struct TomlTable {
    pub entries: Vec<(String, TomlValue)>,
}

pub open spec fn count_values(v: TomlValue) -> nat
    decreases v,
{
    match v {
        TomlValue::Array(a) => 1 + count_list(a@, a@.len() as int),
        TomlValue::Table(t) => 1 + count_entries(t.entries@, t.entries@.len() as int),
        _ => 1,
    }
}

pub open spec fn count_list(a: Seq<TomlValue>, k: int) -> nat
    decreases a, k,
{
    if k <= 0 || k > a.len() {
        0
    } else {
        count_list(a, k - 1) + count_values(a[k - 1])
    }
}

pub open spec fn count_entries(a: Seq<(String, TomlValue)>, k: int) -> nat
    decreases a, k,
{
    if k <= 0 || k > a.len() {
        0
    } else {
        count_entries(a, k - 1) + count_values(a[k - 1].1)
    }
}

pub proof fn lemma_count_list_below(a: Seq<TomlValue>, i: int, k: int)
    requires
        0 <= i < k <= a.len(),
    ensures
        count_values(a[i]) <= count_list(a, k),
    decreases k,
{
    if i < k - 1 {
        lemma_count_list_below(a, i, k - 1);
    }
}

pub proof fn lemma_count_entry_below(es: Seq<(String, TomlValue)>, j: int, k: int)
    requires
        0 <= j < k <= es.len(),
    ensures
        count_values(es[j].1) <= count_entries(es, k),
    decreases k,
{
    if j < k - 1 {
        lemma_count_entry_below(es, j, k - 1);
    }
}

/// Every table in `v`, at any depth, has distinct keys.
pub open spec fn value_ok(v: TomlValue) -> bool
    decreases count_values(v),
{
    match v {
        TomlValue::Array(a) => forall|i: int|
            0 <= i < a@.len() ==> {
                proof {
                    lemma_count_list_below(a@, i, a@.len() as int);
                }
                value_ok(#[trigger] a@[i])
            },
        TomlValue::Table(t) => {
            &&& distinct_keys(t.entries@)
            &&& forall|j: int|
                0 <= j < t.entries@.len() ==> {
                    proof {
                        lemma_count_entry_below(t.entries@, j, t.entries@.len() as int);
                    }
                    value_ok(#[trigger] t.entries@[j].1)
                }
        },
        _ => true,
    }
}

/// Every table in `t`, `t` too, has distinct keys.
pub open spec fn table_ok(t: TomlTable) -> bool {
    &&& distinct_keys(t.entries@)
    &&& forall|j: int| 0 <= j < t.entries@.len() ==> value_ok(#[trigger] t.entries@[j].1)
}

pub proof fn lemma_table_ok(t: TomlTable)
    ensures
        table_ok(t) == value_ok(TomlValue::Table(t)),
{
}

/// What a TOML value holds: a string, an integer, a boolean, an array of
/// values, a table from keys to values, or a value of another type, kept by
/// its type name.
pub enum TomlData {
    Str(Seq<char>),
    Int(i64),
    Bool(bool),
    Arr(Seq<TomlData>),
    Tab(Map<Seq<char>, TomlData>),
    Other(Seq<char>),
}

pub open spec fn value_view(v: TomlValue) -> TomlData
    decreases count_values(v), 1int,
{
    match v {
        TomlValue::String(s) => TomlData::Str(s@),
        TomlValue::Integer(i) => TomlData::Int(i),
        TomlValue::Boolean(b) => TomlData::Bool(b),
        TomlValue::Array(a) => TomlData::Arr(list_view(a@, a@.len() as int)),
        TomlValue::Table(t) => TomlData::Tab(entries_view(t.entries@, t.entries@.len() as int)),
        TomlValue::Other(n) => TomlData::Other(n@),
    }
}

/// What the first `k` values of `a` hold.
pub open spec fn list_view(a: Seq<TomlValue>, k: int) -> Seq<TomlData>
    decreases count_list(a, k), 2int,
{
    if k <= 0 || k > a.len() {
        seq![]
    } else {
        proof {
            assert(count_list(a, k) == count_list(a, k - 1) + count_values(a[k - 1]));
            assert(count_values(a[k - 1]) >= 1);
        }
        list_view(a, k - 1).push(value_view(a[k - 1]))
    }
}

/// What the first `k` entries of a table hold, by key.
pub open spec fn entries_view(es: Seq<(String, TomlValue)>, k: int) -> Map<Seq<char>, TomlData>
    decreases count_entries(es, k), 2int,
{
    if k <= 0 || k > es.len() {
        Map::empty()
    } else {
        proof {
            assert(count_entries(es, k) == count_entries(es, k - 1) + count_values(es[k - 1].1));
            assert(count_values(es[k - 1].1) >= 1);
        }
        entries_view(es, k - 1).insert(es[k - 1].0@, value_view(es[k - 1].1))
    }
}

impl View for TomlValue {
    type V = TomlData;

    open spec fn view(&self) -> TomlData {
        value_view(*self)
    }
}

impl View for TomlTable {
    type V = Map<Seq<char>, TomlData>;

    open spec fn view(&self) -> Map<Seq<char>, TomlData> {
        entries_view(self.entries@, self.entries@.len() as int)
    }
}

/// The name `type_str` gives a value's type.
pub open spec fn kind_word(d: TomlData) -> Seq<char> {
    match d {
        TomlData::Str(_) => "string"@,
        TomlData::Int(_) => "integer"@,
        TomlData::Bool(_) => "boolean"@,
        TomlData::Arr(_) => "array"@,
        TomlData::Tab(_) => "table"@,
        TomlData::Other(n) => n,
    }
}

/// Whether `d` nests less than `fuel` levels deep.
pub open spec fn fits(d: TomlData, fuel: nat) -> bool
    decreases fuel,
{
    fuel > 0 && match d {
        TomlData::Arr(items) => forall|i: int| 0 <= i < items.len() ==> fits(#[trigger] items[i], (fuel - 1) as nat),
        TomlData::Tab(m) => forall|k: Seq<char>| #[trigger] m.contains_key(k) ==> fits(m[k], (fuel - 1) as nat),
        _ => true,
    }
}

/// The first `k` entries of a table with distinct keys hold, under each key
/// that one of them has, what that entry holds, and nothing under others.
pub proof fn lemma_entries_view(es: Seq<(String, TomlValue)>, k: int, x: Seq<char>)
    requires
        distinct_keys(es),
        0 <= k <= es.len(),
    ensures
        entries_view(es, k).contains_key(x) <==> exists|j: int| 0 <= j < k && #[trigger] es[j].0@ == x,
        forall|j: int| 0 <= j < k && #[trigger] es[j].0@ == x ==> entries_view(es, k)[x] == value_view(es[j].1),
    decreases k,
{
    if k > 0 {
        lemma_entries_view(es, k - 1, x);
        if es[k - 1].0@ == x {
            assert(es[k - 1].0@ == x);
        }
    }
}

} // verus!

verus! {

#[verifier::external_type_specification]
#[verifier::external_body]
pub struct ExTomlValue(toml::Value);

#[verifier::external_type_specification]
#[verifier::external_body]
#[verifier::reject_recursive_types(K)]
#[verifier::reject_recursive_types(V)]
pub struct ExTomlMap<K, V>(toml::map::Map<K, V>);

/// What the `toml` crate reads from a TOML document: its top-level table, or
/// nothing where the text is not TOML.
pub uninterp spec fn toml_document(text: Seq<char>) -> Option<Map<Seq<char>, TomlData>>;

/// What a value of the `toml` crate holds.
pub uninterp spec fn toml_value_data(v: toml::Value) -> TomlData;

/// What a table of the `toml` crate holds, by key.
pub uninterp spec fn toml_table_data(t: toml::map::Map<String, toml::Value>) -> Map<Seq<char>, TomlData>;

/// `toml::Table::from_str`: the document, or the parser's message where the
/// text is not TOML.
#[verifier::external_body]
fn toml_parse(text: &str) -> (r: Result<toml::Table, String>)
    ensures
        match r {
            Ok(t) => toml_document(text@) == Some(toml_table_data(t)),
            Err(_) => toml_document(text@) is None,
        },
{
    text.parse::<toml::Table>().map_err(|e| e.to_string())
}

/// `toml::Value::type_str`: the name of the value's type; the types no
/// setting takes are floats and date-times.
#[verifier::external_body]
fn toml_type_str(v: &toml::Value) -> (r: &'static str)
    ensures
        r@ == kind_word(toml_value_data(*v)),
        toml_value_data(*v) is Other ==> (r@ == "float"@ || r@ == "datetime"@),
{
    v.type_str()
}

/// `toml::Value::as_str`: the string, where the value is one.
#[verifier::external_body]
fn toml_as_str(v: &toml::Value) -> (r: Option<String>)
    ensures
        match toml_value_data(*v) {
            TomlData::Str(s) => r matches Some(x) && x@ == s,
            _ => r is None,
        },
{
    v.as_str().map(String::from)
}

/// `toml::Value::as_integer`: the integer, where the value is one.
#[verifier::external_body]
fn toml_as_integer(v: &toml::Value) -> (r: Option<i64>)
    ensures
        match toml_value_data(*v) {
            TomlData::Int(i) => r == Some(i),
            _ => r is None,
        },
{
    v.as_integer()
}

/// `toml::Value::as_bool`: the boolean, where the value is one.
#[verifier::external_body]
fn toml_as_bool(v: &toml::Value) -> (r: Option<bool>)
    ensures
        match toml_value_data(*v) {
            TomlData::Bool(b) => r == Some(b),
            _ => r is None,
        },
{
    v.as_bool()
}

/// `toml::Value::as_array`: the elements, where the value is an array.
#[verifier::external_body]
fn toml_as_array(v: &toml::Value) -> (r: Option<&Vec<toml::Value>>)
    ensures
        match toml_value_data(*v) {
            TomlData::Arr(items) => r matches Some(a) && a@.len() == items.len() && forall|i: int|
                0 <= i < items.len() ==> toml_value_data(#[trigger] a@[i]) == items[i],
            _ => r is None,
        },
{
    v.as_array()
}

/// `toml::Value::as_table`: the table, where the value is one.
#[verifier::external_body]
fn toml_as_table(v: &toml::Value) -> (r: Option<&toml::Table>)
    ensures
        match toml_value_data(*v) {
            TomlData::Tab(m) => r matches Some(t) && toml_table_data(*t) == m,
            _ => r is None,
        },
{
    v.as_table()
}

/// `toml::map::Map::iter`, each key copied: every entry of the table once.
#[verifier::external_body]
fn toml_entries(t: &toml::Table) -> (r: Vec<(String, &toml::Value)>)
    ensures
        forall|i: int, j: int| 0 <= i < j < r@.len() ==> (#[trigger] r@[i]).0@ != (#[trigger] r@[j]).0@,
        forall|i: int|
            0 <= i < r@.len() ==> toml_table_data(*t).contains_key((#[trigger] r@[i]).0@) && toml_table_data(
                *t,
            )[r@[i].0@] == toml_value_data(*r@[i].1),
        forall|k: Seq<char>|
            #[trigger] toml_table_data(*t).contains_key(k) ==> exists|i: int| 0 <= i < r@.len() && r@[i].0@ == k,
{
    t.iter().map(|(k, v)| (k.clone(), v)).collect()
}

/// The first `k` values of `s` and of `u` hold the same where they agree.
proof fn lemma_list_view_prefix(s: Seq<TomlValue>, u: Seq<TomlValue>, k: int)
    requires
        0 <= k <= s.len(),
        k <= u.len(),
        forall|i: int| 0 <= i < k ==> s[i] == u[i],
    ensures
        list_view(s, k) == list_view(u, k),
    decreases k,
{
    if k > 0 {
        lemma_list_view_prefix(s, u, k - 1);
    }
}

proof fn lemma_list_view_len(s: Seq<TomlValue>, k: int)
    requires
        0 <= k <= s.len(),
    ensures
        list_view(s, k).len() == k,
        forall|i: int| 0 <= i < k ==> #[trigger] list_view(s, k)[i] == value_view(s[i]),
    decreases k,
{
    if k > 0 {
        lemma_list_view_len(s, k - 1);
    }
}

/// A table with distinct keys holds under a key what `get_spec` finds there.
pub proof fn lemma_view_get(t: TomlTable, y: Seq<char>)
    requires
        distinct_keys(t.entries@),
    ensures
        t@.contains_key(y) <==> t.get_spec(y) is Some,
        t.get_spec(y) matches Some(w) ==> t@[y] == w@,
{
    let es = t.entries@;
    lemma_entries_view(es, es.len() as int, y);
    lemma_find_key_bounds(es, y, 0);
    if find_key_from(es, y, 0) is None {
        lemma_find_key_none(es, y, 0);
    }
}

/// The type name of a value tells which kind of value it is.
proof fn lemma_kind_word(d: TomlData, w: Seq<char>)
    requires
        kind_word(d) == w,
        d is Other ==> (w == "float"@ || w == "datetime"@),
    ensures
        w == "string"@ <==> d is Str,
        w == "integer"@ <==> d is Int,
        w == "boolean"@ <==> d is Bool,
        w == "array"@ <==> d is Arr,
        w == "table"@ <==> d is Tab,
{
    reveal_strlit("string");
    reveal_strlit("integer");
    reveal_strlit("boolean");
    reveal_strlit("array");
    reveal_strlit("table");
    reveal_strlit("float");
    reveal_strlit("datetime");
    assert("string"@.len() == 6);
    assert("integer"@.len() == 7 && "integer"@[0] == 'i');
    assert("boolean"@.len() == 7 && "boolean"@[0] == 'b');
    assert("array"@.len() == 5 && "array"@[0] == 'a');
    assert("table"@.len() == 5 && "table"@[0] == 't');
    assert("float"@.len() == 5 && "float"@[0] == 'f');
    assert("datetime"@.len() == 8);
}

/// A value nests too deep for `fuel` where one of its items or entries nests
/// too deep for one level less.
proof fn lemma_not_fits(d: TomlData, fuel: nat, inner: TomlData)
    requires
        fuel > 0,
        !fits(inner, (fuel - 1) as nat),
        d matches TomlData::Arr(items) ==> items.contains(inner),
        d matches TomlData::Tab(m) ==> exists|y: Seq<char>| m.contains_key(y) && m[y] == inner,
        d is Arr || d is Tab,
    ensures
        !fits(d, fuel),
{
    match d {
        TomlData::Arr(items) => {
            let i = choose|i: int| 0 <= i < items.len() && items[i] == inner;
            assert(!fits(items[i], (fuel - 1) as nat));
        },
        TomlData::Tab(m) => {
            let y = choose|y: Seq<char>| m.contains_key(y) && m[y] == inner;
            assert(m.contains_key(y));
        },
        _ => {},
    }
}

/// Two tables with distinct keys that hold alike under every key hold the
/// same.
pub proof fn lemma_same_view(a: TomlTable, b: TomlTable)
    requires
        distinct_keys(a.entries@),
        distinct_keys(b.entries@),
        forall|k: Seq<char>|
            (#[trigger] a.get_spec(k) is Some <==> b.get_spec(k) is Some) && (a.get_spec(k) matches Some(x) ==> (
            b.get_spec(k) matches Some(y) && x@ == y@)),
    ensures
        a@ == b@,
{
    assert forall|k: Seq<char>| #[trigger] a@.contains_key(k) == b@.contains_key(k) && (a@.contains_key(k) ==> a@[k]
        == b@[k]) by {
        lemma_view_get(a, k);
        lemma_view_get(b, k);
        assert(a.get_spec(k) is Some <==> b.get_spec(k) is Some);
    }
    assert(a@ =~= b@);
}

/// Reads a value of the `toml` crate as a plain value, where it nests less
/// deep than `fuel`.
fn value_of(v: &toml::Value, fuel: usize) -> (r: Option<TomlValue>)
    ensures
        r is Some <==> fits(toml_value_data(*v), fuel as nat),
        r matches Some(x) ==> x@ == toml_value_data(*v) && value_ok(x),
    decreases fuel, 1int,
{
    let ghost d = toml_value_data(*v);
    if fuel == 0 {
        return None;
    }
    let ty = toml_type_str(v);
    proof {
        lemma_kind_word(d, ty@);
    }
    if crate::parser::str_eq(ty, "string") {
        match toml_as_str(v) {
            Some(s) => Some(TomlValue::String(s)),
            None => None,
        }
    } else if crate::parser::str_eq(ty, "integer") {
        match toml_as_integer(v) {
            Some(i) => Some(TomlValue::Integer(i)),
            None => None,
        }
    } else if crate::parser::str_eq(ty, "boolean") {
        match toml_as_bool(v) {
            Some(b) => Some(TomlValue::Boolean(b)),
            None => None,
        }
    } else if crate::parser::str_eq(ty, "array") {
        let a = match toml_as_array(v) {
            Some(a) => a,
            None => return None,
        };
        let ghost items = d->Arr_0;
        let mut out: Vec<TomlValue> = Vec::new();
        let mut k: usize = 0;
        while k < a.len()
            invariant
                k <= a@.len(),
                fuel > 0,
                d == toml_value_data(*v),
                d == TomlData::Arr(items),
                a@.len() == items.len(),
                forall|i: int| 0 <= i < items.len() ==> toml_value_data(#[trigger] a@[i]) == items[i],
                out@.len() == k,
                forall|q: int| 0 <= q < out@.len() ==> value_ok(#[trigger] out@[q]),
                forall|q: int| 0 <= q < k ==> value_view(#[trigger] out@[q]) == items[q],
                forall|q: int| 0 <= q < k ==> fits(#[trigger] items[q], (fuel - 1) as nat),
            decreases a.len() - k,
        {
            match value_of(&a[k], fuel - 1) {
                Some(x) => out.push(x),
                None => {
                    assert(!fits(items[k as int], (fuel - 1) as nat));
                    proof {
                        lemma_not_fits(d, fuel as nat, items[k as int]);
                    }
                    return None;
                },
            }
            k += 1;
        }
        proof {
            lemma_list_view_len(out@, out@.len() as int);
            assert(list_view(out@, out@.len() as int) =~= items);
        }
        Some(TomlValue::Array(out))
    } else if crate::parser::str_eq(ty, "table") {
        match toml_as_table(v) {
            Some(t) => match table_of(t, fuel) {
                Some(t) => {
                    proof {
                        lemma_table_ok(t);
                    }
                    Some(TomlValue::Table(t))
                },
                None => None,
            },
            None => None,
        }
    } else {
        Some(TomlValue::Other(ty.to_owned()))
    }
}

/// Reads a table of the `toml` crate as a plain table, where it nests less
/// deep than `fuel`.
fn table_of(t: &toml::Table, fuel: usize) -> (r: Option<TomlTable>)
    ensures
        r is Some <==> fits(TomlData::Tab(toml_table_data(*t)), fuel as nat),
        r matches Some(o) ==> o@ == toml_table_data(*t) && table_ok(o) && keys_sorted(o.entries@),
    decreases fuel, 0int,
{
    let ghost m = toml_table_data(*t);
    if fuel == 0 {
        return None;
    }
    let es = toml_entries(t);
    let mut out = TomlTable::new();
    let mut k: usize = 0;
    while k < es.len()
        invariant
            k <= es@.len(),
            fuel > 0,
            m == toml_table_data(*t),
            forall|i: int, j: int| 0 <= i < j < es@.len() ==> (#[trigger] es@[i]).0@ != (#[trigger] es@[j]).0@,
            forall|i: int|
                0 <= i < es@.len() ==> m.contains_key((#[trigger] es@[i]).0@) && m[es@[i].0@] == toml_value_data(
                    *es@[i].1,
                ),
            table_ok(out),
            keys_sorted(out.entries@),
            forall|j: int|
                0 <= j < k ==> (out.get_spec((#[trigger] es@[j]).0@) matches Some(w) && w@ == toml_value_data(
                    *es@[j].1,
                )),
            forall|y: Seq<char>| #[trigger] out.get_spec(y) is Some ==> exists|j: int| 0 <= j < k && es@[j].0@ == y,
            forall|j: int| 0 <= j < k ==> fits(toml_value_data(*(#[trigger] es@[j]).1), (fuel - 1) as nat),
        decreases es.len() - k,
    {
        match value_of(es[k].1, fuel - 1) {
            Some(x) => {
                let key = es[k].0.clone();
                let ghost o0 = out;
                proof {
                    lemma_get_insert(out.entries@, key, x, key@);
                    lemma_insert_values(out.entries@, key, x, |y: TomlValue| value_ok(y));
                    lemma_insert_sorted(out.entries@, key, x);
                }
                out.insert(key, x);
                proof {
                    assert forall|y: Seq<char>| y != key@ implies #[trigger] out.get_spec(y) == o0.get_spec(y) by {
                        lemma_get_insert(o0.entries@, key, x, y);
                    }
                    assert forall|j: int| 0 <= j < k + 1 implies (out.get_spec((#[trigger] es@[j]).0@) matches Some(w)
                        && w@ == toml_value_data(*es@[j].1)) by {
                        if j < k {
                            assert(es@[j].0@ != es@[k as int].0@);
                        }
                    }
                    assert forall|y: Seq<char>| #[trigger] out.get_spec(y) is Some implies exists|j: int|
                        0 <= j < k + 1 && es@[j].0@ == y by {
                        if y != key@ {
                            assert(o0.get_spec(y) is Some);
                        } else {
                            assert(es@[k as int].0@ == y);
                        }
                    }
                }
            },
            None => {
                let ghost y = es@[k as int].0@;
                assert(m.contains_key(y) && m[y] == toml_value_data(*es@[k as int].1));
                assert(!fits(m[y], (fuel - 1) as nat));
                proof {
                    lemma_not_fits(TomlData::Tab(m), fuel as nat, m[y]);
                }
                return None;
            },
        }
        k += 1;
    }
    proof {
        assert forall|y: Seq<char>| #[trigger] m.contains_key(y) implies fits(m[y], (fuel - 1) as nat) by {
            let i = choose|i: int| 0 <= i < es@.len() && es@[i].0@ == y;
            assert(fits(toml_value_data(*es@[i].1), (fuel - 1) as nat));
        }
        assert forall|y: Seq<char>| #[trigger] m.contains_key(y) implies out@.contains_key(y) && out@[y] == m[y] by {
            lemma_view_get(out, y);
            let i = choose|i: int| 0 <= i < es@.len() && es@[i].0@ == y;
            assert(out.get_spec(es@[i].0@) is Some);
        }
        assert forall|y: Seq<char>| #[trigger] out@.contains_key(y) implies m.contains_key(y) by {
            lemma_view_get(out, y);
            let j = choose|j: int| 0 <= j < k && es@[j].0@ == y;
            assert(m.contains_key(es@[j].0@));
        }
        assert(out@ =~= m);
    }
    Some(out)
}

/// How deep a document of `n` bytes is read: deeper than it can nest.
pub open spec fn read_depth(n: usize) -> nat {
    if n < usize::MAX - 2 {
        (n + 2) as nat
    } else {
        usize::MAX as nat
    }
}

/// What reading `text` as a TOML document gives: its top-level table, where
/// the text is TOML and nests less deep than it is read.
pub open spec fn toml_read_chars(text: Seq<char>) -> Option<Map<Seq<char>, TomlData>> {
    match toml_document(text) {
        Some(m) => if fits(TomlData::Tab(m), read_depth(vstd::utf8::encode_utf8(text).len() as usize)) {
            Some(m)
        } else {
            None
        },
        None => None,
    }
}

/// What reading `text` as a TOML document gives.
pub open spec fn toml_read(text: &str) -> Option<Map<Seq<char>, TomlData>> {
    toml_read_chars(text@)
}

/// Parses a TOML document: its top-level table, read as plain values. A
/// document nests at most as deep as it is long, so reading it back cannot
/// run out of depth.
pub fn parse_toml(text: &str) -> (r: Result<TomlTable, String>)
    ensures
        r matches Ok(t) ==> table_ok(t),
        r is Ok <==> toml_read(text) is Some,
        r matches Ok(t) ==> toml_read(text) == Some(t@),
        r matches Ok(t) ==> keys_sorted(t.entries@),
        match toml_document(text@) {
            None => r is Err,
            Some(m) => match r {
                Ok(t) => t@ == m,
                Err(_) => !fits(TomlData::Tab(m), read_depth(text.len())),
            },
        },
{
    match toml_parse(text) {
        Ok(t) => {
            let fuel = if text.len() < usize::MAX - 2 {
                text.len() + 2
            } else {
                usize::MAX
            };
            match table_of(&t, fuel) {
                Some(t) => Ok(t),
                None => Err(String::from_str("TOML document nests too deeply")),
            }
        },
        Err(m) => Err(m),
    }
}

/// The index of the first entry with key `key`, from entry `k` on.
pub open spec fn find_key_from(es: Seq<(String, TomlValue)>, key: Seq<char>, k: int) -> Option<int>
    decreases es.len() - k,
{
    if k < 0 || k >= es.len() {
        None
    } else if es[k].0@ == key {
        Some(k)
    } else {
        find_key_from(es, key, k + 1)
    }
}

pub proof fn lemma_find_key_bounds(es: Seq<(String, TomlValue)>, key: Seq<char>, k: int)
    requires
        0 <= k,
    ensures
        find_key_from(es, key, k) matches Some(i) ==> k <= i < es.len() && es[i].0@ == key,
    decreases es.len() - k,
{
    if k < es.len() {
        lemma_find_key_bounds(es, key, k + 1);
    }
}

/// The index of the first position at or after `k` whose key sorts after
/// `key`.
pub open spec fn insert_pos_from(es: Seq<(String, TomlValue)>, key: Seq<char>, k: int) -> int
    decreases es.len() - k,
{
    if k < 0 || k >= es.len() {
        es.len() as int
    } else if crate::bytes::lex_lt(
        vstd::utf8::encode_utf8(key),
        vstd::utf8::encode_utf8(es[k].0@),
    ) {
        k
    } else {
        insert_pos_from(es, key, k + 1)
    }
}

pub proof fn lemma_insert_pos_bounds(es: Seq<(String, TomlValue)>, key: Seq<char>, k: int)
    requires
        0 <= k <= es.len(),
    ensures
        k <= insert_pos_from(es, key, k) <= es.len(),
    decreases es.len() - k,
{
    if k < es.len() {
        lemma_insert_pos_bounds(es, key, k + 1);
    }
}

/// Entries `es` are in key order: each key sorts, as UTF-8 bytes, before
/// every later one.
pub open spec fn keys_sorted(es: Seq<(String, TomlValue)>) -> bool {
    forall|i: int, j: int|
        0 <= i < j < es.len() ==> crate::bytes::lex_lt(
            vstd::utf8::encode_utf8(#[trigger] es[i].0@),
            vstd::utf8::encode_utf8(#[trigger] es[j].0@),
        )
}

proof fn lemma_insert_pos_props(es: Seq<(String, TomlValue)>, key: Seq<char>, k: int)
    requires
        0 <= k <= es.len(),
    ensures
        forall|q: int|
            k <= q < insert_pos_from(es, key, k) ==> !crate::bytes::lex_lt(
                vstd::utf8::encode_utf8(key),
                vstd::utf8::encode_utf8(#[trigger] es[q].0@),
            ),
        insert_pos_from(es, key, k) < es.len() ==> crate::bytes::lex_lt(
            vstd::utf8::encode_utf8(key),
            vstd::utf8::encode_utf8(es[insert_pos_from(es, key, k)].0@),
        ),
    decreases es.len() - k,
{
    if k < es.len() {
        lemma_insert_pos_props(es, key, k + 1);
    }
}

/// Setting a key keeps entries in key order.
pub proof fn lemma_insert_sorted(es: Seq<(String, TomlValue)>, key: String, v: TomlValue)
    requires
        keys_sorted(es),
    ensures
        keys_sorted(seq_insert(es, key, v)),
{
    lemma_find_key_bounds(es, key@, 0);
    match find_key_from(es, key@, 0) {
        Some(i) => {
            let n = es.update(i, (key, v));
            assert forall|a: int, b: int| 0 <= a < b < n.len() implies crate::bytes::lex_lt(
                vstd::utf8::encode_utf8(#[trigger] n[a].0@),
                vstd::utf8::encode_utf8(#[trigger] n[b].0@),
            ) by {
                assert(n[a].0@ == es[a].0@ && n[b].0@ == es[b].0@);
            }
        },
        None => {
            lemma_find_key_none(es, key@, 0);
            lemma_insert_pos_bounds(es, key@, 0);
            lemma_insert_pos_props(es, key@, 0);
            let p = insert_pos_from(es, key@, 0);
            let n = es.insert(p, (key, v));
            let kb = vstd::utf8::encode_utf8(key@);
            assert forall|a: int, b: int| 0 <= a < b < n.len() implies crate::bytes::lex_lt(
                vstd::utf8::encode_utf8(#[trigger] n[a].0@),
                vstd::utf8::encode_utf8(#[trigger] n[b].0@),
            ) by {
                if a == p {
                    let eb = vstd::utf8::encode_utf8(es[b - 1].0@);
                    assert(n[b] == es[b - 1]);
                    let ep = vstd::utf8::encode_utf8(es[p].0@);
                    assert(crate::bytes::lex_lt(kb, ep));
                    if p < b - 1 {
                        assert(crate::bytes::lex_lt(ep, eb));
                        crate::bytes::lemma_lex_transitive(kb, ep, eb);
                    }
                } else if b == p {
                    assert(n[a] == es[a]);
                    let ea = vstd::utf8::encode_utf8(es[a].0@);
                    assert(!crate::bytes::lex_lt(kb, ea));
                    assert(es[a].0@ != key@);
                    vstd::utf8::encode_utf8_decode_utf8(es[a].0@);
                    vstd::utf8::encode_utf8_decode_utf8(key@);
                    assert(ea != kb);
                    crate::bytes::lemma_lex_total(ea, kb);
                } else {
                    let oa = if a < p { a } else { a - 1 };
                    let ob = if b < p { b } else { b - 1 };
                    assert(n[a] == es[oa] && n[b] == es[ob]);
                    assert(oa < ob);
                }
            }
        },
    }
}

/// The value under `key` among entries `es`.
pub open spec fn seq_get(es: Seq<(String, TomlValue)>, key: Seq<char>) -> Option<TomlValue> {
    match find_key_from(es, key, 0) {
        Some(i) => Some(es[i].1),
        None => None,
    }
}

/// Entries `es` with `key` set to `v`.
pub open spec fn seq_insert(es: Seq<(String, TomlValue)>, key: String, v: TomlValue) -> Seq<
    (String, TomlValue),
> {
    match find_key_from(es, key@, 0) {
        Some(i) => es.update(i, (key, v)),
        None => es.insert(insert_pos_from(es, key@, 0), (key, v)),
    }
}

/// Entries `es` without `key`.
pub open spec fn seq_remove(es: Seq<(String, TomlValue)>, key: Seq<char>) -> Seq<(String, TomlValue)> {
    match find_key_from(es, key, 0) {
        Some(i) => es.remove(i),
        None => es,
    }
}

impl TomlTable {
    pub open spec fn get_spec(self, key: Seq<char>) -> Option<TomlValue> {
        seq_get(self.entries@, key)
    }

    /// The table after `insert(key, v)`: the first entry with the key gets
    /// the value, or a new entry goes in before the first key that sorts
    /// after it.
    pub open spec fn insert_spec(self, key: String, v: TomlValue) -> Seq<(String, TomlValue)> {
        seq_insert(self.entries@, key, v)
    }

    pub open spec fn remove_spec(self, key: Seq<char>) -> Seq<(String, TomlValue)> {
        seq_remove(self.entries@, key)
    }

    pub fn new() -> (t: TomlTable)
        ensures
            t.entries@.len() == 0,
            distinct_keys(t.entries@),
    {
        TomlTable { entries: Vec::new() }
    }

    fn find(&self, key: &str) -> (r: Option<usize>)
        ensures
            match r {
                Some(i) => find_key_from(self.entries@, key@, 0) == Some(i as int),
                None => find_key_from(self.entries@, key@, 0) is None,
            },
    {
        let mut k: usize = 0;
        while k < self.entries.len()
            invariant
                k <= self.entries@.len(),
                find_key_from(self.entries@, key@, 0) == find_key_from(
                    self.entries@,
                    key@,
                    k as int,
                ),
            decreases self.entries.len() - k,
        {
            if crate::parser::str_eq(self.entries[k].0.as_str(), key) {
                return Some(k);
            }
            k += 1;
        }
        None
    }

    /// The value under `key`.
    pub fn get(&self, key: &str) -> (r: Option<&TomlValue>)
        ensures
            match r {
                Some(v) => self.get_spec(key@) == Some(*v),
                None => self.get_spec(key@) is None,
            },
    {
        proof {
            lemma_find_key_bounds(self.entries@, key@, 0);
        }
        match self.find(key) {
            Some(i) => Some(&self.entries[i].1),
            None => None,
        }
    }

    pub fn contains_key(&self, key: &str) -> (r: bool)
        ensures
            r == self.get_spec(key@) is Some,
    {
        self.find(key).is_some()
    }

    /// Takes the value under `key` out of the table.
    pub fn remove(&mut self, key: &str) -> (r: Option<TomlValue>)
        ensures
            r == old(self).get_spec(key@),
            final(self).entries@ == old(self).remove_spec(key@),
    {
        match self.find(key) {
            Some(i) => {
                proof {
                    lemma_find_key_bounds(self.entries@, key@, 0);
                }
                let (_, v) = self.entries.remove(i);
                Some(v)
            },
            None => None,
        }
    }

    /// Sets the value under `key`.
    pub fn insert(&mut self, key: String, v: TomlValue)
        ensures
            final(self).entries@ == old(self).insert_spec(key, v),
    {
        match self.find(key.as_str()) {
            Some(i) => {
                proof {
                    lemma_find_key_bounds(self.entries@, key@, 0);
                }
                self.entries.set(i, (key, v));
            },
            None => {
                let mut p: usize = 0;
                while p < self.entries.len() && !crate::bytes::bytes_lt(
                    key.as_str().as_bytes(),
                    self.entries[p].0.as_str().as_bytes(),
                )
                    invariant
                        p <= self.entries@.len(),
                        insert_pos_from(self.entries@, key@, 0) == insert_pos_from(
                            self.entries@,
                            key@,
                            p as int,
                        ),
                    decreases self.entries.len() - p,
                {
                    p += 1;
                }
                proof {
                    lemma_insert_pos_bounds(self.entries@, key@, 0);
                }
                self.entries.insert(p, (key, v));
            },
        }
    }
}

} // verus!

verus! {

/// No key occurs twice among `es`.
pub open spec fn distinct_keys(es: Seq<(String, TomlValue)>) -> bool {
    forall|i: int, j: int| 0 <= i < j < es.len() ==> es[i].0@ != es[j].0@
}

proof fn lemma_find_key_none(es: Seq<(String, TomlValue)>, key: Seq<char>, k: int)
    requires
        0 <= k,
        find_key_from(es, key, k) is None,
    ensures
        forall|j: int| k <= j < es.len() ==> es[j].0@ != key,
    decreases es.len() - k,
{
    if k < es.len() {
        lemma_find_key_none(es, key, k + 1);
    }
}

proof fn lemma_find_key_first(es: Seq<(String, TomlValue)>, key: Seq<char>, k: int)
    requires
        0 <= k,
    ensures
        find_key_from(es, key, k) matches Some(i) ==> forall|j: int| k <= j < i ==> es[j].0@ != key,
    decreases es.len() - k,
{
    if k < es.len() {
        lemma_find_key_first(es, key, k + 1);
    }
}

/// The first entry with `key`, as [`find_key_from`] finds it.
pub proof fn lemma_find_key_is(es: Seq<(String, TomlValue)>, key: Seq<char>, i: int)
    requires
        0 <= i < es.len(),
        es[i].0@ == key,
        forall|j: int| 0 <= j < i ==> es[j].0@ != key,
    ensures
        find_key_from(es, key, 0) == Some(i),
{
    lemma_find_key_from_is(es, key, i, 0);
}

pub proof fn lemma_find_key_from_is(es: Seq<(String, TomlValue)>, key: Seq<char>, i: int, k: int)
    requires
        0 <= k <= i < es.len(),
        es[i].0@ == key,
        forall|j: int| k <= j < i ==> es[j].0@ != key,
    ensures
        find_key_from(es, key, k) == Some(i),
    decreases i - k,
{
    if k < i {
        lemma_find_key_from_is(es, key, i, k + 1);
    }
}

/// With no key `key` among `es`, nothing is found.
proof fn lemma_find_key_absent(es: Seq<(String, TomlValue)>, key: Seq<char>, k: int)
    requires
        0 <= k,
        forall|j: int| 0 <= j < es.len() ==> es[j].0@ != key,
    ensures
        find_key_from(es, key, k) is None,
    decreases es.len() - k,
{
    if k < es.len() {
        lemma_find_key_absent(es, key, k + 1);
    }
}

/// Reading a key gives back the value last written under it, and writing
/// one key leaves every other key as it was; the keys stay distinct.
pub proof fn lemma_get_insert(es: Seq<(String, TomlValue)>, key: String, v: TomlValue, other: Seq<char>)
    requires
        distinct_keys(es),
    ensures
        distinct_keys(seq_insert(es, key, v)),
        seq_get(seq_insert(es, key, v), key@) == Some(v),
        other != key@ ==> seq_get(seq_insert(es, key, v), other) == seq_get(es, other),
{
    let r = seq_insert(es, key, v);
    lemma_find_key_bounds(es, key@, 0);
    match find_key_from(es, key@, 0) {
        Some(i) => {
            assert(r == es.update(i, (key, v)));
            assert(distinct_keys(r));
            lemma_find_key_first(es, key@, 0);
            lemma_find_key_is(r, key@, i);
            if other != key@ {
                lemma_find_key_bounds(es, other, 0);
                lemma_find_key_first(es, other, 0);
                match find_key_from(es, other, 0) {
                    Some(m) => {
                        lemma_find_key_is(r, other, m);
                    },
                    None => {
                        lemma_find_key_none(es, other, 0);
                        lemma_find_key_absent(r, other, 0);
                    },
                }
            }
        },
        None => {
            lemma_find_key_none(es, key@, 0);
            let p = insert_pos_from(es, key@, 0);
            lemma_insert_pos_bounds(es, key@, 0);
            assert(r == es.insert(p, (key, v)));
            assert forall|a: int, b: int| 0 <= a < b < r.len() implies r[a].0@ != r[b].0@ by {
                if a < p && b < p {
                } else if a < p && b == p {
                } else if a < p {
                    assert(r[b] == es[b - 1]);
                } else if a == p {
                    assert(r[b] == es[b - 1]);
                } else {
                    assert(r[a] == es[a - 1]);
                    assert(r[b] == es[b - 1]);
                }
            }
            assert forall|j: int| 0 <= j < p implies r[j].0@ != key@ by {
                assert(r[j] == es[j]);
            }
            lemma_find_key_is(r, key@, p);
            if other != key@ {
                lemma_find_key_bounds(es, other, 0);
                lemma_find_key_first(es, other, 0);
                match find_key_from(es, other, 0) {
                    Some(m) => {
                        if m < p {
                            assert forall|j: int| 0 <= j < m implies r[j].0@ != other by {
                                assert(r[j] == es[j]);
                            }
                            lemma_find_key_is(r, other, m);
                        } else {
                            assert forall|j: int| 0 <= j < m + 1 implies r[j].0@ != other by {
                                if j < p {
                                    assert(r[j] == es[j]);
                                } else if j > p {
                                    assert(r[j] == es[j - 1]);
                                }
                            }
                            assert(r[m + 1] == es[m]);
                            lemma_find_key_is(r, other, m + 1);
                        }
                    },
                    None => {
                        lemma_find_key_none(es, other, 0);
                        assert forall|j: int| 0 <= j < r.len() implies r[j].0@ != other by {
                            if j < p {
                                assert(r[j] == es[j]);
                            } else if j > p {
                                assert(r[j] == es[j - 1]);
                            }
                        }
                        lemma_find_key_absent(r, other, 0);
                    },
                }
            }
        },
    }
}

/// Every value among the entries after an insert is the inserted one or
/// was there before.
pub proof fn lemma_insert_values(
    es: Seq<(String, TomlValue)>,
    key: String,
    v: TomlValue,
    p: spec_fn(TomlValue) -> bool,
)
    requires
        forall|j: int| 0 <= j < es.len() ==> p(#[trigger] es[j].1),
        p(v),
    ensures
        forall|j: int|
            0 <= j < seq_insert(es, key, v).len() ==> p(#[trigger] seq_insert(es, key, v)[j].1),
{
    let r = seq_insert(es, key, v);
    lemma_find_key_bounds(es, key@, 0);
    lemma_insert_pos_bounds(es, key@, 0);
    assert forall|j: int| 0 <= j < r.len() implies p(#[trigger] r[j].1) by {
        match find_key_from(es, key@, 0) {
            Some(i) => {
                if j != i {
                    assert(r[j] == es[j]);
                }
            },
            None => {
                let q = insert_pos_from(es, key@, 0);
                if j < q {
                    assert(r[j] == es[j]);
                } else if j > q {
                    assert(r[j] == es[j - 1]);
                }
            },
        }
    }
}

/// Every value among the entries after a removal was there before.
pub proof fn lemma_remove_values(es: Seq<(String, TomlValue)>, key: Seq<char>, p: spec_fn(TomlValue) -> bool)
    requires
        forall|j: int| 0 <= j < es.len() ==> p(#[trigger] es[j].1),
    ensures
        forall|j: int|
            0 <= j < seq_remove(es, key).len() ==> p(#[trigger] seq_remove(es, key)[j].1),
{
    let r = seq_remove(es, key);
    lemma_find_key_bounds(es, key, 0);
    assert forall|j: int| 0 <= j < r.len() implies p(#[trigger] r[j].1) by {
        match find_key_from(es, key, 0) {
            Some(i) => {
                if j < i {
                    assert(r[j] == es[j]);
                } else {
                    assert(r[j] == es[j + 1]);
                }
            },
            None => {},
        }
    }
}

/// Removing a key leaves it absent and every other key as it was; the keys
/// stay distinct.
pub proof fn lemma_get_remove(es: Seq<(String, TomlValue)>, key: Seq<char>, other: Seq<char>)
    requires
        distinct_keys(es),
    ensures
        distinct_keys(seq_remove(es, key)),
        seq_get(seq_remove(es, key), key) is None,
        other != key ==> seq_get(seq_remove(es, key), other) == seq_get(es, other),
{
    let r = seq_remove(es, key);
    lemma_find_key_bounds(es, key, 0);
    match find_key_from(es, key, 0) {
        Some(i) => {
            assert(r == es.remove(i));
            assert forall|a: int, b: int| 0 <= a < b < r.len() implies r[a].0@ != r[b].0@ by {
                if b < i {
                } else if a < i {
                    assert(r[b] == es[b + 1]);
                } else {
                    assert(r[a] == es[a + 1]);
                    assert(r[b] == es[b + 1]);
                }
            }
            assert forall|j: int| 0 <= j < r.len() implies r[j].0@ != key by {
                if j >= i {
                    assert(r[j] == es[j + 1]);
                }
            }
            lemma_find_key_absent(r, key, 0);
            if other != key {
                lemma_find_key_bounds(es, other, 0);
                lemma_find_key_first(es, other, 0);
                match find_key_from(es, other, 0) {
                    Some(m) => {
                        if m < i {
                            lemma_find_key_is(r, other, m);
                        } else {
                            assert forall|j: int| 0 <= j < m - 1 implies r[j].0@ != other by {
                                if j >= i {
                                    assert(r[j] == es[j + 1]);
                                }
                            }
                            assert(r[m - 1] == es[m]);
                            lemma_find_key_is(r, other, m - 1);
                        }
                    },
                    None => {
                        lemma_find_key_none(es, other, 0);
                        assert forall|j: int| 0 <= j < r.len() implies r[j].0@ != other by {
                            if j >= i {
                                assert(r[j] == es[j + 1]);
                            }
                        }
                        lemma_find_key_absent(r, other, 0);
                    },
                }
            }
        },
        None => {},
    }
}

} // verus!
