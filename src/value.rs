use vstd::prelude::*;
use vstd::string::StringExecFns;

verus! {

broadcast use vstd::std_specs::vec::group_vec_axioms;

/// The mathematical model of a JSON value. An object is a sequence of entries
/// whose keys are unique where the parser built it.
pub enum JsonData {
    Object(Seq<(Seq<char>, JsonData)>),
    Array(Seq<JsonData>),
    Str(Seq<char>),
    Number(Seq<char>),
    Boolean(bool),
    Null,
}

/// A JSON value. A number keeps the text of its literal; a string keeps its
/// characters as written, escapes included.
#[derive(Debug)]
pub enum JsonValue {
    Object(Vec<(String, JsonValue)>),
    Array(Vec<JsonValue>),
    String(String),
    Number(String),
    Boolean(bool),
    Null,
}

impl JsonValue {
    pub open spec fn view(&self) -> JsonData
        decreases self,
    {
        match self {
            JsonValue::Object(entries) => JsonData::Object(
                Seq::new(
                    entries.len() as nat,
                    |i: int|
                        if 0 <= i < entries.len() {
                            (entries[i].0@, entries[i].1.view())
                        } else {
                            (Seq::empty(), JsonData::Null)
                        },
                ),
            ),
            JsonValue::Array(items) => JsonData::Array(
                Seq::new(
                    items.len() as nat,
                    |i: int|
                        if 0 <= i < items.len() {
                            items[i].view()
                        } else {
                            JsonData::Null
                        },
                ),
            ),
            JsonValue::String(s) => JsonData::Str(s@),
            JsonValue::Number(s) => JsonData::Number(s@),
            JsonValue::Boolean(b) => JsonData::Boolean(*b),
            JsonValue::Null => JsonData::Null,
        }
    }
}

/// The models of the entries of an object.
pub open spec fn entries_view(e: Seq<(String, JsonValue)>) -> Seq<(Seq<char>, JsonData)> {
    e.map_values(|p: (String, JsonValue)| (p.0@, p.1@))
}

/// The models of the items of an array.
pub open spec fn items_view(e: Seq<JsonValue>) -> Seq<JsonData> {
    e.map_values(|v: JsonValue| v@)
}

pub proof fn lemma_view_containers(v: &JsonValue)
    ensures
        v matches JsonValue::Object(o) ==> v@ == JsonData::Object(entries_view(o@)),
        v matches JsonValue::Array(a) ==> v@ == JsonData::Array(items_view(a@)),
{
    match v {
        JsonValue::Object(o) => {
            assert(v.view()->Object_0 =~= entries_view(o@));
        },
        JsonValue::Array(a) => {
            assert(v.view()->Array_0 =~= items_view(a@));
        },
        _ => {},
    }
}

/// Whether `e` holds `k` as a key.
pub open spec fn has_key(e: Seq<(Seq<char>, JsonData)>, k: Seq<char>) -> bool {
    exists|i: int| 0 <= i < e.len() && (#[trigger] e[i]).0 == k
}

/// Whether no two entries of `e` share a key.
pub open spec fn unique_keys(e: Seq<(Seq<char>, JsonData)>) -> bool {
    forall|i: int, j: int|
        0 <= i < e.len() && 0 <= j < e.len() && (#[trigger] e[i]).0 == (#[trigger] e[j]).0 ==> i
            == j
}

/// `e` with `k` bound to `v`: the entry of `k` takes the new value in its place,
/// or a new entry is added at the end.
pub open spec fn put(e: Seq<(Seq<char>, JsonData)>, k: Seq<char>, v: JsonData) -> Seq<
    (Seq<char>, JsonData),
> {
    if has_key(e, k) {
        let i = choose|i: int| 0 <= i < e.len() && (#[trigger] e[i]).0 == k;
        e.update(i, (k, v))
    } else {
        e.push((k, v))
    }
}

/// The value bound to `k` in `e`, if any.
pub open spec fn lookup(e: Seq<(Seq<char>, JsonData)>, k: Seq<char>) -> Option<JsonData> {
    if has_key(e, k) {
        let i = choose|i: int| 0 <= i < e.len() && (#[trigger] e[i]).0 == k;
        Some(e[i].1)
    } else {
        None
    }
}

/// Binding a key keeps the keys unique; reading the key back gives the value
/// bound last, and every other key keeps its value.
pub proof fn lemma_put_last_wins(
    e: Seq<(Seq<char>, JsonData)>,
    k: Seq<char>,
    v: JsonData,
    other: Seq<char>,
)
    requires
        unique_keys(e),
    ensures
        unique_keys(put(e, k, v)),
        lookup(put(e, k, v), k) == Some(v),
        other != k ==> lookup(put(e, k, v), other) == lookup(e, other),
{
    let f = put(e, k, v);
    let pos: int = if has_key(e, k) {
        choose|i: int| 0 <= i < e.len() && (#[trigger] e[i]).0 == k
    } else {
        e.len() as int
    };
    assert(f.len() == e.len() || f.len() == e.len() + 1);
    assert(f[pos] == (k, v));
    assert forall|a: int| 0 <= a < f.len() && a != pos implies #[trigger] f[a] == e[a] by {}
    assert forall|a: int, b: int|
        0 <= a < f.len() && 0 <= b < f.len() && (#[trigger] f[a]).0 == (#[trigger] f[b]).0 implies a
        == b by {
        if a != pos && b != pos {
            assert(e[a].0 == e[b].0);
        } else if a == pos && b != pos {
            assert(e[b].0 == k);
        } else if a != pos && b == pos {
            assert(e[a].0 == k);
        }
    }
    assert(has_key(f, k));
    if other != k {
        if has_key(e, other) {
            let j = choose|j: int| 0 <= j < e.len() && (#[trigger] e[j]).0 == other;
            assert(j != pos);
            assert(f[j] == e[j]);
            assert(has_key(f, other));
        }
        if has_key(f, other) {
            let j = choose|j: int| 0 <= j < f.len() && (#[trigger] f[j]).0 == other;
            assert(j != pos);
            assert(e[j] == f[j]);
            assert(has_key(e, other));
        }
    }
}

/// Binds `key` to `value` in an object's entries, in place.
pub fn insert_entry(object: &mut Vec<(String, JsonValue)>, key: String, value: JsonValue)
    requires
        unique_keys(entries_view(old(object)@)),
    ensures
        entries_view(final(object)@) == put(entries_view(old(object)@), key@, value@),
        unique_keys(entries_view(final(object)@)),
{
    let ghost e = entries_view(object@);
    let ghost k = key@;
    let ghost v = value@;
    let mut i: usize = 0;
    while i < object.len()
        invariant
            0 <= i <= object.len(),
            object@ == old(object)@,
            e == entries_view(object@),
            unique_keys(e),
            k == key@,
            v == value@,
            forall|j: int| 0 <= j < i ==> (#[trigger] e[j]).0 != k,
        decreases object.len() - i,
    {
        if object[i].0 == key {
            assert(e[i as int].0 == k);
            object[i] = (key, value);
            proof {
                let c = choose|c: int| 0 <= c < e.len() && (#[trigger] e[c]).0 == k;
                assert(c == i);
                assert(entries_view(object@) =~= e.update(i as int, (k, v)));
                let f = entries_view(object@);
                assert forall|a: int, b: int|
                    0 <= a < f.len() && 0 <= b < f.len() && (#[trigger] f[a]).0 == (
                    #[trigger] f[b]).0 implies a == b by {
                    assert(f[a].0 == e[a].0);
                    assert(f[b].0 == e[b].0);
                }
            }
            return;
        }
        i = i + 1;
    }
    object.push((key, value));
    proof {
        assert(entries_view(object@) =~= e.push((k, v)));
        let f = entries_view(object@);
        assert forall|a: int, b: int|
            0 <= a < f.len() && 0 <= b < f.len() && (#[trigger] f[a]).0 == (#[trigger] f[b]).0 implies a
            == b by {
            if a < e.len() {
                assert(f[a] == e[a]);
            }
            if b < e.len() {
                assert(f[b] == e[b]);
            }
        }
    }
}

/// The display text of `v`: strings and numbers as written, without quotes;
/// objects as `{key: value, ...}` and arrays as `[value, ...]`.
pub open spec fn rendered(v: JsonData) -> Seq<char>
    decreases v,
{
    match v {
        JsonData::Object(e) => seq!['{'] + entries_rendered(e) + seq!['}'],
        JsonData::Array(a) => seq!['['] + items_rendered(a) + seq![']'],
        JsonData::Str(s) => s,
        JsonData::Number(n) => n,
        JsonData::Boolean(b) => if b {
            seq!['t', 'r', 'u', 'e']
        } else {
            seq!['f', 'a', 'l', 's', 'e']
        },
        JsonData::Null => seq!['n', 'u', 'l', 'l'],
    }
}

/// The display text of an object's entries, separated by `", "`.
pub open spec fn entries_rendered(e: Seq<(Seq<char>, JsonData)>) -> Seq<char>
    decreases e,
{
    if e.len() == 0 {
        Seq::empty()
    } else {
        let last = e[e.len() - 1].0 + seq![':', ' '] + rendered(e[e.len() - 1].1);
        if e.len() == 1 {
            last
        } else {
            entries_rendered(e.subrange(0, e.len() - 1)) + seq![',', ' '] + last
        }
    }
}

/// The display text of an array's items, separated by `", "`.
pub open spec fn items_rendered(a: Seq<JsonData>) -> Seq<char>
    decreases a,
{
    if a.len() == 0 {
        Seq::empty()
    } else {
        let last = rendered(a[a.len() - 1]);
        if a.len() == 1 {
            last
        } else {
            items_rendered(a.subrange(0, a.len() - 1)) + seq![',', ' '] + last
        }
    }
}

impl JsonValue {
    /// The display text of the value. It is meant for people: strings are not
    /// quoted, so it is not JSON in general.
    pub fn render(&self) -> (r: String)
        ensures
            r@ == rendered(self@),
        decreases self@,
    {
        proof {
            lemma_view_containers(self);
        }
        match self {
            JsonValue::String(s) => s.clone(),
            JsonValue::Number(n) => n.clone(),
            JsonValue::Boolean(b) => {
                if *b {
                    let r = "true".to_owned();
                    proof {
                        reveal_strlit("true");
                    }
                    assert(r@ =~= seq!['t', 'r', 'u', 'e']);
                    r
                } else {
                    let r = "false".to_owned();
                    proof {
                        reveal_strlit("false");
                    }
                    assert(r@ =~= seq!['f', 'a', 'l', 's', 'e']);
                    r
                }
            },
            JsonValue::Null => {
                let r = "null".to_owned();
                proof {
                    reveal_strlit("null");
                }
                assert(r@ =~= seq!['n', 'u', 'l', 'l']);
                r
            },
            JsonValue::Object(entries) => {
                let ghost e = entries_view(entries@);
                let mut out = "{".to_owned();
                proof {
                    reveal_strlit("{");
                }
                assert(out@ =~= seq!['{'] + entries_rendered(e.take(0)));
                let mut i: usize = 0;
                while i < entries.len()
                    invariant
                        0 <= i <= entries.len(),
                        e == entries_view(entries@),
                        self@ == JsonData::Object(e),
                        out@ == seq!['{'] + entries_rendered(e.take(i as int)),
                    decreases entries.len() - i,
                {
                    let ghost before = out@;
                    proof {
                        reveal_strlit(", ");
                        reveal_strlit(": ");
                    }
                    if i > 0 {
                        out.append(", ");
                    }
                    out.append(entries[i].0.as_str());
                    out.append(": ");
                    proof {
                        assert(self@->Object_0[i as int] == e[i as int]);
                        assert(decreases_to!(self@ => e[i as int].1));
                    }
                    let sub = entries[i].1.render();
                    out.append(sub.as_str());
                    proof {
                        let p = e.take(i + 1);
                        assert(p.subrange(0, p.len() - 1) =~= e.take(i as int));
                        assert(p[p.len() - 1] == e[i as int]);
                        if i > 0 {
                            assert(out@ =~= before + seq![',', ' '] + (e[i as int].0 + seq![':', ' ']
                                + rendered(e[i as int].1)));
                        } else {
                            assert(out@ =~= before + (e[i as int].0 + seq![':', ' '] + rendered(
                                e[i as int].1,
                            )));
                        }
                    }
                    i = i + 1;
                }
                out.append("}");
                proof {
                    reveal_strlit("}");
                }
                assert(e.take(i as int) =~= e);
                out
            },
            JsonValue::Array(items) => {
                let ghost a = items_view(items@);
                let mut out = "[".to_owned();
                proof {
                    reveal_strlit("[");
                }
                assert(out@ =~= seq!['['] + items_rendered(a.take(0)));
                let mut i: usize = 0;
                while i < items.len()
                    invariant
                        0 <= i <= items.len(),
                        a == items_view(items@),
                        self@ == JsonData::Array(a),
                        out@ == seq!['['] + items_rendered(a.take(i as int)),
                    decreases items.len() - i,
                {
                    let ghost before = out@;
                    proof {
                        reveal_strlit(", ");
                    }
                    if i > 0 {
                        out.append(", ");
                    }
                    proof {
                        assert(self@->Array_0[i as int] == a[i as int]);
                        assert(decreases_to!(self@ => a[i as int]));
                    }
                    let sub = items[i].render();
                    out.append(sub.as_str());
                    proof {
                        let p = a.take(i + 1);
                        assert(p.subrange(0, p.len() - 1) =~= a.take(i as int));
                        assert(p[p.len() - 1] == a[i as int]);
                        if i > 0 {
                            assert(out@ =~= before + seq![',', ' '] + rendered(a[i as int]));
                        } else {
                            assert(out@ =~= before + rendered(a[i as int]));
                        }
                    }
                    i = i + 1;
                }
                out.append("]");
                proof {
                    reveal_strlit("]");
                }
                assert(a.take(i as int) =~= a);
                out
            },
        }
    }
}

} // verus!
