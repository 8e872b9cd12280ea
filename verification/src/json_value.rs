use vstd::prelude::*;

verus! {

/// A JSON value as the streaming parsers produce it.
///
/// A number is kept as the text that was recognised for it; an object keeps
/// each key once, in the order in which the key first appeared, with the value
/// that the key was given last.
#[derive(Debug, PartialEq)]
pub enum JsonValue {
    Null,
    Bool(bool),
    Num(Vec<u8>),
    Str(String),
    Array(Vec<JsonValue>),
    Object(Vec<(String, JsonValue)>),
}

/// The mathematical model of a [`JsonValue`].
#[verifier::ext_equal]
pub ghost enum Json {
    Null,
    Bool(bool),
    Num(Seq<u8>),
    Str(Seq<char>),
    Array(Seq<Json>),
    Object(Seq<(Seq<char>, Json)>),
}

impl JsonValue {
    pub open spec fn model(self) -> Json
        decreases self,
    {
        match self {
            JsonValue::Null => Json::Null,
            JsonValue::Bool(b) => Json::Bool(b),
            JsonValue::Num(t) => Json::Num(t@),
            JsonValue::Str(s) => Json::Str(s@),
            JsonValue::Array(vs) => Json::Array(
                Seq::new(vs.len() as nat, |i: int| if 0 <= i < vs.len() { vs@[i].model() } else { Json::Null }),
            ),
            JsonValue::Object(kvs) => Json::Object(
                Seq::new(kvs.len() as nat, |i: int| if 0 <= i < kvs.len() { (kvs@[i].0@, kvs@[i].1.model()) } else { (Seq::empty(), Json::Null) }),
            ),
        }
    }
}

impl View for JsonValue {
    type V = Json;

    open spec fn view(&self) -> Json {
        self.model()
    }
}

/// The models of a sequence of values.
pub open spec fn values_models(vs: Seq<JsonValue>) -> Seq<Json> {
    vs.map_values(|v: JsonValue| v@)
}

/// The models of a sequence of object entries.
pub open spec fn entries_models(kvs: Seq<(String, JsonValue)>) -> Seq<(Seq<char>, Json)> {
    kvs.map_values(|kv: (String, JsonValue)| (kv.0@, kv.1@))
}

pub proof fn lemma_array_model(vs: Vec<JsonValue>)
    ensures
        JsonValue::Array(vs)@ == Json::Array(values_models(vs@)),
{
    let xs = JsonValue::Array(vs).model()->Array_0;
    assert(xs.len() == vs.len());
    assert forall|i: int| 0 <= i < xs.len() implies xs[i] == values_models(vs@)[i] by {}
    assert(xs =~= values_models(vs@));
}

pub proof fn lemma_object_model(kvs: Vec<(String, JsonValue)>)
    ensures
        JsonValue::Object(kvs)@ == Json::Object(entries_models(kvs@)),
{
    let xs = JsonValue::Object(kvs).model()->Object_0;
    assert(xs.len() == kvs.len());
    assert forall|i: int| 0 <= i < xs.len() implies xs[i] == entries_models(kvs@)[i] by {}
    assert(xs =~= entries_models(kvs@));
}

/// `i` is the first position of `m` whose key is `key`.
pub open spec fn is_key_position(m: Seq<(Seq<char>, Json)>, key: Seq<char>, i: int) -> bool {
    &&& 0 <= i < m.len()
    &&& m[i].0 == key
    &&& forall|j: int| 0 <= j < i ==> #[trigger] m[j].0 != key
}

/// The first position of `m` whose key is `key`, if there is one.
pub open spec fn key_position(m: Seq<(Seq<char>, Json)>, key: Seq<char>) -> Option<int> {
    if exists|i: int| is_key_position(m, key, i) {
        Some(choose|i: int| is_key_position(m, key, i))
    } else {
        None
    }
}

/// Adds the entry `e` to `m`: it replaces the entry with the same key where
/// there is one, and goes at the end otherwise.
pub open spec fn insert_entry_spec(m: Seq<(Seq<char>, Json)>, e: (Seq<char>, Json)) -> Seq<
    (Seq<char>, Json),
> {
    match key_position(m, e.0) {
        Some(i) => m.update(i, e),
        None => m.push(e),
    }
}

/// The object that the entries `raw` make when they are added in order:
/// each key once, where it first appeared, with the value it was given last.
pub open spec fn collect_spec(raw: Seq<(Seq<char>, Json)>) -> Seq<(Seq<char>, Json)>
    decreases raw.len(),
{
    if raw.len() == 0 {
        Seq::empty()
    } else {
        insert_entry_spec(collect_spec(raw.drop_last()), raw.last())
    }
}

/// No key occurs twice in `m`.
pub open spec fn keys_distinct(m: Seq<(Seq<char>, Json)>) -> bool {
    forall|i: int, j: int| 0 <= i < m.len() && 0 <= j < m.len() && i != j ==> m[i].0 != m[j].0
}

pub proof fn lemma_key_position(m: Seq<(Seq<char>, Json)>, key: Seq<char>, i: int)
    requires
        is_key_position(m, key, i),
    ensures
        key_position(m, key) == Some(i),
{
    let c = choose|c: int| is_key_position(m, key, c);
    if c < i {
        assert(m[c].0 != key);
    } else if i < c {
        assert(m[i].0 != key);
    }
}

/// Adding an entry keeps the keys distinct.
pub proof fn lemma_insert_keeps_keys_distinct(m: Seq<(Seq<char>, Json)>, e: (Seq<char>, Json))
    requires
        keys_distinct(m),
    ensures
        keys_distinct(insert_entry_spec(m, e)),
{
    if exists|i: int| is_key_position(m, e.0, i) {
        let i = choose|i: int| is_key_position(m, e.0, i);
        lemma_key_position(m, e.0, i);
    } else {
        assert forall|i: int| 0 <= i < m.len() implies m[i].0 != e.0 by {
            if m[i].0 == e.0 {
                let k = choose|k: int| 0 <= k <= i && m[k].0 == e.0 && forall|j: int| 0 <= j < k ==> #[trigger] m[j].0 != e.0;
                assert(is_key_position(m, e.0, k));
            }
        }
    }
}

/// Adds `key` with `value` to `entries`, as inserting into a map does.
pub fn insert_entry(entries: &mut Vec<(String, JsonValue)>, key: String, value: JsonValue)
    ensures
        entries_models(final(entries)@) == insert_entry_spec(
            entries_models(old(entries)@),
            (key@, value@),
        ),
{
    let ghost m = entries_models(entries@);
    let mut i: usize = 0;
    while i < entries.len()
        invariant
            0 <= i <= entries@.len(),
            entries@ == old(entries)@,
            m == entries_models(entries@),
            forall|j: int| 0 <= j < i ==> #[trigger] m[j].0 != key@,
        decreases entries.len() - i,
    {
        if entries[i].0 == key {
            proof {
                lemma_key_position(m, key@, i as int);
            }
            entries.set(i, (key, value));
            assert(entries_models(entries@) =~= m.update(i as int, (key@, value@)));
            return ;
        }
        i += 1;
    }
    proof {
        if exists|k: int| is_key_position(m, key@, k) {
            let k = choose|k: int| is_key_position(m, key@, k);
            assert(m[k].0 != key@);
        }
    }
    entries.push((key, value));
    assert(entries_models(entries@) =~= m.push((key@, value@)));
}

/// The object made of the entries `raw`, added in order.
pub fn collect_entries(raw: Vec<(String, JsonValue)>) -> (r: Vec<(String, JsonValue)>)
    ensures
        entries_models(r@) == collect_spec(entries_models(raw@)),
{
    let ghost all = entries_models(raw@);
    let mut rest = raw;
    let mut entries: Vec<(String, JsonValue)> = Vec::new();
    assert(all.take(0) =~= Seq::<(Seq<char>, Json)>::empty());
    while rest.len() > 0
        invariant
            rest@.len() <= all.len(),
            entries_models(rest@) == all.skip(all.len() - rest@.len()),
            entries_models(entries@) == collect_spec(all.take(all.len() - rest@.len())),
        decreases rest@.len(),
    {
        let ghost d = all.len() - rest@.len();
        let ghost old_rest = rest@;
        let (key, value) = rest.remove(0);
        assert(entries_models(old_rest)[0] == all[d]);
        assert((key@, value@) == all[d]);
        assert forall|i: int| 0 <= i < rest@.len() implies entries_models(rest@)[i] == all.skip(
            d + 1,
        )[i] by {
            assert(rest@[i] == old_rest[i + 1]);
            assert(entries_models(old_rest)[i + 1] == all.skip(d)[i + 1]);
        }
        assert(entries_models(rest@) =~= all.skip(d + 1));
        assert(all.take(d + 1).drop_last() =~= all.take(d));
        insert_entry(&mut entries, key, value);
    }
    assert(all.take(all.len() as int) =~= all);
    entries
}

/// The entries of an object that [`collect_spec`] makes have distinct keys.
pub proof fn lemma_collect_keys_distinct(raw: Seq<(Seq<char>, Json)>)
    ensures
        keys_distinct(collect_spec(raw)),
    decreases raw.len(),
{
    if raw.len() > 0 {
        lemma_collect_keys_distinct(raw.drop_last());
        lemma_insert_keeps_keys_distinct(collect_spec(raw.drop_last()), raw.last());
    }
}

/// `raw[i]` is the last entry of `raw` with its key.
pub open spec fn is_last_for_key(raw: Seq<(Seq<char>, Json)>, i: int) -> bool {
    &&& 0 <= i < raw.len()
    &&& forall|j: int| i < j < raw.len() ==> #[trigger] raw[j].0 != raw[i].0
}

/// Collecting entries into an object keeps, for each key, the value that
/// the key was given last, and nothing else: an entry is in the object
/// exactly when it is the last entry of `raw` with its key.
pub proof fn lemma_collect_last_wins(raw: Seq<(Seq<char>, Json)>)
    ensures
        forall|i: int| is_last_for_key(raw, i) ==> collect_spec(raw).contains(#[trigger] raw[i]),
        forall|e: (Seq<char>, Json)|
            collect_spec(raw).contains(e) ==> exists|i: int| is_last_for_key(raw, i) && raw[i] == e,
    decreases raw.len(),
{
    if raw.len() > 0 {
        let init = raw.drop_last();
        let last = raw.last();
        let m = collect_spec(init);
        lemma_collect_last_wins(init);
        lemma_collect_keys_distinct(init);
        let r = collect_spec(raw);
        assert(r == insert_entry_spec(m, last));
        let n = raw.len() - 1;
        if exists|p: int| is_key_position(m, last.0, p) {
            let p = choose|p: int| is_key_position(m, last.0, p);
            lemma_key_position(m, last.0, p);
            assert(r == m.update(p, last));
            assert forall|i: int| is_last_for_key(raw, i) implies r.contains(#[trigger] raw[i]) by {
                if i == n {
                    assert(r[p] == raw[i]);
                } else {
                    assert(raw[i].0 != last.0);
                    assert(is_last_for_key(init, i));
                    assert(init[i] == raw[i]);
                    assert(m.contains(init[i]));
                    let q = choose|q: int| 0 <= q < m.len() && m[q] == init[i];
                    assert(q != p);
                    assert(r[q] == raw[i]);
                }
            }
            assert forall|e: (Seq<char>, Json)| r.contains(e) implies exists|i: int|
                is_last_for_key(raw, i) && raw[i] == e by {
                let q = choose|q: int| 0 <= q < r.len() && r[q] == e;
                if q == p {
                    assert(is_last_for_key(raw, n) && raw[n] == e);
                } else {
                    assert(m[q] == e);
                    assert(m.contains(e));
                    let i = choose|i: int| is_last_for_key(init, i) && init[i] == e;
                    assert(e.0 != last.0) by {
                        assert(m[q].0 != m[p].0);
                    }
                    assert(raw[i] == init[i]);
                    assert forall|j: int| i < j < raw.len() implies #[trigger] raw[j].0
                        != raw[i].0 by {
                        if j < n {
                            assert(raw[j] == init[j]);
                        }
                    }
                    assert(is_last_for_key(raw, i) && raw[i] == e);
                }
            }
        } else {
            assert(r == m.push(last));
            assert forall|i: int| is_last_for_key(raw, i) implies r.contains(#[trigger] raw[i]) by {
                if i == n {
                    assert(r[m.len() as int] == raw[i]);
                } else {
                    assert(raw[i].0 != last.0);
                    assert(is_last_for_key(init, i));
                    assert(init[i] == raw[i]);
                    assert(m.contains(init[i]));
                    let q = choose|q: int| 0 <= q < m.len() && m[q] == init[i];
                    assert(r[q] == raw[i]);
                }
            }
            assert forall|e: (Seq<char>, Json)| r.contains(e) implies exists|i: int|
                is_last_for_key(raw, i) && raw[i] == e by {
                let q = choose|q: int| 0 <= q < r.len() && r[q] == e;
                if q == m.len() {
                    assert(is_last_for_key(raw, n) && raw[n] == e);
                } else {
                    assert(m[q] == e);
                    assert(m.contains(e));
                    let i = choose|i: int| is_last_for_key(init, i) && init[i] == e;
                    assert(e.0 != last.0) by {
                        if e.0 == last.0 {
                            let k = choose|k: int| 0 <= k <= q && m[k].0 == last.0 && forall|j: int|
                                0 <= j < k ==> #[trigger] m[j].0 != last.0;
                            assert(is_key_position(m, last.0, k));
                        }
                    }
                    assert(raw[i] == init[i]);
                    assert forall|j: int| i < j < raw.len() implies #[trigger] raw[j].0
                        != raw[i].0 by {
                        if j < n {
                            assert(raw[j] == init[j]);
                        }
                    }
                    assert(is_last_for_key(raw, i) && raw[i] == e);
                }
            }
        }
    }
}

} // verus!
