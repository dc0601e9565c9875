//! The value tree shared by the MessagePack codec and the JSON codec.

use vstd::prelude::*;
use vstd::utf8::encode_utf8;

verus! {

/// Containers may nest this deep; decoding and parsing refuse deeper input.
pub const MAX_DEPTH: usize = 128;

/// Largest length that a MessagePack length prefix can carry.
pub const MAX_LEN: usize = 0xffff_ffff;

/// A JSON-like value.
///
/// Integers cover the whole range of `i64` and `u64`. A float is held as the
/// bit pattern of an IEEE 754 binary64 number, so that it is never rounded on
/// its way through the library. Objects keep their entries in insertion order.
#[derive(Debug, PartialEq, Eq)]
pub enum Value {
    Null,
    Bool(bool),
    /// A non-negative integer.
    UInt(u64),
    /// A negative integer.
    Int(i64),
    /// The bits of a finite binary64 number.
    Float(u64),
    Str(String),
    Array(Vec<Value>),
    Object(Vec<(String, Value)>),
}

/// The mathematical model of a [`Value`].
pub enum Json {
    Null,
    Bool(bool),
    Int(int),
    Float(u64),
    Str(Seq<char>),
    Array(Seq<Json>),
    Object(Seq<(Seq<char>, Json)>),
}

/// Whether `bits` is the pattern of a finite binary64 number, that is, its
/// exponent field is not all ones.
pub open spec fn is_finite_bits(bits: u64) -> bool {
    (bits as int / 0x10_0000_0000_0000) % 0x800 != 0x7ff
}

/// Whether no key occurs twice among `entries`.
pub open spec fn keys_unique(entries: Seq<(Seq<char>, Json)>) -> bool {
    forall|i: int, j: int|
        0 <= i < j < entries.len() ==> (#[trigger] entries[i]).0 != (#[trigger] entries[j]).0
}

/// Index of the first entry of `entries` from `from` on with key `key`, or
/// -1.
pub open spec fn key_index_from(entries: Seq<(Seq<char>, Json)>, key: Seq<char>, from: int) -> int
    decreases entries.len() - from,
{
    if from < 0 || from >= entries.len() {
        -1
    } else if entries[from].0 == key {
        from
    } else {
        key_index_from(entries, key, from + 1)
    }
}

/// Index of the first entry of `entries` with key `key`, or -1.
pub open spec fn key_index(entries: Seq<(Seq<char>, Json)>, key: Seq<char>) -> int {
    key_index_from(entries, key, 0)
}

/// `entries` after `key` has been set to `value`: an entry with that key keeps
/// its place and gets the new value, a new key goes to the end.
pub open spec fn object_insert(entries: Seq<(Seq<char>, Json)>, key: Seq<char>, value: Json) -> Seq<
    (Seq<char>, Json),
> {
    let at = key_index(entries, key);
    if at >= 0 {
        entries.update(at, (key, value))
    } else {
        entries.push((key, value))
    }
}

impl Json {
    /// Integers fit in 64 bits, floats are finite, and no object has a key
    /// twice.
    pub open spec fn valid(self) -> bool
        decreases self,
    {
        match self {
            Json::Int(i) => -0x8000_0000_0000_0000 <= i <= 0xffff_ffff_ffff_ffff,
            Json::Float(bits) => is_finite_bits(bits),
            Json::Array(items) => forall|i: int|
                0 <= i < items.len() ==> (#[trigger] items[i]).valid(),
            Json::Object(entries) => keys_unique(entries) && forall|i: int|
                0 <= i < entries.len() ==> (#[trigger] entries[i]).1.valid(),
            _ => true,
        }
    }

    /// Containers nest at most `depth` levels deep: a scalar nests within
    /// any depth, a container of scalars within depth 1.
    pub open spec fn nests_within(self, depth: int) -> bool
        decreases self,
    {
        match self {
            Json::Array(items) => depth > 0 && forall|i: int|
                0 <= i < items.len() ==> (#[trigger] items[i]).nests_within(depth - 1),
            Json::Object(entries) => depth > 0 && forall|i: int|
                0 <= i < entries.len() ==> (#[trigger] entries[i]).1.nests_within(depth - 1),
            _ => true,
        }
    }

    /// Every length fits the four bytes that MessagePack has for it: the
    /// number of items of a container and of bytes of a string in UTF-8.
    pub open spec fn encodable(self) -> bool
        decreases self,
    {
        match self {
            Json::Str(s) => encode_utf8(s).len() <= MAX_LEN,
            Json::Array(items) => items.len() <= MAX_LEN && forall|i: int|
                0 <= i < items.len() ==> (#[trigger] items[i]).encodable(),
            Json::Object(entries) => entries.len() <= MAX_LEN && forall|i: int|
                0 <= i < entries.len() ==> encode_utf8((#[trigger] entries[i]).0).len() <= MAX_LEN
                    && entries[i].1.encodable(),
            _ => true,
        }
    }
}

impl Value {
    /// Every integer stands in the variant that its sign asks for.
    pub open spec fn canonical(&self) -> bool
        decreases self,
    {
        match self {
            Value::Int(i) => *i < 0,
            Value::Array(items) => forall|k: int|
                0 <= k < items.len() ==> (#[trigger] items[k]).canonical(),
            Value::Object(entries) => forall|k: int|
                0 <= k < entries.len() ==> (#[trigger] entries[k]).1.canonical(),
            _ => true,
        }
    }

    /// The tree is canonical and its model is valid.
    pub open spec fn well_formed(&self) -> bool {
        self.canonical() && self@.valid()
    }
}

impl View for Value {
    type V = Json;

    open spec fn view(&self) -> Json
        decreases self, 0nat,
    {
        match self {
            Value::Null => Json::Null,
            Value::Bool(b) => Json::Bool(*b),
            Value::UInt(n) => Json::Int(*n as int),
            Value::Int(i) => Json::Int(*i as int),
            Value::Float(bits) => Json::Float(*bits),
            Value::Str(s) => Json::Str(s@),
            Value::Array(items) => Json::Array(items_model(*items, items.len() as nat)),
            Value::Object(entries) => Json::Object(entries_model(*entries, entries.len() as nat)),
        }
    }
}

/// The models of the first `n` of `items`.
pub open spec fn items_model(items: Vec<Value>, n: nat) -> Seq<Json>
    decreases items, n,
{
    if n == 0 || n > items.len() {
        Seq::empty()
    } else {
        items_model(items, (n - 1) as nat).push(items[n - 1].view())
    }
}

/// The models of the first `n` of `entries`.
pub open spec fn entries_model(entries: Vec<(String, Value)>, n: nat) -> Seq<(Seq<char>, Json)>
    decreases entries, n,
{
    if n == 0 || n > entries.len() {
        Seq::empty()
    } else {
        entries_model(entries, (n - 1) as nat).push((entries[n - 1].0@, entries[n - 1].1.view()))
    }
}

/// `items_model` goes item by item.
pub proof fn lemma_items_model(items: Vec<Value>, n: nat)
    requires
        n <= items.len(),
    ensures
        items_model(items, n).len() == n,
        forall|i: int| 0 <= i < n ==> (#[trigger] items_model(items, n)[i]) == items[i]@,
    decreases n,
{
    if n > 0 {
        lemma_items_model(items, (n - 1) as nat);
        assert(items_model(items, n) == items_model(items, (n - 1) as nat).push(
            items[n - 1].view(),
        ));
    } else {
        assert(items_model(items, 0) == Seq::<Json>::empty());
        assert(items_model(items, 0).len() == 0);
    }
}

/// `entries_model` goes entry by entry.
pub proof fn lemma_entries_model(entries: Vec<(String, Value)>, n: nat)
    requires
        n <= entries.len(),
    ensures
        entries_model(entries, n).len() == n,
        forall|i: int|
            0 <= i < n ==> (#[trigger] entries_model(entries, n)[i]) == (
                entries[i].0@,
                entries[i].1@,
            ),
    decreases n,
{
    if n > 0 {
        lemma_entries_model(entries, (n - 1) as nat);
        assert(entries_model(entries, n) == entries_model(entries, (n - 1) as nat).push(
            (entries[n - 1].0@, entries[n - 1].1.view()),
        ));
    } else {
        assert(entries_model(entries, 0) == Seq::<(Seq<char>, Json)>::empty());
    }
}

/// What the view of an array is, item by item.
pub proof fn lemma_array_view(v: Value)
    requires
        v is Array,
    ensures
        v@ is Array,
        v@->Array_0.len() == v->Array_0.len(),
        forall|i: int| 0 <= i < v->Array_0.len() ==> (#[trigger] v@->Array_0[i]) == v->Array_0[i]@,
{
    lemma_items_model(v->Array_0, v->Array_0.len() as nat);
}

/// What the view of an object is, entry by entry.
pub proof fn lemma_object_view(v: Value)
    requires
        v is Object,
    ensures
        v@ is Object,
        v@->Object_0.len() == v->Object_0.len(),
        forall|i: int|
            0 <= i < v->Object_0.len() ==> (#[trigger] v@->Object_0[i]) == (
                v->Object_0[i].0@,
                v->Object_0[i].1@,
            ),
{
    lemma_entries_model(v->Object_0, v->Object_0.len() as nat);
}

/// Where a key is found it is the first of its kind, and -1 means that it is
/// nowhere from `from` on.
pub proof fn lemma_key_index(entries: Seq<(Seq<char>, Json)>, key: Seq<char>, from: int)
    requires
        0 <= from,
    ensures
        key_index_from(entries, key, from) == -1 || from <= key_index_from(entries, key, from)
            < entries.len(),
        key_index_from(entries, key, from) >= 0 ==> entries[key_index_from(entries, key, from)].0
            == key,
        forall|k: int|
            from <= k < entries.len() && (key_index_from(entries, key, from) == -1 || k
                < key_index_from(entries, key, from)) ==> (#[trigger] entries[k]).0 != key,
    decreases entries.len() - from,
{
    if from < entries.len() && entries[from].0 != key {
        lemma_key_index(entries, key, from + 1);
    }
}

/// Setting a key keeps the keys unique and the values valid.
pub proof fn lemma_insert_valid(entries: Seq<(Seq<char>, Json)>, key: Seq<char>, value: Json)
    requires
        Json::Object(entries).valid(),
        value.valid(),
    ensures
        Json::Object(object_insert(entries, key, value)).valid(),
{
    lemma_key_index(entries, key, 0);
    let after = object_insert(entries, key, value);
    let at = key_index(entries, key);
    assert forall|i: int, j: int| 0 <= i < j < after.len() implies (#[trigger] after[i]).0 != (
    #[trigger] after[j]).0 by {
        if at >= 0 {
            assert(after[i].0 == entries[i].0);
            assert(after[j].0 == entries[j].0);
        } else {
            if j < entries.len() {
                assert(after[i] == entries[i]);
                assert(after[j] == entries[j]);
            } else {
                assert(after[i] == entries[i]);
            }
        }
    }
    assert forall|i: int| 0 <= i < after.len() implies (#[trigger] after[i]).1.valid() by {
        if at >= 0 {
            if i != at {
                assert(after[i] == entries[i]);
            }
        } else {
            if i < entries.len() {
                assert(after[i] == entries[i]);
            }
        }
    }
}

/// Setting a key to a value that nests no deeper than the others keeps the
/// depth.
pub proof fn lemma_insert_nests(
    entries: Seq<(Seq<char>, Json)>,
    key: Seq<char>,
    value: Json,
    depth: int,
)
    requires
        depth > 0,
        Json::Object(entries).nests_within(depth),
        value.nests_within(depth - 1),
    ensures
        Json::Object(object_insert(entries, key, value)).nests_within(depth),
{
    lemma_key_index(entries, key, 0);
    let after = object_insert(entries, key, value);
    let at = key_index(entries, key);
    let before = Json::Object(entries);
    assert(before.nests_within(depth));
    assert(forall|i: int|
        0 <= i < entries.len() ==> (#[trigger] before->Object_0[i]).1.nests_within(depth - 1));
    assert forall|i: int| 0 <= i < after.len() implies (#[trigger] after[i]).1.nests_within(
        depth - 1,
    ) by {
        if at >= 0 {
            if i != at {
                assert(after[i] == entries[i]);
            }
        } else {
            if i < entries.len() {
                assert(after[i] == entries[i]);
            }
        }
    }
}

/// Sets `key` to `value` in `entries`: an entry with that key keeps its place
/// and gets the new value, a new key goes to the end.
pub fn insert_entry(entries: &mut Vec<(String, Value)>, key: String, value: Value)
    ensures
        entries_model(*final(entries), final(entries).len() as nat) == object_insert(
            entries_model(*old(entries), old(entries).len() as nat),
            key@,
            value@,
        ),
        forall|k: int|
            0 <= k < final(entries).len() ==> (#[trigger] final(entries)[k]).1 == value || (k
                < old(entries).len() && final(entries)[k].1 == old(entries)[k].1),
{
    let ghost before = entries_model(*entries, entries.len() as nat);
    proof {
        lemma_entries_model(*entries, entries.len() as nat);
    }
    let mut i: usize = 0;
    while i < entries.len()
        invariant
            i <= entries.len(),
            entries == old(entries),
            before == entries_model(*entries, entries.len() as nat),
            before.len() == entries.len(),
            forall|k: int|
                0 <= k < entries.len() ==> (#[trigger] before[k]) == (
                    entries[k].0@,
                    entries[k].1@,
                ),
            key_index(before, key@) == key_index_from(before, key@, i as int),
        decreases entries.len() - i,
    {
        if entries[i].0 == key {
            assert(before[i as int].0 == key@);
            entries.set(i, (key, value));
            proof {
                lemma_entries_model(*entries, entries.len() as nat);
                assert(entries_model(*entries, entries.len() as nat) =~= object_insert(
                    before,
                    key@,
                    value@,
                ));
            }
            return ;
        }
        assert(before[i as int].0 != key@);
        i += 1;
    }
    entries.push((key, value));
    proof {
        lemma_entries_model(*entries, entries.len() as nat);
        assert(entries_model(*entries, entries.len() as nat) =~= object_insert(
            before,
            key@,
            value@,
        ));
    }
}

} // verus!
