//! The generic tree value that YAML and JSON documents are read into.
use vstd::prelude::*;

verus! {

/// Mathematical model of a [`Value`]: strings are character sequences, arrays
/// and objects are sequences of subtrees (objects keep their entries in order).
pub enum Tree {
    Null,
    Bool(bool),
    Number(Seq<char>),
    Str(Seq<char>),
    Array(Seq<Tree>),
    Object(Seq<(Seq<char>, Tree)>),
}

/// A dynamically typed document node: null, boolean, number (kept as its
/// decimal text), string, array or object.
#[derive(Debug, PartialEq)]
pub enum Value {
    Null,
    Bool(bool),
    Number(String),
    String(String),
    Array(Vec<Value>),
    Object(Vec<(String, Value)>),
}

/// The model of a value, node by node.
pub open spec fn tree_of(v: Value) -> Tree
    decreases v,
{
    match v {
        Value::Null => Tree::Null,
        Value::Bool(b) => Tree::Bool(b),
        Value::Number(n) => Tree::Number(n@),
        Value::String(s) => Tree::Str(s@),
        Value::Array(items) => Tree::Array(
            Seq::new(
                items.len() as nat,
                |i: int|
                    if 0 <= i < items.len() {
                        tree_of(items[i])
                    } else {
                        Tree::Null
                    },
            ),
        ),
        Value::Object(entries) => Tree::Object(
            Seq::new(
                entries.len() as nat,
                |i: int|
                    if 0 <= i < entries.len() {
                        (entries[i].0@, tree_of(entries[i].1))
                    } else {
                        (Seq::empty(), Tree::Null)
                    },
            ),
        ),
    }
}

impl View for Value {
    type V = Tree;

    #[verifier::inline]
    open spec fn view(&self) -> Tree {
        tree_of(*self)
    }
}

/// The value stored under `key` in a list of entries: that of the first entry
/// with that key, as a lookup in a mapping returns it.
pub open spec fn lookup<K, V>(entries: Seq<(K, V)>, key: K) -> Option<V>
    decreases entries.len(),
{
    if entries.len() == 0 {
        None
    } else if entries[0].0 == key {
        Some(entries[0].1)
    } else {
        lookup(entries.drop_first(), key)
    }
}

/// `lookup` finds the entry at `i` when no earlier entry has the key.
pub proof fn lemma_lookup_at<K, V>(entries: Seq<(K, V)>, key: K, i: int)
    requires
        0 <= i < entries.len(),
        entries[i].0 == key,
        forall|j: int| 0 <= j < i ==> entries[j].0 != key,
    ensures
        lookup(entries, key) == Some(entries[i].1),
    decreases i,
{
    if i > 0 {
        lemma_lookup_at(entries.drop_first(), key, i - 1);
    }
}

/// `lookup` finds nothing when no entry has the key.
pub proof fn lemma_lookup_absent<K, V>(entries: Seq<(K, V)>, key: K)
    requires
        forall|j: int| 0 <= j < entries.len() ==> entries[j].0 != key,
    ensures
        lookup(entries, key) is None,
    decreases entries.len(),
{
    if entries.len() > 0 {
        lemma_lookup_absent(entries.drop_first(), key);
    }
}

/// The index of the entry that `lookup` answers with.
pub open spec fn lookup_index<K, V>(entries: Seq<(K, V)>, key: K) -> int
    decreases entries.len(),
{
    if entries.len() == 0 {
        -1
    } else if entries[0].0 == key {
        0
    } else {
        lookup_index(entries.drop_first(), key) + 1
    }
}

pub proof fn lemma_lookup_key<K, V>(entries: Seq<(K, V)>, key: K)
    requires
        lookup(entries, key) is Some,
    ensures
        0 <= lookup_index(entries, key) < entries.len(),
        entries[lookup_index(entries, key)].0 == key,
        entries[lookup_index(entries, key)].1 == lookup(entries, key)->0,
    decreases entries.len(),
{
    if entries[0].0 != key {
        lemma_lookup_key(entries.drop_first(), key);
    }
}

/// Appending an entry leaves every earlier answer of `lookup` as it was, and
/// answers for the new key when it was absent.
pub proof fn lemma_lookup_push<K, V>(entries: Seq<(K, V)>, k: K, v: V, key: K)
    ensures
        lookup(entries.push((k, v)), key) == (if lookup(entries, key) is Some {
            lookup(entries, key)
        } else if key == k {
            Some(v)
        } else {
            None
        }),
    decreases entries.len(),
{
    if entries.len() > 0 {
        assert(entries.push((k, v))[0] == entries[0]);
        assert(entries.push((k, v)).drop_first() =~= entries.drop_first().push((k, v)));
        lemma_lookup_push(entries.drop_first(), k, v, key);
    } else {
        assert(entries.push((k, v)).drop_first() =~= entries);
    }
}

/// Finds the value stored under `key` in `entries`.
pub fn find_entry<'a>(entries: &'a Vec<(String, Value)>, key: &String) -> (r: Option<&'a Value>)
    ensures
        match r {
            Some(v) => lookup(Value::Object(*entries)@->Object_0, key@) == Some(v@),
            None => lookup(Value::Object(*entries)@->Object_0, key@) is None,
        },
{
    let ghost es = Value::Object(*entries)@->Object_0;
    let mut i: usize = 0;
    while i < entries.len()
        invariant
            i <= entries.len(),
            es.len() == entries.len(),
            forall|j: int| 0 <= j < entries.len() ==> #[trigger] es[j] == (entries[j].0@, entries[j].1@),
            forall|j: int| 0 <= j < i ==> es[j].0 != key@,
        decreases entries.len() - i,
    {
        if entries[i].0 == *key {
            proof {
                assert(es[i as int] == (entries[i as int].0@, entries[i as int].1@));
                lemma_lookup_at(es, key@, i as int);
                assert(lookup(es, key@) == Some(entries[i as int].1@));
                assert(es == Value::Object(*entries)@->Object_0);
            }
            return Some(&entries[i].1);
        }
        i = i + 1;
    }
    proof {
        lemma_lookup_absent(es, key@);
    }
    None
}

impl Value {
    /// The value stored under `key`, when this is a mapping that has it.
    pub fn get(&self, key: &str) -> (r: Option<&Value>)
        ensures
            match self@ {
                Tree::Object(entries) => match lookup(entries, key@) {
                    Some(t) => r is Some && r->0@ == t,
                    None => r is None,
                },
                _ => r is None,
            },
    {
        match self {
            Value::Object(entries) => find_entry(entries, &key.to_owned()),
            _ => None,
        }
    }

    /// A copy of this value that shares nothing with it.
    pub fn deep_copy(&self) -> (r: Value)
        ensures
            r@ == self@,
        decreases self,
    {
        match self {
            Value::Null => Value::Null,
            Value::Bool(b) => Value::Bool(*b),
            Value::Number(n) => Value::Number(n.clone()),
            Value::String(s) => Value::String(s.clone()),
            Value::Array(items) => {
                let out = copy_items(items);
                let r = Value::Array(out);
                assert(r@->Array_0.len() == items.len());
                assert(self@->Array_0.len() == items.len());
                assert(forall|j: int| 0 <= j < items.len() ==> r@->Array_0[j] == out[j]@);
                assert(r@->Array_0 =~= self@->Array_0);
                r
            },
            Value::Object(entries) => {
                let r = Value::Object(copy_entries(entries));
                assert(r@->Object_0 =~= self@->Object_0);
                r
            },
        }
    }
}

fn copy_items(items: &Vec<Value>) -> (out: Vec<Value>)
    ensures
        out.len() == items.len(),
        forall|j: int| 0 <= j < items.len() ==> #[trigger] out[j]@ == items[j]@,
    decreases items,
{
    let mut out: Vec<Value> = Vec::new();
    let mut i: usize = 0;
    while i < items.len()
        invariant
            i <= items.len(),
            out.len() == i,
            forall|j: int| 0 <= j < i ==> #[trigger] out[j]@ == items[j]@,
        decreases items.len() - i,
    {
        out.push(items[i].deep_copy());
        i = i + 1;
    }
    out
}

fn copy_entries(entries: &Vec<(String, Value)>) -> (out: Vec<(String, Value)>)
    ensures
        out.len() == entries.len(),
        forall|j: int|
            0 <= j < entries.len() ==> #[trigger] out[j].0@ == entries[j].0@ && out[j].1@
                == entries[j].1@,
    decreases entries,
{
    let mut out: Vec<(String, Value)> = Vec::new();
    let mut i: usize = 0;
    while i < entries.len()
        invariant
            i <= entries.len(),
            out.len() == i,
            forall|j: int|
                0 <= j < i ==> #[trigger] out[j].0@ == entries[j].0@ && out[j].1@ == entries[j].1@,
        decreases entries.len() - i,
    {
        out.push((entries[i].0.clone(), entries[i].1.deep_copy()));
        i = i + 1;
    }
    out
}

} // verus!
