//! Expanding a whole document: every `$ref` node is replaced by the value it
//! points to, itself expanded, and a reference met again on its own
//! resolution chain is reported as circular.
use vstd::prelude::*;

use crate::error::{Fault, RefError};
use crate::location::Location;
use crate::pointer::texts;
use crate::resolver::{
    grows, lemma_grows_keeps_lookup, lemma_grows_refl, lemma_grows_trans, lemma_resolve_spec,
    ref_target, resolution, segment_index, step, traverse_tree, RefResolver,
};
use crate::value::{find_entry, lemma_lookup_key, lookup, lookup_index, Tree, Value};

verus! {

/// The key that marks a reference node: `$ref`.
pub open spec fn ref_key() -> Seq<char> {
    seq!['$', 'r', 'e', 'f']
}

/// The reference text of a node: the string stored under `$ref` in a mapping.
pub open spec fn ref_of(t: Tree) -> Option<Seq<char>> {
    match t {
        Tree::Object(entries) => match lookup(entries, ref_key()) {
            Some(Tree::Str(r)) => Some(r),
            _ => None,
        },
        _ => None,
    }
}

/// The number of children of a node.
pub open spec fn width(t: Tree) -> nat {
    match t {
        Tree::Array(items) => items.len(),
        Tree::Object(entries) => entries.len(),
        _ => 0,
    }
}

/// The child of a node at `i`.
pub open spec fn child(t: Tree, i: int) -> Tree {
    match t {
        Tree::Array(items) => items[i],
        Tree::Object(entries) => entries[i].1,
        _ => t,
    }
}

/// Every reference text that occurs in a tree.
pub open spec fn refs(t: Tree) -> Set<Seq<char>>
    decreases t, width(t) + 1,
{
    let own = match ref_of(t) {
        Some(r) => Set::empty().insert(r),
        None => Set::empty(),
    };
    own.union(children_refs(t, width(t) as int))
}

/// The reference texts that occur in the first `n` children of a node.
pub open spec fn children_refs(t: Tree, n: int) -> Set<Seq<char>>
    decreases t, n,
{
    if n <= 0 {
        Set::empty()
    } else {
        match t {
            Tree::Array(items) => if n <= items.len() {
                children_refs(t, n - 1).union(refs(items[n - 1]))
            } else {
                Set::empty()
            },
            Tree::Object(entries) => if n <= entries.len() {
                children_refs(t, n - 1).union(refs(entries[n - 1].1))
            } else {
                Set::empty()
            },
            _ => Set::empty(),
        }
    }
}

/// Every reference text that occurs in a list of documents.
pub open spec fn docs_refs(docs: Seq<(Location, Tree)>) -> Set<Seq<char>>
    decreases docs.len(),
{
    if docs.len() == 0 {
        Set::empty()
    } else {
        docs_refs(docs.drop_last()).union(refs(docs.last().1))
    }
}

pub proof fn lemma_refs_finite(t: Tree)
    ensures
        refs(t).finite(),
    decreases t, width(t) + 1,
{
    lemma_children_refs_finite(t, width(t) as int);
}

proof fn lemma_children_refs_finite(t: Tree, n: int)
    ensures
        children_refs(t, n).finite(),
    decreases t, n,
{
    if n > 0 {
        match t {
            Tree::Array(items) => if n <= items.len() {
                lemma_children_refs_finite(t, n - 1);
                lemma_refs_finite(items[n - 1]);
            },
            Tree::Object(entries) => if n <= entries.len() {
                lemma_children_refs_finite(t, n - 1);
                lemma_refs_finite(entries[n - 1].1);
            },
            _ => {},
        }
    }
}

proof fn lemma_children_refs_hold(t: Tree, n: int, i: int)
    requires
        0 <= i < n <= width(t),
    ensures
        refs(child(t, i)).subset_of(children_refs(t, n)),
    decreases n,
{
    if i < n - 1 {
        lemma_children_refs_hold(t, n - 1, i);
    }
}

/// The references of a child occur in its parent.
pub proof fn lemma_child_refs(t: Tree, i: int)
    requires
        0 <= i < width(t),
    ensures
        refs(child(t, i)).subset_of(refs(t)),
{
    lemma_children_refs_hold(t, width(t) as int, i);
}

/// The references of what a pointer reaches occur in the tree it starts from.
pub proof fn lemma_traverse_refs(t: Tree, path: Seq<Seq<char>>)
    requires
        traverse_tree(t, path) is Ok,
    ensures
        refs(traverse_tree(t, path)->Ok_0).subset_of(refs(t)),
    decreases path.len(),
{
    if path.len() > 0 {
        let next = step(t, path[0])->Ok_0;
        lemma_traverse_refs(next, path.drop_first());
        match t {
            Tree::Object(entries) => {
                lemma_lookup_key(entries, path[0]);
                lemma_child_refs(t, lookup_index(entries, path[0]));
            },
            Tree::Array(items) => {
                lemma_child_refs(t, segment_index(path[0])->0 as int);
            },
            _ => {},
        }
    }
}

pub proof fn lemma_docs_refs_finite(docs: Seq<(Location, Tree)>)
    ensures
        docs_refs(docs).finite(),
    decreases docs.len(),
{
    if docs.len() > 0 {
        lemma_docs_refs_finite(docs.drop_last());
        lemma_refs_finite(docs.last().1);
    }
}

proof fn lemma_docs_refs_hold(docs: Seq<(Location, Tree)>, k: int)
    requires
        0 <= k < docs.len(),
    ensures
        refs(docs[k].1).subset_of(docs_refs(docs)),
    decreases docs.len(),
{
    if k < docs.len() - 1 {
        lemma_docs_refs_hold(docs.drop_last(), k);
    }
}

/// What a reference text resolves to against the loaded documents.
pub open spec fn resolve_text(docs: Seq<(Location, Tree)>, cur: Seq<char>, r: Seq<char>) -> Result<
    Tree,
    Fault,
> {
    match ref_target(cur, r) {
        Err(f) => Err(f),
        Ok(k) => resolution(docs, k),
    }
}

/// The references of a resolved value occur in the loaded documents.
pub proof fn lemma_resolved_refs(docs: Seq<(Location, Tree)>, cur: Seq<char>, r: Seq<char>)
    requires
        resolve_text(docs, cur, r) is Ok,
    ensures
        refs(resolve_text(docs, cur, r)->Ok_0).subset_of(docs_refs(docs)),
{
    let k = ref_target(cur, r)->Ok_0;
    lemma_lookup_key(docs, k.0);
    let d = lookup(docs, k.0)->0;
    lemma_traverse_refs(d, k.1);
    lemma_docs_refs_hold(docs, lookup_index(docs, k.0));
}

/// The expansion of `v`, read relative to `cur`, where `visited` holds the
/// references already followed on the way to `v` and `u` is a finite set
/// holding every reference that can be met (it bounds the recursion).
///
/// A `$ref` node whose reference is on the chain is circular; any other is
/// replaced, whole (its sibling keys dropped), by the expansion of what it
/// resolves to, with the reference added to the chain. A mapping without a
/// `$ref` string keeps its keys but `$ref`, with every value expanded; a
/// sequence has every item expanded; a scalar stays as it is. The first
/// failure, in document order, is the result.
pub open spec fn expand_spec(
    docs: Seq<(Location, Tree)>,
    cur: Seq<char>,
    visited: Set<Seq<char>>,
    u: Set<Seq<char>>,
    v: Tree,
) -> Result<Tree, Fault>
    decreases u.difference(visited).len(), v, width(v) + 1,
{
    if !(u.finite() && refs(v).subset_of(u)) {
        Ok(v)
    } else {
        match ref_of(v) {
            Some(r) => if visited.contains(r) {
                Err(Fault::CircularReference(r))
            } else {
                match resolve_text(docs, cur, r) {
                    Err(f) => Err(f),
                    Ok(w) => {
                        proof {
                            lemma_chain_shrinks(u, visited, r);
                        }
                        expand_spec(docs, cur, visited.insert(r), u, w)
                    },
                }
            },
            None => match v {
                Tree::Array(items) => match expand_children(
                    docs,
                    cur,
                    visited,
                    u,
                    v,
                    items.len() as int,
                ) {
                    Ok(out) => Ok(Tree::Array(out.map_values(|e: (Seq<char>, Tree)| e.1))),
                    Err(f) => Err(f),
                },
                Tree::Object(entries) => match expand_children(
                    docs,
                    cur,
                    visited,
                    u,
                    v,
                    entries.len() as int,
                ) {
                    Ok(out) => Ok(Tree::Object(out)),
                    Err(f) => Err(f),
                },
                _ => Ok(v),
            },
        }
    }
}

/// The expansions of the first `n` children of a node that is not a `$ref`
/// node, each paired with its key (an item's key is empty); a mapping's
/// `$ref` entry is left out.
pub open spec fn expand_children(
    docs: Seq<(Location, Tree)>,
    cur: Seq<char>,
    visited: Set<Seq<char>>,
    u: Set<Seq<char>>,
    v: Tree,
    n: int,
) -> Result<Seq<(Seq<char>, Tree)>, Fault>
    decreases u.difference(visited).len(), v, n,
{
    if n <= 0 || n > width(v) {
        Ok(Seq::empty())
    } else {
        match expand_children(docs, cur, visited, u, v, n - 1) {
            Err(f) => Err(f),
            Ok(done) => match v {
                Tree::Array(items) => match expand_spec(docs, cur, visited, u, items[n - 1]) {
                    Ok(x) => Ok(done.push((Seq::empty(), x))),
                    Err(f) => Err(f),
                },
                Tree::Object(entries) => if entries[n - 1].0 == ref_key() {
                    Ok(done)
                } else {
                    match expand_spec(docs, cur, visited, u, entries[n - 1].1) {
                        Ok(x) => Ok(done.push((entries[n - 1].0, x))),
                        Err(f) => Err(f),
                    }
                },
                _ => Ok(done),
            },
        }
    }
}

/// Following a reference that is not on the chain yet shortens what is left
/// of the bound.
pub proof fn lemma_chain_shrinks(u: Set<Seq<char>>, visited: Set<Seq<char>>, r: Seq<char>)
    requires
        u.finite(),
        u.contains(r),
        !visited.contains(r),
    ensures
        u.difference(visited.insert(r)).len() < u.difference(visited).len(),
{
    assert(u.difference(visited.insert(r)) =~= u.difference(visited).remove(r));
}

/// The expansion of a whole document: no reference followed yet, bounded by
/// the references of the document and of every loaded one.
pub open spec fn expand_document(docs: Seq<(Location, Tree)>, cur: Seq<char>, v: Tree) -> Result<
    Tree,
    Fault,
> {
    expand_spec(docs, cur, Set::empty(), docs_refs(docs).union(refs(v)), v)
}

/// Once the expansion of a prefix of the children fails, that failure is the
/// expansion's of every longer prefix.
proof fn lemma_children_fail(
    docs: Seq<(Location, Tree)>,
    cur: Seq<char>,
    visited: Set<Seq<char>>,
    u: Set<Seq<char>>,
    v: Tree,
    n: int,
    m: int,
)
    requires
        0 <= n <= m <= width(v),
        expand_children(docs, cur, visited, u, v, n) is Err,
    ensures
        expand_children(docs, cur, visited, u, v, m) == expand_children(docs, cur, visited, u, v, n),
    decreases m - n,
{
    if n < m {
        lemma_children_fail(docs, cur, visited, u, v, n, m - 1);
    }
}

/// The reference texts on a chain.
pub open spec fn key_set(v: Seq<String>) -> Set<Seq<char>> {
    texts(v).to_set()
}

proof fn lemma_key_set_push(v: Seq<String>, s: String)
    ensures
        key_set(v.push(s)) == key_set(v).insert(s@),
{
    let a = texts(v.push(s));
    let b = texts(v);
    assert(a =~= b.push(s@));
    assert forall|y: Seq<char>| a.contains(y) <==> b.contains(y) || y == s@ by {
        if b.contains(y) {
            let j = choose|j: int| 0 <= j < b.len() && b[j] == y;
            assert(a[j] == y);
        }
        if y == s@ {
            assert(a[b.len() as int] == y);
        }
        if a.contains(y) {
            let j = choose|j: int| 0 <= j < a.len() && a[j] == y;
            if j < b.len() {
                assert(b[j] == y);
            }
        }
    }
    assert(key_set(v.push(s)) =~= key_set(v).insert(s@));
}

pub open spec fn expansion_view(r: Result<Value, RefError>) -> Result<Tree, Fault> {
    match r {
        Ok(v) => Ok(v@),
        Err(e) => Err(e@),
    }
}

pub open spec fn item_pairs(xs: Seq<Value>) -> Seq<(Seq<char>, Tree)> {
    xs.map_values(|x: Value| (Seq::<char>::empty(), x@))
}

pub open spec fn entry_pairs(xs: Seq<(String, Value)>) -> Seq<(Seq<char>, Tree)> {
    xs.map_values(|e: (String, Value)| (e.0@, e.1@))
}

/// Whether `r` is on the chain `visited`.
fn on_chain(visited: &Vec<String>, r: &String) -> (b: bool)
    ensures
        b == key_set(visited@).contains(r@),
{
    let mut i: usize = 0;
    while i < visited.len()
        invariant
            i <= visited.len(),
            forall|j: int| 0 <= j < i ==> visited[j]@ != r@,
        decreases visited.len() - i,
    {
        if visited[i] == *r {
            assert(texts(visited@)[i as int] == r@);
            return true;
        }
        i = i + 1;
    }
    assert(!texts(visited@).contains(r@)) by {
        if texts(visited@).contains(r@) {
            let j = choose|j: int| 0 <= j < texts(visited@).len() && texts(visited@)[j] == r@;
            assert(visited[j]@ == r@);
        }
    }
    false
}

/// The text `$ref`.
fn ref_key_text() -> (s: String)
    ensures
        s@ == ref_key(),
{
    proof {
        reveal_strlit("$ref");
    }
    "$ref".to_owned()
}

/// The reference text of a mapping, when it has a `$ref` string.
pub fn ref_text(entries: &Vec<(String, Value)>) -> (r: Option<&String>)
    ensures
        match r {
            Some(s) => ref_of(Value::Object(*entries)@) == Some(s@),
            None => ref_of(Value::Object(*entries)@) is None,
        },
{
    let key = ref_key_text();
    match find_entry(entries, &key) {
        Some(Value::String(s)) => Some(s),
        _ => None,
    }
}

/// The reference to a document's root: `#/`.
pub open spec fn root_ref() -> Seq<char> {
    seq!['#', '/']
}

/// The expansion of the document at `path`: its root, expanded with `path`
/// as the current file.
pub open spec fn expand_path_spec(docs: Seq<(Location, Tree)>, path: Seq<char>) -> Result<
    Tree,
    Fault,
> {
    match resolve_text(docs, path, root_ref()) {
        Err(f) => Err(f),
        Ok(root) => expand_document(docs, path, root),
    }
}

impl RefResolver {
    /// Expands the document at `path`. Every document it needs must be
    /// loaded; the first one that is not is named by
    /// [`RefError::DocumentNotLoaded`], and expanding again once it is
    /// loaded goes further.
    pub fn expand_path(&mut self, path: &str) -> (r: Result<Value, RefError>)
        requires
            old(self)@.wf(),
        ensures
            final(self)@.wf(),
            final(self)@.docs == old(self)@.docs,
            grows(old(self)@, final(self)@),
            forall|k: (Location, Seq<Seq<char>>)|
                lookup(old(self)@.subtrees, k) is Some ==> #[trigger] lookup(
                    final(self)@.subtrees,
                    k,
                ) == lookup(old(self)@.subtrees, k),
            expansion_view(r) == expand_path_spec(old(self)@.docs, path@),
    {
        let ghost s0 = self@;
        let root_text = "#/";
        proof {
            reveal_strlit("#/");
            assert(root_text@ =~= root_ref());
            if let Ok(k) = ref_target(path@, root_ref()) {
                lemma_resolve_spec(self@, k);
            }
        }
        let resolved = self.resolve_ref(path, root_text);
        proof {
            if ref_target(path@, root_ref()) is Err {
                lemma_grows_refl(s0);
            }
        }
        let ghost s1 = self@;
        let r = match resolved {
            Err(e) => Err(e),
            Ok(root) => self.resolve_recursive(&root, path),
        };
        proof {
            if resolved is Err {
                lemma_grows_refl(s1);
            }
            lemma_grows_trans(s0, s1, self@);
            lemma_grows_keeps_lookup(s0, self@);
        }
        r
    }

    /// Expands `value`: every `$ref` node is replaced by the expansion of the
    /// value its reference resolves to, read relative to `current_file`. The
    /// documents it needs must be loaded; the first that is not is named by
    /// [`RefError::DocumentNotLoaded`].
    pub fn resolve_recursive(&mut self, value: &Value, current_file: &str) -> (r: Result<
        Value,
        RefError,
    >)
        requires
            old(self)@.wf(),
        ensures
            final(self)@.wf(),
            final(self)@.docs == old(self)@.docs,
            grows(old(self)@, final(self)@),
            forall|k: (Location, Seq<Seq<char>>)|
                lookup(old(self)@.subtrees, k) is Some ==> #[trigger] lookup(
                    final(self)@.subtrees,
                    k,
                ) == lookup(old(self)@.subtrees, k),
            refs(value@) == Set::<Seq<char>>::empty() ==> final(self)@ == old(self)@,
            expansion_view(r) == expand_document(old(self)@.docs, current_file@, value@),
    {
        let ghost s0 = self@;
        let mut visited: Vec<String> = Vec::new();
        let ghost u = docs_refs(self@.docs).union(refs(value@));
        proof {
            lemma_docs_refs_finite(self@.docs);
            lemma_refs_finite(value@);
            assert(key_set(visited@) =~= Set::<Seq<char>>::empty());
        }
        let r = self.resolve_recursive_with_stack(value, current_file, &mut visited, Ghost(u));
        proof {
            lemma_grows_keeps_lookup(s0, self@);
        }
        r
    }

    fn resolve_recursive_with_stack(
        &mut self,
        value: &Value,
        current_file: &str,
        visited: &mut Vec<String>,
        Ghost(u): Ghost<Set<Seq<char>>>,
    ) -> (r: Result<Value, RefError>)
        requires
            old(self)@.wf(),
            u.finite(),
            refs(value@).subset_of(u),
            docs_refs(old(self)@.docs).subset_of(u),
        ensures
            final(self)@.wf(),
            final(self)@.docs == old(self)@.docs,
            final(visited)@ == old(visited)@,
            grows(old(self)@, final(self)@),
            refs(value@) == Set::<Seq<char>>::empty() ==> final(self)@ == old(self)@,
            ref_of(value@) is Some && key_set(old(visited)@).contains(ref_of(value@)->0)
                ==> final(self)@ == old(self)@,
            expansion_view(r) == expand_spec(
                old(self)@.docs,
                current_file@,
                key_set(old(visited)@),
                u,
                value@,
            ),
        decreases u.difference(key_set(old(visited)@)).len(), value,
    {
        let ghost s0 = self@;
        proof {
            lemma_grows_refl(s0);
        }
        let ghost docs = self@.docs;
        let ghost chain = key_set(visited@);
        let ghost vis0 = visited@;
        match value {
            Value::Object(entries) => {
                match ref_text(entries) {
                    Some(r) => {
                        if on_chain(visited, r) {
                            return Err(RefError::CircularReference(r.clone()));
                        }
                        proof {
                            if let Ok(k) = ref_target(current_file@, r@) {
                                lemma_resolve_spec(self@, k);
                            }
                        }
                        assert(refs(value@).contains(r@));
                        let resolved = self.resolve_ref(current_file, r.as_str());
                        let ghost s1 = self@;
                        proof {
                            if ref_target(current_file@, r@) is Err {
                                lemma_grows_refl(s0);
                            }
                        }
                        match resolved {
                            Err(e) => Err(e),
                            Ok(w) => {
                                proof {
                                    lemma_resolved_refs(docs, current_file@, r@);
                                    lemma_chain_shrinks(u, chain, r@);
                                }
                                visited.push(r.clone());
                                proof {
                                    lemma_key_set_push(vis0, *r);
                                }
                                let out = self.resolve_recursive_with_stack(
                                    &w,
                                    current_file,
                                    visited,
                                    Ghost(u),
                                );
                                visited.pop();
                                proof {
                                    assert(visited@ =~= vis0);
                                    lemma_grows_trans(s0, s1, self@);
                                }
                                out
                            },
                        }
                    },
                    None => {
                        match self.expand_entries(entries, current_file, visited, Ghost(u)) {
                            Ok(out) => {
                                let r = Value::Object(out);
                                assert(r@->Object_0 =~= entry_pairs(out@));
                                Ok(r)
                            },
                            Err(e) => Err(e),
                        }
                    },
                }
            },
            Value::Array(items) => {
                match self.expand_items(items, current_file, visited, Ghost(u)) {
                    Ok(out) => {
                        let r = Value::Array(out);
                        assert(r@->Array_0 =~= item_pairs(out@).map_values(
                            |e: (Seq<char>, Tree)| e.1,
                        ));
                        Ok(r)
                    },
                    Err(e) => Err(e),
                }
            },
            _ => Ok(value.deep_copy()),
        }
    }

    fn expand_items(
        &mut self,
        items: &Vec<Value>,
        current_file: &str,
        visited: &mut Vec<String>,
        Ghost(u): Ghost<Set<Seq<char>>>,
    ) -> (r: Result<Vec<Value>, RefError>)
        requires
            old(self)@.wf(),
            u.finite(),
            refs(Value::Array(*items)@).subset_of(u),
            docs_refs(old(self)@.docs).subset_of(u),
        ensures
            final(self)@.wf(),
            final(self)@.docs == old(self)@.docs,
            final(visited)@ == old(visited)@,
            grows(old(self)@, final(self)@),
            refs(Value::Array(*items)@) == Set::<Seq<char>>::empty() ==> final(self)@ == old(self)@,
            match r {
                Ok(xs) => expand_children(
                    old(self)@.docs,
                    current_file@,
                    key_set(old(visited)@),
                    u,
                    Value::Array(*items)@,
                    items.len() as int,
                ) == Ok::<Seq<(Seq<char>, Tree)>, Fault>(item_pairs(xs@)),
                Err(e) => expand_children(
                    old(self)@.docs,
                    current_file@,
                    key_set(old(visited)@),
                    u,
                    Value::Array(*items)@,
                    items.len() as int,
                ) == Err::<Seq<(Seq<char>, Tree)>, Fault>(e@),
            },
        decreases u.difference(key_set(old(visited)@)).len(), items,
    {
        let ghost docs = self@.docs;
        let ghost chain = key_set(visited@);
        let ghost vis0 = visited@;
        let ghost t = Value::Array(*items)@;
        proof {
            lemma_grows_refl(self@);
        }
        let mut out: Vec<Value> = Vec::new();
        let mut i: usize = 0;
        assert(item_pairs(out@) =~= Seq::<(Seq<char>, Tree)>::empty());
        while i < items.len()
            invariant
                i <= items.len(),
                out.len() == i,
                vis0 == old(visited)@,
                docs == old(self)@.docs,
                grows(old(self)@, self@),
                refs(t) == Set::<Seq<char>>::empty() ==> self@ == old(self)@,
                self@.wf(),
                self@.docs == docs,
                visited@ == vis0,
                chain == key_set(vis0),
                t == Value::Array(*items)@,
                u.finite(),
                refs(t).subset_of(u),
                docs_refs(docs).subset_of(u),
                expand_children(docs, current_file@, chain, u, t, i as int) == Ok::<
                    Seq<(Seq<char>, Tree)>,
                    Fault,
                >(item_pairs(out@)),
            decreases items.len() - i,
        {
            proof {
                assert(child(t, i as int) == items[i as int]@);
                lemma_child_refs(t, i as int);
                vstd::std_specs::vec::axiom_vec_index_decreases(*items, i as int);
                if refs(t) == Set::<Seq<char>>::empty() {
                    assert(refs(child(t, i as int)) =~= Set::<Seq<char>>::empty());
                }
            }
            let ghost before_call = self@;
            let res = self.resolve_recursive_with_stack(&items[i], current_file, visited, Ghost(u));
            proof {
                lemma_grows_trans(old(self)@, before_call, self@);
            }
            match res {
                Ok(x) => {
                    let ghost before = item_pairs(out@);
                    out.push(x);
                    assert(item_pairs(out@) =~= before.push((Seq::<char>::empty(), out[i as int]@)));
                },
                Err(e) => {
                    proof {
                        lemma_children_fail(
                            docs,
                            current_file@,
                            chain,
                            u,
                            t,
                            i + 1,
                            items.len() as int,
                        );
                    }
                    return Err(e);
                },
            }
            i = i + 1;
        }
        Ok(out)
    }

    fn expand_entries(
        &mut self,
        entries: &Vec<(String, Value)>,
        current_file: &str,
        visited: &mut Vec<String>,
        Ghost(u): Ghost<Set<Seq<char>>>,
    ) -> (r: Result<Vec<(String, Value)>, RefError>)
        requires
            old(self)@.wf(),
            u.finite(),
            refs(Value::Object(*entries)@).subset_of(u),
            docs_refs(old(self)@.docs).subset_of(u),
        ensures
            final(self)@.wf(),
            final(self)@.docs == old(self)@.docs,
            final(visited)@ == old(visited)@,
            grows(old(self)@, final(self)@),
            refs(Value::Object(*entries)@) == Set::<Seq<char>>::empty() ==> final(self)@ == old(self)@,
            match r {
                Ok(xs) => expand_children(
                    old(self)@.docs,
                    current_file@,
                    key_set(old(visited)@),
                    u,
                    Value::Object(*entries)@,
                    entries.len() as int,
                ) == Ok::<Seq<(Seq<char>, Tree)>, Fault>(entry_pairs(xs@)),
                Err(e) => expand_children(
                    old(self)@.docs,
                    current_file@,
                    key_set(old(visited)@),
                    u,
                    Value::Object(*entries)@,
                    entries.len() as int,
                ) == Err::<Seq<(Seq<char>, Tree)>, Fault>(e@),
            },
        decreases u.difference(key_set(old(visited)@)).len(), entries,
    {
        let ghost docs = self@.docs;
        let ghost chain = key_set(visited@);
        let ghost vis0 = visited@;
        let ghost t = Value::Object(*entries)@;
        let key = ref_key_text();
        proof {
            lemma_grows_refl(self@);
        }
        let mut out: Vec<(String, Value)> = Vec::new();
        let mut i: usize = 0;
        assert(entry_pairs(out@) =~= Seq::<(Seq<char>, Tree)>::empty());
        while i < entries.len()
            invariant
                i <= entries.len(),
                out.len() <= i,
                vis0 == old(visited)@,
                docs == old(self)@.docs,
                grows(old(self)@, self@),
                refs(t) == Set::<Seq<char>>::empty() ==> self@ == old(self)@,
                self@.wf(),
                self@.docs == docs,
                visited@ == vis0,
                chain == key_set(vis0),
                t == Value::Object(*entries)@,
                key@ == ref_key(),
                u.finite(),
                refs(t).subset_of(u),
                docs_refs(docs).subset_of(u),
                expand_children(docs, current_file@, chain, u, t, i as int) == Ok::<
                    Seq<(Seq<char>, Tree)>,
                    Fault,
                >(entry_pairs(out@)),
            decreases entries.len() - i,
        {
            proof {
                assert(child(t, i as int) == entries[i as int].1@);
                assert(t->Object_0[i as int].0 == entries[i as int].0@);
                lemma_child_refs(t, i as int);
                vstd::std_specs::vec::axiom_vec_index_decreases(*entries, i as int);
                if refs(t) == Set::<Seq<char>>::empty() {
                    assert(refs(child(t, i as int)) =~= Set::<Seq<char>>::empty());
                }
            }
            if entries[i].0 != key {
                let ghost before_call = self@;
                let res = self.resolve_recursive_with_stack(
                    &entries[i].1,
                    current_file,
                    visited,
                    Ghost(u),
                );
                proof {
                    lemma_grows_trans(old(self)@, before_call, self@);
                }
                match res {
                    Ok(x) => {
                        let ghost before = entry_pairs(out@);
                        let ghost n = out.len();
                        out.push((entries[i].0.clone(), x));
                        assert(entry_pairs(out@) =~= before.push(
                            (entries[i as int].0@, out[n as int].1@),
                        ));
                    },
                    Err(e) => {
                        proof {
                            lemma_children_fail(
                                docs,
                                current_file@,
                                chain,
                                u,
                                t,
                                i + 1,
                                entries.len() as int,
                            );
                        }
                        return Err(e);
                    },
                }
            }
            i = i + 1;
        }
        Ok(out)
    }
}

} // verus!
