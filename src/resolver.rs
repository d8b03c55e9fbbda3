//! Resolving one reference: pointer traversal and the two caches (loaded
//! documents by location, resolved subtrees by location and address).
use std::sync::Arc;

use vstd::prelude::*;
use vstd::string::StringExecFns;
use vstd::string::StrSliceExecFns;

use crate::error::{Fault, RefError};
use crate::location::{location_of, DocLocation, Location};
use crate::pointer::{chars_of, parse_pointer, DocAddress};
use crate::value::{
    find_entry, lemma_lookup_absent, lemma_lookup_at, lemma_lookup_key, lemma_lookup_push,
    lookup, lookup_index, Tree, Value,
};

verus! {

/// Whether `c` is an ASCII decimal digit.
pub open spec fn is_digit(c: char) -> bool {
    48 <= (c as u32) <= 57
}

/// The number that a string of decimal digits writes.
pub open spec fn decimal_value(s: Seq<char>) -> int
    decreases s.len(),
{
    if s.len() == 0 {
        0
    } else {
        decimal_value(s.drop_last()) * 10 + ((s.last() as u32) as int - 48)
    }
}

/// The sequence index that a segment denotes: an optional `+`, then one or
/// more decimal digits, whose value fits in `usize`.
pub open spec fn segment_index(s: Seq<char>) -> Option<usize> {
    let d = if s.len() > 0 && s[0] == '+' {
        s.drop_first()
    } else {
        s
    };
    if d.len() > 0 && (forall|i: int| 0 <= i < d.len() ==> is_digit(#[trigger] d[i]))
        && decimal_value(d) <= usize::MAX {
        Some(decimal_value(d) as usize)
    } else {
        None
    }
}

/// Relies on `str::parse::<usize>`, which accepts exactly an optional `+`
/// followed by decimal digits whose value fits in `usize`.
#[verifier::external_body]
fn parse_index(s: &str) -> (r: Option<usize>)
    ensures
        r == segment_index(s@),
{
    s.parse::<usize>().ok()
}

/// One traversal step: a mapping is looked up by the segment, a sequence
/// indexed by it; a scalar cannot be entered.
pub open spec fn step(node: Tree, seg: Seq<char>) -> Result<Tree, Fault> {
    match node {
        Tree::Object(entries) => match lookup(entries, seg) {
            Some(v) => Ok(v),
            None => Err(Fault::KeyNotFound(seg)),
        },
        Tree::Array(items) => match segment_index(seg) {
            None => Err(Fault::InvalidIndex(seg)),
            Some(n) => if (n as int) < items.len() {
                Ok(items[n as int])
            } else {
                Err(Fault::IndexOutOfBounds(seg))
            },
        },
        _ => Err(Fault::NotTraversable(seg)),
    }
}

/// The node that `path` addresses from `node`, or the first step's failure.
pub open spec fn traverse_tree(node: Tree, path: Seq<Seq<char>>) -> Result<Tree, Fault>
    decreases path.len(),
{
    if path.len() == 0 {
        Ok(node)
    } else {
        match step(node, path[0]) {
            Ok(next) => traverse_tree(next, path.drop_first()),
            Err(e) => Err(e),
        }
    }
}

/// Walks `doc` along the segments of `addr`.
pub fn traverse<'a>(doc: &'a Value, addr: &DocAddress) -> (r: Result<&'a Value, RefError>)
    ensures
        match r {
            Ok(v) => traverse_tree(doc@, addr@) == Ok::<Tree, Fault>(v@),
            Err(e) => traverse_tree(doc@, addr@) == Err::<Tree, Fault>(e@),
        },
{
    let mut current: &'a Value = doc;
    let mut i: usize = 0;
    assert(addr@.skip(0) =~= addr@);
    while i < addr.len()
        invariant
            i <= addr@.len(),
            traverse_tree(doc@, addr@) == traverse_tree(current@, addr@.skip(i as int)),
        decreases addr@.len() - i,
    {
        let key = addr.segment(i);
        let ghost rest = addr@.skip(i as int);
        assert(rest.drop_first() =~= addr@.skip(i + 1));
        assert(rest[0] == key@);
        match current {
            Value::Object(entries) => {
                match find_entry(entries, key) {
                    Some(v) => {
                        current = v;
                    },
                    None => {
                        return Err(RefError::KeyNotFound(key.clone()));
                    },
                }
            },
            Value::Array(items) => {
                match parse_index(key.as_str()) {
                    None => {
                        return Err(RefError::InvalidIndex(key.clone()));
                    },
                    Some(n) => {
                        if n < items.len() {
                            current = &items[n];
                        } else {
                            return Err(RefError::IndexOutOfBounds(key.clone()));
                        }
                    },
                }
            },
            _ => {
                return Err(RefError::NotTraversable(key.clone()));
            },
        }
        i = i + 1;
    }
    Ok(current)
}

/// A resolved subtree, shared with the cache, or why it could not be resolved.
pub type RefResult = Result<Arc<Value>, RefError>;

/// "This pointer, in this document": the key of the subtree cache.
#[derive(Debug, Clone, PartialEq, Eq, Hash)]
pub struct DocumentRef {
    pub location: Arc<DocLocation>,
    pub addr: Arc<DocAddress>,
}

impl DocumentRef {
    pub open spec fn key(&self) -> (Location, Seq<Seq<char>>) {
        (self.location@, self.addr@)
    }
}

/// Mathematical model of a [`RefResolver`]: the loaded documents by location,
/// and the resolved subtrees by location and address, in the order they came.
pub struct ResolverState {
    pub docs: Seq<(Location, Tree)>,
    pub subtrees: Seq<((Location, Seq<Seq<char>>), Tree)>,
}

impl ResolverState {
    /// A cached subtree is what its address reaches in its loaded document.
    pub open spec fn entry_ok(self, e: ((Location, Seq<Seq<char>>), Tree)) -> bool {
        match lookup(self.docs, e.0.0) {
            Some(d) => traverse_tree(d, e.0.1) == Ok::<Tree, Fault>(e.1),
            None => false,
        }
    }

    /// Every cached subtree agrees with its document.
    pub open spec fn wf(self) -> bool {
        forall|i: int| 0 <= i < self.subtrees.len() ==> self.entry_ok(#[trigger] self.subtrees[i])
    }
}

/// What a reference resolves to, given the loaded documents.
pub open spec fn resolution(docs: Seq<(Location, Tree)>, key: (Location, Seq<Seq<char>>)) -> Result<
    Tree,
    Fault,
> {
    match lookup(docs, key.0) {
        None => Err(Fault::DocumentNotLoaded(key.0)),
        Some(d) => traverse_tree(d, key.1),
    }
}

/// One resolution: a cached subtree is returned as it is; otherwise the
/// loaded document is traversed and a found subtree is cached; a document
/// that is not loaded yet is asked for.
pub open spec fn resolve_spec(st: ResolverState, key: (Location, Seq<Seq<char>>)) -> (
    ResolverState,
    Result<Tree, Fault>,
) {
    match lookup(st.subtrees, key) {
        Some(t) => (st, Ok(t)),
        None => match lookup(st.docs, key.0) {
            None => (st, Err(Fault::DocumentNotLoaded(key.0))),
            Some(d) => match traverse_tree(d, key.1) {
                Ok(t) => (ResolverState { docs: st.docs, subtrees: st.subtrees.push((key, t)) }, Ok(t)),
                Err(e) => (st, Err(e)),
            },
        },
    }
}

/// Loading a document: a location that is already loaded keeps its document.
pub open spec fn add_document_spec(st: ResolverState, loc: Location, doc: Tree) -> ResolverState {
    if lookup(st.docs, loc) is Some {
        st
    } else {
        ResolverState { docs: st.docs.push((loc, doc)), subtrees: st.subtrees }
    }
}

/// `i` is the position of the first `#` in `r`.
pub open spec fn first_hash(r: Seq<char>, i: int) -> bool {
    0 <= i < r.len() && r[i] == '#' && forall|j: int| 0 <= j < i ==> r[j] != '#'
}

/// The two parts of a reference text `<location>#<pointer>`: the location
/// text before the first `#` (the current file where that part is empty), and
/// the pointer part after it. `None` for a text without `#`.
pub open spec fn ref_parts(cur: Seq<char>, r: Seq<char>) -> Option<(Seq<char>, Seq<char>)> {
    if exists|i: int| first_hash(r, i) {
        let i = choose|i: int| first_hash(r, i);
        Some(
            (
                if i == 0 {
                    cur
                } else {
                    r.take(i)
                },
                r.skip(i + 1),
            ),
        )
    } else {
        None
    }
}

/// The segments that the pointer part of a reference denotes: an empty part
/// is the document's root; a part that starts with `#` is parsed as it
/// stands; any other part is parsed with `#` put in front.
pub open spec fn pointer_part(ptr: Seq<char>) -> Option<Seq<Seq<char>>> {
    if ptr.len() == 0 {
        Some(Seq::<Seq<char>>::empty())
    } else if ptr[0] == '#' {
        parse_pointer(ptr)
    } else {
        parse_pointer(seq!['#'] + ptr)
    }
}

/// The cache key that a reference text names, read relative to `cur`. A text
/// without `#`, or with a pointer part that is not a valid pointer, is an
/// invalid pointer.
pub open spec fn ref_target(cur: Seq<char>, r: Seq<char>) -> Result<
    (Location, Seq<Seq<char>>),
    Fault,
> {
    match ref_parts(cur, r) {
        None => Err(Fault::InvalidPointer(r)),
        Some((loc, ptr)) => match pointer_part(ptr) {
            Some(a) => Ok((location_of(loc), a)),
            None => Err(Fault::InvalidPointer(r)),
        },
    }
}

/// What a reference text resolves to.
pub open spec fn resolve_ref_spec(st: ResolverState, cur: Seq<char>, r: Seq<char>) -> (
    ResolverState,
    Result<Tree, Fault>,
) {
    match ref_target(cur, r) {
        Err(f) => (st, Err(f)),
        Ok(k) => resolve_spec(st, k),
    }
}

pub open spec fn result_view(r: Result<Arc<Value>, RefError>) -> Result<Tree, Fault> {
    match r {
        Ok(v) => Ok(v@),
        Err(e) => Err(e@),
    }
}

/// `new` is `old` with cached subtrees possibly appended: the same documents,
/// and every earlier cache entry kept where it was.
pub open spec fn grows(old: ResolverState, new: ResolverState) -> bool {
    &&& new.docs == old.docs
    &&& old.subtrees.len() <= new.subtrees.len()
    &&& new.subtrees.subrange(0, old.subtrees.len() as int) == old.subtrees
}

pub proof fn lemma_grows_refl(a: ResolverState)
    ensures
        grows(a, a),
{
    assert(a.subtrees.subrange(0, a.subtrees.len() as int) =~= a.subtrees);
}

pub proof fn lemma_grows_trans(a: ResolverState, b: ResolverState, c: ResolverState)
    requires
        grows(a, b),
        grows(b, c),
    ensures
        grows(a, c),
{
    assert(c.subtrees.subrange(0, a.subtrees.len() as int) =~= b.subtrees.subrange(
        0,
        a.subtrees.len() as int,
    ));
}

proof fn lemma_lookup_prefix<K, V>(s: Seq<(K, V)>, t: Seq<(K, V)>, k: K)
    requires
        lookup(s, k) is Some,
    ensures
        lookup(s + t, k) == lookup(s, k),
    decreases s.len(),
{
    assert((s + t)[0] == s[0]);
    if s[0].0 != k {
        assert((s + t).drop_first() =~= s.drop_first() + t);
        lemma_lookup_prefix(s.drop_first(), t, k);
    }
}

/// A cache that grows answers every key it held as it did.
pub proof fn lemma_grows_keeps_lookup(a: ResolverState, b: ResolverState)
    requires
        grows(a, b),
    ensures
        forall|k: (Location, Seq<Seq<char>>)|
            lookup(a.subtrees, k) is Some ==> #[trigger] lookup(b.subtrees, k) == lookup(
                a.subtrees,
                k,
            ),
{
    let n = a.subtrees.len() as int;
    assert(b.subtrees =~= a.subtrees + b.subtrees.skip(n));
    assert forall|k: (Location, Seq<Seq<char>>)| lookup(a.subtrees, k) is Some implies #[trigger] lookup(
        b.subtrees,
        k,
    ) == lookup(a.subtrees, k) by {
        lemma_lookup_prefix(a.subtrees, b.subtrees.skip(n), k);
    }
}

/// On a well-formed state a resolution changes no document, keeps the state
/// well-formed, and returns what the documents give.
pub proof fn lemma_resolve_spec(st: ResolverState, key: (Location, Seq<Seq<char>>))
    requires
        st.wf(),
    ensures
        resolve_spec(st, key).0.wf(),
        resolve_spec(st, key).0.docs == st.docs,
        grows(st, resolve_spec(st, key).0),
        resolve_spec(st, key).1 == resolution(st.docs, key),
{
    let s1 = resolve_spec(st, key).0;
    if s1.subtrees.len() > st.subtrees.len() {
        assert(s1.subtrees.subrange(0, st.subtrees.len() as int) =~= st.subtrees);
    } else {
        assert(s1.subtrees.subrange(0, st.subtrees.len() as int) =~= st.subtrees);
    }
    match lookup(st.subtrees, key) {
        Some(t) => {
            lemma_lookup_key(st.subtrees, key);
            assert(st.entry_ok(st.subtrees[lookup_index(st.subtrees, key)]));
        },
        None => {
            if let Some(d) = lookup(st.docs, key.0) {
                if let Ok(t) = traverse_tree(d, key.1) {
                    let s1 = resolve_spec(st, key).0;
                    assert forall|i: int| 0 <= i < s1.subtrees.len() implies s1.entry_ok(
                        #[trigger] s1.subtrees[i],
                    ) by {
                        if i < st.subtrees.len() {
                            assert(st.entry_ok(st.subtrees[i]));
                        }
                    }
                }
            }
        },
    }
}

/// Resolving the same reference twice returns the same result, and the
/// second resolution leaves the state exactly as the first left it: a
/// subtree found the first time is answered from the cache, with no
/// document asked for and nothing traversed.
pub proof fn lemma_resolve_twice(st: ResolverState, key: (Location, Seq<Seq<char>>))
    requires
        st.wf(),
    ensures
        ({
            let (s1, r1) = resolve_spec(st, key);
            let (s2, r2) = resolve_spec(s1, key);
            &&& r2 == r1
            &&& s2 == s1
            &&& r1 is Ok ==> lookup(s1.subtrees, key) == Some(r1->Ok_0)
        }),
{
    lemma_resolve_spec(st, key);
    let (s1, r1) = resolve_spec(st, key);
    lemma_resolve_spec(s1, key);
    if lookup(st.subtrees, key) is None {
        if r1 is Ok {
            lemma_lookup_push(st.subtrees, key, r1->Ok_0, key);
        }
    }
}

/// With a document not loaded yet, the first resolution into it asks for
/// exactly that document and changes nothing. Once it is loaded, resolving
/// two different addresses in it asks for no document again, answers what
/// the document holds at each, and caches two distinct subtree entries.
pub proof fn lemma_one_load_two_subtrees(
    st: ResolverState,
    loc: Location,
    doc: Tree,
    a1: Seq<Seq<char>>,
    a2: Seq<Seq<char>>,
)
    requires
        st.wf(),
        lookup(st.docs, loc) is None,
        a1 != a2,
    ensures
        ({
            let (s1, r1) = resolve_spec(st, (loc, a1));
            let s2 = add_document_spec(s1, loc, doc);
            let (s3, r3) = resolve_spec(s2, (loc, a1));
            let (s4, r4) = resolve_spec(s3, (loc, a2));
            &&& r1 == Err::<Tree, Fault>(Fault::DocumentNotLoaded(loc))
            &&& s1 == st
            &&& s2.docs == st.docs.push((loc, doc))
            &&& r3 == traverse_tree(doc, a1)
            &&& r4 == traverse_tree(doc, a2)
            &&& s4.docs == s2.docs
            &&& (r3 is Ok && r4 is Ok) ==> s4.subtrees == st.subtrees.push(((loc, a1), r3->Ok_0)).push(
                ((loc, a2), r4->Ok_0),
            )
        }),
{
    // No cached subtree can belong to a document that is not loaded.
    if lookup(st.subtrees, (loc, a1)) is Some {
        lemma_lookup_key(st.subtrees, (loc, a1));
        assert(st.entry_ok(st.subtrees[lookup_index(st.subtrees, (loc, a1))]));
    }
    if lookup(st.subtrees, (loc, a2)) is Some {
        lemma_lookup_key(st.subtrees, (loc, a2));
        assert(st.entry_ok(st.subtrees[lookup_index(st.subtrees, (loc, a2))]));
    }
    let s2 = add_document_spec(st, loc, doc);
    lemma_lookup_push(st.docs, loc, doc, loc);
    assert forall|i: int| 0 <= i < s2.subtrees.len() implies s2.entry_ok(#[trigger] s2.subtrees[i]) by {
        assert(st.entry_ok(st.subtrees[i]));
        lemma_lookup_push(st.docs, loc, doc, st.subtrees[i].0.0);
    }
    lemma_resolve_spec(s2, (loc, a1));
    let (s3, r3) = resolve_spec(s2, (loc, a1));
    lemma_resolve_spec(s3, (loc, a2));
    if r3 is Ok {
        lemma_lookup_push(st.subtrees, (loc, a1), r3->Ok_0, (loc, a2));
    }
}

/// Resolves references against loaded documents, caching every subtree it
/// finds. Documents are handed in by [`RefResolver::add_document`]; a
/// resolution into a document that is not loaded yet fails with
/// [`RefError::DocumentNotLoaded`], naming the location to load.
pub struct RefResolver {
    docs: Vec<(DocLocation, Arc<Value>)>,
    subtrees: Vec<(DocLocation, DocAddress, Arc<Value>)>,
}

impl View for RefResolver {
    type V = ResolverState;

    closed spec fn view(&self) -> ResolverState {
        ResolverState {
            docs: self.docs@.map_values(|e: (DocLocation, Arc<Value>)| (e.0@, e.1@)),
            subtrees: self.subtrees@.map_values(
                |e: (DocLocation, DocAddress, Arc<Value>)| ((e.0@, e.1@), e.2@),
            ),
        }
    }
}

impl Default for RefResolver {
    fn default() -> (r: RefResolver)
        ensures
            r@.docs == Seq::<(Location, Tree)>::empty(),
            r@.subtrees == Seq::<((Location, Seq<Seq<char>>), Tree)>::empty(),
            r@.wf(),
    {
        RefResolver::new()
    }
}

impl RefResolver {
    /// A resolver with no document loaded and nothing cached.
    pub fn new() -> (r: RefResolver)
        ensures
            r@.docs == Seq::<(Location, Tree)>::empty(),
            r@.subtrees == Seq::<((Location, Seq<Seq<char>>), Tree)>::empty(),
            r@.wf(),
    {
        let r = RefResolver { docs: Vec::new(), subtrees: Vec::new() };
        assert(r@.docs =~= Seq::<(Location, Tree)>::empty());
        assert(r@.subtrees =~= Seq::<((Location, Seq<Seq<char>>), Tree)>::empty());
        r
    }

    /// The number of loaded documents.
    pub fn document_count(&self) -> (n: usize)
        ensures
            n == self@.docs.len(),
    {
        self.docs.len()
    }

    /// The number of cached subtrees.
    pub fn subtree_count(&self) -> (n: usize)
        ensures
            n == self@.subtrees.len(),
    {
        self.subtrees.len()
    }

    /// The location and address of the cached subtree at `i`.
    pub fn subtree_key(&self, i: usize) -> (k: (&DocLocation, &DocAddress))
        requires
            i < self@.subtrees.len(),
        ensures
            (k.0@, k.1@) == self@.subtrees[i as int].0,
    {
        let e = &self.subtrees[i];
        (&e.0, &e.1)
    }

    /// Whether the document at `location` is loaded.
    pub fn is_loaded(&self, location: &DocLocation) -> (r: bool)
        ensures
            r == lookup(self@.docs, location@) is Some,
    {
        self.find_doc(location).is_some()
    }

    fn find_doc(&self, location: &DocLocation) -> (r: Option<usize>)
        ensures
            match r {
                Some(i) => i < self@.docs.len() && lookup(self@.docs, location@) == Some(
                    self@.docs[i as int].1,
                ),
                None => lookup(self@.docs, location@) is None,
            },
    {
        let ghost ds = self@.docs;
        let mut i: usize = 0;
        while i < self.docs.len()
            invariant
                i <= self.docs.len(),
                ds == self@.docs,
                ds.len() == self.docs.len(),
                forall|j: int| 0 <= j < i ==> ds[j].0 != location@,
            decreases self.docs.len() - i,
        {
            if self.docs[i].0.same_as(location) {
                proof {
                    lemma_lookup_at(ds, location@, i as int);
                }
                return Some(i);
            }
            i = i + 1;
        }
        proof {
            lemma_lookup_absent(ds, location@);
        }
        None
    }

    fn find_subtree(&self, location: &DocLocation, addr: &DocAddress) -> (r: Option<usize>)
        ensures
            match r {
                Some(i) => i < self@.subtrees.len() && lookup(self@.subtrees, (location@, addr@))
                    == Some(self@.subtrees[i as int].1),
                None => lookup(self@.subtrees, (location@, addr@)) is None,
            },
    {
        let ghost ss = self@.subtrees;
        let mut i: usize = 0;
        while i < self.subtrees.len()
            invariant
                i <= self.subtrees.len(),
                ss == self@.subtrees,
                ss.len() == self.subtrees.len(),
                forall|j: int| 0 <= j < i ==> ss[j].0 != (location@, addr@),
            decreases self.subtrees.len() - i,
        {
            let e = &self.subtrees[i];
            if e.0.same_as(location) && e.1.same_as(addr) {
                proof {
                    lemma_lookup_at(ss, (location@, addr@), i as int);
                }
                return Some(i);
            }
            i = i + 1;
        }
        proof {
            lemma_lookup_absent(ss, (location@, addr@));
        }
        None
    }

    /// Hands in the document loaded from `location`. A location that is
    /// already loaded keeps the document it has.
    pub fn add_document(&mut self, location: DocLocation, doc: Value)
        requires
            old(self)@.wf(),
        ensures
            final(self)@ == add_document_spec(old(self)@, location@, doc@),
            final(self)@.wf(),
    {
        if self.find_doc(&location).is_some() {
            return ;
        }
        let ghost st = self@;
        let ghost l = location@;
        let ghost d = doc@;
        self.docs.push((location, Arc::new(doc)));
        assert(self@.docs =~= st.docs.push((l, d)));
        assert(self@.subtrees =~= st.subtrees);
        assert forall|i: int| 0 <= i < self@.subtrees.len() implies self@.entry_ok(
            #[trigger] self@.subtrees[i],
        ) by {
            assert(st.entry_ok(st.subtrees[i]));
            lemma_lookup_push(st.docs, l, d, st.subtrees[i].0.0);
        }
    }

    /// The loaded document at `loc`.
    pub fn resolve_doc(&self, loc: &DocLocation) -> (r: RefResult)
        ensures
            match lookup(self@.docs, loc@) {
                Some(d) => r is Ok && r->Ok_0@ == d,
                None => result_view(r) == Err::<Tree, Fault>(Fault::DocumentNotLoaded(loc@)),
            },
    {
        match self.find_doc(loc) {
            Some(i) => Ok(Arc::clone(&self.docs[i].1)),
            None => Err(RefError::DocumentNotLoaded(loc.duplicate())),
        }
    }

    /// Traverses a loaded document and caches what it finds under `cache_key`.
    fn traverse_and_clone(
        &mut self,
        doc: &Value,
        addr: &DocAddress,
        cache_key: (DocLocation, DocAddress),
    ) -> (r: RefResult)
        requires
            old(self)@.wf(),
            lookup(old(self)@.docs, cache_key.0@) == Some(doc@),
            cache_key.1@ == addr@,
        ensures
            final(self)@.wf(),
            final(self)@.docs == old(self)@.docs,
            result_view(r) == traverse_tree(doc@, addr@),
            final(self)@.subtrees == (match traverse_tree(doc@, addr@) {
                Ok(t) => old(self)@.subtrees.push(((cache_key.0@, cache_key.1@), t)),
                Err(_) => old(self)@.subtrees,
            }),
    {
        match traverse(doc, addr) {
            Ok(v) => {
                let subtree = Arc::new(v.deep_copy());
                let ghost st = self@;
                let ghost k = (cache_key.0@, cache_key.1@);
                self.subtrees.push((cache_key.0, cache_key.1, Arc::clone(&subtree)));
                assert(self@.subtrees =~= st.subtrees.push((k, subtree@)));
                assert(self@.docs =~= st.docs);
                assert forall|i: int| 0 <= i < self@.subtrees.len() implies self@.entry_ok(
                    #[trigger] self@.subtrees[i],
                ) by {
                    if i < st.subtrees.len() {
                        assert(st.entry_ok(st.subtrees[i]));
                    }
                }
                Ok(subtree)
            },
            Err(e) => Err(e),
        }
    }

    /// Resolves `doc_ref`: from the subtree cache when it holds it, else by
    /// traversing the loaded document (and caching the subtree found).
    pub fn resolve(&mut self, doc_ref: DocumentRef) -> (r: RefResult)
        requires
            old(self)@.wf(),
        ensures
            final(self)@.wf(),
            (final(self)@, result_view(r)) == resolve_spec(old(self)@, doc_ref.key()),
    {
        let location: &DocLocation = &doc_ref.location;
        let addr: &DocAddress = &doc_ref.addr;
        if let Some(i) = self.find_subtree(location, addr) {
            return Ok(Arc::clone(&self.subtrees[i].2));
        }
        match self.find_doc(location) {
            None => Err(RefError::DocumentNotLoaded(location.duplicate())),
            Some(i) => {
                let doc = Arc::clone(&self.docs[i].1);
                self.traverse_and_clone(&doc, addr, (location.duplicate(), addr.duplicate()))
            },
        }
    }

    /// Splits a reference text on its first `#` into the location text (the
    /// current file where it is empty) and the pointer part; `None` when the
    /// text has no `#`.
    pub fn parse_ref<'a>(ref_str: &'a str, current_file: &'a str) -> (r: Option<(&'a str, &'a str)>)
        ensures
            match r {
                Some((l, p)) => ref_parts(current_file@, ref_str@) == Some((l@, p@)),
                None => ref_parts(current_file@, ref_str@) is None,
            },
    {
        let cs = chars_of(ref_str);
        let n = cs.len();
        let mut i: usize = 0;
        while i < n && cs[i] != '#'
            invariant
                i <= n,
                n == cs.len(),
                cs@ == ref_str@,
                forall|j: int| 0 <= j < i ==> cs[j] != '#',
            decreases n - i,
        {
            i = i + 1;
        }
        if i < n {
            proof {
                assert(first_hash(ref_str@, i as int));
                let k = choose|k: int| first_hash(ref_str@, k);
                assert(k == i);
            }
            let loc = if i == 0 {
                current_file
            } else {
                ref_str.substring_char(0, i)
            };
            Some((loc, ref_str.substring_char(i + 1, n)))
        } else {
            proof {
                assert(!exists|k: int| first_hash(ref_str@, k));
            }
            None
        }
    }

    /// The location that a location text denotes.
    pub fn resolve_location(location_str: &str) -> (l: DocLocation)
        ensures
            l@ == location_of(location_str@),
    {
        DocLocation::from_text(location_str)
    }

    /// Resolves a reference text such as `other.yaml#/components/schemas/User`
    /// relative to `current_file`.
    pub fn resolve_ref(&mut self, current_file: &str, ref_str: &str) -> (r: RefResult)
        requires
            old(self)@.wf(),
        ensures
            final(self)@.wf(),
            (final(self)@, result_view(r)) == resolve_ref_spec(
                old(self)@,
                current_file@,
                ref_str@,
            ),
    {
        let (location_str, address_str) = match Self::parse_ref(ref_str, current_file) {
            Some(parts) => parts,
            None => {
                return Err(RefError::InvalidPointer(ref_str.to_owned()));
            },
        };
        let ghost parts = ref_parts(current_file@, ref_str@)->0;
        assert(location_str@ == parts.0 && address_str@ == parts.1);
        let location = Self::resolve_location(location_str);
        let address = if address_str.unicode_len() == 0 {
            DocAddress::root()
        } else {
            let parsed = if address_str.get_char(0) == '#' {
                DocAddress::parse(address_str)
            } else {
                proof {
                    reveal_strlit("#");
                }
                let mut text = "#".to_owned();
                assert(text@ == seq!['#']);
                text.append(address_str);
                assert(text@ == seq!['#'] + parts.1);
                DocAddress::parse(text.as_str())
            };
            match parsed {
                Ok(a) => a,
                Err(_) => {
                    assert(pointer_part(parts.1) is None);
                    return Err(RefError::InvalidPointer(ref_str.to_owned()));
                },
            }
        };
        assert(pointer_part(parts.1) == Some(address@));
        assert(ref_target(current_file@, ref_str@) == Ok::<(Location, Seq<Seq<char>>), Fault>(
            (location@, address@),
        ));
        let doc_ref = DocumentRef { location: Arc::new(location), addr: Arc::new(address) };
        self.resolve(doc_ref)
    }
}

} // verus!
