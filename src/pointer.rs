//! JSON Pointer addresses (`#/a/b~1c`): parsing into unescaped segments.
use vstd::prelude::*;

verus! {

/// The characters that follow a `~` in an escaped segment: `0` for `~`, `1` for `/`.
pub open spec fn escape_char(c: char) -> Seq<char> {
    if c == '~' {
        seq!['~', '0']
    } else if c == '/' {
        seq!['~', '1']
    } else {
        seq![c]
    }
}

/// The escaped form of a segment, as it is written inside a pointer.
pub open spec fn escape(s: Seq<char>) -> Seq<char>
    decreases s.len(),
{
    if s.len() == 0 {
        Seq::empty()
    } else {
        escape_char(s[0]) + escape(s.drop_first())
    }
}

/// Prefixes `p` to a decoded result, keeping a failure a failure.
pub open spec fn prepend(p: Seq<char>, o: Option<Seq<char>>) -> Option<Seq<char>> {
    match o {
        Some(x) => Some(p + x),
        None => None,
    }
}

/// The unescaped form of a raw segment (`~0` is `~`, `~1` is `/`, read left to
/// right), or `None` when a `~` is followed by anything but `0` or `1`.
pub open spec fn unescape(s: Seq<char>) -> Option<Seq<char>>
    decreases s.len(),
{
    if s.len() == 0 {
        Some(Seq::empty())
    } else if s[0] == '~' {
        if s.len() >= 2 && s[1] == '0' {
            prepend(seq!['~'], unescape(s.skip(2)))
        } else if s.len() >= 2 && s[1] == '1' {
            prepend(seq!['/'], unescape(s.skip(2)))
        } else {
            None
        }
    } else {
        prepend(seq![s[0]], unescape(s.drop_first()))
    }
}

/// The pieces of `s` between the `/` separators (one piece when there is none).
pub open spec fn split_segments(s: Seq<char>) -> Seq<Seq<char>>
    decreases s.len(),
{
    if s.len() == 0 {
        seq![Seq::empty()]
    } else {
        let prev = split_segments(s.drop_last());
        if s.last() == '/' {
            prev.push(Seq::empty())
        } else {
            prev.update(prev.len() - 1, prev.last().push(s.last()))
        }
    }
}

/// Unescapes every raw segment; `None` when one of them is empty or badly escaped.
pub open spec fn decode_segments(parts: Seq<Seq<char>>) -> Option<Seq<Seq<char>>>
    decreases parts.len(),
{
    if parts.len() == 0 {
        Some(Seq::empty())
    } else {
        match (decode_segments(parts.drop_last()), unescape(parts.last())) {
            (Some(done), Some(seg)) => if parts.last().len() > 0 {
                Some(done.push(seg))
            } else {
                None
            },
            _ => None,
        }
    }
}

/// The segments that a pointer text denotes: it starts with `#/`; `#/` alone
/// is the root (no segment); otherwise every `/`-separated piece after `#/`
/// is non-empty and correctly escaped. `None` for any other text.
pub open spec fn parse_pointer(s: Seq<char>) -> Option<Seq<Seq<char>>> {
    if s.len() < 2 || s[0] != '#' || s[1] != '/' {
        None
    } else if s.len() == 2 {
        Some(Seq::empty())
    } else {
        decode_segments(split_segments(s.skip(2)))
    }
}

/// The character sequences of a list of strings.
pub open spec fn texts(v: Seq<String>) -> Seq<Seq<char>> {
    v.map_values(|s: String| s@)
}

/// Unescaping the escaped form of any segment gives the segment back.
pub proof fn lemma_escape_round_trip(s: Seq<char>)
    ensures
        unescape(escape(s)) == Some(s),
    decreases s.len(),
{
    if s.len() > 0 {
        let rest = s.drop_first();
        lemma_escape_round_trip(rest);
        let e = escape(s);
        assert(e == escape_char(s[0]) + escape(rest));
        if s[0] == '~' || s[0] == '/' {
            assert(e.skip(2) =~= escape(rest));
        } else {
            assert(e.drop_first() =~= escape(rest));
        }
        assert(seq![s[0]] + rest =~= s);
    }
}

proof fn lemma_escape_has_no_slash(s: Seq<char>)
    ensures
        forall|i: int| 0 <= i < escape(s).len() ==> escape(s)[i] != '/',
        s.len() > 0 ==> escape(s).len() > 0,
    decreases s.len(),
{
    if s.len() > 0 {
        lemma_escape_has_no_slash(s.drop_first());
        let head = escape_char(s[0]);
        let tail = escape(s.drop_first());
        assert forall|i: int| 0 <= i < escape(s).len() implies escape(s)[i] != '/' by {
            if i < head.len() {
                assert(escape(s)[i] == head[i]);
            } else {
                assert(escape(s)[i] == tail[i - head.len()]);
            }
        }
    }
}

proof fn lemma_split_without_slash(x: Seq<char>)
    requires
        forall|i: int| 0 <= i < x.len() ==> x[i] != '/',
    ensures
        split_segments(x) == seq![x],
    decreases x.len(),
{
    if x.len() > 0 {
        lemma_split_without_slash(x.drop_last());
        assert(x.drop_last().push(x.last()) =~= x);
        assert(seq![x.drop_last()].update(0, x.drop_last().push(x.last())) =~= seq![x]);
    } else {
        assert(x =~= Seq::<char>::empty());
    }
}

/// A pointer made of `#/` and the escaped form of a non-empty segment
/// parses back to exactly that segment.
pub proof fn lemma_parse_escaped_segment(s: Seq<char>)
    requires
        s.len() > 0,
    ensures
        parse_pointer(seq!['#', '/'] + escape(s)) == Some(seq![s]),
{
    let e = escape(s);
    let text = seq!['#', '/'] + e;
    lemma_escape_has_no_slash(s);
    lemma_escape_round_trip(s);
    assert(text.skip(2) =~= e);
    lemma_split_without_slash(e);
    let parts = seq![e];
    assert(text.len() > 2 && text[0] == '#' && text[1] == '/');
    assert(parts.drop_last() =~= Seq::<Seq<char>>::empty());
    assert(parts.last() == e);
    assert(decode_segments(parts.drop_last()) == Some(Seq::<Seq<char>>::empty()));
    assert(Seq::<Seq<char>>::empty().push(s) =~= seq![s]);
}

proof fn lemma_prepend_push(p: Seq<char>, c: char, o: Option<Seq<char>>)
    ensures
        prepend(p, prepend(seq![c], o)) == prepend(p.push(c), o),
{
    if let Some(x) = o {
        assert(p + (seq![c] + x) =~= p.push(c) + x);
    }
}

/// Relies on `String::push`: appends one character.
#[verifier::external_body]
pub(crate) fn push_char(s: &mut String, c: char)
    ensures
        final(s)@ == old(s)@.push(c),
{
    s.push(c)
}

/// The characters of `s`, in order.
pub fn chars_of(s: &str) -> (r: Vec<char>)
    ensures
        r@ == s@,
{
    let mut r: Vec<char> = Vec::new();
    for c in it: s.chars()
        invariant
            it.seq() == s@,
            r@ == it.seq().take(it.index() as int),
    {
        r.push(c);
    }
    r
}

/// Unescapes one raw segment.
fn unescape_part(raw: &Vec<char>) -> (r: Option<String>)
    ensures
        match r {
            Some(s) => unescape(raw@) == Some(s@),
            None => unescape(raw@) is None,
        },
{
    let mut out = String::new();
    let mut i: usize = 0;
    assert(raw@.skip(0) =~= raw@);
    while i < raw.len()
        invariant
            i <= raw.len(),
            unescape(raw@) == prepend(out@, unescape(raw@.skip(i as int))),
        decreases raw.len() - i,
    {
        let ghost rest = raw@.skip(i as int);
        let c = raw[i];
        if c == '~' {
            if i + 1 < raw.len() && (raw[i + 1] == '0' || raw[i + 1] == '1') {
                let d = if raw[i + 1] == '0' {
                    '~'
                } else {
                    '/'
                };
                proof {
                    assert(rest.skip(2) =~= raw@.skip(i + 2));
                    lemma_prepend_push(out@, d, unescape(rest.skip(2)));
                }
                push_char(&mut out, d);
                i = i + 2;
            } else {
                return None;
            }
        } else {
            proof {
                assert(rest.drop_first() =~= raw@.skip(i + 1));
                lemma_prepend_push(out@, c, unescape(rest.drop_first()));
            }
            push_char(&mut out, c);
            i = i + 1;
        }
    }
    assert(out@ + Seq::<char>::empty() =~= out@);
    Some(out)
}

/// Splits `cs[start..]` on `/`.
fn split_parts(cs: &Vec<char>, start: usize) -> (parts: Vec<Vec<char>>)
    requires
        start <= cs.len(),
    ensures
        parts@.map_values(|p: Vec<char>| p@) == split_segments(cs@.skip(start as int)),
{
    let mut parts: Vec<Vec<char>> = Vec::new();
    let mut cur: Vec<char> = Vec::new();
    let mut i: usize = start;
    assert(cs@.subrange(start as int, start as int) =~= Seq::<char>::empty());
    assert(parts@.map_values(|p: Vec<char>| p@).push(cur@) =~= seq![Seq::<char>::empty()]);
    while i < cs.len()
        invariant
            start <= i <= cs.len(),
            split_segments(cs@.subrange(start as int, i as int)) == parts@.map_values(
                |p: Vec<char>| p@,
            ).push(cur@),
        decreases cs.len() - i,
    {
        let ghost before = parts@.map_values(|p: Vec<char>| p@);
        let ghost cur_before = cur@;
        assert(cs@.subrange(start as int, i + 1).drop_last() =~= cs@.subrange(
            start as int,
            i as int,
        ));
        if cs[i] == '/' {
            parts.push(cur);
            cur = Vec::new();
            assert(parts@.map_values(|p: Vec<char>| p@) =~= before.push(cur_before));
        } else {
            cur.push(cs[i]);
            assert(before.push(cur_before).update(before.len() as int, cur_before.push(cs[i as int]))
                =~= before.push(cur@));
        }
        i = i + 1;
    }
    let ghost before = parts@.map_values(|p: Vec<char>| p@);
    let ghost last = cur@;
    parts.push(cur);
    assert(parts@.map_values(|p: Vec<char>| p@) =~= before.push(last));
    assert(cs@.subrange(start as int, cs.len() as int) =~= cs@.skip(start as int));
    parts
}

/// The error of a pointer text that is not a valid JSON Pointer.
#[derive(Debug, Clone, Copy, PartialEq, Eq)]
pub struct DocAddressParseError;

/// A validated JSON Pointer: its unescaped segments, in order.
#[derive(Debug, Clone, PartialEq, Eq, Hash, PartialOrd, Ord)]
pub struct DocAddress(Vec<String>);

impl View for DocAddress {
    type V = Seq<Seq<char>>;

    closed spec fn view(&self) -> Seq<Seq<char>> {
        texts(self.0@)
    }
}

/// A cursor over the segments of a [`DocAddress`].
pub struct DocAddressIter<'a> {
    segments: &'a Vec<String>,
    pos: usize,
}

impl<'a> DocAddressIter<'a> {
    /// The segments that are still to come.
    pub closed spec fn remaining(&self) -> Seq<Seq<char>> {
        texts(self.segments@).skip(self.pos as int)
    }

    pub closed spec fn well_formed(&self) -> bool {
        self.pos <= self.segments.len()
    }

    /// The next segment, or `None` once all have been handed out.
    pub fn next(&mut self) -> (r: Option<&'a str>)
        requires
            old(self).well_formed(),
        ensures
            final(self).well_formed(),
            match r {
                Some(s) => old(self).remaining().len() > 0 && s@ == old(self).remaining()[0]
                    && final(self).remaining() == old(self).remaining().drop_first(),
                None => old(self).remaining().len() == 0 && final(self).remaining()
                    == old(self).remaining(),
            },
    {
        if self.pos < self.segments.len() {
            let segments: &'a Vec<String> = self.segments;
            let s = segments[self.pos].as_str();
            proof {
                assert(texts(self.segments@).skip(self.pos + 1) =~= texts(self.segments@).skip(
                    self.pos as int,
                ).drop_first());
            }
            self.pos = self.pos + 1;
            Some(s)
        } else {
            None
        }
    }

    /// The number of segments that are still to come.
    pub fn count(self) -> (n: usize)
        requires
            self.well_formed(),
        ensures
            n == self.remaining().len(),
    {
        self.segments.len() - self.pos
    }

    /// The segments that are still to come, in order.
    pub fn collect(self) -> (r: Vec<&'a str>)
        requires
            self.well_formed(),
        ensures
            r@.map_values(|s: &str| s@) == self.remaining(),
    {
        let segments: &'a Vec<String> = self.segments;
        let mut r: Vec<&'a str> = Vec::new();
        let mut i: usize = self.pos;
        while i < segments.len()
            invariant
                self.pos <= i <= segments.len(),
                segments == self.segments,
                r@.map_values(|s: &str| s@) == texts(segments@).subrange(
                    self.pos as int,
                    i as int,
                ),
            decreases segments.len() - i,
        {
            let ghost before = r@.map_values(|s: &str| s@);
            let s = segments[i].as_str();
            assert(s@ == texts(segments@)[i as int]);
            r.push(s);
            assert(r@.map_values(|s: &str| s@) =~= before.push(s@));
            assert(texts(segments@).subrange(self.pos as int, i + 1) =~= texts(
                segments@,
            ).subrange(self.pos as int, i as int).push(s@));
            i = i + 1;
        }
        assert(texts(segments@).subrange(self.pos as int, segments.len() as int)
            =~= texts(segments@).skip(self.pos as int));
        r
    }
}

impl DocAddress {
    /// The root address, with no segment.
    pub fn root() -> (a: DocAddress)
        ensures
            a@ == Seq::<Seq<char>>::empty(),
    {
        let a = DocAddress(Vec::new());
        assert(a@ =~= Seq::<Seq<char>>::empty());
        a
    }

    /// A cursor over the segments, from the first.
    pub fn iter(&self) -> (it: DocAddressIter<'_>)
        ensures
            it.well_formed(),
            it.remaining() == self@,
    {
        let it = DocAddressIter { segments: &self.0, pos: 0 };
        assert(texts(self.0@).skip(0) =~= texts(self.0@));
        it
    }

    /// The segments, unescaped, in order.
    pub fn segments(&self) -> (s: &Vec<String>)
        ensures
            texts(s@) == self@,
    {
        &self.0
    }

    /// The number of segments.
    pub fn len(&self) -> (n: usize)
        ensures
            n == self@.len(),
    {
        self.0.len()
    }

    /// The segment at `i`.
    pub fn segment(&self, i: usize) -> (s: &String)
        requires
            i < self@.len(),
        ensures
            s@ == self@[i as int],
    {
        &self.0[i]
    }

    /// A copy of this address.
    pub fn duplicate(&self) -> (a: DocAddress)
        ensures
            a@ == self@,
    {
        let mut out: Vec<String> = Vec::new();
        let mut i: usize = 0;
        while i < self.0.len()
            invariant
                i <= self.0.len(),
                out.len() == i,
                forall|j: int| 0 <= j < i ==> #[trigger] out[j]@ == self.0[j]@,
            decreases self.0.len() - i,
        {
            out.push(self.0[i].clone());
            i = i + 1;
        }
        let a = DocAddress(out);
        assert(a@ =~= self@);
        a
    }

    /// Whether both addresses have the same segments.
    pub fn same_as(&self, other: &DocAddress) -> (r: bool)
        ensures
            r == (self@ == other@),
    {
        if self.0.len() != other.0.len() {
            assert(self@.len() != other@.len());
            return false;
        }
        let mut i: usize = 0;
        while i < self.0.len()
            invariant
                i <= self.0.len(),
                self.0.len() == other.0.len(),
                forall|j: int| 0 <= j < i ==> #[trigger] self@[j] == other@[j],
            decreases self.0.len() - i,
        {
            if self.0[i] != other.0[i] {
                assert(self@[i as int] != other@[i as int]);
                return false;
            }
            i = i + 1;
        }
        assert(self@ =~= other@);
        true
    }

    /// Parses a pointer text such as `#/components/schemas/User`.
    pub fn parse(value: &str) -> (r: Result<DocAddress, DocAddressParseError>)
        ensures
            match r {
                Ok(a) => parse_pointer(value@) == Some(a@),
                Err(_) => parse_pointer(value@) is None,
            },
    {
        let cs = chars_of(value);
        if cs.len() < 2 || cs[0] != '#' || cs[1] != '/' {
            return Err(DocAddressParseError);
        }
        assert(cs@ == value@);
        if cs.len() == 2 {
            return Ok(DocAddress::root());
        }
        let parts = split_parts(&cs, 2);
        let ghost pv = parts@.map_values(|p: Vec<char>| p@);
        let mut out: Vec<String> = Vec::new();
        let mut j: usize = 0;
        assert(pv.take(0) =~= Seq::<Seq<char>>::empty());
        assert(texts(out@) =~= Seq::<Seq<char>>::empty());
        while j < parts.len()
            invariant
                j <= parts.len(),
                pv == parts@.map_values(|p: Vec<char>| p@),
                pv == split_segments(value@.skip(2)),
                value@.len() > 2 && value@[0] == '#' && value@[1] == '/',
                decode_segments(pv.take(j as int)) == Some(texts(out@)),
            decreases parts.len() - j,
        {
            assert(pv.take(j + 1).drop_last() =~= pv.take(j as int));
            assert(pv.take(j + 1).last() == parts[j as int]@);
            if parts[j].len() == 0 {
                proof {
                    assert(decode_segments(pv.take(j + 1)) is None);
                    lemma_decode_fails_on_prefix(pv, j as int + 1);
                }
                return Err(DocAddressParseError);
            }
            match unescape_part(&parts[j]) {
                Some(seg) => {
                    let ghost before = texts(out@);
                    out.push(seg);
                    assert(texts(out@) =~= before.push(seg@));
                },
                None => {
                    proof {
                        assert(decode_segments(pv.take(j + 1)) is None);
                        lemma_decode_fails_on_prefix(pv, j as int + 1);
                    }
                    return Err(DocAddressParseError);
                },
            }
            j = j + 1;
        }
        assert(pv.take(parts.len() as int) =~= pv);
        Ok(DocAddress(out))
    }
}

/// Once a prefix of the pieces fails to decode, the whole list does.
proof fn lemma_decode_fails_on_prefix(parts: Seq<Seq<char>>, n: int)
    requires
        0 <= n <= parts.len(),
        decode_segments(parts.take(n)) is None,
    ensures
        decode_segments(parts) is None,
    decreases parts.len() - n,
{
    if n < parts.len() {
        assert(parts.take(n + 1).drop_last() =~= parts.take(n));
        lemma_decode_fails_on_prefix(parts, n + 1);
    } else {
        assert(parts.take(n) =~= parts);
    }
}

impl<'a> TryFrom<&'a str> for DocAddress {
    type Error = DocAddressParseError;

    fn try_from(value: &'a str) -> (r: Result<DocAddress, DocAddressParseError>)
        ensures
            match r {
                Ok(a) => parse_pointer(value@) == Some(a@),
                Err(_) => parse_pointer(value@) is None,
            },
    {
        DocAddress::parse(value)
    }
}

/// `try_from` states its result in its own `ensures`, in terms of the
/// address's view; no spec-level `DocAddress` value is named here.
impl<'a> vstd::std_specs::convert::TryFromSpecImpl<&'a str> for DocAddress {
    open spec fn obeys_try_from_spec() -> bool {
        false
    }

    open spec fn try_from_spec(v: &'a str) -> Result<DocAddress, DocAddressParseError> {
        Err(DocAddressParseError)
    }
}

} // verus!
