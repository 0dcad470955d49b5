use vstd::prelude::*;

use crate::attr::{type_of, AttrType, AttrValue};
use crate::token::{token_text, LLToken, LRange, LToken, PositionRange, TextTag};
use crate::type_id_to_many::{ranges_of, TypeIdToMany};

verus! {

/// Whether `r` is an inclusive range of token indexes on a line of `len` tokens.
pub open spec fn valid_range(r: LRange, len: nat) -> bool {
    r.0 <= r.1 && r.1 < len
}

/// The distinct `(type, range)` index entries of a sequence of attributes,
/// in the order of their first insertion.
pub open spec fn index_entries(attrs: Seq<(LRange, AttrValue)>) -> Seq<(AttrType, LRange)>
    decreases attrs.len(),
{
    if attrs.len() == 0 {
        Seq::empty()
    } else {
        let prev = index_entries(attrs.drop_last());
        let e = (type_of(attrs.last().1), attrs.last().0);
        if prev.contains(e) {
            prev
        } else {
            prev.push(e)
        }
    }
}

/// The entries whose range starts (or, with `at_end`, ends) at token index `i`.
pub open spec fn entries_at(entries: Seq<(AttrType, LRange)>, i: int, at_end: bool) -> Seq<
    (AttrType, LRange),
>
    decreases entries.len(),
{
    if entries.len() == 0 {
        Seq::empty()
    } else {
        let prev = entries_at(entries.drop_last(), i, at_end);
        let r = entries.last().1;
        if (if at_end { r.1 } else { r.0 }) == i {
            prev.push(entries.last())
        } else {
            prev
        }
    }
}

/// Every value of type `t` attached to exactly the range `r`, in insertion order.
pub open spec fn values_of(attrs: Seq<(LRange, AttrValue)>, t: AttrType, r: LRange) -> Seq<
    AttrValue,
>
    decreases attrs.len(),
{
    if attrs.len() == 0 {
        Seq::empty()
    } else {
        let prev = values_of(attrs.drop_last(), t, r);
        if attrs.last().0 == r && type_of(attrs.last().1) == t {
            prev.push(attrs.last().1)
        } else {
            prev
        }
    }
}

/// The attributes a line gives a text token at index `i`: its character when
/// the text is one character long, then its tag.
pub open spec fn text_attrs(text: Seq<char>, tag: TextTag, i: usize) -> Seq<(LRange, AttrValue)> {
    let tagged = Seq::empty().push(((i, i), AttrValue::Tag(tag)));
    if text.len() == 1 {
        Seq::empty().push(((i, i), AttrValue::Char(text.first()))) + tagged
    } else {
        tagged
    }
}

/// The attributes a line gives a token of its own at index `i`; a value token gets none.
pub open spec fn token_attrs(token: LToken, i: usize) -> Seq<(LRange, AttrValue)> {
    match token {
        LToken::Text(s, tag) => text_attrs(s@, tag, i),
        LToken::Value => Seq::empty(),
    }
}

/// The attributes a new line starts with, token by token in index order.
pub open spec fn auto_attrs(tokens: Seq<LLToken>) -> Seq<(LRange, AttrValue)>
    decreases tokens.len(),
{
    if tokens.len() == 0 {
        Seq::empty()
    } else {
        auto_attrs(tokens.drop_last()) + token_attrs(
            tokens.last().token,
            (tokens.len() - 1) as usize,
        )
    }
}

/// The concatenated text of the tokens from index `s` to index `e`, both included.
pub open spec fn span_text(tokens: Seq<LLToken>, s: int, e: int) -> Seq<char>
    decreases e - s + 1,
{
    if e < s {
        Seq::empty()
    } else {
        span_text(tokens, s, e - 1) + token_text(tokens[e].token)
    }
}

pub(crate) proof fn lemma_entries_at_contains(
    entries: Seq<(AttrType, LRange)>,
    i: int,
    at_end: bool,
    e: (AttrType, LRange),
)
    ensures
        entries_at(entries, i, at_end).contains(e) <==> (entries.contains(e) && (if at_end {
            e.1.1
        } else {
            e.1.0
        }) == i),
    decreases entries.len(),
{
    if entries.len() > 0 {
        let prev = entries.drop_last();
        let last = entries.last();
        let pa = entries_at(prev, i, at_end);
        lemma_entries_at_contains(prev, i, at_end, e);
        assert(entries == prev.push(last));
        lemma_push_contains(prev, last, e);
        lemma_push_contains(pa, last, e);
    }
}

pub(crate) proof fn lemma_push_contains<A>(s: Seq<A>, x: A, e: A)
    ensures
        s.push(x).contains(e) <==> (s.contains(e) || x == e),
{
    if s.push(x).contains(e) {
        let k = choose|k: int| 0 <= k < s.push(x).len() && s.push(x)[k] == e;
        if k < s.len() {
            assert(s[k] == e);
        }
    }
    if s.contains(e) {
        let k = choose|k: int| 0 <= k < s.len() && s[k] == e;
        assert(s.push(x)[k] == e);
    }
    if x == e {
        assert(s.push(x)[s.len() as int] == e);
    }
}

proof fn lemma_entries_at_push(entries: Seq<(AttrType, LRange)>, e: (AttrType, LRange))
    ensures
        forall|i: int, at_end: bool| #[trigger]
            entries_at(entries.push(e), i, at_end) == if (if at_end {
                e.1.1
            } else {
                e.1.0
            }) == i {
                entries_at(entries, i, at_end).push(e)
            } else {
                entries_at(entries, i, at_end)
            },
{
    assert(entries.push(e).drop_last() == entries);
}

/// The matches whose resulting token index lies on a line of `len` tokens, in order.
pub open spec fn kept_matches<Out>(found: Seq<(Out, usize)>, len: nat) -> Seq<(Out, usize)>
    decreases found.len(),
{
    if found.len() == 0 {
        Seq::empty()
    } else {
        let prev = kept_matches(found.drop_last(), len);
        if found.last().1 < len {
            prev.push(found.last())
        } else {
            prev
        }
    }
}

/// Whether `start..end` runs from the start of some token to the end of some token.
pub open spec fn is_token_span(tokens: Seq<LLToken>, start: usize, end: usize) -> bool {
    exists|i: int, j: int|
        #![trigger tokens[i], tokens[j]]
        0 <= i < tokens.len() && 0 <= j < tokens.len() && tokens[i].pos_starts_at == start
            && tokens[j].pos_ends_at == end
}

/// The end indexes of the ranges in `ranges` that hold `value`, in order.
pub open spec fn ends_holding(
    ranges: Seq<LRange>,
    attrs: Seq<(LRange, AttrValue)>,
    value: AttrValue,
) -> Seq<usize>
    decreases ranges.len(),
{
    if ranges.len() == 0 {
        Seq::empty()
    } else {
        let prev = ends_holding(ranges.drop_last(), attrs, value);
        if values_of(attrs, type_of(value), ranges.last()).contains(value) {
            prev.push(ranges.last().1)
        } else {
            prev
        }
    }
}

proof fn lemma_kept_matches_in_line<Out>(found: Seq<(Out, usize)>, len: nat)
    ensures
        forall|k: int|
            0 <= k < kept_matches(found, len).len() ==> #[trigger] kept_matches(found, len)[k].1 < len,
    decreases found.len(),
{
    if found.len() > 0 {
        let prev = kept_matches(found.drop_last(), len);
        lemma_kept_matches_in_line(found.drop_last(), len);
        assert forall|k: int| 0 <= k < kept_matches(found, len).len() implies #[trigger] kept_matches(
            found,
            len,
        )[k].1 < len by {
            if k < prev.len() {
                assert(kept_matches(found, len)[k] == prev[k]);
            }
        }
    }
}

/// Every entry of the index lies on a line of `len` tokens when every attribute does.
proof fn lemma_index_entries_valid(attrs: Seq<(LRange, AttrValue)>, len: nat)
    requires
        forall|k: int| 0 <= k < attrs.len() ==> valid_range(#[trigger] attrs[k].0, len),
    ensures
        forall|k: int|
            0 <= k < index_entries(attrs).len() ==> valid_range(#[trigger] index_entries(attrs)[k].1, len),
    decreases attrs.len(),
{
    if attrs.len() > 0 {
        let prev = attrs.drop_last();
        assert forall|k: int| 0 <= k < prev.len() implies valid_range(#[trigger] prev[k].0, len) by {
            assert(prev[k] == attrs[k]);
        }
        lemma_index_entries_valid(prev, len);
        let pi = index_entries(prev);
        assert(valid_range(attrs[attrs.len() - 1].0, len));
        assert forall|k: int| 0 <= k < index_entries(attrs).len() implies valid_range(
            #[trigger] index_entries(attrs)[k].1,
            len,
        ) by {
            if k < pi.len() {
                assert(index_entries(attrs)[k] == pi[k]);
            }
        }
    }
}

/// The ranges of a sub-index whose entries all come from `whole` are valid when `whole`'s are.
proof fn lemma_ranges_of_from(
    entries: Seq<(AttrType, LRange)>,
    t: AttrType,
    len: nat,
    whole: Seq<(AttrType, LRange)>,
)
    requires
        forall|k: int| 0 <= k < whole.len() ==> valid_range(#[trigger] whole[k].1, len),
        forall|k: int| 0 <= k < entries.len() ==> whole.contains(#[trigger] entries[k]),
    ensures
        forall|k: int|
            0 <= k < ranges_of(entries, t).len() ==> valid_range(#[trigger] ranges_of(entries, t)[k], len),
    decreases entries.len(),
{
    if entries.len() > 0 {
        let prev = entries.drop_last();
        assert forall|k: int| 0 <= k < prev.len() implies whole.contains(#[trigger] prev[k]) by {
            assert(prev[k] == entries[k]);
        }
        lemma_ranges_of_from(prev, t, len, whole);
        assert(whole.contains(entries[entries.len() - 1]));
        let w = choose|w: int| 0 <= w < whole.len() && whole[w] == entries.last();
        assert(valid_range(whole[w].1, len));
        let pr = ranges_of(prev, t);
        assert forall|k: int| 0 <= k < ranges_of(entries, t).len() implies valid_range(
            #[trigger] ranges_of(entries, t)[k],
            len,
        ) by {
            if k < pr.len() {
                assert(ranges_of(entries, t)[k] == pr[k]);
            }
        }
    }
}

/// The four co-indexes over a line's attributes.
struct LLLineAttrs {
    ranges: TypeIdToMany,
    /// entries whose range starts at each token index
    starts_at: Vec<TypeIdToMany>,
    /// entries whose range ends at each token index
    ends_at: Vec<TypeIdToMany>,
    /// every attribute with its range, in insertion order
    values: Vec<(LRange, AttrValue)>,
}

impl LLLineAttrs {
    spec fn len(&self) -> nat {
        self.starts_at@.len()
    }

    spec fn wf(&self) -> bool {
        let idx = index_entries(self.values@);
        &&& self.ends_at@.len() == self.starts_at@.len()
        &&& self.ranges@ == idx
        &&& forall|i: int|
            0 <= i < self.len() ==> #[trigger] self.starts_at@[i]@ == entries_at(idx, i, false)
        &&& forall|i: int|
            0 <= i < self.len() ==> #[trigger] self.ends_at@[i]@ == entries_at(idx, i, true)
        &&& forall|k: int|
            0 <= k < self.values@.len() ==> valid_range(#[trigger] self.values@[k].0, self.len())
    }

    fn new(len: usize) -> (r: Self)
        ensures
            r.wf(),
            r.len() == len,
            r.values@ == Seq::<(LRange, AttrValue)>::empty(),
    {
        let mut starts_at: Vec<TypeIdToMany> = Vec::new();
        let mut ends_at: Vec<TypeIdToMany> = Vec::new();
        let mut i: usize = 0;
        while i < len
            invariant
                i <= len,
                starts_at@.len() == i,
                ends_at@.len() == i,
                forall|j: int| 0 <= j < i ==> #[trigger] starts_at@[j]@ == Seq::<(AttrType, LRange)>::empty(),
                forall|j: int| 0 <= j < i ==> #[trigger] ends_at@[j]@ == Seq::<(AttrType, LRange)>::empty(),
            decreases len - i,
        {
            starts_at.push(TypeIdToMany::new());
            ends_at.push(TypeIdToMany::new());
            i += 1;
        }
        let r = LLLineAttrs { ranges: TypeIdToMany::new(), starts_at, ends_at, values: Vec::new() };
        assert(index_entries(r.values@) == Seq::<(AttrType, LRange)>::empty());
        r
    }

    /// Attaches `value` to `range`, updating all four indexes together.
    fn insert(&mut self, range: LRange, value: AttrValue)
        requires
            old(self).wf(),
            valid_range(range, old(self).len()),
        ensures
            final(self).wf(),
            final(self).len() == old(self).len(),
            final(self).values@ == old(self).values@.push((range, value)),
    {
        let ghost idx = index_entries(self.values@);
        let ghost e = (type_of(value), range);
        let t = value.attr_type();
        proof {
            lemma_entries_at_contains(idx, range.0 as int, false, e);
            lemma_entries_at_contains(idx, range.1 as int, true, e);
            lemma_entries_at_push(idx, e);
        }
        self.starts_at[range.0].insert_distinct(t, range);
        self.ends_at[range.1].insert_distinct(t, range);
        self.ranges.insert_distinct(t, range);
        self.values.push((range, value));
        proof {
            assert(self.values@.drop_last() == old(self).values@);
            let nidx = index_entries(self.values@);
            assert forall|i: int| 0 <= i < self.len() implies #[trigger] self.starts_at@[i]@
                == entries_at(nidx, i, false) by {
                if i != range.0 {
                    assert(self.starts_at@[i] == old(self).starts_at@[i]);
                }
            }
            assert forall|i: int| 0 <= i < self.len() implies #[trigger] self.ends_at@[i]@
                == entries_at(nidx, i, true) by {
                if i != range.1 {
                    assert(self.ends_at@[i] == old(self).ends_at@[i]);
                }
            }
            assert forall|k: int| 0 <= k < self.values@.len() implies valid_range(
                #[trigger] self.values@[k].0,
                self.len(),
            ) by {
                if k < self.values@.len() - 1 {
                    assert(self.values@[k] == old(self).values@[k]);
                }
            }
        }
    }
}

/// A value that a resolver asks to attach to the range `start_idx..=end_idx`.
#[derive(Debug)]
pub struct LLCursorAssignment<Attr> {
    pub start_idx: usize,
    pub end_idx: usize,
    pub value: Attr,
}

/// The attributes a list of assignments asks for, in order.
pub open spec fn assignment_attrs(a: Seq<LLCursorAssignment<AttrValue>>) -> Seq<(LRange, AttrValue)> {
    a.map_values(|x: LLCursorAssignment<AttrValue>| ((x.start_idx, x.end_idx), x.value))
}

/// Whether every assignment's range lies on a line of `len` tokens.
pub open spec fn all_on_line(a: Seq<LLCursorAssignment<AttrValue>>, len: nat) -> bool {
    forall|k: int| 0 <= k < a.len() ==> valid_range((#[trigger] a[k].start_idx, a[k].end_idx), len)
}

/// Whether `e` reports the first assignment of `a` whose range is off a line of `len` tokens.
pub open spec fn first_off_line(
    a: Seq<LLCursorAssignment<AttrValue>>,
    len: nat,
    e: InvalidAssignment,
) -> bool {
    &&& e.index < a.len()
    &&& a[e.index as int].start_idx == e.start_idx
    &&& a[e.index as int].end_idx == e.end_idx
    &&& !valid_range((e.start_idx, e.end_idx), len)
    &&& all_on_line(a.subrange(0, e.index as int), len)
}

/// A resolver asked for a range that does not lie on the line: `start_idx`
/// is after `end_idx`, or `end_idx` is past the last token.
#[derive(Clone, Copy, Debug, PartialEq, Eq, Structural)]
pub struct InvalidAssignment {
    /// The position of the assignment in the resolver's list.
    pub index: usize,
    pub start_idx: usize,
    pub end_idx: usize,
}

/// A window `start_idx..=end_idx` over one line, borrowed for the length of a call.
pub struct LLSelection<'l> {
    ll_line: &'l LLLine,
    start_idx: usize,
    end_idx: usize,
}

impl<'l> LLSelection<'l> {
    /// The selection of every token of `line`.
    pub fn whole(line: &'l LLLine) -> (r: Self)
        requires
            line.tokens().len() > 0,
        ensures
            r.line() == line,
            r.window() == (0usize, (line.tokens().len() - 1) as usize),
    {
        LLSelection { ll_line: line, start_idx: 0, end_idx: line.ll_tokens.len() - 1 }
    }

    pub closed spec fn line(&self) -> &'l LLLine {
        self.ll_line
    }

    pub closed spec fn window(&self) -> LRange {
        (self.start_idx, self.end_idx)
    }

    /// The line this selection looks at.
    pub fn ll_line(&self) -> (r: &'l LLLine)
        ensures
            r == self.line(),
    {
        self.ll_line
    }

    /// The first token index of the window.
    pub fn start_idx(&self) -> (r: usize)
        ensures
            r == self.window().0,
    {
        self.start_idx
    }

    /// The last token index of the window.
    pub fn end_idx(&self) -> (r: usize)
        ensures
            r == self.window().1,
    {
        self.end_idx
    }

    /// An assignment of `value` to the whole window.
    pub fn finish_with<Attr>(&self, value: Attr) -> (r: LLCursorAssignment<Attr>)
        ensures
            r.start_idx == self.window().0,
            r.end_idx == self.window().1,
            r.value == value,
    {
        LLCursorAssignment { start_idx: self.start_idx, end_idx: self.end_idx, value }
    }
}

/// Computes new attributes for a whole line.
pub trait Resolver {
    /// How to perform the assignments. The selection spans the whole line
    /// and cannot outlive the call.
    fn go(&self, selection: LLSelection<'_>) -> Vec<LLCursorAssignment<AttrValue>>
        requires
            selection.line().wf(),
            selection.line().tokens().len() > 0,
            selection.window() == (0usize, (selection.line().tokens().len() - 1) as usize),
    ;
}

/// A match found on a line, in character positions.
#[derive(Debug)]
pub struct LLLineFind<Found> {
    start_pos_at: usize,
    end_pos_at: usize,
    found: Found,
}

impl<Found> LLLineFind<Found> {
    pub closed spec fn start(&self) -> usize {
        self.start_pos_at
    }

    pub closed spec fn end(&self) -> usize {
        self.end_pos_at
    }

    pub closed spec fn found(&self) -> Found {
        self.found
    }

    /// The match as its start position, end position and value.
    pub open spec fn spec_view(&self) -> (usize, usize, Found) {
        (self.start(), self.end(), self.found())
    }

    /// The character positions the match spans.
    pub fn range(&self) -> (r: PositionRange)
        ensures
            r == (self.start(), self.end()),
    {
        (self.start_pos_at, self.end_pos_at)
    }

    /// What the matcher found.
    pub fn attr(&self) -> (r: &Found)
        ensures
            *r == self.found(),
    {
        &self.found
    }
}

/// Proposes every way a match can be extended forwards from a token index:
/// each result pairs a value with the index of the last token matched.
pub trait XMatch {
    type Out;

    /// Every match from token index `from_idx` on `line`, in the order `go` gives them.
    spec fn matches(&self, from_idx: usize, line: &LLLine) -> Seq<(Self::Out, usize)>;

    fn go(&self, from_idx: usize, line: &LLLine) -> (r: Vec<(Self::Out, usize)>)
        requires
            line.wf(),
            from_idx < line.tokens().len(),
        ensures
            r@ == self.matches(from_idx, line),
    ;
}

/// The matches `found` from token index `i` that end on the line, each as its
/// start position, end position and value.
pub open spec fn finds_from<Out>(tokens: Seq<LLToken>, i: int, found: Seq<(Out, usize)>) -> Seq<
    (usize, usize, Out),
> {
    kept_matches(found, tokens.len()).map_values(
        |m: (Out, usize)| (tokens[i].pos_starts_at, tokens[m.1 as int].pos_ends_at, m.0),
    )
}

/// What `find` gives on `line` from the token indexes below `n`, index by index.
pub open spec fn finds_upto<M: XMatch>(matcher: &M, line: &LLLine, n: int) -> Seq<
    (usize, usize, M::Out),
>
    decreases n,
{
    if n <= 0 {
        Seq::empty()
    } else {
        finds_upto(matcher, line, n - 1) + finds_from(
            line.tokens(),
            n - 1,
            matcher.matches((n - 1) as usize, line),
        )
    }
}

/// Matches every range starting at the cursor that holds a given value.
pub struct AttrEq {
    pub value: AttrValue,
}

impl AttrEq {
    /// Every range starting at `from_idx` that holds `self.value`, as the value
    /// paired with the range's last token index, in index order.
    pub fn matches_from(&self, from_idx: usize, line: &LLLine) -> (r: Vec<(AttrValue, usize)>)
        requires
            line.wf(),
            from_idx < line.tokens().len(),
        ensures
            r@ == ends_holding(
                ranges_of(
                    entries_at(index_entries(line.attrs()), from_idx as int, false),
                    type_of(self.value),
                ),
                line.attrs(),
                self.value,
            ).map_values(|e: usize| (self.value, e)),
    {
        let t = self.value.attr_type();
        let ranges = line.starting_at(from_idx, t);
        let ghost rs = ranges@;
        let mut out: Vec<(AttrValue, usize)> = Vec::new();
        let mut k: usize = 0;
        while k < ranges.len()
            invariant
                k <= rs.len(),
                rs == ranges@,
                line.wf(),
                t == type_of(self.value),
                forall|m: int| 0 <= m < rs.len() ==> valid_range(#[trigger] rs[m], line.tokens().len()),
                out@ == ends_holding(rs.subrange(0, k as int), line.attrs(), self.value).map_values(
                    |e: usize| (self.value, e),
                ),
            decreases rs.len() - k,
        {
            let range = ranges[k];
            assert(rs.subrange(0, k + 1).drop_last() == rs.subrange(0, k as int));
            let held = line.values_at(t, range);
            let mut found = false;
            let mut m: usize = 0;
            while m < held.len()
                invariant
                    m <= held@.len(),
                    found == held@.subrange(0, m as int).contains(self.value),
                decreases held@.len() - m,
            {
                proof {
                    lemma_push_contains(held@.subrange(0, m as int), held@[m as int], self.value);
                    assert(held@.subrange(0, m + 1) == held@.subrange(0, m as int).push(held@[m as int]));
                }
                if held[m] == self.value {
                    found = true;
                }
                m += 1;
            }
            assert(held@.subrange(0, held@.len() as int) == held@);
            if found {
                out.push((self.value, range.1));
            }
            proof {
                let prev = ends_holding(rs.subrange(0, k as int), line.attrs(), self.value);
                assert(prev.push(range.1).map_values(|e: usize| (self.value, e))
                    == prev.map_values(|e: usize| (self.value, e)).push((self.value, range.1)));
            }
            k += 1;
        }
        assert(rs.subrange(0, rs.len() as int) == rs);
        out
    }
}

impl XMatch for AttrEq {
    type Out = AttrValue;

    open spec fn matches(&self, from_idx: usize, line: &LLLine) -> Seq<(AttrValue, usize)> {
        ends_holding(
            ranges_of(
                entries_at(index_entries(line.attrs()), from_idx as int, false),
                type_of(self.value),
            ),
            line.attrs(),
            self.value,
        ).map_values(|e: usize| (self.value, e))
    }

    fn go(&self, from_idx: usize, line: &LLLine) -> Vec<(AttrValue, usize)> {
        self.matches_from(from_idx, line)
    }
}

/// A line of tokens with the attributes attached to its ranges.
pub struct LLLine {
    ll_tokens: Vec<LLToken>,
    attrs: LLLineAttrs,
}

impl LLLine {
    /// The line's tokens.
    pub closed spec fn tokens(&self) -> Seq<LLToken> {
        self.ll_tokens@
    }

    /// Every attribute of the line with its range, in insertion order.
    pub closed spec fn attrs(&self) -> Seq<(LRange, AttrValue)> {
        self.attrs.values@
    }

    /// The global index: every `(type, range)` pair that carries an attribute.
    pub closed spec fn ranges_index(&self) -> Seq<(AttrType, LRange)> {
        self.attrs.ranges@
    }

    /// The index of entries whose range starts at token index `i`.
    pub closed spec fn starts_index(&self, i: int) -> Seq<(AttrType, LRange)> {
        self.attrs.starts_at@[i]@
    }

    /// The index of entries whose range ends at token index `i`.
    pub closed spec fn ends_index(&self, i: int) -> Seq<(AttrType, LRange)> {
        self.attrs.ends_at@[i]@
    }

    pub closed spec fn wf(&self) -> bool {
        self.attrs.wf() && self.attrs.len() == self.ll_tokens@.len()
    }

    pub(crate) proof fn lemma_wf_facts(&self)
        requires
            self.wf(),
        ensures
            self.ranges_index() == index_entries(self.attrs()),
            forall|i: int|
                0 <= i < self.tokens().len() ==> #[trigger] self.starts_index(i) == entries_at(
                    index_entries(self.attrs()),
                    i,
                    false,
                ),
            forall|i: int|
                0 <= i < self.tokens().len() ==> #[trigger] self.ends_index(i) == entries_at(
                    index_entries(self.attrs()),
                    i,
                    true,
                ),
            forall|k: int|
                0 <= k < self.attrs().len() ==> valid_range(
                    #[trigger] self.attrs()[k].0,
                    self.tokens().len(),
                ),
    {
    }

    /// Creates a line, attaching to each text token its tag, and its
    /// character when the text is a single character.
    pub fn new(ll_tokens: Vec<LLToken>) -> (r: Self)
        ensures
            r.wf(),
            r.tokens() == ll_tokens@,
            r.attrs() == auto_attrs(ll_tokens@),
    {
        let mut attrs = LLLineAttrs::new(ll_tokens.len());
        let mut i: usize = 0;
        while i < ll_tokens.len()
            invariant
                i <= ll_tokens@.len(),
                attrs.wf(),
                attrs.len() == ll_tokens@.len(),
                attrs.values@ == auto_attrs(ll_tokens@.subrange(0, i as int)),
            decreases ll_tokens@.len() - i,
        {
            let ghost before = attrs.values@;
            proof {
                let sub = ll_tokens@.subrange(0, i + 1);
                assert(sub.drop_last() == ll_tokens@.subrange(0, i as int));
                assert(sub.last() == ll_tokens@[i as int]);
            }
            match &ll_tokens[i].token {
                LToken::Text(text, tag) => {
                    if text.as_str().unicode_len() == 1 {
                        let c = text.as_str().get_char(0);
                        attrs.insert((i, i), AttrValue::Char(c));
                    }
                    attrs.insert((i, i), AttrValue::Tag(*tag));
                },
                LToken::Value => {},
            }
            assert(attrs.values@ == before + token_attrs(ll_tokens@[i as int].token, i));
            i += 1;
        }
        assert(ll_tokens@.subrange(0, ll_tokens@.len() as int) == ll_tokens@);
        LLLine { ll_tokens, attrs }
    }

    /// Attaches each of `values`, in order, to `start_idx..=end_idx`.
    pub fn add_any_attrs(&mut self, start_idx: usize, end_idx: usize, values: Vec<AttrValue>)
        requires
            old(self).wf(),
            valid_range((start_idx, end_idx), old(self).tokens().len()),
        ensures
            final(self).wf(),
            final(self).tokens() == old(self).tokens(),
            final(self).attrs() == old(self).attrs() + values@.map_values(
                |v: AttrValue| ((start_idx, end_idx), v),
            ),
    {
        let mut k: usize = 0;
        while k < values.len()
            invariant
                k <= values@.len(),
                self.wf(),
                self.tokens() == old(self).tokens(),
                valid_range((start_idx, end_idx), self.tokens().len()),
                self.attrs() == old(self).attrs() + values@.subrange(0, k as int).map_values(
                    |v: AttrValue| ((start_idx, end_idx), v),
                ),
            decreases values@.len() - k,
        {
            self.attrs.insert((start_idx, end_idx), values[k]);
            assert(values@.subrange(0, k + 1).map_values(|v: AttrValue| ((start_idx, end_idx), v))
                == values@.subrange(0, k as int).map_values(
                |v: AttrValue| ((start_idx, end_idx), v),
            ).push(((start_idx, end_idx), values@[k as int])));
            k += 1;
        }
        assert(values@.subrange(0, values@.len() as int) == values@);
    }

    /// Attaches the values of `assignments` in order when every range lies
    /// on the line. Otherwise nothing is attached and the first assignment
    /// off the line is reported.
    pub fn merge_assignments(&mut self, assignments: Vec<LLCursorAssignment<AttrValue>>) -> (r:
        Result<(), InvalidAssignment>)
        requires
            old(self).wf(),
        ensures
            final(self).wf(),
            final(self).tokens() == old(self).tokens(),
            r is Ok <==> all_on_line(assignments@, old(self).tokens().len()),
            r is Ok ==> final(self).attrs() == old(self).attrs() + assignment_attrs(assignments@),
            r is Err ==> final(self).attrs() == old(self).attrs() && first_off_line(
                assignments@,
                old(self).tokens().len(),
                r->Err_0,
            ),
    {
        let n = self.ll_tokens.len();
        let ghost a = assignments@;
        let mut k: usize = 0;
        while k < assignments.len()
            invariant
                k <= a.len(),
                a == assignments@,
                all_on_line(a.subrange(0, k as int), n as nat),
                self.wf(),
                self.tokens() == old(self).tokens(),
                self.attrs() == old(self).attrs(),
                n == self.tokens().len(),
            decreases a.len() - k,
        {
            let x = &assignments[k];
            if !(x.start_idx <= x.end_idx && x.end_idx < n) {
                let e = InvalidAssignment { index: k, start_idx: x.start_idx, end_idx: x.end_idx };
                proof {
                    assert(!all_on_line(a, n as nat)) by {
                        assert(!valid_range((a[k as int].start_idx, a[k as int].end_idx), n as nat));
                    }
                }
                return Err(e);
            }
            proof {
                assert forall|m: int| 0 <= m < k + 1 implies valid_range(
                    (#[trigger] a.subrange(0, k + 1)[m].start_idx, a.subrange(0, k + 1)[m].end_idx),
                    n as nat,
                ) by {
                    if m < k {
                        assert(a.subrange(0, k + 1)[m] == a.subrange(0, k as int)[m]);
                    }
                }
            }
            k += 1;
        }
        assert(a.subrange(0, a.len() as int) == a);
        let mut k: usize = 0;
        while k < assignments.len()
            invariant
                k <= a.len(),
                a == assignments@,
                all_on_line(a, n as nat),
                self.wf(),
                self.tokens() == old(self).tokens(),
                n == self.tokens().len(),
                self.attrs() == old(self).attrs() + assignment_attrs(a.subrange(0, k as int)),
            decreases a.len() - k,
        {
            let x = &assignments[k];
            proof {
                assert(valid_range((a[k as int].start_idx, a[k as int].end_idx), n as nat));
                assert(assignment_attrs(a.subrange(0, k + 1)) =~= assignment_attrs(
                    a.subrange(0, k as int),
                ).push(((x.start_idx, x.end_idx), x.value)));
            }
            self.attrs.insert((x.start_idx, x.end_idx), x.value);
            k += 1;
        }
        Ok(())
    }

    /// Hands the whole line to `recognizer` and attaches what it assigns.
    /// An empty line is returned as it is. When the resolver asks for a range
    /// off the line, the line is dropped and that assignment is reported.
    pub fn run<R: Resolver>(self, recognizer: &R) -> (r: Result<Self, InvalidAssignment>)
        requires
            self.wf(),
        ensures
            self.tokens().len() == 0 ==> r is Ok && r->Ok_0.tokens() == self.tokens()
                && r->Ok_0.attrs() == self.attrs(),
            r is Ok ==> {
                let line = r->Ok_0;
                &&& line.wf()
                &&& line.tokens() == self.tokens()
                &&& self.attrs().len() <= line.attrs().len()
                &&& line.attrs().subrange(0, self.attrs().len() as int) == self.attrs()
                &&& forall|k: int|
                    0 <= k < line.attrs().len() ==> valid_range(
                        #[trigger] line.attrs()[k].0,
                        line.tokens().len(),
                    )
            },
            r is Err ==> !valid_range((r->Err_0.start_idx, r->Err_0.end_idx), self.tokens().len()),
    {
        if self.ll_tokens.len() == 0 {
            proof {
                self.lemma_wf_facts();
            }
            assert(self.attrs().subrange(0, self.attrs().len() as int) == self.attrs());
            return Ok(self);
        }
        let assignments = recognizer.go(LLSelection::whole(&self));
        let mut line = self;
        match line.merge_assignments(assignments) {
            Ok(()) => {
                proof {
                    line.lemma_wf_facts();
                }
                assert(line.attrs().subrange(0, self.attrs().len() as int) == self.attrs());
                Ok(line)
            },
            Err(e) => Err(e),
        }
    }

    /// The ranges of type `t` that start at token index `idx`, in insertion order.
    pub fn starting_at(&self, idx: usize, t: AttrType) -> (r: Vec<LRange>)
        requires
            self.wf(),
            idx < self.tokens().len(),
        ensures
            r@ == ranges_of(entries_at(index_entries(self.attrs()), idx as int, false), t),
            forall|m: int| 0 <= m < r@.len() ==> valid_range(#[trigger] r@[m], self.tokens().len()),
    {
        let r = self.attrs.starts_at[idx].get(t);
        proof {
            let idx_e = index_entries(self.attrs());
            let sub = entries_at(idx_e, idx as int, false);
            lemma_index_entries_valid(self.attrs(), self.tokens().len());
            assert forall|k: int| 0 <= k < sub.len() implies idx_e.contains(#[trigger] sub[k]) by {
                lemma_entries_at_contains(idx_e, idx as int, false, sub[k]);
                assert(sub.contains(sub[k]));
            }
            lemma_ranges_of_from(sub, t, self.tokens().len(), idx_e);
        }
        r
    }

    /// The ranges of type `t` that end at token index `idx`, in insertion order.
    pub fn ending_at(&self, idx: usize, t: AttrType) -> (r: Vec<LRange>)
        requires
            self.wf(),
            idx < self.tokens().len(),
        ensures
            r@ == ranges_of(entries_at(index_entries(self.attrs()), idx as int, true), t),
            forall|m: int| 0 <= m < r@.len() ==> valid_range(#[trigger] r@[m], self.tokens().len()),
    {
        let r = self.attrs.ends_at[idx].get(t);
        proof {
            let idx_e = index_entries(self.attrs());
            let sub = entries_at(idx_e, idx as int, true);
            lemma_index_entries_valid(self.attrs(), self.tokens().len());
            assert forall|k: int| 0 <= k < sub.len() implies idx_e.contains(#[trigger] sub[k]) by {
                lemma_entries_at_contains(idx_e, idx as int, true, sub[k]);
                assert(sub.contains(sub[k]));
            }
            lemma_ranges_of_from(sub, t, self.tokens().len(), idx_e);
        }
        r
    }

    /// Every value of type `t` attached to exactly `range`, in insertion order.
    pub fn values_at(&self, t: AttrType, range: LRange) -> (r: Vec<AttrValue>)
        ensures
            r@ == values_of(self.attrs(), t, range),
    {
        let mut out: Vec<AttrValue> = Vec::new();
        let mut k: usize = 0;
        while k < self.attrs.values.len()
            invariant
                k <= self.attrs.values@.len(),
                out@ == values_of(self.attrs.values@.subrange(0, k as int), t, range),
            decreases self.attrs.values@.len() - k,
        {
            let (r, v) = self.attrs.values[k];
            let ghost all = self.attrs.values@;
            assert(all.subrange(0, k + 1).drop_last() == all.subrange(0, k as int));
            if r.0 == range.0 && r.1 == range.1 && v.attr_type() == t {
                out.push(v);
            }
            k += 1;
        }
        assert(self.attrs.values@.subrange(0, self.attrs.values@.len() as int) == self.attrs.values@);
        out
    }

    /// The text of the tokens of `range`; a value token contributes nothing.
    fn span_string(&self, range: LRange) -> (r: String)
        requires
            valid_range(range, self.tokens().len()),
        ensures
            r@ == span_text(self.tokens(), range.0 as int, range.1 as int),
    {
        let n = self.ll_tokens.len();
        let mut text = String::new();
        let mut j: usize = range.0;
        while j <= range.1
            invariant
                n == self.tokens().len(),
                range.0 <= j <= range.1 + 1,
                valid_range(range, self.tokens().len()),
                text@ == span_text(self.tokens(), range.0 as int, j - 1),
            decreases range.1 + 1 - j,
        {
            match &self.ll_tokens[j].token {
                LToken::Text(s, _) => text.append(s.as_str()),
                LToken::Value => {},
            }
            j += 1;
        }
        text
    }

    /// For each range carrying an attribute of type `t`, in insertion order:
    /// the range, its text, and the values of type `t` attached to it.
    pub fn query(&self, t: AttrType) -> (r: Vec<(LRange, String, Vec<AttrValue>)>)
        requires
            self.wf(),
        ensures
            r@.len() == ranges_of(index_entries(self.attrs()), t).len(),
            forall|k: int|
                0 <= k < r@.len() ==> {
                    let range = #[trigger] ranges_of(index_entries(self.attrs()), t)[k];
                    &&& r@[k].0 == range
                    &&& r@[k].1@ == span_text(self.tokens(), range.0 as int, range.1 as int)
                    &&& r@[k].2@ == values_of(self.attrs(), t, range)
                },
    {
        let ranges = self.attrs.ranges.get(t);
        let ghost rs = ranges@;
        proof {
            lemma_index_entries_valid(self.attrs(), self.tokens().len());
            let idx = index_entries(self.attrs());
            lemma_ranges_of_from(idx, t, self.tokens().len(), idx);
        }
        let mut out: Vec<(LRange, String, Vec<AttrValue>)> = Vec::new();
        let mut k: usize = 0;
        while k < ranges.len()
            invariant
                k <= rs.len(),
                rs == ranges@,
                rs == ranges_of(index_entries(self.attrs()), t),
                forall|m: int| 0 <= m < rs.len() ==> valid_range(#[trigger] rs[m], self.tokens().len()),
                out@.len() == k,
                forall|m: int|
                    0 <= m < k ==> {
                        let range = #[trigger] rs[m];
                        &&& out@[m].0 == range
                        &&& out@[m].1@ == span_text(self.tokens(), range.0 as int, range.1 as int)
                        &&& out@[m].2@ == values_of(self.attrs(), t, range)
                    },
            decreases rs.len() - k,
        {
            let range = ranges[k];
            let text = self.span_string(range);
            let values = self.values_at(t, range);
            out.push((range, text, values));
            k += 1;
        }
        out
    }

    /// The matches found by `matcher` from token index `i`, in character
    /// positions; a match whose resulting index is off the line is left out.
    pub fn found_at<Out>(&self, i: usize, found: Vec<(Out, usize)>) -> (r: Vec<LLLineFind<Out>>)
        requires
            i < self.tokens().len(),
        ensures
            r@.len() == kept_matches(found@, self.tokens().len()).len(),
            forall|k: int|
                0 <= k < r@.len() ==> {
                    let m = #[trigger] kept_matches(found@, self.tokens().len())[k];
                    &&& r@[k].start() == self.tokens()[i as int].pos_starts_at
                    &&& r@[k].end() == self.tokens()[m.1 as int].pos_ends_at
                    &&& r@[k].found() == m.0
                },
            r@.map_values(|f: LLLineFind<Out>| f.spec_view()) == finds_from(
                self.tokens(),
                i as int,
                found@,
            ),
    {
        let ghost all = found@;
        let ghost len = self.tokens().len();
        let total = found.len();
        let mut rest = found;
        let mut out: Vec<LLLineFind<Out>> = Vec::new();
        let mut k: usize = 0;
        while rest.len() > 0
            invariant
                i < len,
                len == self.tokens().len(),
                k <= all.len(),
                total == all.len(),
                rest@ == all.subrange(k as int, all.len() as int),
                out@.len() == kept_matches(all.subrange(0, k as int), len).len(),
                forall|m: int|
                    0 <= m < out@.len() ==> {
                        let x = #[trigger] kept_matches(all.subrange(0, k as int), len)[m];
                        &&& out@[m].start() == self.tokens()[i as int].pos_starts_at
                        &&& out@[m].end() == self.tokens()[x.1 as int].pos_ends_at
                        &&& out@[m].found() == x.0
                    },
            decreases rest@.len(),
        {
            let ghost before = kept_matches(all.subrange(0, k as int), len);
            proof {
                assert(all.subrange(0, k + 1).drop_last() == all.subrange(0, k as int));
                assert(all.subrange(0, k + 1).last() == rest@[0]);
            }
            let (value, next_idx) = rest.remove(0);
            if next_idx < self.ll_tokens.len() {
                out.push(
                    LLLineFind {
                        start_pos_at: self.pos_start_at(i),
                        end_pos_at: self.pos_end_at(next_idx),
                        found: value,
                    },
                );
            }
            k += 1;
            assert(rest@ == all.subrange(k as int, all.len() as int));
        }
        assert(all.subrange(0, all.len() as int) == all);
        assert(out@.map_values(|f: LLLineFind<Out>| f.spec_view()) =~= finds_from(
            self.tokens(),
            i as int,
            all,
        ));
        out
    }

    /// Calls `matcher` forwards from every token index in turn, first to last,
    /// and returns its matches in that order, in character positions. A match
    /// whose resulting index is off the line is left out.
    pub fn find<M: XMatch>(&self, matcher: &M) -> (r: Vec<LLLineFind<M::Out>>)
        requires
            self.wf(),
        ensures
            forall|k: int|
                0 <= k < r@.len() ==> is_token_span(self.tokens(), #[trigger] r@[k].start(), r@[k].end()),
            r@.map_values(|f: LLLineFind<M::Out>| f.spec_view()) == finds_upto(
                matcher,
                self,
                self.tokens().len() as int,
            ),
    {
        let mut out: Vec<LLLineFind<M::Out>> = Vec::new();
        let mut i: usize = 0;
        while i < self.ll_tokens.len()
            invariant
                self.wf(),
                i <= self.tokens().len(),
                out@.map_values(|f: LLLineFind<M::Out>| f.spec_view()) == finds_upto(
                    matcher,
                    self,
                    i as int,
                ),
                forall|k: int|
                    0 <= k < out@.len() ==> is_token_span(
                        self.tokens(),
                        #[trigger] out@[k].start(),
                        out@[k].end(),
                    ),
            decreases self.tokens().len() - i,
        {
            let found = matcher.go(i, self);
            let ghost kept = kept_matches(found@, self.tokens().len());
            proof {
                lemma_kept_matches_in_line(found@, self.tokens().len());
            }
            let mut part = self.found_at(i, found);
            proof {
                assert forall|k: int| 0 <= k < part@.len() implies is_token_span(
                    self.tokens(),
                    #[trigger] part@[k].start(),
                    part@[k].end(),
                ) by {
                    let x = kept[k];
                    let tokens = self.tokens();
                    assert(tokens[i as int] == tokens[i as int] && tokens[x.1 as int] == tokens[x.1 as int]);
                }
            }
            let ghost prev = out@;
            let ghost added = part@;
            out.append(&mut part);
            proof {
                assert forall|k: int| 0 <= k < out@.len() implies is_token_span(
                    self.tokens(),
                    #[trigger] out@[k].start(),
                    out@[k].end(),
                ) by {
                    if k >= prev.len() {
                        assert(out@[k] == added[k - prev.len()]);
                    } else {
                        assert(out@[k] == prev[k]);
                    }
                }
                assert(out@.map_values(|f: LLLineFind<M::Out>| f.spec_view()) =~= prev.map_values(
                    |f: LLLineFind<M::Out>| f.spec_view(),
                ) + added.map_values(|f: LLLineFind<M::Out>| f.spec_view()));
            }
            i += 1;
        }
        out
    }

    /// The line's tokens.
    pub fn ll_tokens(&self) -> (r: &[LLToken])
        ensures
            r@ == self.tokens(),
    {
        self.ll_tokens.as_slice()
    }

    /// Goes from a token index to the position where that token ends.
    fn pos_end_at(&self, idx: usize) -> (r: usize)
        requires
            idx < self.tokens().len(),
        ensures
            r == self.tokens()[idx as int].pos_ends_at,
    {
        self.ll_tokens[idx].pos_ends_at
    }

    /// Goes from a token index to the position where that token starts.
    fn pos_start_at(&self, idx: usize) -> (r: usize)
        requires
            idx < self.tokens().len(),
        ensures
            r == self.tokens()[idx as int].pos_starts_at,
    {
        self.ll_tokens[idx].pos_starts_at
    }
}

} // verus!
