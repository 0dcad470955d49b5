use vstd::prelude::*;

use crate::attr::{type_of, AttrType, AttrValue};
use crate::ll_line::{
    auto_attrs, entries_at, index_entries, lemma_entries_at_contains, lemma_push_contains,
    text_attrs, token_attrs, valid_range, values_of, LLLine,
};
use crate::token::{LLToken, LRange, LToken, TextTag};
use crate::type_id_to_many::ranges_of;

verus! {

/// The index holds an entry exactly when some attribute has that type and range.
pub proof fn lemma_index_entries_contains(attrs: Seq<(LRange, AttrValue)>, e: (AttrType, LRange))
    ensures
        index_entries(attrs).contains(e) <==> exists|k: int|
            0 <= k < attrs.len() && (type_of(#[trigger] attrs[k].1), attrs[k].0) == e,
    decreases attrs.len(),
{
    if attrs.len() > 0 {
        let prev = attrs.drop_last();
        let last = (type_of(attrs.last().1), attrs.last().0);
        lemma_index_entries_contains(prev, e);
        lemma_push_contains(index_entries(prev), last, e);
        if exists|k: int| 0 <= k < attrs.len() && (type_of(#[trigger] attrs[k].1), attrs[k].0) == e {
            let k = choose|k: int|
                0 <= k < attrs.len() && (type_of(#[trigger] attrs[k].1), attrs[k].0) == e;
            if k < prev.len() {
                assert(prev[k] == attrs[k]);
            }
        }
        if exists|k: int| 0 <= k < prev.len() && (type_of(#[trigger] prev[k].1), prev[k].0) == e {
            let k = choose|k: int|
                0 <= k < prev.len() && (type_of(#[trigger] prev[k].1), prev[k].0) == e;
            assert(attrs[k] == prev[k]);
        }
        if last == e {
            assert(attrs[attrs.len() - 1] == attrs.last());
        }
    }
}

/// The index never records one `(type, range)` pair twice.
pub proof fn lemma_index_entries_distinct(attrs: Seq<(LRange, AttrValue)>)
    ensures
        index_entries(attrs).no_duplicates(),
    decreases attrs.len(),
{
    if attrs.len() > 0 {
        lemma_index_entries_distinct(attrs.drop_last());
    }
}

/// A type's ranges are listed without repetition.
pub proof fn lemma_ranges_of_distinct(entries: Seq<(AttrType, LRange)>, t: AttrType)
    requires
        entries.no_duplicates(),
    ensures
        ranges_of(entries, t).no_duplicates(),
    decreases entries.len(),
{
    if entries.len() > 0 {
        let prev = entries.drop_last();
        assert forall|a: int, b: int| 0 <= a < b < prev.len() implies prev[a] != prev[b] by {
            assert(prev[a] == entries[a] && prev[b] == entries[b]);
        }
        lemma_ranges_of_distinct(prev, t);
        let last = entries.last();
        if last.0 == t {
            lemma_ranges_of_contains(prev, t, last.1);
            if prev.contains((t, last.1)) {
                let k = choose|k: int| 0 <= k < prev.len() && prev[k] == (t, last.1);
                assert(entries[k] == entries[entries.len() - 1]);
            }
            let pr = ranges_of(prev, t);
            let nr = pr.push(last.1);
            assert forall|a: int, b: int| 0 <= a < b < nr.len() implies nr[a] != nr[b] by {
                if b == pr.len() {
                    assert(nr[a] == pr[a]);
                    assert(pr.contains(pr[a]));
                }
            }
        }
    }
}

/// Attaching a second value of the same type to the same range adds no index
/// entry: the index after both insertions equals the index after the first,
/// it holds the entry exactly once, the type lists the range once, and both
/// values are kept on the range in insertion order.
pub proof fn lemma_insert_idempotent(
    attrs: Seq<(LRange, AttrValue)>,
    range: LRange,
    first: AttrValue,
    second: AttrValue,
)
    requires
        type_of(first) == type_of(second),
    ensures
        index_entries(attrs.push((range, first)).push((range, second))) == index_entries(
            attrs.push((range, first)),
        ),
        index_entries(attrs.push((range, first))).contains((type_of(first), range)),
        index_entries(attrs.push((range, first)).push((range, second))).no_duplicates(),
        ranges_of(
            index_entries(attrs.push((range, first)).push((range, second))),
            type_of(first),
        ).no_duplicates(),
        ranges_of(
            index_entries(attrs.push((range, first)).push((range, second))),
            type_of(first),
        ).contains(range),
        values_of(attrs.push((range, first)).push((range, second)), type_of(first), range) == values_of(
            attrs,
            type_of(first),
            range,
        ).push(first).push(second),
        forall|i: int, at_end: bool|
            #![trigger entries_at(index_entries(attrs.push((range, first)).push((range, second))), i, at_end)]
            entries_at(index_entries(attrs.push((range, first)).push((range, second))), i, at_end)
                == entries_at(index_entries(attrs.push((range, first))), i, at_end),
{
    let once = attrs.push((range, first));
    let e = (type_of(first), range);
    assert(once.drop_last() == attrs);
    assert(once.push((range, second)).drop_last() == once);
    lemma_push_contains(index_entries(attrs), e, e);
    lemma_index_entries_distinct(once.push((range, second)));
    let twice = once.push((range, second));
    assert(twice.last() == (range, second));
    assert(once.last() == (range, first));
    assert(values_of(twice, type_of(first), range) == values_of(once, type_of(first), range).push(
        second,
    ));
    assert(values_of(once, type_of(first), range) == values_of(attrs, type_of(first), range).push(
        first,
    ));
    lemma_ranges_of_distinct(index_entries(once.push((range, second))), type_of(first));
    lemma_ranges_of_contains(index_entries(once.push((range, second))), type_of(first), range);
}

/// A range is listed under a type exactly when the index holds that pair.
pub proof fn lemma_ranges_of_contains(entries: Seq<(AttrType, LRange)>, t: AttrType, r: LRange)
    ensures
        ranges_of(entries, t).contains(r) <==> entries.contains((t, r)),
    decreases entries.len(),
{
    if entries.len() > 0 {
        let prev = entries.drop_last();
        lemma_ranges_of_contains(prev, t, r);
        lemma_push_contains(prev, entries.last(), (t, r));
        lemma_push_contains(ranges_of(prev, t), entries.last().1, r);
        assert(entries == prev.push(entries.last()));
    }
}

/// A value attached to a range is among the values of its type on that range.
pub proof fn lemma_values_of_contains(attrs: Seq<(LRange, AttrValue)>, r: LRange, v: AttrValue)
    requires
        attrs.contains((r, v)),
    ensures
        values_of(attrs, type_of(v), r).contains(v),
    decreases attrs.len(),
{
    let prev = attrs.drop_last();
    let last = attrs.last();
    let pv = values_of(prev, type_of(v), r);
    lemma_push_contains(prev, last, (r, v));
    assert(attrs == prev.push(last));
    lemma_push_contains(pv, last.1, v);
    if prev.contains((r, v)) {
        lemma_values_of_contains(prev, r, v);
    } else {
        assert(last == (r, v));
        assert(values_of(attrs, type_of(v), r) == pv.push(v));
    }
}

proof fn lemma_auto_attrs_contains(tokens: Seq<LLToken>, i: int, x: (LRange, AttrValue))
    requires
        0 <= i < tokens.len(),
        tokens.len() <= usize::MAX,
        token_attrs(tokens[i].token, i as usize).contains(x),
    ensures
        auto_attrs(tokens).contains(x),
    decreases tokens.len(),
{
    let prev = tokens.drop_last();
    let a = auto_attrs(prev);
    let b = token_attrs(tokens.last().token, (tokens.len() - 1) as usize);
    let ta = token_attrs(tokens[i].token, i as usize);
    let k = choose|k: int| 0 <= k < ta.len() && #[trigger] ta[k] == x;
    if i < tokens.len() - 1 {
        assert(prev[i] == tokens[i]);
        lemma_auto_attrs_contains(prev, i, x);
        let j = choose|j: int| 0 <= j < a.len() && a[j] == x;
        assert((a + b)[j] == x);
    } else {
        assert((a + b)[a.len() + k] == x);
    }
}

/// What a line's query for type `t` shows on range `r` includes the value `v`.
pub open spec fn queryable(attrs: Seq<(LRange, AttrValue)>, r: LRange, v: AttrValue) -> bool {
    &&& ranges_of(index_entries(attrs), type_of(v)).contains(r)
    &&& values_of(attrs, type_of(v), r).contains(v)
}

proof fn lemma_queryable_from_auto(tokens: Seq<LLToken>, i: int, x: (LRange, AttrValue))
    requires
        0 <= i < tokens.len(),
        tokens.len() <= usize::MAX,
        token_attrs(tokens[i].token, i as usize).contains(x),
    ensures
        queryable(auto_attrs(tokens), x.0, x.1),
{
    let attrs = auto_attrs(tokens);
    lemma_auto_attrs_contains(tokens, i, x);
    let j = choose|j: int| 0 <= j < attrs.len() && attrs[j] == x;
    lemma_index_entries_contains(attrs, (type_of(x.1), x.0));
    assert((type_of(attrs[j].1), attrs[j].0) == (type_of(x.1), x.0));
    lemma_ranges_of_contains(index_entries(attrs), type_of(x.1), x.0);
    lemma_values_of_contains(attrs, x.0, x.1);
}

proof fn lemma_text_attrs_one(text: Seq<char>, tag: TextTag, i: usize, c: char)
    requires
        text.len() == 1,
        text[0] == c,
    ensures
        text_attrs(text, tag, i).contains(((i, i), AttrValue::Char(c))),
        text_attrs(text, tag, i).contains(((i, i), AttrValue::Tag(tag))),
{
    let ta = text_attrs(text, tag, i);
    assert(ta[0] == ((i, i), AttrValue::Char(c)));
    assert(ta[1] == ((i, i), AttrValue::Tag(tag)));
}

/// When token `i` is a text token whose text is the single character `c`,
/// both `c` and the token's tag are queryable on `(i, i)`.
pub open spec fn single_char_queryable(tokens: Seq<LLToken>, i: int, c: char) -> bool {
    let r = (i as usize, i as usize);
    match tokens[i].token {
        LToken::Text(s, tag) => s@.len() == 1 && s@[0] == c ==> queryable(
            auto_attrs(tokens),
            r,
            AttrValue::Char(c),
        ) && queryable(auto_attrs(tokens), r, AttrValue::Tag(tag)),
        LToken::Value => true,
    }
}

/// Right after construction, every text token's tag can be queried on its
/// own index; when its text is the single character `c`, so can `c`.
pub proof fn lemma_auto_annotation_queryable(tokens: Seq<LLToken>, i: int)
    requires
        0 <= i < tokens.len(),
        tokens.len() <= usize::MAX,
    ensures
        tokens[i].token is Text && tokens[i].token->Text_0@.len() != 1 ==> queryable(
            auto_attrs(tokens),
            (i as usize, i as usize),
            AttrValue::Tag(tokens[i].token->Text_1),
        ),
        forall|c: char| #[trigger] single_char_queryable(tokens, i, c),
{
    let r: LRange = (i as usize, i as usize);
    if let LToken::Text(s, tag) = tokens[i].token {
        let ta = token_attrs(tokens[i].token, i as usize);
        let x: (LRange, AttrValue) = (r, AttrValue::Tag(tag));
        assert(ta == text_attrs(s@, tag, i as usize));
        if s@.len() != 1 {
            assert(ta[0] == x);
            lemma_queryable_from_auto(tokens, i, x);
        }
        assert forall|c: char| #[trigger] single_char_queryable(tokens, i, c) by {
            if s@.len() == 1 && s@[0] == c {
                lemma_text_attrs_one(s@, tag, i as usize, c);
                lemma_queryable_from_auto(tokens, i, x);
                lemma_queryable_from_auto(tokens, i, (r, AttrValue::Char(c)));
            }
        }
    }
}

/// On a well-formed line the four indexes agree: a `(type, range)` pair is in
/// the global index exactly when some attribute of that type sits on that
/// range, and then also in the index of its start token and of its end token;
/// those two indexes hold nothing else.
pub proof fn lemma_consistency(line: &LLLine)
    requires
        line.wf(),
    ensures
        forall|t: AttrType, r: LRange|
            #[trigger] line.ranges_index().contains((t, r)) <==> exists|k: int|
                0 <= k < line.attrs().len() && (type_of(#[trigger] line.attrs()[k].1), line.attrs()[k].0)
                    == (t, r),
        forall|t: AttrType, r: LRange|
            #[trigger] line.ranges_index().contains((t, r)) ==> {
                &&& valid_range(r, line.tokens().len())
                &&& line.starts_index(r.0 as int).contains((t, r))
                &&& line.ends_index(r.1 as int).contains((t, r))
            },
        forall|i: int, e: (AttrType, LRange)|
            0 <= i < line.tokens().len() && #[trigger] line.starts_index(i).contains(e) ==> e.1.0 == i
                && line.ranges_index().contains(e),
        forall|i: int, e: (AttrType, LRange)|
            0 <= i < line.tokens().len() && #[trigger] line.ends_index(i).contains(e) ==> e.1.1 == i
                && line.ranges_index().contains(e),
{
    line.lemma_wf_facts();
    let attrs = line.attrs();
    let idx = index_entries(attrs);
    assert forall|t: AttrType, r: LRange| #[trigger] line.ranges_index().contains((t, r)) <==> exists|k: int|
        0 <= k < attrs.len() && (type_of(#[trigger] attrs[k].1), attrs[k].0) == (t, r) by {
        lemma_index_entries_contains(attrs, (t, r));
    }
    assert forall|t: AttrType, r: LRange| #[trigger] line.ranges_index().contains((t, r)) implies {
        &&& valid_range(r, line.tokens().len())
        &&& line.starts_index(r.0 as int).contains((t, r))
        &&& line.ends_index(r.1 as int).contains((t, r))
    } by {
        lemma_index_entries_contains(attrs, (t, r));
        let k = choose|k: int| 0 <= k < attrs.len() && (type_of(#[trigger] attrs[k].1), attrs[k].0) == (t, r);
        assert(valid_range(attrs[k].0, line.tokens().len()));
        lemma_entries_at_contains(idx, r.0 as int, false, (t, r));
        lemma_entries_at_contains(idx, r.1 as int, true, (t, r));
    }
    assert forall|i: int, e: (AttrType, LRange)|
        0 <= i < line.tokens().len() && #[trigger] line.starts_index(i).contains(e) implies e.1.0 == i
            && line.ranges_index().contains(e) by {
        lemma_entries_at_contains(idx, i, false, e);
    }
    assert forall|i: int, e: (AttrType, LRange)|
        0 <= i < line.tokens().len() && #[trigger] line.ends_index(i).contains(e) implies e.1.1 == i
            && line.ranges_index().contains(e) by {
        lemma_entries_at_contains(idx, i, true, e);
    }
}

} // verus!
