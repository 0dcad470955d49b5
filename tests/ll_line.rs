use layered_nlp::{
    AttrEq, AttrType, AttrValue, InvalidAssignment, LLCursorAssignment, LLLine, LLSelection, LLToken, LToken,
    Resolver, TextTag, TypeIdToMany,
};

const KIND: u64 = 7;

#[derive(Clone, Copy, Debug, PartialEq)]
enum Kind {
    Number,
    Other,
}

fn kind_value(k: Kind) -> AttrValue {
    let value = match k {
        Kind::Number => 0,
        Kind::Other => 1,
    };
    AttrValue::Custom { kind: KIND, value }
}

/// Tokens laid end to end, each starting where the previous one ended.
fn make_tokens(parts: &[(Option<&str>, TextTag)]) -> Vec<LLToken> {
    let mut pos = 0;
    let mut out = Vec::new();
    for (idx, (text, tag)) in parts.iter().enumerate() {
        let (token, len) = match text {
            Some(t) => (LToken::Text(t.to_string(), tag.clone()), t.chars().count()),
            None => (LToken::Value, 0),
        };
        out.push(LLToken { token_idx: idx, pos_starts_at: pos, pos_ends_at: pos + len, token });
        pos += len;
    }
    out
}

fn text_line(parts: &[(&str, TextTag)]) -> LLLine {
    let parts: Vec<(Option<&str>, TextTag)> = parts.iter().map(|(t, g)| (Some(*t), *g)).collect();
    LLLine::new(make_tokens(&parts))
}

/// Assigns `Kind::Number` to every natural-number token.
struct NumberResolver;

impl Resolver for NumberResolver {
    fn go(&self, selection: LLSelection<'_>) -> Vec<LLCursorAssignment<AttrValue>> {
        let line = selection.ll_line();
        line.query(AttrType::Tag)
            .into_iter()
            .filter(|(_, _, values)| values.contains(&AttrValue::Tag(TextTag::NATN)))
            .map(|((s, e), _, _)| LLCursorAssignment {
                start_idx: s,
                end_idx: e,
                value: kind_value(Kind::Number),
            })
            .collect()
    }
}

/// Hands back fixed assignments, whatever the line.
struct FixedResolver(Vec<(usize, usize, AttrValue)>);

impl Resolver for FixedResolver {
    fn go(&self, _selection: LLSelection<'_>) -> Vec<LLCursorAssignment<AttrValue>> {
        self.0
            .iter()
            .map(|&(start_idx, end_idx, value)| LLCursorAssignment { start_idx, end_idx, value })
            .collect()
    }
}

/// Assigns a value to the whole selection.
struct WholeResolver;

impl Resolver for WholeResolver {
    fn go(&self, selection: LLSelection<'_>) -> Vec<LLCursorAssignment<AttrValue>> {
        vec![selection.finish_with(kind_value(Kind::Other))]
    }
}

#[test]
fn run_on_empty_line_is_unchanged() {
    let line = LLLine::new(Vec::new()).run(&WholeResolver).unwrap();
    assert_eq!(line.ll_tokens().len(), 0);
    assert!(line.query(AttrType::Char).is_empty());
    assert!(line.query(AttrType::Tag).is_empty());
    assert!(line.query(AttrType::Custom(KIND)).is_empty());
}

#[test]
fn run_assigns_custom_kind_to_number() {
    let line = text_line(&[("7", TextTag::NATN), ("!", TextTag::PUNC)]).run(&NumberResolver).unwrap();
    let found = line.query(AttrType::Custom(KIND));
    assert_eq!(found.len(), 1);
    assert_eq!(found[0].0, (0, 0));
    assert_eq!(found[0].1, "7");
    assert_eq!(found[0].2, vec![kind_value(Kind::Number)]);
}

#[test]
fn find_single_punctuation() {
    let line = text_line(&[("a", TextTag::WORD), (",", TextTag::PUNC), ("b", TextTag::WORD)]);
    let found = line.find(&AttrEq { value: AttrValue::Tag(TextTag::PUNC) });
    assert_eq!(found.len(), 1);
    assert_eq!(found[0].range(), (1, 2));
    assert_eq!(*found[0].attr(), AttrValue::Tag(TextTag::PUNC));
}

#[test]
fn find_reports_character_positions() {
    let line = text_line(&[("hello", TextTag::WORD), (" ", TextTag::SPACE), ("world", TextTag::WORD)]);
    let found = line.find(&AttrEq { value: AttrValue::Tag(TextTag::WORD) });
    let ranges: Vec<(usize, usize)> = found.iter().map(|f| f.range()).collect();
    assert_eq!(ranges, vec![(0, 5), (6, 11)]);
}

#[test]
fn find_with_no_match_is_empty() {
    let line = text_line(&[("a", TextTag::WORD), ("b", TextTag::WORD)]);
    assert!(line.find(&AttrEq { value: AttrValue::Tag(TextTag::NATN) }).is_empty());
}

#[test]
fn found_at_drops_matches_off_the_line() {
    let line = text_line(&[("ab", TextTag::WORD), ("c", TextTag::WORD), ("de", TextTag::WORD)]);
    let found = line.found_at(1, vec![(1u8, 2), (2u8, 1000), (3u8, 1)]);
    let got: Vec<((usize, usize), u8)> = found.iter().map(|f| (f.range(), *f.attr())).collect();
    assert_eq!(got, vec![((2, 5), 1), ((2, 3), 3)]);
}

#[test]
fn find_keeps_ambiguous_matches_in_index_order() {
    let mut line = text_line(&[("ab", TextTag::WORD), ("c", TextTag::WORD), ("de", TextTag::WORD)]);
    let v = kind_value(Kind::Number);
    line.add_any_attrs(0, 0, vec![v]);
    line.add_any_attrs(0, 2, vec![v]);
    line.add_any_attrs(1, 1, vec![v]);
    let found = line.find(&AttrEq { value: v });
    let ranges: Vec<(usize, usize)> = found.iter().map(|f| f.range()).collect();
    assert_eq!(ranges, vec![(0, 2), (0, 5), (2, 3)]);
}

#[test]
fn construction_annotates_chars_and_tags() {
    let line = text_line(&[("a", TextTag::WORD), ("bc", TextTag::WORD), ("!", TextTag::PUNC)]);
    let chars = line.query(AttrType::Char);
    assert_eq!(chars.len(), 2);
    assert_eq!(chars[0], ((0, 0), "a".to_string(), vec![AttrValue::Char('a')]));
    assert_eq!(chars[1], ((2, 2), "!".to_string(), vec![AttrValue::Char('!')]));
    let tags = line.query(AttrType::Tag);
    assert_eq!(tags.len(), 3);
    assert_eq!(tags[1], ((1, 1), "bc".to_string(), vec![AttrValue::Tag(TextTag::WORD)]));
    assert_eq!(tags[2].2, vec![AttrValue::Tag(TextTag::PUNC)]);
}

#[test]
fn construction_counts_characters_not_bytes() {
    let line = text_line(&[("é", TextTag::WORD), ("ab", TextTag::WORD)]);
    let chars = line.query(AttrType::Char);
    assert_eq!(chars.len(), 1);
    assert_eq!(chars[0].2, vec![AttrValue::Char('é')]);
}

#[test]
fn value_tokens_get_no_attributes_and_no_text() {
    let parts = [(Some("a"), TextTag::WORD), (None, TextTag::WORD), (Some("b"), TextTag::WORD)];
    let mut line = LLLine::new(make_tokens(&parts));
    assert_eq!(line.query(AttrType::Tag).len(), 2);
    assert!(line.values_at(AttrType::Tag, (1, 1)).is_empty());
    line.add_any_attrs(0, 2, vec![kind_value(Kind::Other)]);
    let found = line.query(AttrType::Custom(KIND));
    assert_eq!(found, vec![((0, 2), "ab".to_string(), vec![kind_value(Kind::Other)])]);
}

#[test]
fn repeated_insertion_keeps_one_index_entry() {
    let mut line = text_line(&[("1", TextTag::NATN), ("2", TextTag::NATN)]);
    line.add_any_attrs(0, 1, vec![kind_value(Kind::Number)]);
    line.add_any_attrs(0, 1, vec![kind_value(Kind::Other), kind_value(Kind::Number)]);
    let found = line.query(AttrType::Custom(KIND));
    assert_eq!(found.len(), 1);
    assert_eq!(
        found[0].2,
        vec![kind_value(Kind::Number), kind_value(Kind::Other), kind_value(Kind::Number)]
    );
    assert_eq!(line.starting_at(0, AttrType::Custom(KIND)), vec![(0, 1)]);
    assert_eq!(line.ending_at(1, AttrType::Custom(KIND)), vec![(0, 1)]);
}

#[test]
fn indexes_agree_after_merging() {
    let line = text_line(&[("x", TextTag::WORD), ("y", TextTag::WORD), ("z", TextTag::WORD)])
        .run(&FixedResolver(vec![(0, 2, kind_value(Kind::Other)), (1, 2, kind_value(Kind::Number))]))
        .unwrap();
    let t = AttrType::Custom(KIND);
    let ranges: Vec<(usize, usize)> = line.query(t).into_iter().map(|(r, _, _)| r).collect();
    assert_eq!(ranges, vec![(0, 2), (1, 2)]);
    assert_eq!(line.starting_at(0, t), vec![(0, 2)]);
    assert_eq!(line.starting_at(1, t), vec![(1, 2)]);
    assert!(line.starting_at(2, t).is_empty());
    assert_eq!(line.ending_at(2, t), vec![(0, 2), (1, 2)]);
    assert!(line.ending_at(0, t).is_empty());
    for r in ranges {
        assert!(!line.values_at(t, r).is_empty());
    }
}

#[test]
fn assignment_off_the_line_is_reported() {
    let line = text_line(&[("7", TextTag::NATN), ("!", TextTag::PUNC)]);
    let result = line.run(&FixedResolver(vec![
        (1, 1, kind_value(Kind::Other)),
        (0, 5, kind_value(Kind::Number)),
        (1, 0, kind_value(Kind::Number)),
    ]));
    assert_eq!(result.err(), Some(InvalidAssignment { index: 1, start_idx: 0, end_idx: 5 }));
}

#[test]
fn reversed_assignment_is_reported() {
    let line = text_line(&[("7", TextTag::NATN), ("!", TextTag::PUNC)]);
    let result = line.run(&FixedResolver(vec![(1, 0, kind_value(Kind::Number))]));
    assert_eq!(result.err(), Some(InvalidAssignment { index: 0, start_idx: 1, end_idx: 0 }));
}

#[test]
fn merging_nothing_off_the_line_keeps_the_line() {
    let mut line = text_line(&[("7", TextTag::NATN)]);
    let bad = vec![LLCursorAssignment { start_idx: 0, end_idx: 1, value: kind_value(Kind::Other) }];
    assert!(line.merge_assignments(bad).is_err());
    assert!(line.query(AttrType::Custom(KIND)).is_empty());
    assert_eq!(line.query(AttrType::Tag).len(), 1);
}

#[test]
fn later_assignments_accumulate() {
    let line = text_line(&[("7", TextTag::NATN)])
        .run(&FixedResolver(vec![(0, 0, kind_value(Kind::Number))]))
        .unwrap()
        .run(&FixedResolver(vec![(0, 0, kind_value(Kind::Other))]))
        .unwrap();
    let found = line.query(AttrType::Custom(KIND));
    assert_eq!(found.len(), 1);
    assert_eq!(found[0].2, vec![kind_value(Kind::Number), kind_value(Kind::Other)]);
}

#[test]
fn whole_selection_assignment_spans_the_line() {
    let parts = [("a", TextTag::WORD), (" ", TextTag::SPACE), ("b", TextTag::WORD)];
    let line = text_line(&parts).run(&WholeResolver).unwrap();
    let found = line.query(AttrType::Custom(KIND));
    assert_eq!(found, vec![((0, 2), "a b".to_string(), vec![kind_value(Kind::Other)])]);
}

#[test]
fn query_of_absent_type_is_empty() {
    let line = text_line(&[("a", TextTag::WORD)]);
    assert!(line.query(AttrType::Custom(99)).is_empty());
    assert!(line.values_at(AttrType::Char, (0, 0)).len() == 1);
}

#[test]
fn token_accessors() {
    let line = text_line(&[("ab", TextTag::WORD)]);
    match line.ll_tokens()[0].get_token() {
        LToken::Text(s, tag) => {
            assert_eq!(s, "ab");
            assert_eq!(*tag, TextTag::WORD);
        }
        LToken::Value => panic!("expected a text token"),
    }
}

#[test]
fn type_index_is_distinct_and_ordered() {
    let mut index = TypeIdToMany::new();
    index.insert_distinct(AttrType::Tag, (1, 1));
    index.insert_distinct(AttrType::Char, (0, 0));
    index.insert_distinct(AttrType::Tag, (0, 0));
    index.insert_distinct(AttrType::Tag, (1, 1));
    assert_eq!(index.get(AttrType::Tag), vec![(1, 1), (0, 0)]);
    assert_eq!(index.get(AttrType::Char), vec![(0, 0)]);
    assert!(index.get(AttrType::Custom(1)).is_empty());
    assert!(index.contains(AttrType::Char, (0, 0)));
    assert!(!index.contains(AttrType::Char, (1, 1)));
}
