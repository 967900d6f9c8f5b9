//! The crate-level laws: facts that relate the serializer, the parser and
//! the builders to one another, stated over the same specification
//! functions their contracts use and proved once and for all.

use vstd::prelude::*;
use crate::bytes::{
    drop_empty, is_letter, is_letter_or_digit, is_printable, is_uppercase_letter, join_bytes,
    split_bytes,
};
use crate::grouped::{group_find, group_insert, lww_insert, GroupedModel, TagMapModel};
use crate::header::comment_line;
use crate::parser::{
    is_record_type_field, is_tag_field, parse_header, parse_line, parse_lines, parse_tag_fields,
    rec_type_of, tag_of, value_of,
};
use crate::record::{record_bytes, tags_bytes};
use crate::{AT_SIGN, COLON, NEWLINE, TAB};

verus! {

/// A tag as the builder demands it: two bytes, a letter then a letter or
/// digit (every tag the builder's callers use, `SN`, `LN`, `VN`, ..., has
/// this shape, which is what the parser accepts).
pub open spec fn wf_tag(tag: Seq<u8>) -> bool {
    tag.len() == 2 && is_letter(tag[0]) && is_letter_or_digit(tag[1])
}

/// A value the grammar can carry: one or more printable ASCII bytes.
pub open spec fn wf_value(value: Seq<u8>) -> bool {
    value.len() > 0 && forall|j: int| 0 <= j < value.len() ==> is_printable(value[j])
}

/// The stored record-type field of a builder: `@` and two uppercase
/// letters.
pub open spec fn wf_rec_type(rt: Seq<u8>) -> bool {
    rt.len() == 3 && rt[0] == AT_SIGN && is_uppercase_letter(rt[1]) && is_uppercase_letter(rt[2])
}

/// An ordered tag list folded into a mapping, last write winning: the
/// grouped view the parser derives from a record's fields.
pub open spec fn tags_folded(tags: Seq<(Seq<u8>, Seq<u8>)>, acc: TagMapModel) -> TagMapModel
    decreases tags.len(),
{
    if tags.len() == 0 {
        acc
    } else {
        tags_folded(tags.drop_first(), lww_insert(acc, tags[0].0, tags[0].1))
    }
}

/// The serialized fields of a tag list, one `TAG:VALUE` field per pair.
pub open spec fn tag_fields(tags: Seq<(Seq<u8>, Seq<u8>)>) -> Seq<Seq<u8>> {
    Seq::new(tags.len(), |i: int| tags[i].0 + seq![COLON] + tags[i].1)
}

/// A serialized record line is its fields joined with tabs.
pub proof fn lemma_record_bytes_join(rt: Seq<u8>, tags: Seq<(Seq<u8>, Seq<u8>)>)
    ensures
        record_bytes(rt, tags) == join_bytes(seq![rt] + tag_fields(tags), TAB),
    decreases tags.len(),
{
    if tags.len() == 0 {
        assert(seq![rt] + tag_fields(tags) =~= seq![rt]);
        assert(rt + tags_bytes(tags) =~= rt);
    } else {
        lemma_record_bytes_join(rt, tags.drop_last());
        let all = seq![rt] + tag_fields(tags);
        let prev = seq![rt] + tag_fields(tags.drop_last());
        assert(all.drop_last() =~= prev);
        assert(all.last() == tags.last().0 + seq![COLON] + tags.last().1);
        assert(all.len() >= 2);
        assert(join_bytes(all, TAB) == join_bytes(prev, TAB).push(TAB) + all.last());
        assert(rt + tags_bytes(tags) =~= (rt + tags_bytes(tags.drop_last())).push(TAB) + (
        tags.last().0 + seq![COLON] + tags.last().1));
    }
}

/// Well-formed tag fields all parse, and fold into the last-write-wins
/// mapping of the pairs they were serialized from.
pub proof fn lemma_tag_fields_parse(tags: Seq<(Seq<u8>, Seq<u8>)>, acc: TagMapModel)
    requires
        forall|i: int|
            0 <= i < tags.len() ==> wf_tag(#[trigger] tags[i].0) && wf_value(tags[i].1),
    ensures
        parse_tag_fields(tag_fields(tags), acc) == Some(tags_folded(tags, acc)),
    decreases tags.len(),
{
    if tags.len() == 0 {
        assert(tag_fields(tags) =~= Seq::<Seq<u8>>::empty());
    } else {
        let f0 = tag_fields(tags)[0];
        assert(f0 == tags[0].0 + seq![COLON] + tags[0].1);
        assert(f0.len() == 3 + tags[0].1.len());
        assert(f0[0] == tags[0].0[0]);
        assert(f0[1] == tags[0].0[1]);
        assert(f0[2] == COLON);
        assert forall|j: int| 3 <= j < f0.len() implies is_printable(f0[j]) by {
            assert(f0[j] == tags[0].1[j - 3]);
        }
        assert(is_tag_field(f0));
        assert(tag_of(f0) =~= tags[0].0);
        assert(value_of(f0) =~= tags[0].1);
        assert forall|i: int|
            0 <= i < tags.drop_first().len() implies wf_tag(
            #[trigger] tags.drop_first()[i].0,
        ) && wf_value(tags.drop_first()[i].1) by {
            assert(tags.drop_first()[i] == tags[i + 1]);
        }
        lemma_tag_fields_parse(tags.drop_first(), lww_insert(acc, tags[0].0, tags[0].1));
        assert(tag_fields(tags).drop_first() =~= tag_fields(tags.drop_first()));
    }
}

/// A line serialized by the builder from a well-formed record type and
/// well-formed tags parses back to exactly that record type and the
/// last-write-wins folding of those tags.
pub proof fn lemma_record_line_parses(rt: Seq<u8>, tags: Seq<(Seq<u8>, Seq<u8>)>)
    requires
        wf_rec_type(rt),
        forall|i: int|
            0 <= i < tags.len() ==> wf_tag(#[trigger] tags[i].0) && wf_value(tags[i].1),
    ensures
        parse_line(record_bytes(rt, tags)) == Some(
            (rt.subrange(1, 3), tags_folded(tags, Seq::<(Seq<u8>, Seq<u8>)>::empty())),
        ),
        record_bytes(rt, tags).len() > 0,
        forall|j: int| 0 <= j < record_bytes(rt, tags).len() ==> record_bytes(rt, tags)[j]
            != NEWLINE,
{
    let fields = seq![rt] + tag_fields(tags);
    lemma_record_bytes_join(rt, tags);
    assert(fields[0] == rt);
    assert forall|i: int, j: int|
        0 <= i < fields.len() && 0 <= j < fields[i].len() implies fields[i][j] != TAB
        && fields[i][j] != NEWLINE by {
        if i == 0 {
            assert(fields[0] == rt);
        } else {
            let f = tags[i - 1];
            assert(fields[i] == f.0 + seq![COLON] + f.1);
            if j < 2 {
                assert(fields[i][j] == f.0[j]);
            } else if j == 2 {
                assert(fields[i][j] == COLON);
            } else {
                assert(fields[i][j] == f.1[j - 3]);
            }
        }
    }
    assert forall|i: int| 0 <= i < fields.len() implies (#[trigger] fields[i]).len() > 0 by {
        if i > 0 {
            assert(fields[i] == tags[i - 1].0 + seq![COLON] + tags[i - 1].1);
        }
    }
    lemma_split_join(fields, TAB);
    lemma_drop_empty_id(fields);
    assert(is_record_type_field(fields[0]));
    assert(rec_type_of(rt) == rt.subrange(1, 3));
    assert(fields.drop_first() =~= tag_fields(tags));
    lemma_tag_fields_parse(tags, Seq::<(Seq<u8>, Seq<u8>)>::empty());
    let line = record_bytes(rt, tags);
    assert(line.len() > 0) by {
        assert(line == join_bytes(fields, TAB));
        if tags.len() == 0 {
            assert(line =~= rt + tags_bytes(tags));
        }
    }
    assert forall|j: int| 0 <= j < line.len() implies line[j] != NEWLINE by {
        lemma_join_bytes_bytes(fields, TAB, j);
    }
}

/// Every byte of a join is a separator or a byte of some line.
proof fn lemma_join_bytes_bytes(lines: Seq<Seq<u8>>, sep: u8, j: int)
    requires
        0 <= j < join_bytes(lines, sep).len(),
    ensures
        join_bytes(lines, sep)[j] == sep || exists|i: int, k: int|
            0 <= i < lines.len() && 0 <= k < lines[i].len() && join_bytes(lines, sep)[j]
                == lines[i][k],
    decreases lines.len(),
{
    if lines.len() == 0 {
    } else if lines.len() == 1 {
        assert(join_bytes(lines, sep)[j] == lines[0][j]);
    } else {
        let front = join_bytes(lines.drop_last(), sep);
        if j < front.len() {
            lemma_join_bytes_bytes(lines.drop_last(), sep, j);
            assert forall|i: int, k: int|
                0 <= i < lines.drop_last().len() && 0 <= k < lines.drop_last()[i].len()
                    && front[j] == lines.drop_last()[i][k] implies 0 <= i < lines.len() && 0 <= k
                < lines[i].len() && join_bytes(lines, sep)[j] == lines[i][k] by {
                assert(lines.drop_last()[i] == lines[i]);
            }
        } else if j == front.len() {
            assert(join_bytes(lines, sep)[j] == sep);
        } else {
            let k = j - front.len() - 1;
            assert(join_bytes(lines, sep)[j] == lines.last()[k]);
            assert(lines.last() == lines[lines.len() - 1]);
        }
    }
}

/// A comment line parses: its key is `CO`, and its mapping is empty for an
/// empty comment, or the single pair of a comment that is itself one
/// well-shaped `TAG:VALUE` field.  (A comment of any other shape makes the
/// whole header unparseable, as the grammar has no comment production.)
pub proof fn lemma_comment_line_parses(text: Seq<u8>)
    requires
        text.len() == 0 || is_tag_field(text),
    ensures
        parse_line(comment_line(text)) == Some(
            (
                seq![67u8, 79u8],
                if text.len() == 0 {
                    Seq::<(Seq<u8>, Seq<u8>)>::empty()
                } else {
                    lww_insert(
                        Seq::<(Seq<u8>, Seq<u8>)>::empty(),
                        tag_of(text),
                        value_of(text),
                    )
                },
            ),
        ),
        comment_line(text).len() > 0,
        (forall|j: int| 0 <= j < text.len() ==> text[j] != NEWLINE) ==> (forall|j: int|
            0 <= j < comment_line(text).len() ==> comment_line(text)[j] != NEWLINE),
{
    let rt = seq![AT_SIGN, 67u8, 79u8];
    assert(comment_line(text) =~= rt + seq![TAB] + text);
    if forall|j: int| 0 <= j < text.len() ==> text[j] != NEWLINE {
        assert forall|j: int| 0 <= j < comment_line(text).len() implies comment_line(text)[j]
            != NEWLINE by {
            if j >= 4 {
                assert(comment_line(text)[j] == text[j - 4]);
            }
        }
    }
    lemma_split_concat(rt, text, TAB);
    lemma_split_of_sep_free(rt, TAB);
    assert(is_record_type_field(rt));
    assert(rec_type_of(rt) =~= seq![67u8, 79u8]);
    if text.len() == 0 {
        assert(split_bytes(text, TAB) == seq![Seq::<u8>::empty()]);
        let segs = seq![rt] + seq![Seq::<u8>::empty()];
        assert(split_bytes(comment_line(text), TAB) == segs);
        assert(segs.last() =~= Seq::<u8>::empty());
        assert(segs.drop_last() =~= seq![rt]);
        assert(seq![rt].drop_last() =~= Seq::<Seq<u8>>::empty());
        assert(drop_empty(Seq::<Seq<u8>>::empty()) == Seq::<Seq<u8>>::empty());
        assert(drop_empty(seq![rt]) =~= seq![rt]);
        assert(drop_empty(segs) =~= seq![rt]);
        assert(seq![rt].drop_first() =~= Seq::<Seq<u8>>::empty());
        assert(parse_tag_fields(
            Seq::<Seq<u8>>::empty(),
            Seq::<(Seq<u8>, Seq<u8>)>::empty(),
        ) == Some(Seq::<(Seq<u8>, Seq<u8>)>::empty()));
    } else {
        assert forall|j: int| 0 <= j < text.len() implies text[j] != TAB by {
            if j >= 3 {
                assert(is_printable(text[j]));
            } else if j == 2 {
                assert(text[j] == COLON);
            } else {
                assert(is_letter(text[0]) && is_letter_or_digit(text[1]));
            }
        }
        lemma_split_of_sep_free(text, TAB);
        let segs = seq![rt] + seq![text];
        assert(split_bytes(comment_line(text), TAB) == segs);
        assert forall|i: int| 0 <= i < segs.len() implies (#[trigger] segs[i]).len() > 0 by {}
        lemma_drop_empty_id(segs);
        assert(segs.drop_first() =~= seq![text]);
        assert(seq![text].drop_first() =~= Seq::<Seq<u8>>::empty());
        let tm = lww_insert(Seq::<(Seq<u8>, Seq<u8>)>::empty(), tag_of(text), value_of(text));
        assert(parse_tag_fields(Seq::<Seq<u8>>::empty(), tm) == Some(tm));
        assert(parse_tag_fields(seq![text], Seq::<(Seq<u8>, Seq<u8>)>::empty()) == Some(tm));
    }
}

/// The tag mappings, in order, of the lines whose record type parses to

/// A separator-free byte sequence splits into itself alone.
pub proof fn lemma_split_of_sep_free(s: Seq<u8>, sep: u8)
    requires
        forall|i: int| 0 <= i < s.len() ==> s[i] != sep,
    ensures
        split_bytes(s, sep) == seq![s],
    decreases s.len(),
{
    if s.len() == 0 {
        assert(split_bytes(s, sep) =~~= seq![s]);
    } else {
        lemma_split_of_sep_free(s.drop_last(), sep);
        assert(seq![s.drop_last()].update(0, s.drop_last().push(s.last())) =~~= seq![s]);
    }
}

/// Splitting cuts at a separator: the split of `a + sep + b` is the split
/// of `a` followed by the split of `b`.
pub proof fn lemma_split_concat(a: Seq<u8>, b: Seq<u8>, sep: u8)
    ensures
        split_bytes(a + seq![sep] + b, sep) == split_bytes(a, sep) + split_bytes(b, sep),
    decreases b.len(),
{
    let whole = a + seq![sep] + b;
    if b.len() == 0 {
        assert(whole =~= a + seq![sep]);
        assert((a + seq![sep]).drop_last() =~= a);
        assert(split_bytes(a, sep).push(Seq::<u8>::empty()) =~= split_bytes(a, sep)
            + split_bytes(b, sep));
    } else {
        lemma_split_concat(a, b.drop_last(), sep);
        assert(whole.drop_last() =~= a + seq![sep] + b.drop_last());
        assert(whole.last() == b.last());
        let left = split_bytes(a, sep);
        let prev = split_bytes(a + seq![sep] + b.drop_last(), sep);
        let right_prev = split_bytes(b.drop_last(), sep);
        crate::bytes::lemma_split_bytes_nonempty(b.drop_last(), sep);
        crate::bytes::lemma_split_bytes_nonempty(a, sep);
        if b.last() == sep {
            assert(split_bytes(whole, sep) == prev.push(Seq::<u8>::empty()));
            assert((left + right_prev).push(Seq::<u8>::empty()) =~= left + right_prev.push(
                Seq::<u8>::empty(),
            ));
        } else {
            assert(split_bytes(whole, sep) == prev.update(
                prev.len() - 1,
                prev.last().push(b.last()),
            ));
            assert(prev.last() == right_prev.last());
            assert((left + right_prev).update(
                left.len() + right_prev.len() - 1,
                right_prev.last().push(b.last()),
            ) =~= left + right_prev.update(
                right_prev.len() - 1,
                right_prev.last().push(b.last()),
            ));
        }
    }
}

/// Splitting inverts joining: when no line contains the separator, the
/// split of the joined lines gives the lines back (a joined empty list and
/// a joined single empty line both serialize to the empty sequence, whose
/// split is one empty segment).
pub proof fn lemma_split_join(lines: Seq<Seq<u8>>, sep: u8)
    requires
        lines.len() > 0,
        forall|i: int, j: int|
            0 <= i < lines.len() && 0 <= j < lines[i].len() ==> lines[i][j] != sep,
    ensures
        split_bytes(join_bytes(lines, sep), sep) == lines,
    decreases lines.len(),
{
    if lines.len() == 1 {
        lemma_split_of_sep_free(lines[0], sep);
        assert(seq![lines[0]] =~= lines);
    } else {
        lemma_split_join(lines.drop_last(), sep);
        lemma_split_of_sep_free(lines.last(), sep);
        let front = join_bytes(lines.drop_last(), sep);
        assert(join_bytes(lines, sep) =~= front + seq![sep] + lines.last());
        lemma_split_concat(front, lines.last(), sep);
        assert(lines.drop_last() + seq![lines.last()] =~= lines);
    }
}

/// Discarding empty segments from an all-nonempty list changes nothing.
pub proof fn lemma_drop_empty_id(segs: Seq<Seq<u8>>)
    requires
        forall|i: int| 0 <= i < segs.len() ==> segs[i].len() > 0,
    ensures
        drop_empty(segs) == segs,
    decreases segs.len(),
{
    if segs.len() > 0 {
        lemma_drop_empty_id(segs.drop_last());
        assert(segs.drop_last().push(segs.last()) =~= segs);
    }
}

/// The tag mappings, in order, of the lines whose record type parses to
/// `t`; lines that do not parse contribute nothing.
pub open spec fn maps_of_type(lines: Seq<Seq<u8>>, t: Seq<u8>) -> Seq<TagMapModel>
    decreases lines.len(),
{
    if lines.len() == 0 {
        Seq::<TagMapModel>::empty()
    } else {
        let rest = maps_of_type(lines.drop_first(), t);
        match parse_line(lines[0]) {
            Some(km) => if km.0 == t {
                seq![km.1] + rest
            } else {
                rest
            },
            None => rest,
        }
    }
}

/// What one grouped insertion does to every lookup: the inserted key's
/// list grows by the new mapping (appearing if absent), every other key's
/// list is untouched.
pub proof fn lemma_group_find_insert(g: GroupedModel, key: Seq<u8>, tm: TagMapModel, t: Seq<u8>)
    ensures
        group_find(group_insert(g, key, tm), t) == (if t == key {
            match group_find(g, key) {
                Some(ms) => Some(ms.push(tm)),
                None => Some(seq![tm]),
            }
        } else {
            group_find(g, t)
        }),
    decreases g.len(),
{
    if g.len() == 0 {
        let gi = seq![(key, seq![tm])];
        assert(group_insert(g, key, tm) == gi);
        assert(gi.drop_first() =~= Seq::<(Seq<u8>, Seq<TagMapModel>)>::empty());
        assert(group_find(Seq::<(Seq<u8>, Seq<TagMapModel>)>::empty(), t) is None);
        assert(gi[0] == (key, seq![tm]));
    } else if g[0].0 == key {
        let gi = seq![(g[0].0, g[0].1.push(tm))] + g.drop_first();
        assert(group_insert(g, key, tm) == gi);
        assert(gi[0] == (g[0].0, g[0].1.push(tm)));
        assert(gi.drop_first() =~= g.drop_first());
    } else {
        lemma_group_find_insert(g.drop_first(), key, tm, t);
        let gi = seq![g[0]] + group_insert(g.drop_first(), key, tm);
        assert(group_insert(g, key, tm) == gi);
        assert(gi[0] == g[0]);
        assert(gi.drop_first() =~= group_insert(g.drop_first(), key, tm));
    }
}

/// Folding well-formed lines into a grouping, starting from any
/// accumulator, succeeds and extends each key's list by exactly the
/// mappings of that key's lines, in line order.
pub proof fn lemma_parse_lines_grouping(lines: Seq<Seq<u8>>, acc: GroupedModel)
    requires
        forall|i: int| 0 <= i < lines.len() ==> parse_line(#[trigger] lines[i]) is Some,
    ensures
        parse_lines(lines, acc) is Some,
        forall|t: Seq<u8>|
            #![auto]
            group_find(parse_lines(lines, acc).unwrap(), t) == (match group_find(acc, t) {
                Some(ms) => Some(ms + maps_of_type(lines, t)),
                None => if maps_of_type(lines, t).len() > 0 {
                    Some(maps_of_type(lines, t))
                } else {
                    None
                },
            }),
    decreases lines.len(),
{
    if lines.len() == 0 {
        assert forall|t: Seq<u8>| #![auto]
            group_find(parse_lines(lines, acc).unwrap(), t) == (match group_find(acc, t) {
                Some(ms) => Some(ms + maps_of_type(lines, t)),
                None => if maps_of_type(lines, t).len() > 0 {
                    Some(maps_of_type(lines, t))
                } else {
                    None
                },
            }) by {
            match group_find(acc, t) {
                Some(ms) => {
                    assert(ms + maps_of_type(lines, t) =~= ms);
                },
                None => {},
            }
        }
    } else {
        let km = parse_line(lines[0]).unwrap();
        let rest = lines.drop_first();
        let acc2 = group_insert(acc, km.0, km.1);
        assert forall|i: int| 0 <= i < rest.len() implies parse_line(#[trigger] rest[i]) is Some by {
            assert(rest[i] == lines[i + 1]);
        }
        lemma_parse_lines_grouping(rest, acc2);
        assert forall|t: Seq<u8>| #![auto]
            group_find(parse_lines(lines, acc).unwrap(), t) == (match group_find(acc, t) {
                Some(ms) => Some(ms + maps_of_type(lines, t)),
                None => if maps_of_type(lines, t).len() > 0 {
                    Some(maps_of_type(lines, t))
                } else {
                    None
                },
            }) by {
            lemma_group_find_insert(acc, km.0, km.1, t);
            if t == km.0 {
                match group_find(acc, t) {
                    Some(ms) => {
                        assert(ms.push(km.1) + maps_of_type(rest, t) =~= ms + (seq![km.1]
                            + maps_of_type(rest, t)));
                    },
                    None => {
                        assert(seq![km.1] + maps_of_type(rest, t) =~= maps_of_type(lines, t));
                    },
                }
            }
        }
    }
}

/// The round trip: serializing any header whose lines are each nonempty,
/// newline-free and well formed for the grammar, then parsing the result,
/// succeeds; the parsed grouping holds exactly the record-type codes of
/// the lines, and each code's list is exactly the mappings of that code's
/// lines, in their original order (so its length is the number of lines of
/// that type).
pub proof fn lemma_header_round_trip(lines: Seq<Seq<u8>>)
    requires
        forall|i: int| 0 <= i < lines.len() ==> (#[trigger] lines[i]).len() > 0,
        forall|i: int, j: int|
            0 <= i < lines.len() && 0 <= j < lines[i].len() ==> lines[i][j] != NEWLINE,
        forall|i: int| 0 <= i < lines.len() ==> parse_line(#[trigger] lines[i]) is Some,
    ensures
        parse_header(join_bytes(lines, NEWLINE)) is Some,
        forall|t: Seq<u8>|
            #![auto]
            group_find(parse_header(join_bytes(lines, NEWLINE)).unwrap(), t) == (if maps_of_type(
                lines,
                t,
            ).len() > 0 {
                Some(maps_of_type(lines, t))
            } else {
                None
            }),
{
    if lines.len() == 0 {
        assert(join_bytes(lines, NEWLINE) == Seq::<u8>::empty());
        assert(split_bytes(Seq::<u8>::empty(), NEWLINE) == seq![Seq::<u8>::empty()]);
        assert(seq![Seq::<u8>::empty()].drop_last() =~= Seq::<Seq<u8>>::empty());
        assert(drop_empty(Seq::<Seq<u8>>::empty()) == Seq::<Seq<u8>>::empty());
        assert(seq![Seq::<u8>::empty()].last().len() == 0);
        assert(drop_empty(seq![Seq::<u8>::empty()]) =~= Seq::<Seq<u8>>::empty());
        assert(parse_lines(
            Seq::<Seq<u8>>::empty(),
            Seq::<(Seq<u8>, Seq<TagMapModel>)>::empty(),
        ) == Some(Seq::<(Seq<u8>, Seq<TagMapModel>)>::empty()));
    } else {
        lemma_split_join(lines, NEWLINE);
        lemma_drop_empty_id(lines);
        lemma_parse_lines_grouping(lines, Seq::<(Seq<u8>, Seq<TagMapModel>)>::empty());
    }
}

/// Last write wins: looking up a key right after inserting it yields the
/// value just inserted, whatever the mapping held before.
pub proof fn lemma_last_write_wins(m: TagMapModel, key: Seq<u8>, value: Seq<u8>)
    ensures
        crate::grouped::map_get(lww_insert(m, key, value), key) == Some(value),
    decreases m.len(),
{
    if m.len() == 0 {
    } else if m[0].0 == key {
        let mi = seq![(key, value)] + m.drop_first();
        assert(mi[0] == (key, value));
    } else {
        lemma_last_write_wins(m.drop_first(), key, value);
        let mi = seq![m[0]] + lww_insert(m.drop_first(), key, value);
        assert(mi[0] == m[0]);
        assert(mi.drop_first() =~= lww_insert(m.drop_first(), key, value));
    }
}

/// The number of lines whose record type parses to `t`.
pub open spec fn count_of_type(lines: Seq<Seq<u8>>, t: Seq<u8>) -> nat
    decreases lines.len(),
{
    if lines.len() == 0 {
        0
    } else {
        let rest = count_of_type(lines.drop_first(), t);
        match parse_line(lines[0]) {
            Some(km) => if km.0 == t {
                rest + 1
            } else {
                rest
            },
            None => rest,
        }
    }
}

/// Each record type's parsed list holds one mapping per line of that type.
pub proof fn lemma_maps_of_type_len(lines: Seq<Seq<u8>>, t: Seq<u8>)
    ensures
        maps_of_type(lines, t).len() == count_of_type(lines, t),
    decreases lines.len(),
{
    if lines.len() > 0 {
        lemma_maps_of_type_len(lines.drop_first(), t);
    }
}

/// A record type has lines exactly when one of the lines parses to it: by
/// `lemma_maps_of_type_len` and `lemma_header_round_trip`, the keys of the
/// parsed grouping are exactly the record-type codes of the pushed lines.
pub proof fn lemma_count_of_type_exists(lines: Seq<Seq<u8>>, t: Seq<u8>)
    ensures
        count_of_type(lines, t) > 0 <==> exists|i: int|
            0 <= i < lines.len() && parse_line(#[trigger] lines[i]) is Some && parse_line(
                lines[i],
            ).unwrap().0 == t,
    decreases lines.len(),
{
    if lines.len() > 0 {
        let rest = lines.drop_first();
        lemma_count_of_type_exists(rest, t);
        let first_matches = parse_line(lines[0]) is Some && parse_line(lines[0]).unwrap().0 == t;
        if count_of_type(lines, t) > 0 {
            if !first_matches {
                let i = choose|i: int|
                    0 <= i < rest.len() && parse_line(#[trigger] rest[i]) is Some && parse_line(
                        rest[i],
                    ).unwrap().0 == t;
                assert(lines[i + 1] == rest[i]);
                assert(parse_line(lines[i + 1]) is Some && parse_line(lines[i + 1]).unwrap().0
                    == t);
            }
        }
        if exists|i: int|
            0 <= i < lines.len() && parse_line(#[trigger] lines[i]) is Some && parse_line(
                lines[i],
            ).unwrap().0 == t {
            let i = choose|i: int|
                0 <= i < lines.len() && parse_line(#[trigger] lines[i]) is Some && parse_line(
                    lines[i],
                ).unwrap().0 == t;
            if i > 0 {
                assert(rest[i - 1] == lines[i]);
                assert(parse_line(rest[i - 1]) is Some && parse_line(rest[i - 1]).unwrap().0 == t);
            }
        }
    }
}

/// Serialization is a function of the header's lines alone: two results of
/// serializing the same unmutated header are identical byte for byte.
pub proof fn lemma_to_bytes_idempotent(lines: Seq<Seq<u8>>, r1: Seq<u8>, r2: Seq<u8>)
    requires
        r1 == join_bytes(lines, NEWLINE),
        r2 == join_bytes(lines, NEWLINE),
    ensures
        r1 == r2,
{
}

} // verus!
