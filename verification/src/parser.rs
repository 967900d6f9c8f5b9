//! The inverse direction of the codec: splitting a serialized header into
//! lines, classifying each line by its leading two-letter record-type
//! marker, validating every following field against the `TAG:VALUE` shape,
//! and grouping the records by type.  A single malformed line fails the
//! whole parse; there is no lenient mode.
//!
//! The line grammar is the classic header grammar: the record-type field
//! must start with `@` and two uppercase letters, and every further field
//! must be a tag of one letter and one letter-or-digit, a colon, and one or
//! more printable ASCII bytes.  The parser deliberately accepts looser tags
//! than the builder emits (lowercase or digit-second), since headers from
//! third-party tools use them.

use vstd::prelude::*;
use crate::bytes::{
    drop_empty, is_letter, is_letter_or_digit, is_printable, is_uppercase_letter, split_bytes,
    split_nonempty, views_of,
};
use crate::grouped::{
    group_insert, lww_insert, GroupedHeader, GroupedModel, TagMap, TagMapModel,
};
use crate::{AT_SIGN, COLON, NEWLINE, TAB};

verus! {

/// The header text violated the record-type or tag-shape grammar; the
/// parse is all-or-nothing and no partial result exists.
#[derive(Debug, Clone, Copy, PartialEq, Eq)]
pub enum ParseError {
    ParseFailure,
}

/// The field opens a record line: `@` followed by two uppercase letters,
/// anything after them being ignored for classification.
pub open spec fn is_record_type_field(seg: Seq<u8>) -> bool {
    seg.len() >= 3 && seg[0] == AT_SIGN && is_uppercase_letter(seg[1]) && is_uppercase_letter(
        seg[2],
    )
}

/// The two-letter grouping key of a record-type field.
pub open spec fn rec_type_of(seg: Seq<u8>) -> Seq<u8> {
    seg.subrange(1, 3)
}

/// The field has the `TAG:VALUE` shape: a letter, a letter or digit, a
/// colon, then one or more printable ASCII bytes reaching the field's end.
pub open spec fn is_tag_field(seg: Seq<u8>) -> bool {
    seg.len() >= 4 && is_letter(seg[0]) && is_letter_or_digit(seg[1]) && seg[2] == COLON
        && forall|i: int| 3 <= i < seg.len() ==> is_printable(seg[i])
}

/// The tag of a well-shaped tag field.
pub open spec fn tag_of(seg: Seq<u8>) -> Seq<u8> {
    seg.subrange(0, 2)
}

/// The value of a well-shaped tag field.
pub open spec fn value_of(seg: Seq<u8>) -> Seq<u8> {
    seg.subrange(3, seg.len() as int)
}

/// Folds the non-first fields of a line into a tag mapping, last write
/// winning; `None` as soon as one field is not of the `TAG:VALUE` shape.
pub open spec fn parse_tag_fields(fields: Seq<Seq<u8>>, acc: TagMapModel) -> Option<TagMapModel>
    decreases fields.len(),
{
    if fields.len() == 0 {
        Some(acc)
    } else if is_tag_field(fields[0]) {
        parse_tag_fields(
            fields.drop_first(),
            lww_insert(acc, tag_of(fields[0]), value_of(fields[0])),
        )
    } else {
        None
    }
}

/// Parses one line: its nonempty tab-separated fields must open with a
/// record-type field, and every further field must parse as a tag.
pub open spec fn parse_line(line: Seq<u8>) -> Option<(Seq<u8>, TagMapModel)> {
    let fields = drop_empty(split_bytes(line, TAB));
    if fields.len() == 0 {
        None
    } else if !is_record_type_field(fields[0]) {
        None
    } else {
        match parse_tag_fields(fields.drop_first(), Seq::<(Seq<u8>, Seq<u8>)>::empty()) {
            Some(tm) => Some((rec_type_of(fields[0]), tm)),
            None => None,
        }
    }
}

/// Folds parsed lines into the grouped form, `None` on the first bad line.
pub open spec fn parse_lines(lines: Seq<Seq<u8>>, acc: GroupedModel) -> Option<GroupedModel>
    decreases lines.len(),
{
    if lines.len() == 0 {
        Some(acc)
    } else {
        match parse_line(lines[0]) {
            Some(km) => parse_lines(lines.drop_first(), group_insert(acc, km.0, km.1)),
            None => None,
        }
    }
}

/// Parses a whole serialized header: its nonempty lines, grouped by
/// record-type code in first-seen order.
pub open spec fn parse_header(blob: Seq<u8>) -> Option<GroupedModel> {
    parse_lines(
        drop_empty(split_bytes(blob, NEWLINE)),
        Seq::<(Seq<u8>, Seq<TagMapModel>)>::empty(),
    )
}

/// Copies `src[from..to]` into a fresh vector.
fn copy_range(src: &[u8], from: usize, to: usize) -> (r: Vec<u8>)
    requires
        from <= to <= src@.len(),
    ensures
        r@ == src@.subrange(from as int, to as int),
{
    let mut out: Vec<u8> = Vec::new();
    let mut i: usize = from;
    while i < to
        invariant
            from <= i <= to <= src@.len(),
            out@ == src@.subrange(from as int, i as int),
        decreases to - i,
    {
        out.push(src[i]);
        proof {
            assert(src@.subrange(from as int, i as int + 1) =~= src@.subrange(
                from as int,
                i as int,
            ).push(src@[i as int]));
        }
        i = i + 1;
    }
    out
}

/// Checks the record-type shape of a line's first field.
fn check_record_type(field: &Vec<u8>) -> (r: bool)
    ensures
        r == is_record_type_field(field@),
{
    field.len() >= 3 && field[0] == AT_SIGN && (65 <= field[1] && field[1] <= 90) && (65
        <= field[2] && field[2] <= 90)
}

/// Checks the `TAG:VALUE` shape of a non-first field.
fn check_tag_field(field: &Vec<u8>) -> (r: bool)
    ensures
        r == is_tag_field(field@),
{
    if field.len() < 4 {
        return false;
    }
    let b0 = field[0];
    let b1 = field[1];
    if !((65 <= b0 && b0 <= 90) || (97 <= b0 && b0 <= 122)) {
        return false;
    }
    if !((65 <= b1 && b1 <= 90) || (97 <= b1 && b1 <= 122) || (48 <= b1 && b1 <= 57)) {
        return false;
    }
    if field[2] != COLON {
        return false;
    }
    let mut i: usize = 3;
    while i < field.len()
        invariant
            3 <= i <= field@.len(),
            forall|k: int| 3 <= k < i ==> is_printable(field@[k]),
        decreases field@.len() - i,
    {
        let b = field[i];
        if !(32 <= b && b <= 126) {
            return false;
        }
        i = i + 1;
    }
    true
}

/// Parses one nonempty header line into its grouping key and tag mapping.
fn parse_one_line(line: &Vec<u8>) -> (r: Result<(Vec<u8>, TagMap), ParseError>)
    ensures
        match r {
            Ok(p) => parse_line(line@) == Some((p.0@, p.1@)),
            Err(_) => parse_line(line@) is None,
        },
{
    let fields = split_nonempty(line.as_slice(), TAB);
    let ghost fmodel = views_of(fields@);
    if fields.len() == 0 {
        return Err(ParseError::ParseFailure);
    }
    if !check_record_type(&fields[0]) {
        return Err(ParseError::ParseFailure);
    }
    let key = copy_range(fields[0].as_slice(), 1, 3);
    let mut tm = TagMap::new();
    let mut j: usize = 1;
    proof {
        assert(fmodel.skip(1) =~= fmodel.drop_first());
    }
    while j < fields.len()
        invariant
            1 <= j <= fields@.len(),
            fmodel == views_of(fields@),
            fmodel == drop_empty(split_bytes(line@, TAB)),
            is_record_type_field(fmodel[0]),
            key@ == rec_type_of(fmodel[0]),
            parse_tag_fields(fmodel.drop_first(), Seq::<(Seq<u8>, Seq<u8>)>::empty())
                == parse_tag_fields(fmodel.skip(j as int), tm@),
        decreases fields@.len() - j,
    {
        let ghost rest = fmodel.skip(j as int);
        proof {
            assert(rest[0] == fmodel[j as int]);
            assert(rest.drop_first() =~= fmodel.skip(j as int + 1));
        }
        if !check_tag_field(&fields[j]) {
            return Err(ParseError::ParseFailure);
        }
        let tag = copy_range(fields[j].as_slice(), 0, 2);
        let value_end = fields[j].len();
        let value = copy_range(fields[j].as_slice(), 3, value_end);
        tm.insert(tag, value);
        j = j + 1;
    }
    proof {
        assert(fmodel.skip(fmodel.len() as int) =~= Seq::<Seq<u8>>::empty());
    }
    Ok((key, tm))
}

/// Parses a serialized header into its grouped form.  Fails if and only if
/// some nonempty line violates the grammar; the empty blob parses to the
/// empty grouping.
pub fn parse_header_text(blob: &[u8]) -> (r: Result<GroupedHeader, ParseError>)
    ensures
        match r {
            Ok(g) => parse_header(blob@) == Some(g@),
            Err(_) => parse_header(blob@) is None,
        },
{
    let lines = split_nonempty(blob, NEWLINE);
    let ghost lmodel = views_of(lines@);
    let mut grouped = GroupedHeader::new();
    let mut i: usize = 0;
    proof {
        assert(lmodel.skip(0) =~= lmodel);
    }
    while i < lines.len()
        invariant
            i <= lines@.len(),
            lmodel == views_of(lines@),
            lmodel == drop_empty(split_bytes(blob@, NEWLINE)),
            parse_lines(lmodel, Seq::<(Seq<u8>, Seq<TagMapModel>)>::empty()) == parse_lines(
                lmodel.skip(i as int),
                grouped@,
            ),
        decreases lines@.len() - i,
    {
        let ghost rest = lmodel.skip(i as int);
        proof {
            assert(rest[0] == lmodel[i as int]);
            assert(rest.drop_first() =~= lmodel.skip(i as int + 1));
        }
        match parse_one_line(&lines[i]) {
            Ok(p) => {
                let (key, tm) = p;
                grouped.add_record(key, tm);
            },
            Err(e) => {
                return Err(e);
            },
        }
        i = i + 1;
    }
    proof {
        assert(lmodel.skip(lmodel.len() as int) =~= Seq::<Seq<u8>>::empty());
    }
    Ok(grouped)
}

} // verus!
