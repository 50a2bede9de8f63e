//! Splitting a skeleton file into lines and whitespace-separated fields,
//! and reading one seven-field record per non-comment line.

use vstd::prelude::*;

use crate::node::{Node, StructureIdentifier, SwcError};
use crate::node::{structure_of_code, MAX_RADIUS, NO_PARENT};
use crate::numbers::{fixed_parse, i64_parse, parse_fixed, parse_i64, parse_u64, u64_parse};

verus! {

/// The byte views of a sequence of byte vectors.
pub open spec fn views_of(v: Seq<Vec<u8>>) -> Seq<Seq<u8>> {
    v.map_values(|l: Vec<u8>| l@)
}

/// Index of the first occurrence of `c` in `t`, or `t.len()`.
pub open spec fn find_byte(t: Seq<u8>, c: u8) -> int
    decreases t.len(),
{
    if t.len() == 0 {
        0
    } else if t[0] == c {
        0
    } else {
        1 + find_byte(t.skip(1), c)
    }
}

pub proof fn lemma_find_byte_bounds(t: Seq<u8>, c: u8)
    ensures
        0 <= find_byte(t, c) <= t.len(),
    decreases t.len(),
{
    if t.len() > 0 && t[0] != c {
        lemma_find_byte_bounds(t.skip(1), c);
    }
}

/// A position where the first `c` stands determines `find_byte`.
pub proof fn lemma_find_byte_is(t: Seq<u8>, c: u8, k: int)
    requires
        0 <= k <= t.len(),
        forall|j: int| 0 <= j < k ==> t[j] != c,
        k < t.len() ==> t[k] == c,
    ensures
        find_byte(t, c) == k,
    decreases t.len(),
{
    if t.len() > 0 && t[0] != c {
        assert forall|j: int| 0 <= j < k - 1 implies t.skip(1)[j] != c by {
            assert(t[j + 1] != c);
        }
        assert(k - 1 < t.skip(1).len() ==> t.skip(1)[k - 1] == t[k]);
        lemma_find_byte_is(t.skip(1), c, k - 1);
    }
}

/// A line without one trailing carriage return.
pub open spec fn strip_cr(l: Seq<u8>) -> Seq<u8> {
    if l.len() > 0 && l.last() == 13 {
        l.drop_last()
    } else {
        l
    }
}

/// The lines of a file: pieces between newlines, each without a trailing
/// carriage return; a final newline opens no further line.
pub open spec fn lines_of(s: Seq<u8>) -> Seq<Seq<u8>>
    decreases s.len(),
    via lines_of_dec
{
    if s.len() == 0 {
        Seq::<Seq<u8>>::empty()
    } else {
        let k = find_byte(s, 10);
        if k == s.len() {
            seq![strip_cr(s)]
        } else {
            seq![strip_cr(s.take(k))] + lines_of(s.skip(k + 1))
        }
    }
}

#[via_fn]
proof fn lines_of_dec(s: Seq<u8>) {
    if s.len() > 0 {
        lemma_find_byte_bounds(s, 10);
    }
}

/// Splits a file into its lines.
pub fn split_lines(s: &Vec<u8>) -> (r: Vec<Vec<u8>>)
    ensures
        views_of(r@) == lines_of(s@),
{
    let mut r: Vec<Vec<u8>> = Vec::new();
    let mut start: usize = 0;
    proof {
        assert(s@.skip(0) =~= s@);
        assert(views_of(r@) =~= Seq::<Seq<u8>>::empty());
    }
    while start < s.len()
        invariant
            start <= s@.len(),
            views_of(r@) + lines_of(s@.skip(start as int)) =~= lines_of(s@),
        decreases s@.len() - start,
    {
        let ghost rest = s@.skip(start as int);
        // Find the next newline.
        let mut j: usize = start;
        while j < s.len() && s[j] != 10
            invariant
                start <= j <= s@.len(),
                forall|i: int| start <= i < j ==> s@[i] != 10,
            decreases s@.len() - j,
        {
            j = j + 1;
        }
        proof {
            assert forall|i: int| 0 <= i < j - start implies rest[i] != 10 by {
                assert(s@[i + start] != 10);
            }
            assert(j < s@.len() ==> rest[j - start] == s@[j as int]);
            lemma_find_byte_is(rest, 10, j - start);
        }
        // Copy the line, without one trailing carriage return.
        let mut to: usize = j;
        if to > start && s[to - 1] == 13 {
            to = to - 1;
        }
        let mut line: Vec<u8> = Vec::new();
        let mut i: usize = start;
        while i < to
            invariant
                start <= i <= to <= s@.len(),
                line@ =~= s@.subrange(start as int, i as int),
            decreases to - i,
        {
            line.push(s[i]);
            i = i + 1;
        }
        proof {
            if j == s@.len() {
                assert(rest =~= s@.subrange(start as int, j as int));
                assert(line@ =~= strip_cr(rest));
                assert(lines_of(rest) == seq![strip_cr(rest)]);
            } else {
                assert(rest.take(j - start) =~= s@.subrange(start as int, j as int));
                assert(line@ =~= strip_cr(rest.take(j - start)));
                assert(rest.skip(j - start + 1) =~= s@.skip(j + 1));
                assert(lines_of(rest) == seq![strip_cr(rest.take(j - start))] + lines_of(
                    s@.skip(j + 1),
                ));
            }
            assert(views_of(r@.push(line)) =~= views_of(r@).push(line@));
        }
        r.push(line);
        if j < s.len() {
            start = j + 1;
        } else {
            start = j;
            proof {
                assert(s@.skip(j as int) =~= Seq::<u8>::empty());
            }
        }
    }
    proof {
        assert(s@.skip(start as int) =~= Seq::<u8>::empty());
    }
    r
}

/// Whitespace that separates fields within a line.
pub open spec fn is_space(b: u8) -> bool {
    b == 32 || b == 9 || b == 13
}

/// Length of the leading run of non-space bytes.
pub open spec fn token_end(t: Seq<u8>) -> int
    decreases t.len(),
{
    if t.len() == 0 {
        0
    } else if is_space(t[0]) {
        0
    } else {
        1 + token_end(t.skip(1))
    }
}

pub proof fn lemma_token_end_bounds(t: Seq<u8>)
    ensures
        0 <= token_end(t) <= t.len(),
    decreases t.len(),
{
    if t.len() > 0 && !is_space(t[0]) {
        lemma_token_end_bounds(t.skip(1));
    }
}

/// A position where the leading token ends determines `token_end`.
pub proof fn lemma_token_end_is(t: Seq<u8>, k: int)
    requires
        0 <= k <= t.len(),
        forall|j: int| 0 <= j < k ==> !is_space(t[j]),
        k < t.len() ==> is_space(t[k]),
    ensures
        token_end(t) == k,
    decreases t.len(),
{
    if t.len() > 0 && !is_space(t[0]) {
        assert forall|j: int| 0 <= j < k - 1 implies !is_space(t.skip(1)[j]) by {
            assert(!is_space(t[j + 1]));
        }
        assert(k - 1 < t.skip(1).len() ==> t.skip(1)[k - 1] == t[k]);
        lemma_token_end_is(t.skip(1), k - 1);
    }
}

/// The whitespace-separated fields of a line, in order.
pub open spec fn fields_of(t: Seq<u8>) -> Seq<Seq<u8>>
    decreases t.len(),
    via fields_of_dec
{
    if t.len() == 0 {
        Seq::<Seq<u8>>::empty()
    } else if is_space(t[0]) {
        fields_of(t.skip(1))
    } else {
        seq![t.take(token_end(t))] + fields_of(t.skip(token_end(t)))
    }
}

#[via_fn]
proof fn fields_of_dec(t: Seq<u8>) {
    if t.len() > 0 && !is_space(t[0]) {
        lemma_token_end_bounds(t.skip(1));
    }
}

/// Splits a line into its fields.
pub fn split_fields(line: &Vec<u8>) -> (r: Vec<Vec<u8>>)
    ensures
        views_of(r@) == fields_of(line@),
{
    let mut r: Vec<Vec<u8>> = Vec::new();
    let mut i: usize = 0;
    proof {
        assert(line@.skip(0) =~= line@);
        assert(views_of(r@) =~= Seq::<Seq<u8>>::empty());
    }
    while i < line.len()
        invariant
            i <= line@.len(),
            views_of(r@) + fields_of(line@.skip(i as int)) =~= fields_of(line@),
        decreases line@.len() - i,
    {
        let ghost rest = line@.skip(i as int);
        if is_space_byte(line[i]) {
            proof {
                assert(rest.skip(1) =~= line@.skip(i + 1));
            }
            i = i + 1;
        } else {
            // Find the end of the token.
            let mut j: usize = i;
            while j < line.len() && !is_space_byte(line[j])
                invariant
                    i <= j <= line@.len(),
                    forall|k: int| i <= k < j ==> !is_space(line@[k]),
                decreases line@.len() - j,
            {
                j = j + 1;
            }
            proof {
                assert forall|k: int| 0 <= k < j - i implies !is_space(rest[k]) by {
                    assert(!is_space(line@[k + i]));
                }
                assert(j < line@.len() ==> rest[j - i] == line@[j as int]);
                lemma_token_end_is(rest, j - i);
            }
            let mut tok: Vec<u8> = Vec::new();
            let mut k: usize = i;
            while k < j
                invariant
                    i <= k <= j <= line@.len(),
                    tok@ =~= line@.subrange(i as int, k as int),
                decreases j - k,
            {
                tok.push(line[k]);
                k = k + 1;
            }
            proof {
                assert(tok@ =~= rest.take(j - i));
                assert(rest.skip(j - i) =~= line@.skip(j as int));
                assert(fields_of(rest) == seq![rest.take(j - i)] + fields_of(line@.skip(j as int)));
                assert(views_of(r@.push(tok)) =~= views_of(r@).push(tok@));
            }
            r.push(tok);
            i = j;
        }
    }
    proof {
        assert(fields_of(line@.skip(line@.len() as int)) =~= Seq::<Seq<u8>>::empty());
    }
    r
}

/// Whether `b` separates fields.
pub fn is_space_byte(b: u8) -> (r: bool)
    ensures
        r == is_space(b),
{
    b == 32 || b == 9 || b == 13
}

/// The record a line holds: exactly seven fields — identifier, structural
/// code at most 255, three positions, radius at most [`MAX_RADIUS`], and a
/// parent of `-1` (no parent) or a real identifier. An identifier equal to
/// the internal no-parent marker is refused.
pub open spec fn record_parse(l: Seq<u8>) -> Option<Node> {
    let fs = fields_of(l);
    if fs.len() != 7 {
        None
    } else {
        let id_o = u64_parse(fs[0]);
        let code_o = u64_parse(fs[1]);
        let x_o = fixed_parse(fs[2]);
        let y_o = fixed_parse(fs[3]);
        let z_o = fixed_parse(fs[4]);
        let rad_o = u64_parse(fs[5]);
        let par_o = i64_parse(fs[6]);
        if id_o is Some && code_o is Some && x_o is Some && y_o is Some && z_o is Some && rad_o
            is Some && par_o is Some && id_o.unwrap() != NO_PARENT && code_o.unwrap() <= 255
            && rad_o.unwrap() <= MAX_RADIUS && par_o.unwrap() >= -1 {
            Some(
                Node {
                    node_id: id_o.unwrap(),
                    structured_identifier: structure_of_code(code_o.unwrap() as u8),
                    x_pos: x_o.unwrap(),
                    y_pos: y_o.unwrap(),
                    z_pos: z_o.unwrap(),
                    radius: rad_o.unwrap(),
                    parent_id: if par_o.unwrap() == -1 {
                        NO_PARENT
                    } else {
                        par_o.unwrap() as u64
                    },
                },
            )
        } else {
            None
        }
    }
}

/// Every field of a parsed record lies inside the bounds parsing admits.
pub proof fn lemma_record_in_bounds(l: Seq<u8>)
    ensures
        record_parse(l) is Some ==> record_parse(l).unwrap().in_bounds(),
{
}

/// Every record of a line list lies inside the bounds parsing admits.
pub proof fn lemma_records_in_bounds(lines: Seq<Seq<u8>>)
    ensures
        forall|i: int|
            0 <= i < records_of(lines).len() ==> (#[trigger] records_of(lines)[i]).in_bounds(),
    decreases lines.len(),
{
    if lines.len() > 0 {
        lemma_records_in_bounds(lines.drop_last());
        lemma_record_in_bounds(lines.last());
        let prefix = records_of(lines.drop_last());
        assert forall|i: int|
            0 <= i < records_of(lines).len() implies (#[trigger] records_of(
            lines,
        )[i]).in_bounds() by {
            if i < prefix.len() {
                assert(records_of(lines)[i] == prefix[i]);
            } else {
                assert(records_of(lines)[i] == record_parse(lines.last()).unwrap());
            }
        }
    }
}

/// Reads one line as a record.
pub fn parse_record(line: &Vec<u8>) -> (r: Option<Node>)
    ensures
        r == record_parse(line@),
{
    let fs = split_fields(line);
    let ghost fsv = fields_of(line@);
    if fs.len() != 7 {
        return None;
    }
    assert(fs@[0]@ == fsv[0] && fs@[1]@ == fsv[1] && fs@[2]@ == fsv[2] && fs@[3]@ == fsv[3]
        && fs@[4]@ == fsv[4] && fs@[5]@ == fsv[5] && fs@[6]@ == fsv[6]);
    let id_o = parse_u64(&fs[0]);
    let code_o = parse_u64(&fs[1]);
    let x_o = parse_fixed(&fs[2]);
    let y_o = parse_fixed(&fs[3]);
    let z_o = parse_fixed(&fs[4]);
    let rad_o = parse_u64(&fs[5]);
    let par_o = parse_i64(&fs[6]);
    match (id_o, code_o, x_o, y_o, z_o, rad_o, par_o) {
        (Some(id), Some(code), Some(x), Some(y), Some(z), Some(rad), Some(par)) => {
            if id != NO_PARENT && code <= 255 && rad <= MAX_RADIUS && par >= -1 {
                Some(
                    Node {
                        node_id: id,
                        structured_identifier: StructureIdentifier::from_code(code as u8),
                        x_pos: x,
                        y_pos: y,
                        z_pos: z,
                        radius: rad,
                        parent_id: if par == -1 {
                            NO_PARENT
                        } else {
                            par as u64
                        },
                    },
                )
            } else {
                None
            }
        },
        _ => None,
    }
}

/// Whether a line is a comment and takes no part in parsing.
pub open spec fn is_comment(l: Seq<u8>) -> bool {
    l.len() > 0 && l[0] == 35
}

/// Whether a parsed record is rejected outright: radius zero on a type
/// other than an end point, while warnings and strict mode are both on.
pub open spec fn geo_bad(n: Node, warn: bool, strict: bool) -> bool {
    warn && strict && n.radius == 0 && n.structured_identifier != StructureIdentifier::EndPoint
}

/// Whether a line stops the read: it is no comment and either holds no
/// record or holds one that strict mode rejects.
pub open spec fn line_fails(l: Seq<u8>, warn: bool, strict: bool) -> bool {
    if is_comment(l) {
        false
    } else {
        match record_parse(l) {
            Some(n) => geo_bad(n, warn, strict),
            None => true,
        }
    }
}

/// The error a failing line raises; `idx` is its 0-based position.
pub open spec fn line_error(l: Seq<u8>, idx: int, warn: bool, strict: bool) -> SwcError {
    match record_parse(l) {
        Some(n) => SwcError::GeometryError {
            node_id: n.node_id,
            structure: n.structured_identifier,
        },
        None => SwcError::ParseError { line: (idx + 1) as usize },
    }
}

/// The records of the non-comment lines, in order.
pub open spec fn records_of(lines: Seq<Seq<u8>>) -> Seq<Node>
    decreases lines.len(),
{
    if lines.len() == 0 {
        Seq::<Node>::empty()
    } else {
        records_of(lines.drop_last()) + (if is_comment(lines.last()) {
            Seq::<Node>::empty()
        } else {
            match record_parse(lines.last()) {
                Some(n) => seq![n],
                None => Seq::<Node>::empty(),
            }
        })
    }
}

/// The zero-radius warnings of a record sequence, in order: the identifier
/// and structural type of each record whose radius is zero.
pub open spec fn zero_warns_of(rs: Seq<Node>) -> Seq<(u64, StructureIdentifier)>
    decreases rs.len(),
{
    if rs.len() == 0 {
        Seq::<(u64, StructureIdentifier)>::empty()
    } else {
        zero_warns_of(rs.drop_last()) + (if rs.last().radius == 0 {
            seq![(rs.last().node_id, rs.last().structured_identifier)]
        } else {
            Seq::<(u64, StructureIdentifier)>::empty()
        })
    }
}

/// Reads every non-comment line as a record, stopping at the first line
/// that is malformed or, with warnings and strict mode on, holds a
/// zero-radius record of a type other than an end point. On success also
/// returns the zero-radius warnings gathered along the way (none when
/// warnings are off).
pub fn parse_records(lines: &Vec<Vec<u8>>, warn: bool, strict: bool) -> (r: Result<
    (Vec<Node>, Vec<(u64, StructureIdentifier)>),
    SwcError,
>)
    ensures
        r is Ok <==> (forall|j: int|
            0 <= j < lines@.len() ==> !line_fails(#[trigger] views_of(lines@)[j], warn, strict)),
        r matches Ok((recs, warns)) ==> {
            &&& recs@ == records_of(views_of(lines@))
            &&& warns@ == if warn {
                zero_warns_of(records_of(views_of(lines@)))
            } else {
                Seq::<(u64, StructureIdentifier)>::empty()
            }
        },
        r matches Err(e) ==> exists|k: int|
            {
                &&& 0 <= k < lines@.len()
                &&& line_fails(#[trigger] views_of(lines@)[k], warn, strict)
                &&& forall|j: int| 0 <= j < k ==> !line_fails(#[trigger] views_of(lines@)[j], warn, strict)
                &&& e == line_error(views_of(lines@)[k], k, warn, strict)
            },
{
    let ghost lv = views_of(lines@);
    let mut recs: Vec<Node> = Vec::new();
    let mut warns: Vec<(u64, StructureIdentifier)> = Vec::new();
    let mut idx: usize = 0;
    proof {
        assert(records_of(lv.take(0)) =~= Seq::<Node>::empty());
    }
    while idx < lines.len()
        invariant
            idx <= lines@.len(),
            lv == views_of(lines@),
            forall|j: int| 0 <= j < idx ==> !line_fails(#[trigger] lv[j], warn, strict),
            recs@ == records_of(lv.take(idx as int)),
            warns@ == if warn {
                zero_warns_of(records_of(lv.take(idx as int)))
            } else {
                Seq::<(u64, StructureIdentifier)>::empty()
            },
        decreases lines@.len() - idx,
    {
        let line = &lines[idx];
        assert(line@ == lv[idx as int]);
        let ghost prev = records_of(lv.take(idx as int));
        proof {
            assert(lv.take(idx + 1).drop_last() =~= lv.take(idx as int));
            assert(lv.take(idx + 1).last() == lv[idx as int]);
        }
        if !(line.len() > 0 && line[0] == 35) {
            match parse_record(line) {
                None => {
                    return Err(SwcError::ParseError { line: idx + 1 });
                },
                Some(n) => {
                    if warn && n.radius == 0 {
                        warns.push((n.node_id, n.structured_identifier));
                        if strict && !matches!(n.structured_identifier, StructureIdentifier::EndPoint) {
                            return Err(
                                SwcError::GeometryError {
                                    node_id: n.node_id,
                                    structure: n.structured_identifier,
                                },
                            );
                        }
                    }
                    recs.push(n);
                    proof {
                        assert(records_of(lv.take(idx + 1)) =~= prev.push(n));
                        assert(prev.push(n).drop_last() =~= prev);
                        if n.radius == 0 {
                            assert(zero_warns_of(prev.push(n)) =~= zero_warns_of(prev).push(
                                (n.node_id, n.structured_identifier),
                            ));
                        } else {
                            assert(zero_warns_of(prev.push(n)) =~= zero_warns_of(prev));
                        }
                    }
                },
            }
        } else {
            proof {
                assert(records_of(lv.take(idx + 1)) =~= prev);
            }
        }
        idx = idx + 1;
    }
    proof {
        assert(lv.take(lines@.len() as int) =~= lv);
    }
    Ok((recs, warns))
}

/// How many records carry each structural code 0 through 7.
pub open spec fn count_code(rs: Seq<Node>, c: u8) -> int
    decreases rs.len(),
{
    if rs.len() == 0 {
        0int
    } else {
        count_code(rs.drop_last(), c) + if crate::node::code_of_structure(
            rs.last().structured_identifier,
        ) == c {
            1int
        } else {
            0int
        }
    }
}

/// The per-type histogram of a record sequence: entry `c` counts the
/// records whose structural code is `c`.
pub fn type_histogram(recs: &Vec<Node>) -> (h: Vec<u64>)
    ensures
        h@.len() == 8,
        forall|c: int| 0 <= c < 8 ==> h@[c] == count_code(recs@, c as u8),
{
    let mut h: Vec<u64> = Vec::new();
    let mut c: u8 = 0;
    while c < 8
        invariant
            c <= 8,
            h@.len() == c,
            forall|d: int| 0 <= d < c ==> h@[d] == count_code(recs@, d as u8),
        decreases 8 - c,
    {
        let mut cnt: u64 = 0;
        let mut i: usize = 0;
        proof {
            assert(count_code(recs@.take(0), c) == 0);
        }
        while i < recs.len()
            invariant
                i <= recs@.len(),
                cnt <= i,
                cnt == count_code(recs@.take(i as int), c),
            decreases recs@.len() - i,
        {
            proof {
                assert(recs@.take(i + 1).drop_last() =~= recs@.take(i as int));
                assert(recs@.take(i + 1).last() == recs@[i as int]);
            }
            if recs[i].structured_identifier.code() == c {
                cnt = cnt + 1;
            }
            i = i + 1;
        }
        proof {
            assert(recs@.take(recs@.len() as int) =~= recs@);
        }
        h.push(cnt);
        c = c + 1;
    }
    h
}

} // verus!
