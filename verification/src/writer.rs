//! Writing normalized records back to the seven-field line format: one
//! comment header, positions with two decimal places, and `-1` in place
//! of the root's self-reference. Re-reading what was written yields the
//! same records, which is proved here.

use vstd::prelude::*;

use crate::node::{code_of_structure, structure_of_code, Node, NO_PARENT};
use crate::numbers::{
    all_digits, dec_digits, digits_val, fixed_bytes, is_digit, lemma_dec_digits,
    lemma_fixed_round_trip, lemma_u64_round_trip, render_fixed, render_u64,
};
use crate::parser::{
    fields_of, is_comment, is_space, lemma_find_byte_is, lemma_token_end_is, line_fails, lines_of,
    record_parse, records_of, strip_cr,
};
use crate::normalize::{
    last_with_id, lemma_last_with_id_element, lemma_last_with_id_found, normalized_node,
};
use crate::topology::{
    bfs_spec, canon_ids, canonical_bfs_form, children_cat, children_of, has_root, idseq,
    is_child_edge, is_node_id, lemma_bfs_identity, lemma_cat_block, lemma_cat_len_mono,
    lemma_children_edge, lemma_children_of_interval, lemma_root_pos_is, lemma_root_pos_props,
    root_id_of, root_pos,
};

verus! {

/// The bytes of the header comment, without its newline:
/// `# Processed SWC file`.
pub open spec fn header_body() -> Seq<u8> {
    seq![35u8, 32, 80, 114, 111, 99, 101, 115, 115, 101, 100, 32, 83, 87, 67, 32, 102, 105, 108, 101]
}

/// The parent field a record is written with: `-1` for a root's
/// self-reference, the parent position otherwise.
pub open spec fn parent_field(n: Node) -> Seq<u8> {
    if n.parent_id == n.node_id {
        seq![45u8, 49u8]
    } else {
        dec_digits(n.parent_id as int)
    }
}

/// One record as a line, without its newline.
#[verifier::opaque]
pub open spec fn record_body(n: Node) -> Seq<u8> {
    dec_digits(n.node_id as int) + seq![32u8] + dec_digits(
        code_of_structure(n.structured_identifier) as int,
    ) + seq![32u8] + fixed_bytes(n.x_pos as int) + seq![32u8] + fixed_bytes(n.y_pos as int) + seq![
        32u8,
    ] + fixed_bytes(n.z_pos as int) + seq![32u8] + dec_digits(n.radius as int) + seq![32u8]
        + parent_field(n)
}

/// The record lines of a file, each closed by a newline.
pub open spec fn swc_lines(ns: Seq<Node>) -> Seq<u8>
    decreases ns.len(),
{
    if ns.len() == 0 {
        Seq::<u8>::empty()
    } else {
        swc_lines(ns.drop_last()) + record_body(ns.last()) + seq![10u8]
    }
}

/// A whole written file: the header comment, then one line per record.
pub open spec fn swc_bytes(ns: Seq<Node>) -> Seq<u8> {
    header_body() + seq![10u8] + swc_lines(ns)
}

/// Writes one record as a line, without its newline.
fn render_record(n: &Node) -> (l: Vec<u8>)
    requires
        n.in_bounds(),
    ensures
        l@ == record_body(*n),
{
    let mut l = render_u64(n.node_id);
    l.push(32);
    let mut piece = render_u64(n.structured_identifier.code() as u64);
    l.append(&mut piece);
    l.push(32);
    let mut piece = render_fixed(n.x_pos);
    l.append(&mut piece);
    l.push(32);
    let mut piece = render_fixed(n.y_pos);
    l.append(&mut piece);
    l.push(32);
    let mut piece = render_fixed(n.z_pos);
    l.append(&mut piece);
    l.push(32);
    let mut piece = render_u64(n.radius);
    l.append(&mut piece);
    l.push(32);
    if n.parent_id == n.node_id {
        l.push(45);
        l.push(49);
    } else {
        let mut piece = render_u64(n.parent_id);
        l.append(&mut piece);
    }
    proof {
        reveal(record_body);
        assert(l@ =~= record_body(*n));
    }
    l
}

/// Writes the records as a file: the header comment, then one line per
/// record with positions to two decimal places and the root written with
/// parent `-1`.
pub fn render_swc(nodes: &Vec<Node>) -> (out: Vec<u8>)
    requires
        forall|i: int| 0 <= i < nodes@.len() ==> (#[trigger] nodes@[i]).in_bounds(),
    ensures
        out@ == swc_bytes(nodes@),
{
    let mut out: Vec<u8> = Vec::new();
    out.push(35);
    out.push(32);
    out.push(80);
    out.push(114);
    out.push(111);
    out.push(99);
    out.push(101);
    out.push(115);
    out.push(115);
    out.push(101);
    out.push(100);
    out.push(32);
    out.push(83);
    out.push(87);
    out.push(67);
    out.push(32);
    out.push(102);
    out.push(105);
    out.push(108);
    out.push(101);
    out.push(10);
    proof {
        assert(out@ =~= header_body() + seq![10u8]);
        assert(swc_lines(nodes@.take(0)) =~= Seq::<u8>::empty());
        assert(out@ =~= header_body() + seq![10u8] + swc_lines(nodes@.take(0)));
    }
    let mut i: usize = 0;
    while i < nodes.len()
        invariant
            i <= nodes@.len(),
            forall|k: int| 0 <= k < nodes@.len() ==> (#[trigger] nodes@[k]).in_bounds(),
            out@ == header_body() + seq![10u8] + swc_lines(nodes@.take(i as int)),
        decreases nodes@.len() - i,
    {
        proof {
            assert(nodes@.take(i + 1).drop_last() =~= nodes@.take(i as int));
            assert(nodes@.take(i + 1).last() == nodes@[i as int]);
        }
        let node = nodes[i];
        let mut line = render_record(&node);
        out.append(&mut line);
        out.push(10);
        proof {
            assert(out@ =~= header_body() + seq![10u8] + swc_lines(nodes@.take(i + 1)));
        }
        i = i + 1;
    }
    proof {
        assert(nodes@.take(nodes@.len() as int) =~= nodes@);
    }
    out
}

/// Whether a byte sequence can stand inside one field: no whitespace and
/// no newline anywhere.
pub open spec fn field_safe(s: Seq<u8>) -> bool {
    forall|i: int| 0 <= i < s.len() ==> !is_space(#[trigger] s[i]) && s[i] != 10
}

/// Whether a byte sequence can stand inside one line: no newline and no
/// carriage return anywhere.
pub open spec fn no_break(s: Seq<u8>) -> bool {
    forall|i: int| 0 <= i < s.len() ==> (#[trigger] s[i]) != 10 && s[i] != 13
}

proof fn lemma_no_break_concat(a: Seq<u8>, b: Seq<u8>)
    requires
        no_break(a),
        no_break(b),
    ensures
        no_break(a + b),
{
    assert forall|i: int| 0 <= i < (a + b).len() implies ((a + b)[i]) != 10 && (a + b)[i] != 13 by {
        if i < a.len() {
            assert((a + b)[i] == a[i]);
        } else {
            assert((a + b)[i] == b[i - a.len()]);
        }
    }
}

proof fn lemma_field_safe_concat(a: Seq<u8>, b: Seq<u8>)
    requires
        field_safe(a),
        field_safe(b),
    ensures
        field_safe(a + b),
{
    assert forall|i: int| 0 <= i < (a + b).len() implies !is_space(#[trigger] (a + b)[i]) && (a
        + b)[i] != 10 by {
        if i < a.len() {
            assert((a + b)[i] == a[i]);
        } else {
            assert((a + b)[i] == b[i - a.len()]);
        }
    }
}

proof fn lemma_digits_field_safe(s: Seq<u8>)
    requires
        all_digits(s),
    ensures
        field_safe(s),
        no_break(s),
{
    assert forall|i: int| 0 <= i < s.len() implies !is_space(#[trigger] s[i]) && s[i] != 10 by {
        assert(is_digit(s[i]));
    }
    assert forall|i: int| 0 <= i < s.len() implies (#[trigger] s[i]) != 10 && s[i] != 13 by {
        assert(is_digit(s[i]));
    }
}

proof fn lemma_fixed_field_safe(v: int)
    ensures
        field_safe(fixed_bytes(v)),
        fixed_bytes(v).len() > 0,
{
    let m = if v < 0 {
        -v
    } else {
        v
    };
    lemma_dec_digits(m / 100);
    lemma_digits_field_safe(dec_digits(m / 100));
    let sign: Seq<u8> = if v < 0 {
        seq![45u8]
    } else {
        Seq::<u8>::empty()
    };
    let tail = seq![46u8, (48 + (m / 10) % 10) as u8, (48 + m % 10) as u8];
    assert(field_safe(sign));
    assert(0 <= (m / 10) % 10 < 10 && 0 <= m % 10 < 10);
    assert(field_safe(tail));
    lemma_field_safe_concat(sign, dec_digits(m / 100));
    lemma_field_safe_concat(sign + dec_digits(m / 100), tail);
    assert(fixed_bytes(v) == sign + dec_digits(m / 100) + tail);
    assert((sign + dec_digits(m / 100)) + tail =~= sign + dec_digits(m / 100) + tail);
}

/// A field followed by a space starts the field list of the remainder.
proof fn lemma_fields_join(a: Seq<u8>, rest: Seq<u8>)
    requires
        a.len() > 0,
        field_safe(a),
    ensures
        fields_of(a + seq![32u8] + rest) == seq![a] + fields_of(rest),
{
    let t = a + seq![32u8] + rest;
    assert(t[0] == a[0]);
    assert(!is_space(t[0]));
    assert forall|j: int| 0 <= j < a.len() implies !is_space(#[trigger] t[j]) by {
        assert(t[j] == a[j]);
    }
    assert(t[a.len() as int] == 32);
    lemma_token_end_is(t, a.len() as int);
    assert(t.take(a.len() as int) =~= a);
    let u = t.skip(a.len() as int);
    assert(u =~= seq![32u8] + rest);
    assert(u.skip(1) =~= rest);
    assert(fields_of(t) == seq![a] + fields_of(u));
    assert(fields_of(u) == fields_of(rest));
}

/// A lone field is the whole field list.
proof fn lemma_fields_one(a: Seq<u8>)
    requires
        a.len() > 0,
        field_safe(a),
    ensures
        fields_of(a) == seq![a],
{
    lemma_token_end_is(a, a.len() as int);
    assert(a.take(a.len() as int) =~= a);
    assert(a.skip(a.len() as int) =~= Seq::<u8>::empty());
    assert(fields_of(Seq::<u8>::empty()) == Seq::<Seq<u8>>::empty());
    assert(seq![a] + Seq::<Seq<u8>>::empty() =~= seq![a]);
}

/// A record the writer emitted, read back: the same record, with a
/// root's self-reference restored to the no-parent sentinel.
pub open spec fn reparse_node(n: Node) -> Node {
    Node {
        parent_id: if n.parent_id == n.node_id {
            NO_PARENT
        } else {
            n.parent_id
        },
        ..n
    }
}

/// One written line holds exactly seven fields.
#[verifier::rlimit(100)]
proof fn lemma_record_body_fields(n: Node)
    ensures
        fields_of(record_body(n)) == seq![
            dec_digits(n.node_id as int),
            dec_digits(code_of_structure(n.structured_identifier) as int),
            fixed_bytes(n.x_pos as int),
            fixed_bytes(n.y_pos as int),
            fixed_bytes(n.z_pos as int),
            dec_digits(n.radius as int),
            parent_field(n),
        ],
{
    reveal(record_body);
    let s32 = seq![32u8];
    let f0 = dec_digits(n.node_id as int);
    let f1 = dec_digits(code_of_structure(n.structured_identifier) as int);
    let f2 = fixed_bytes(n.x_pos as int);
    let f3 = fixed_bytes(n.y_pos as int);
    let f4 = fixed_bytes(n.z_pos as int);
    let f5 = dec_digits(n.radius as int);
    let f6 = parent_field(n);
    lemma_dec_digits(n.node_id as int);
    lemma_dec_digits(code_of_structure(n.structured_identifier) as int);
    lemma_dec_digits(n.radius as int);
    lemma_digits_field_safe(f0);
    lemma_digits_field_safe(f1);
    lemma_digits_field_safe(f5);
    lemma_fixed_field_safe(n.x_pos as int);
    lemma_fixed_field_safe(n.y_pos as int);
    lemma_fixed_field_safe(n.z_pos as int);
    if n.parent_id == n.node_id {
        assert(field_safe(f6));
        assert(f6.len() == 2);
    } else {
        lemma_dec_digits(n.parent_id as int);
        lemma_digits_field_safe(f6);
    }
    let r5 = f5 + s32 + f6;
    let r4 = f4 + s32 + r5;
    let r3 = f3 + s32 + r4;
    let r2 = f2 + s32 + r3;
    let r1 = f1 + s32 + r2;
    assert(record_body(n) =~= f0 + s32 + r1);
    lemma_fields_join(f0, r1);
    assert(r1 =~= f1 + s32 + r2);
    lemma_fields_join(f1, r2);
    assert(r2 =~= f2 + s32 + r3);
    lemma_fields_join(f2, r3);
    assert(r3 =~= f3 + s32 + r4);
    lemma_fields_join(f3, r4);
    assert(r4 =~= f4 + s32 + r5);
    lemma_fields_join(f4, r5);
    assert(r5 =~= f5 + s32 + f6);
    lemma_fields_join(f5, f6);
    lemma_fields_one(f6);
    assert(fields_of(record_body(n)) =~= seq![f0, f1, f2, f3, f4, f5, f6]);
}

/// One written line reads back as the same record.
proof fn lemma_record_body_parse(n: Node)
    requires
        n.in_bounds(),
        n.parent_id == n.node_id || n.parent_id < 0x8000_0000_0000_0000,
    ensures
        record_parse(record_body(n)) == Some(reparse_node(n)),
{
    lemma_record_body_fields(n);
    let fs = fields_of(record_body(n));
    lemma_u64_round_trip(n.node_id);
    lemma_u64_round_trip(code_of_structure(n.structured_identifier) as u64);
    assert(dec_digits(code_of_structure(n.structured_identifier) as u64 as int) == dec_digits(
        code_of_structure(n.structured_identifier) as int,
    ));
    lemma_fixed_round_trip(n.x_pos as int);
    lemma_fixed_round_trip(n.y_pos as int);
    lemma_fixed_round_trip(n.z_pos as int);
    lemma_u64_round_trip(n.radius);
    assert(structure_of_code(code_of_structure(n.structured_identifier))
        == n.structured_identifier);
    if n.parent_id == n.node_id {
        let pf = seq![45u8, 49u8];
        assert(fs[6] == pf);
        assert(crate::numbers::sign_neg(pf));
        let b = crate::numbers::sign_body(pf);
        assert(b =~= seq![49u8]);
        assert(all_digits(b));
        assert(seq![49u8].drop_last() =~= Seq::<u8>::empty());
        assert(digits_val(Seq::<u8>::empty()) == 0);
        assert(digits_val(seq![49u8]) == 1);
        assert(digits_val(b) == 1);
        assert(crate::numbers::i64_parse(pf) == Some(-1i64));
    } else {
        let pf = dec_digits(n.parent_id as int);
        lemma_dec_digits(n.parent_id as int);
        assert(is_digit(pf[0]));
        assert(crate::numbers::sign_body(pf) == pf);
        assert(!crate::numbers::sign_neg(pf));
        assert(crate::numbers::i64_parse(pf) == Some(n.parent_id as i64));
    }
}

/// A break-free piece followed by a newline is the first line of what
/// follows.
proof fn lemma_lines_unfold(a: Seq<u8>, rest: Seq<u8>)
    requires
        no_break(a),
    ensures
        lines_of(a + seq![10u8] + rest) == seq![a] + lines_of(rest),
{
    let t = a + seq![10u8] + rest;
    assert forall|j: int| 0 <= j < a.len() implies #[trigger] t[j] != 10 by {
        assert(t[j] == a[j]);
    }
    assert(t[a.len() as int] == 10);
    lemma_find_byte_is(t, 10, a.len() as int);
    assert(t.len() > 0);
    assert(t.take(a.len() as int) =~= a);
    assert(t.skip(a.len() as int + 1) =~= rest);
    if a.len() > 0 {
        assert(a.last() != 13);
    }
    assert(strip_cr(a) == a);
}

/// No written byte of a record line is a newline or carriage return.
proof fn lemma_record_body_no_break(n: Node)
    ensures
        no_break(record_body(n)),
        record_body(n).len() > 0,
        record_body(n)[0] != 35,
{
    reveal(record_body);
    let s32 = seq![32u8];
    let f0 = dec_digits(n.node_id as int);
    let f1 = dec_digits(code_of_structure(n.structured_identifier) as int);
    let f2 = fixed_bytes(n.x_pos as int);
    let f3 = fixed_bytes(n.y_pos as int);
    let f4 = fixed_bytes(n.z_pos as int);
    let f5 = dec_digits(n.radius as int);
    let f6 = parent_field(n);
    lemma_dec_digits(n.node_id as int);
    lemma_dec_digits(code_of_structure(n.structured_identifier) as int);
    lemma_dec_digits(n.radius as int);
    lemma_digits_field_safe(f0);
    lemma_digits_field_safe(f1);
    lemma_digits_field_safe(f5);
    lemma_fixed_field_safe(n.x_pos as int);
    lemma_fixed_field_safe(n.y_pos as int);
    lemma_fixed_field_safe(n.z_pos as int);
    assert(no_break(f2)) by {
        assert forall|i: int| 0 <= i < f2.len() implies (#[trigger] f2[i]) != 10 && f2[i] != 13 by {
            assert(!is_space(f2[i]) && f2[i] != 10);
        }
    }
    assert(no_break(f3)) by {
        assert forall|i: int| 0 <= i < f3.len() implies (#[trigger] f3[i]) != 10 && f3[i] != 13 by {
            assert(!is_space(f3[i]) && f3[i] != 10);
        }
    }
    assert(no_break(f4)) by {
        assert forall|i: int| 0 <= i < f4.len() implies (#[trigger] f4[i]) != 10 && f4[i] != 13 by {
            assert(!is_space(f4[i]) && f4[i] != 10);
        }
    }
    if n.parent_id == n.node_id {
        assert(no_break(f6));
    } else {
        lemma_dec_digits(n.parent_id as int);
        lemma_digits_field_safe(f6);
    }
    assert(no_break(s32));
    lemma_no_break_concat(f0, s32);
    lemma_no_break_concat(f0 + s32, f1);
    lemma_no_break_concat(f0 + s32 + f1, s32);
    lemma_no_break_concat(f0 + s32 + f1 + s32, f2);
    lemma_no_break_concat(f0 + s32 + f1 + s32 + f2, s32);
    lemma_no_break_concat(f0 + s32 + f1 + s32 + f2 + s32, f3);
    lemma_no_break_concat(f0 + s32 + f1 + s32 + f2 + s32 + f3, s32);
    lemma_no_break_concat(f0 + s32 + f1 + s32 + f2 + s32 + f3 + s32, f4);
    lemma_no_break_concat(f0 + s32 + f1 + s32 + f2 + s32 + f3 + s32 + f4, s32);
    lemma_no_break_concat(f0 + s32 + f1 + s32 + f2 + s32 + f3 + s32 + f4 + s32, f5);
    lemma_no_break_concat(f0 + s32 + f1 + s32 + f2 + s32 + f3 + s32 + f4 + s32 + f5, s32);
    lemma_no_break_concat(f0 + s32 + f1 + s32 + f2 + s32 + f3 + s32 + f4 + s32 + f5 + s32, f6);
    assert(record_body(n)[0] == f0[0]);
    assert(is_digit(f0[0]));
}

/// The record lines peel off from the front, one per record.
#[verifier::rlimit(100)]
proof fn lemma_swc_lines_front(ns: Seq<Node>)
    requires
        ns.len() > 0,
    ensures
        swc_lines(ns) == record_body(ns[0]) + seq![10u8] + swc_lines(ns.skip(1)),
    decreases ns.len(),
{
    if ns.len() == 1 {
        assert(ns.drop_last().len() == 0);
        assert(ns.skip(1).len() == 0);
        assert(swc_lines(ns.drop_last()) =~= Seq::<u8>::empty());
        assert(swc_lines(ns.skip(1)) =~= Seq::<u8>::empty());
        assert(ns[0] == ns.last());
        assert(swc_lines(ns) == swc_lines(ns.drop_last()) + record_body(ns.last()) + seq![10u8]);
        assert(swc_lines(ns) =~= record_body(ns[0]) + seq![10u8] + swc_lines(ns.skip(1)));
    } else {
        let dl = ns.drop_last();
        lemma_swc_lines_front(dl);
        assert(dl[0] == ns[0]);
        assert(ns.skip(1).drop_last() =~= dl.skip(1));
        assert(ns.skip(1).last() == ns.last());
        assert(swc_lines(ns.skip(1)) == swc_lines(dl.skip(1)) + record_body(ns.last()) + seq![
            10u8,
        ]);
        assert(swc_lines(ns) =~= record_body(ns[0]) + seq![10u8] + swc_lines(ns.skip(1)));
    }
}

/// The written record lines split back into one line per record.
proof fn lemma_swc_lines_split(ns: Seq<Node>)
    ensures
        lines_of(swc_lines(ns)).len() == ns.len(),
        forall|j: int|
            0 <= j < ns.len() ==> lines_of(swc_lines(ns))[j] == record_body(#[trigger] ns[j]),
    decreases ns.len(),
{
    if ns.len() == 0 {
        assert(swc_lines(ns).len() == 0);
    } else {
        lemma_swc_lines_front(ns);
        lemma_record_body_no_break(ns[0]);
        lemma_lines_unfold(record_body(ns[0]), swc_lines(ns.skip(1)));
        lemma_swc_lines_split(ns.skip(1));
        assert forall|j: int|
            0 <= j < ns.len() implies lines_of(swc_lines(ns))[j] == record_body(
            #[trigger] ns[j],
        ) by {
            if j > 0 {
                assert(lines_of(swc_lines(ns))[j] == lines_of(swc_lines(ns.skip(1)))[j - 1]);
                assert(ns.skip(1)[j - 1] == ns[j]);
            }
        }
    }
}

proof fn lemma_header_no_break()
    ensures
        no_break(header_body()),
        header_body().len() == 20,
        header_body()[0] == 35,
{
    let h = header_body();
    assert(h[0] == 35 && h[1] == 32 && h[2] == 80 && h[3] == 114 && h[4] == 111 && h[5] == 99
        && h[6] == 101 && h[7] == 115 && h[8] == 115 && h[9] == 101 && h[10] == 100 && h[11] == 32
        && h[12] == 83 && h[13] == 87 && h[14] == 67 && h[15] == 32 && h[16] == 102 && h[17] == 105
        && h[18] == 108 && h[19] == 101);
    assert forall|i: int| 0 <= i < h.len() implies (#[trigger] h[i]) != 10 && h[i] != 13 by {
        assert(0 <= i < 20);
    }
}

/// A parsed line list whose head is a comment and whose tail parses one
/// record per line holds exactly those records.
proof fn lemma_records_of_parsed(ls: Seq<Seq<u8>>, ms: Seq<Node>)
    requires
        ls.len() == ms.len() + 1,
        is_comment(ls[0]),
        forall|j: int|
            0 <= j < ms.len() ==> !is_comment(#[trigger] ls[j + 1]) && record_parse(ls[j + 1])
                == Some(ms[j]),
    ensures
        records_of(ls) == ms,
    decreases ms.len(),
{
    if ms.len() == 0 {
        assert(ls.drop_last().len() == 0);
        assert(ls.last() == ls[0]);
        assert(is_comment(ls.last()));
        assert(records_of(ls.drop_last()) =~= Seq::<Node>::empty());
        assert(records_of(ls) == records_of(ls.drop_last()) + Seq::<Node>::empty());
        assert(records_of(ls) =~= ms);
    } else {
        lemma_records_of_parsed(ls.drop_last(), ms.drop_last());
        assert(ls.last() == ls[ms.len() as int]);
        assert(record_parse(ls.last()) == Some(ms[ms.len() - 1]));
        assert(records_of(ls) =~= ms.drop_last() + seq![ms.last()]);
        assert(ms.drop_last() + seq![ms.last()] =~= ms);
    }
}

/// Writing records and reading the file back is the identity on the
/// records, with a root's self-reference restored to the no-parent
/// sentinel; no line of the written file is rejected under any flags.
pub proof fn lemma_write_read_round_trip(ns: Seq<Node>)
    requires
        forall|i: int| 0 <= i < ns.len() ==> (#[trigger] ns[i]).in_bounds(),
        forall|i: int| 0 <= i < ns.len() ==> (#[trigger] ns[i]).radius >= 1,
        forall|i: int|
            0 <= i < ns.len() ==> ((#[trigger] ns[i]).parent_id == ns[i].node_id
                || ns[i].parent_id < 0x8000_0000_0000_0000),
    ensures
        lines_of(swc_bytes(ns)).len() == ns.len() + 1,
        forall|j: int, w: bool, s: bool|
            0 <= j < lines_of(swc_bytes(ns)).len() ==> !#[trigger] line_fails(
                lines_of(swc_bytes(ns))[j],
                w,
                s,
            ),
        records_of(lines_of(swc_bytes(ns))) == ns.map_values(|n: Node| reparse_node(n)),
{
    let ls = lines_of(swc_bytes(ns));
    lemma_header_no_break();
    lemma_lines_unfold(header_body(), swc_lines(ns));
    assert(swc_bytes(ns) =~= header_body() + seq![10u8] + swc_lines(ns));
    lemma_swc_lines_split(ns);
    assert(ls.len() == ns.len() + 1);
    assert(is_comment(ls[0]));
    let ms = ns.map_values(|n: Node| reparse_node(n));
    assert forall|j: int|
        0 <= j < ms.len() implies !is_comment(#[trigger] ls[j + 1]) && record_parse(ls[j + 1])
        == Some(ms[j]) by {
        assert(ls[j + 1] == lines_of(swc_lines(ns))[j]);
        assert(ls[j + 1] == record_body(ns[j]));
        lemma_record_body_no_break(ns[j]);
        lemma_record_body_parse(ns[j]);
        assert(ms[j] == reparse_node(ns[j]));
    }
    lemma_records_of_parsed(ls, ms);
    assert forall|j: int, w: bool, s: bool| 0 <= j < ls.len() implies !#[trigger] line_fails(
        ls[j],
        w,
        s,
    ) by {
        if j > 0 {
            assert(ls[j] == lines_of(swc_lines(ns))[j - 1]);
            assert(ls[j] == record_body(ns[j - 1]));
            lemma_record_body_parse(ns[j - 1]);
            assert(record_parse(ls[j]) == Some(reparse_node(ns[j - 1])));
            assert(reparse_node(ns[j - 1]).radius >= 1);
        }
    }
}

proof fn lemma_cat2_assemble(rs: Seq<Node>, order: Seq<u64>, rs2: Seq<Node>, n: int, k: int)
    requires
        0 <= k <= n,
        n == order.len(),
        n == rs2.len(),
        n == 1 + children_cat(rs, order, n).len(),
        forall|t: int|
            0 <= t < n ==> children_of(rs2, t as u64) == idseq(n).subrange(
                1 + children_cat(rs, order, t).len() as int,
                1 + children_cat(rs, order, #[trigger] (t + 1)).len() as int,
            ),
    ensures
        children_cat(rs2, idseq(n), k) == idseq(n).subrange(
            1,
            1 + children_cat(rs, order, k).len() as int,
        ),
    decreases k,
{
    if k == 0 {
        assert(children_cat(rs2, idseq(n), 0) =~= idseq(n).subrange(1, 1));
    } else {
        lemma_cat2_assemble(rs, order, rs2, n, k - 1);
        lemma_cat_len_mono(rs, order, k, n);
        assert(idseq(n)[k - 1] == (k - 1) as u64);
        assert(children_of(rs2, (k - 1) as u64) == idseq(n).subrange(
            1 + children_cat(rs, order, k - 1).len() as int,
            1 + children_cat(rs, order, (k - 1) + 1).len() as int,
        ));
        assert(children_cat(rs2, idseq(n), k) =~= idseq(n).subrange(
            1,
            1 + children_cat(rs, order, k).len() as int,
        ));
    }
}

/// The records a finished read leaves behind, written and re-read, are
/// in the canonical shape a walk recognizes as its own: positions for
/// identifiers, parents preceding children, and the root-then-children
/// layout.
#[verifier::rlimit(100)]
pub proof fn lemma_reparse_canonical(rs: Seq<Node>, order: Seq<u64>, ns: Seq<Node>)
    requires
        canon_ids(rs),
        has_root(rs),
        1 <= order.len() <= 0x8000_0000_0000_0000,
        order == seq![root_id_of(rs)] + children_cat(rs, order, order.len() as int),
        order.no_duplicates(),
        forall|i: int| 0 <= i < order.len() ==> is_node_id(rs, #[trigger] order[i]),
        forall|i: int|
            1 <= i < order.len() ==> exists|j: int|
                0 <= j < i && is_child_edge(rs, order[j], #[trigger] order[i]),
        ns.len() == order.len(),
        forall|i: int| 0 <= i < ns.len() ==> (#[trigger] ns[i]) == normalized_node(rs, order, i),
    ensures
        canonical_bfs_form(ns.map_values(|m: Node| reparse_node(m))),
        ns[0].parent_id == ns[0].node_id,
        forall|i: int|
            0 <= i < ns.len() ==> (#[trigger] ns[i]).parent_id == ns.map_values(
                |m: Node| reparse_node(m),
            )[i].parent_id || i == 0,
{
    let n = order.len() as int;
    let rs2 = ns.map_values(|m: Node| reparse_node(m));
    let ids = idseq(n);
    lemma_root_pos_props(rs);
    let rootid = root_id_of(rs);
    assert(order[0] == rootid);
    // The root's own record keeps the sentinel, so position 0 maps to
    // itself and reads back as the sentinel.
    let rp = root_pos(rs);
    assert forall|j: int| rp < j < rs.len() implies rs[j].node_id != rootid by {
        assert(rs[j].node_id != rs[rp].node_id);
    }
    lemma_last_with_id_found(rs, rootid, rp);
    assert(ns[0] == normalized_node(rs, order, 0));
    assert(ns[0].parent_id == 0 && ns[0].node_id == 0);
    assert(rs2[0] == reparse_node(ns[0]));
    assert(rs2[0].parent_id == NO_PARENT);
    // Each later position: its record's parent was visited earlier, and
    // the remapped parent is that earlier position.
    assert forall|i: int| 1 <= i < n implies {
        &&& ((#[trigger] ns[i]).parent_id as int) < i
        &&& last_with_id(rs, order[i]).node_id == order[i]
        &&& last_with_id(rs, order[i]).parent_id == order[ns[i].parent_id as int]
        &&& rs2[i].parent_id == ns[i].parent_id
        &&& ns[i].node_id == i as u64
    } by {
        let j = choose|j: int| 0 <= j < i && is_child_edge(rs, order[j], order[i]);
        let e = choose|e: int|
            0 <= e < rs.len() && rs[e].parent_id == order[j] && rs[e].node_id == order[i];
        assert forall|t: int| e < t < rs.len() implies rs[t].node_id != order[i] by {
            assert(rs[t].node_id != rs[e].node_id);
        }
        lemma_last_with_id_found(rs, order[i], e);
        let orig = last_with_id(rs, order[i]);
        assert(orig == rs[e]);
        assert(orig.parent_id == order[j]);
        assert(is_node_id(rs, order[j]));
        let w = choose|w: int| 0 <= w < rs.len() && rs[w].node_id == order[j];
        assert(rs[w].node_id != NO_PARENT);
        assert(orig.parent_id != NO_PARENT);
        assert(order.contains(orig.parent_id));
        let k = order.index_of(orig.parent_id);
        assert(0 <= k < order.len() && order[k] == orig.parent_id);
        if k != j {
            assert(order[k] != order[j]);
        }
        assert(ns[i] == normalized_node(rs, order, i));
        assert(ns[i].parent_id == j as u64);
        assert(ns[i].node_id == i as u64);
        assert(ns[i].parent_id != ns[i].node_id);
        assert(rs2[i] == reparse_node(ns[i]));
    }
    assert forall|i: int| 0 <= i < n implies (#[trigger] rs2[i]).node_id == i as u64 by {
        assert(ns[i] == normalized_node(rs, order, i));
        assert(rs2[i] == reparse_node(ns[i]));
    }
    // The children of position k in the re-read records are exactly the
    // positions of the corresponding block of the original walk.
    assert(order.len() == (seq![rootid] + children_cat(rs, order, n)).len());
    assert(n == 1 + children_cat(rs, order, n).len());
    assert forall|k: int|
        0 <= k < n implies children_of(rs2, k as u64) == idseq(n).subrange(
        1 + children_cat(rs, order, k).len() as int,
        1 + children_cat(rs, order, #[trigger] (k + 1)).len() as int,
    ) by {
        lemma_cat_block(rs, order, k, n);
        lemma_cat_len_mono(rs, order, k + 1, n);
        let lo = children_cat(rs, order, k).len() as int;
        let hi = children_cat(rs, order, k + 1).len() as int;
        let blk = children_of(rs, order[k]);
        assert(blk == children_cat(rs, order, n).subrange(lo, hi));
        let sk = 1 + lo;
        let ek = 1 + hi;
        assert forall|t: int| 0 <= t < blk.len() implies blk[t] == order[sk + t] by {
            assert(blk[t] == children_cat(rs, order, n)[lo + t]);
            assert(order[sk + t] == (seq![rootid] + children_cat(rs, order, n))[sk + t]);
        }
        lemma_children_edge(rs, order[k]);
        assert forall|i: int|
            0 <= i < n implies ((#[trigger] rs2[i]).parent_id == k as u64 <==> sk <= i < ek) by {
            if sk <= i < ek {
                assert(order[i] == blk[i - sk]);
                assert(blk.contains(order[i]));
                assert(is_child_edge(rs, order[k], order[i]));
                let e2 = choose|e2: int|
                    0 <= e2 < rs.len() && rs[e2].parent_id == order[k] && rs[e2].node_id
                        == order[i];
                assert(is_node_id(rs, order[i]));
                lemma_last_with_id_element(rs, order[i]);
                let e3 = choose|e3: int|
                    0 <= e3 < rs.len() && last_with_id(rs, order[i]) == rs[e3];
                assert(rs[e3].node_id == order[i]);
                if e2 != e3 {
                    assert(rs[e2].node_id != rs[e3].node_id);
                }
                assert(last_with_id(rs, order[i]).parent_id == order[k]);
                assert(order[ns[i].parent_id as int] == order[k]);
                if ns[i].parent_id as int != k {
                    assert(order[ns[i].parent_id as int] != order[k]);
                }
                assert(rs2[i].parent_id == k as u64);
            }
            if rs2[i].parent_id == k as u64 && !(sk <= i < ek) {
                assert(i != 0);
                let kk = ns[i].parent_id as int;
                assert(kk == k);
                assert(last_with_id(rs, order[i]).parent_id == order[k]);
                assert(last_with_id(rs, order[i]).node_id == order[i]);
                lemma_last_with_id_element(rs, order[i]);
                let e3 = choose|e3: int|
                    0 <= e3 < rs.len() && last_with_id(rs, order[i]) == rs[e3];
                assert(is_child_edge(rs, order[k], order[i]));
                assert(blk.contains(order[i]));
                let t = choose|t: int| 0 <= t < blk.len() && blk[t] == order[i];
                assert(order[sk + t] == order[i]);
                if sk + t != i {
                    assert(order[sk + t] != order[i]);
                }
            }
        }
        lemma_children_of_interval(rs2, k as u64, sk, ek);
    }
    lemma_cat2_assemble(rs, order, rs2, n, n);
    assert(children_cat(rs2, ids, n) == ids.subrange(1, n));
    assert(ids =~= seq![0u64] + children_cat(rs2, ids, n));
    assert forall|i: int| 1 <= i < n implies ((#[trigger] rs2[i]).parent_id as int) < i by {
        assert(rs2[i].parent_id == ns[i].parent_id);
        assert((ns[i].parent_id as int) < i);
    }
    assert(canonical_bfs_form(rs2));
}

/// The whole round trip: records a read produced, written out and read
/// back, walk in position order and normalize to themselves — the same
/// tree in topology, identifiers and geometry.
pub proof fn lemma_second_read_identical(ns: Seq<Node>)
    requires
        1 <= ns.len() <= 0x8000_0000_0000_0000,
        ns[0].parent_id == ns[0].node_id,
        forall|i: int| 0 <= i < ns.len() ==> (#[trigger] ns[i]).in_bounds(),
        forall|i: int| 0 <= i < ns.len() ==> (#[trigger] ns[i]).radius >= 1,
        canonical_bfs_form(ns.map_values(|m: Node| reparse_node(m))),
    ensures
        ({
            let rs2 = records_of(lines_of(swc_bytes(ns)));
            &&& rs2 == ns.map_values(|m: Node| reparse_node(m))
            &&& forall|j: int, w: bool, s: bool|
                0 <= j < lines_of(swc_bytes(ns)).len() ==> !#[trigger] line_fails(
                    lines_of(swc_bytes(ns))[j],
                    w,
                    s,
                )
            &&& has_root(rs2)
            &&& root_pos(rs2) == 0
            &&& root_id_of(rs2) == 0
            &&& bfs_spec(rs2, seq![0u64], Seq::<u64>::empty()) == idseq(ns.len() as int)
            &&& forall|i: int|
                0 <= i < ns.len() ==> normalized_node(rs2, idseq(ns.len() as int), i) == (
                #[trigger] ns[i])
        }),
{
    let n = ns.len() as int;
    let rs2m = ns.map_values(|m: Node| reparse_node(m));
    assert forall|i: int|
        0 <= i < n implies ((#[trigger] ns[i]).parent_id == ns[i].node_id || ns[i].parent_id
        < 0x8000_0000_0000_0000) by {
        if ns[i].parent_id != ns[i].node_id {
            assert(rs2m[i] == reparse_node(ns[i]));
            assert(rs2m[i].parent_id == ns[i].parent_id);
            if i > 0 {
                assert((rs2m[i].parent_id as int) < i);
            }
        }
    }
    lemma_write_read_round_trip(ns);
    assert(rs2m[0].parent_id == NO_PARENT);
    assert forall|j: int| 0 <= j < 0 implies rs2m[j].parent_id != NO_PARENT by {}
    lemma_root_pos_is(rs2m, 0);
    assert(rs2m[0].node_id == 0);
    assert(root_id_of(rs2m) == 0);
    assert(has_root(rs2m));
    lemma_bfs_identity(rs2m);
    let ids = idseq(n);
    assert forall|i: int|
        0 <= i < n implies normalized_node(rs2m, ids, i) == (#[trigger] ns[i]) by {
        assert(ids[i] == i as u64);
        assert(rs2m[i].node_id == i as u64);
        assert(rs2m[i] == reparse_node(ns[i]));
        assert forall|j: int| i < j < rs2m.len() implies rs2m[j].node_id != i as u64 by {
            assert(rs2m[j].node_id == j as u64);
        }
        lemma_last_with_id_found(rs2m, i as u64, i);
        assert(last_with_id(rs2m, ids[i]) == rs2m[i]);
        assert(ns[i].node_id == i as u64);
        assert(ns[i].radius == rs2m[i].radius);
        assert(ns[i].radius >= 1);
        if i == 0 {
            assert(ns[0].parent_id == 0);
            assert(normalized_node(rs2m, ids, 0) == ns[0]);
        } else {
            let k = rs2m[i].parent_id;
            assert((k as int) < i);
            assert(k != NO_PARENT);
            assert(ns[i].parent_id == k);
            assert(ids[k as int] == k);
            assert(ids.contains(k));
            let t = ids.index_of(k);
            assert(0 <= t < ids.len() && ids[t] == k);
            assert(t as u64 == k);
            assert(t == k as int);
            assert(normalized_node(rs2m, ids, i) == ns[i]);
        }
    }
}

/// A written file whose first record is a root reads back successfully:
/// no line is rejected under any flags, and the no-parent sentinel is
/// there to be found again.
pub proof fn lemma_written_file_reads_ok(ns: Seq<Node>)
    requires
        ns.len() >= 1,
        ns[0].parent_id == ns[0].node_id,
        forall|i: int| 0 <= i < ns.len() ==> (#[trigger] ns[i]).in_bounds(),
        forall|i: int| 0 <= i < ns.len() ==> (#[trigger] ns[i]).radius >= 1,
        forall|i: int|
            0 <= i < ns.len() ==> ((#[trigger] ns[i]).parent_id == ns[i].node_id
                || ns[i].parent_id < 0x8000_0000_0000_0000),
    ensures
        forall|w: bool, s: bool| #[trigger]
            crate::swc_reader::parse_clean(lines_of(swc_bytes(ns)), w, s),
        has_root(records_of(lines_of(swc_bytes(ns)))),
        records_of(lines_of(swc_bytes(ns))) == ns.map_values(|n: Node| reparse_node(n)),
{
    lemma_write_read_round_trip(ns);
    let ms = ns.map_values(|n: Node| reparse_node(n));
    assert(ms[0].parent_id == NO_PARENT);
    assert(records_of(lines_of(swc_bytes(ns)))[0].parent_id == NO_PARENT);
}

} // verus!
