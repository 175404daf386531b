use vstd::prelude::*;
use crate::bytes::{be16_at, be32_at, be32_bytes, lemma_be32_roundtrip, spec_read_u32};
use crate::checksum::{
    adjustment_for, lemma_adjusted_checksum_is_magic, lemma_put_be32_bytes,
    lemma_with_checksum_adjustment_len, put_be32, spec_sfnt_checksum, with_checksum_adjustment,
    SFNT_CHECKSUM_MAGIC,
};
use crate::collection::{
    copied_tables, face_location, head_tag, is_collection, lemma_copied_tables_grow,
    lemma_copied_tables_shape, lemma_pad4, lemma_put_be32_len, pad4, record_at,
    spec_extract_collection_face, table_source,
};
use crate::sfnt::{is_sfnt_scaler, spec_supported_sfnt, tag4, tag_at};

verus! {

/// Where table `i` starts in the standalone face: the length of the face built before it.
#[verifier::opaque]
pub open spec fn table_start(s: Seq<u8>, face: int, count: int, i: int) -> int {
    copied_tables(s, face, count, i as nat)->Some_0.0.len() as int
}

/// Where the offset field of the `i`-th record of a standalone face lies.
pub open spec fn offset_field(i: int) -> int {
    12 + 16 * i + 8
}

/// Whether the record fields other than the offset (tag, checksum, length) of every record
/// of `o` are those of the face at `face` of `s`.
pub open spec fn records_kept(o: Seq<u8>, s: Seq<u8>, face: int, count: int) -> bool {
    forall|i: int|
        0 <= i < count ==> #[trigger] o.subrange(12 + 16 * i, 20 + 16 * i) == s.subrange(
            record_at(face, i),
            record_at(face, i) + 8,
        ) && o.subrange(24 + 16 * i, 28 + 16 * i) == s.subrange(
            record_at(face, i) + 12,
            record_at(face, i) + 16,
        )
}

/// Whether table `i` of the face at `face` of `s` stands in `o` where it was appended, its
/// record's offset field naming that place modulo 2^32.
pub open spec fn table_placed(o: Seq<u8>, s: Seq<u8>, face: int, count: int, i: int) -> bool {
    let start = table_start(s, face, count, i);
    let (source, length) = table_source(s, face, i);
    &&& 12 + 16 * count <= start
    &&& start + length <= o.len()
    &&& source + length <= s.len()
    &&& be32_at(o, offset_field(i)) == start % 0x1_0000_0000
    &&& o.subrange(start, start + length) == s.subrange(source, source + length)
}

/// Whether the tables before table `k` start in the order they were copied, each after the
/// end of the one before.
pub open spec fn starts_ordered(s: Seq<u8>, face: int, count: int, k: int) -> bool {
    forall|i: int, i2: int|
        0 <= i < i2 < k ==> #[trigger] table_start(s, face, count, i) + table_source(
            s,
            face,
            i,
        ).1 <= #[trigger] table_start(s, face, count, i2)
}

/// Whether `head` names a table among the first `k` that is tagged `head`, by its start and
/// length.
pub open spec fn head_found(
    s: Seq<u8>,
    face: int,
    count: int,
    k: int,
    head: Option<(int, int)>,
) -> bool {
    head matches Some((ho, hl)) ==> exists|i: int|
        0 <= i < k && tag_at(s, record_at(face, i), head_tag()) && ho == #[trigger] table_start(
            s,
            face,
            count,
            i,
        ) && hl == table_source(s, face, i).1
}

/// What holds of the face built from the first `k` tables.
#[verifier::opaque]
pub open spec fn layout_holds(s: Seq<u8>, face: int, count: int, k: nat) -> bool {
    let (o, head) = copied_tables(s, face, count, k)->Some_0;
    &&& o.subrange(0, 12) == s.subrange(face, face + 12)
    &&& records_kept(o, s, face, count)
    &&& forall|i: int| 0 <= i < k ==> #[trigger] table_placed(o, s, face, count, i)
    &&& starts_ordered(s, face, count, k as int)
    &&& head_found(s, face, count, k as int, head)
}

/// Writing four bytes at `at` leaves every range clear of them as it was.
proof fn lemma_put_keeps(o: Seq<u8>, at: int, v: u32, a: int, b: int)
    requires
        0 <= at,
        at + 4 <= o.len(),
        0 <= a <= b <= o.len(),
        b <= at || at + 4 <= a,
    ensures
        put_be32(o, at, v).subrange(a, b) == o.subrange(a, b),
{
    lemma_put_be32_len(o, at, v);
    assert(put_be32(o, at, v).subrange(a, b) =~= o.subrange(a, b));
}

/// The word written at `at` reads back.
proof fn lemma_put_reads_back(o: Seq<u8>, at: int, v: u32)
    requires
        0 <= at,
        at + 4 <= o.len(),
    ensures
        be32_at(put_be32(o, at, v), at) == v,
{
    lemma_be32_roundtrip(v);
    let t = put_be32(o, at, v);
    let b = be32_bytes(v);
    assert(t[at] == b[0]);
    assert(t[at + 1] == b[1]);
    assert(t[at + 2] == b[2]);
    assert(t[at + 3] == b[3]);
}

/// A word lying in a range that is kept is kept.
proof fn lemma_word_kept(o: Seq<u8>, t: Seq<u8>, a: int, b: int, at: int)
    requires
        0 <= a <= at,
        at + 4 <= b,
        b <= o.len(),
        b <= t.len(),
        t.subrange(a, b) == o.subrange(a, b),
    ensures
        be32_at(t, at) == be32_at(o, at),
{
    assert(t[at] == t.subrange(a, b)[at - a]);
    assert(t[at + 1] == t.subrange(a, b)[at + 1 - a]);
    assert(t[at + 2] == t.subrange(a, b)[at + 2 - a]);
    assert(t[at + 3] == t.subrange(a, b)[at + 3 - a]);
}

/// Everything clear of the new offset field in the face built so far stays as it was when
/// one more table is copied.
proof fn lemma_step_keeps(o: Seq<u8>, at: int, v: u32, table: Seq<u8>, a: int, b: int)
    requires
        0 <= at,
        at + 4 <= o.len(),
        0 <= a <= b <= o.len(),
        b <= at || at + 4 <= a,
    ensures
        pad4(put_be32(o, at, v) + table).subrange(a, b) == o.subrange(a, b),
{
    lemma_put_keeps(o, at, v, a, b);
    lemma_put_be32_len(o, at, v);
    let appended = put_be32(o, at, v) + table;
    assert(pad4(appended).subrange(a, b) =~= appended.subrange(a, b));
    assert(appended.subrange(a, b) =~= put_be32(o, at, v).subrange(a, b));
}

/// The header and the record fields other than the offsets survive copying one more table.
proof fn lemma_step_records(s: Seq<u8>, face: int, count: int, o: Seq<u8>, at: int, v: u32, table: Seq<u8>)
    requires
        0 <= count,
        o.len() >= 12 + 16 * count,
        exists|i: int| 0 <= i < count && at == offset_field(i),
        o.subrange(0, 12) == s.subrange(face, face + 12),
        records_kept(o, s, face, count),
    ensures
        pad4(put_be32(o, at, v) + table).subrange(0, 12) == s.subrange(face, face + 12),
        records_kept(pad4(put_be32(o, at, v) + table), s, face, count),
{
    let next = pad4(put_be32(o, at, v) + table);
    let i = choose|i: int| 0 <= i < count && at == offset_field(i);
    lemma_step_keeps(o, at, v, table, 0, 12);
    assert forall|r: int| 0 <= r < count implies #[trigger] next.subrange(12 + 16 * r, 20 + 16 * r)
        == s.subrange(record_at(face, r), record_at(face, r) + 8) && next.subrange(
        24 + 16 * r,
        28 + 16 * r,
    ) == s.subrange(record_at(face, r) + 12, record_at(face, r) + 16) by {
        lemma_step_keeps(o, at, v, table, 12 + 16 * r, 20 + 16 * r);
        lemma_step_keeps(o, at, v, table, 24 + 16 * r, 28 + 16 * r);
        assert(o.subrange(12 + 16 * r, 20 + 16 * r) == s.subrange(
            record_at(face, r),
            record_at(face, r) + 8,
        ));
    }
}

/// The tables placed before stay placed when one more table is copied, and the new one is
/// placed too.
proof fn lemma_step_placed(s: Seq<u8>, face: int, count: int, k: nat)
    requires
        0 <= face,
        0 <= count,
        0 < k <= count,
        face + 12 + 16 * count <= s.len(),
        copied_tables(s, face, count, k) is Some,
        copied_tables(s, face, count, (k - 1) as nat) is Some,
        forall|i: int|
            0 <= i < k - 1 ==> #[trigger] table_placed(
                copied_tables(s, face, count, (k - 1) as nat)->Some_0.0,
                s,
                face,
                count,
                i,
            ),
    ensures
        forall|i: int|
            0 <= i < k ==> #[trigger] table_placed(
                copied_tables(s, face, count, k)->Some_0.0,
                s,
                face,
                count,
                i,
            ),
{
    let p = (k - 1) as nat;
    lemma_copied_tables_shape(s, face, count, p);
    let (o, head) = copied_tables(s, face, count, p)->Some_0;
    let i = p as int;
    let (source, length) = table_source(s, face, i);
    let start = o.len() as int;
    let at = offset_field(i);
    let v = (start % 0x1_0000_0000) as u32;
    let patched = put_be32(o, at, v);
    lemma_put_be32_len(o, at, v);
    let table = s.subrange(source, source + length);
    let appended = patched + table;
    let next = pad4(appended);
    lemma_pad4(appended);
    assert(copied_tables(s, face, count, k)->Some_0.0 == next);
    assert forall|j: int| 0 <= j < k implies #[trigger] table_placed(next, s, face, count, j) by {
        if j < i {
            assert(table_placed(o, s, face, count, j));
            let sj = table_start(s, face, count, j);
            let lj = table_source(s, face, j).1;
            lemma_step_keeps(o, at, v, table, sj, sj + lj);
            lemma_step_keeps(o, at, v, table, offset_field(j), offset_field(j) + 4);
            lemma_word_kept(o, next, offset_field(j), offset_field(j) + 4, offset_field(j));
        } else {
            assert(table_start(s, face, count, i) == start) by {
                reveal(table_start);
            }
            assert(next.subrange(start, start + length) =~= table);
            lemma_put_reads_back(o, at, v);
            assert(next.subrange(0, patched.len() as int) =~= patched);
            assert(patched.subrange(0, patched.len() as int) =~= patched);
            lemma_word_kept(patched, next, 0, patched.len() as int, at);
        }
    }
}

/// What holds of the face built from the first `k` tables, by induction on `k`.
proof fn lemma_layout_holds(s: Seq<u8>, face: int, count: int, k: nat)
    requires
        0 <= face,
        0 <= count,
        k <= count,
        face + 12 + 16 * count <= s.len(),
        copied_tables(s, face, count, k) is Some,
    ensures
        layout_holds(s, face, count, k),
    decreases k,
{
    reveal(layout_holds);
    if k == 0 {
        let o = s.subrange(face, face + 12 + 16 * count);
        assert(o.subrange(0, 12) =~= s.subrange(face, face + 12));
        assert forall|i: int| 0 <= i < count implies #[trigger] o.subrange(12 + 16 * i, 20 + 16 * i)
            == s.subrange(record_at(face, i), record_at(face, i) + 8) && o.subrange(
            24 + 16 * i,
            28 + 16 * i,
        ) == s.subrange(record_at(face, i) + 12, record_at(face, i) + 16) by {
            assert(o.subrange(12 + 16 * i, 20 + 16 * i) =~= s.subrange(
                record_at(face, i),
                record_at(face, i) + 8,
            ));
            assert(o.subrange(24 + 16 * i, 28 + 16 * i) =~= s.subrange(
                record_at(face, i) + 12,
                record_at(face, i) + 16,
            ));
        }
    } else {
        let p = (k - 1) as nat;
        lemma_copied_tables_grow(s, face, count, p, k);
        lemma_layout_holds(s, face, count, p);
        lemma_copied_tables_shape(s, face, count, p);
        let (o, head) = copied_tables(s, face, count, p)->Some_0;
        let i = p as int;
        let (source, length) = table_source(s, face, i);
        let start = o.len() as int;
        let at = offset_field(i);
        let v = (start % 0x1_0000_0000) as u32;
        let table = s.subrange(source, source + length);
        assert(copied_tables(s, face, count, k)->Some_0.0 == pad4(put_be32(o, at, v) + table));
        lemma_step_records(s, face, count, o, at, v, table);
        lemma_step_placed(s, face, count, k);
        assert(table_start(s, face, count, i) == start) by {
            reveal(table_start);
        }
        assert forall|j: int, j2: int| 0 <= j < j2 < k implies #[trigger] table_start(
            s,
            face,
            count,
            j,
        ) + table_source(s, face, j).1 <= #[trigger] table_start(s, face, count, j2) by {
            if j2 == i {
                assert(table_placed(o, s, face, count, j));
            }
        }
        let next_head = copied_tables(s, face, count, k)->Some_0.1;
        if tag_at(s, record_at(face, i), head_tag()) {
            assert(next_head == Some((start, length)));
        } else {
            assert(next_head == head);
        }
    }
}

/// Byte `j` of the table that record `i` of the face `out` points at.
pub open spec fn face_table_byte(out: Seq<u8>, i: int, j: int) -> u8 {
    face_table_byte_at(out, offset_field(i), j)
}

/// Byte `j` of the table that the offset field at `field` of the face `out` points at.
pub open spec fn face_table_byte_at(out: Seq<u8>, field: int, j: int) -> u8 {
    out[be32_at(out, field) + j]
}

/// Byte `j` of the table of record `i` of the face at `face` of the collection `s`.
pub open spec fn source_table_byte(s: Seq<u8>, face: int, i: int, j: int) -> u8 {
    s[table_source(s, face, i).0 + j]
}

/// Recomputing the checksum adjustment at `at` changes no byte outside the field.
proof fn lemma_adjustment_keeps(o: Seq<u8>, at: int, p: int)
    requires
        0 <= at,
        at + 4 <= o.len(),
        0 <= p < o.len(),
        p < at || at + 4 <= p,
    ensures
        with_checksum_adjustment(o, at).len() == o.len(),
        with_checksum_adjustment(o, at)[p] == o[p],
{
    reveal(with_checksum_adjustment);
    lemma_put_be32_bytes(o, at, 0);
    let cleared = put_be32(o, at, 0);
    lemma_put_be32_bytes(cleared, at, adjustment_for(cleared));
}

/// A face extracted from a collection sums to the magic value that the OpenType
/// specification requires of every standalone font.
pub proof fn lemma_extracted_face_checksum(s: Seq<u8>, index: int)
    requires
        is_collection(s),
        spec_extract_collection_face(s, index) is Some,
    ensures
        spec_sfnt_checksum(spec_extract_collection_face(s, index)->Some_0) == SFNT_CHECKSUM_MAGIC,
{
    let (face, count) = face_location(s, index)->Some_0;
    lemma_copied_tables_shape(s, face, count, count as nat);
    let (o, head) = copied_tables(s, face, count, count as nat)->Some_0;
    let (ho, hl) = head->Some_0;
    lemma_adjusted_checksum_is_magic(o, ho + 8);
}

/// A table byte that the recomputed checksum adjustment does not overwrite is still found
/// through the record's offset field, which lies before the field.
proof fn lemma_byte_after_adjustment(o: Seq<u8>, at: int, field: int, start: int, length: int, j: int)
    requires
        0 <= field,
        field + 4 <= at,
        at + 4 <= o.len(),
        0 <= start,
        start + length <= o.len(),
        0 <= j < length,
        be32_at(o, field) == start,
        start + j < at || at + 4 <= start + j,
    ensures
        face_table_byte_at(with_checksum_adjustment(o, at), field, j) == o[start + j],
{
    lemma_adjustment_keeps(o, at, field);
    lemma_adjustment_keeps(o, at, field + 1);
    lemma_adjustment_keeps(o, at, field + 2);
    lemma_adjustment_keeps(o, at, field + 3);
    lemma_adjustment_keeps(o, at, start + j);
}

/// Byte `j` of table `i` of a face whose tables are all placed, in order, is a copy of the
/// source byte once the checksum adjustment of the `head` table `star` has been recomputed,
/// unless it is one of bytes 8 to 11 of a `head` table.
proof fn lemma_table_byte_copied(
    s: Seq<u8>,
    face: int,
    count: int,
    o: Seq<u8>,
    star: int,
    i: int,
    j: int,
)
    requires
        0 <= count,
        o.len() <= 0x1_0000_0000,
        0 <= star < count,
        0 <= i < count,
        table_placed(o, s, face, count, star),
        table_placed(o, s, face, count, i),
        starts_ordered(s, face, count, count),
        tag_at(s, record_at(face, star), head_tag()),
        table_source(s, face, star).1 >= 12,
        0 <= j < table_source(s, face, i).1,
        !tag_at(s, record_at(face, i), head_tag()) || j < 8 || 12 <= j,
    ensures
        face_table_byte(
            with_checksum_adjustment(o, table_start(s, face, count, star) + 8),
            i,
            j,
        ) == source_table_byte(s, face, i, j),
{
    let ho = table_start(s, face, count, star);
    let hl = table_source(s, face, star).1;
    let at = ho + 8;
    let start = table_start(s, face, count, i);
    let (source, length) = table_source(s, face, i);
    assert(o[start + j] == o.subrange(start, start + length)[j]);
    assert(s[source + j] == s.subrange(source, source + length)[j]);
    if i < star {
        assert(start + length <= table_start(s, face, count, star));
    } else if i > star {
        assert(ho + hl <= table_start(s, face, count, i));
    }
    lemma_byte_after_adjustment(o, at, offset_field(i), start, length, j);
}

/// A face extracted from a collection keeps the face's header and, in each table record, the
/// tag, checksum and length; and, where the face is no longer than 2^32 bytes so that its
/// offsets are exact, each record's offset points at a copy of that record's table in which
/// only bytes 8 to 11 of a `head` table (its checksum adjustment) may differ.
#[verifier::spinoff_prover]
pub proof fn lemma_extracted_face_layout(s: Seq<u8>, index: int)
    requires
        is_collection(s),
        spec_extract_collection_face(s, index) is Some,
    ensures
        ({
            let (face, count) = face_location(s, index)->Some_0;
            let out = spec_extract_collection_face(s, index)->Some_0;
            &&& out.len() >= 12 + 16 * count
            &&& out.subrange(0, 12) == s.subrange(face, face + 12)
            &&& records_kept(out, s, face, count)
            &&& out.len() <= 0x1_0000_0000 ==> forall|i: int, j: int|
                0 <= i < count && 0 <= j < table_source(s, face, i).1 && (!tag_at(
                    s,
                    record_at(face, i),
                    head_tag(),
                ) || j < 8 || 12 <= j) ==> #[trigger] face_table_byte(out, i, j)
                    == source_table_byte(s, face, i, j)
        }),
{
    let (face, count) = face_location(s, index)->Some_0;
    let out = spec_extract_collection_face(s, index)->Some_0;
    lemma_copied_tables_shape(s, face, count, count as nat);
    lemma_layout_holds(s, face, count, count as nat);
    let (o, head) = copied_tables(s, face, count, count as nat)->Some_0;
    let (ho, hl) = head->Some_0;
    let at = ho + 8;
    assert(o.subrange(0, 12) == s.subrange(face, face + 12) && records_kept(o, s, face, count)
        && starts_ordered(s, face, count, count) && head_found(s, face, count, count, head)
        && forall|i: int| 0 <= i < count ==> #[trigger] table_placed(o, s, face, count, i)) by {
        reveal(layout_holds);
    }
    let star = choose|k: int|
        0 <= k < count && tag_at(s, record_at(face, k), head_tag()) && ho == #[trigger] table_start(
            s,
            face,
            count,
            k,
        ) && hl == table_source(s, face, k).1;
    assert(table_placed(o, s, face, count, star));
    assert(out == with_checksum_adjustment(o, at));
    lemma_adjustment_keeps(o, at, 0);
    lemma_with_checksum_adjustment_len(o, at);
    assert forall|p: int| 0 <= p < 12 + 16 * count implies #[trigger] out[p] == o[p] by {
        lemma_adjustment_keeps(o, at, p);
    }
    assert(out.subrange(0, 12) =~= o.subrange(0, 12));
    assert forall|r: int| 0 <= r < count implies #[trigger] out.subrange(12 + 16 * r, 20 + 16 * r)
        == s.subrange(record_at(face, r), record_at(face, r) + 8) && out.subrange(
        24 + 16 * r,
        28 + 16 * r,
    ) == s.subrange(record_at(face, r) + 12, record_at(face, r) + 16) by {
        assert(out.subrange(12 + 16 * r, 20 + 16 * r) =~= o.subrange(12 + 16 * r, 20 + 16 * r));
        assert(out.subrange(24 + 16 * r, 28 + 16 * r) =~= o.subrange(24 + 16 * r, 28 + 16 * r));
    }
    if out.len() <= 0x1_0000_0000 {
        assert forall|i: int, j: int|
            0 <= i < count && 0 <= j < table_source(s, face, i).1 && (!tag_at(
                s,
                record_at(face, i),
                head_tag(),
            ) || j < 8 || 12 <= j) implies #[trigger] face_table_byte(out, i, j)
            == source_table_byte(s, face, i, j) by {
            lemma_table_byte_copied(s, face, count, o, star, i, j);
        }
    }
    assert(out.len() >= 12 + 16 * count);
    assert(out.subrange(0, 12) == s.subrange(face, face + 12));
    assert(records_kept(out, s, face, count));
}

/// A face extracted from a collection is a standalone font, which extracting again, under
/// any face index, gives back unchanged.
pub proof fn lemma_extracted_face_is_standalone(s: Seq<u8>, index: int, again: int)
    requires
        is_collection(s),
        spec_extract_collection_face(s, index) is Some,
    ensures
        ({
            let out = spec_extract_collection_face(s, index)->Some_0;
            &&& !is_collection(out)
            &&& spec_supported_sfnt(out)
            &&& spec_extract_collection_face(out, again) == Some(out)
        }),
{
    let (face, count) = face_location(s, index)->Some_0;
    let out = spec_extract_collection_face(s, index)->Some_0;
    lemma_extracted_face_layout(s, index);
    let scaler = s.subrange(face, face + 4);
    assert(is_sfnt_scaler(scaler));
    assert(out.take(4) =~= out.subrange(0, 12).subrange(0, 4));
    assert(scaler =~= s.subrange(face, face + 12).subrange(0, 4));
    assert(out.take(4) == scaler);
    assert(out.subrange(0, 4) =~= out.take(4));
    assert(scaler != tag4(0x74, 0x74, 0x63, 0x66)) by {
        if scaler == tag4(0x74, 0x74, 0x63, 0x66) {
            assert(scaler[0] == 0x74 && scaler[1] == 0x74);
        }
    }
}

/// The face extracted for `index` is the one that the collection's offset table names for
/// `index`: its header and table records are those found at the offset stored at
/// `12 + 4 * index`, and `index` is below the collection's face count.
pub proof fn lemma_extracted_face_is_requested_face(s: Seq<u8>, index: int)
    requires
        0 <= index,
        is_collection(s),
        spec_extract_collection_face(s, index) is Some,
    ensures
        ({
            let face = be32_at(s, 12 + 4 * index);
            let out = spec_extract_collection_face(s, index)->Some_0;
            &&& index < be32_at(s, 8)
            &&& 12 + 4 * index + 4 <= s.len()
            &&& face + 12 + 16 * be16_at(s, face + 4) <= s.len()
            &&& out.subrange(0, 12) == s.subrange(face, face + 12)
            &&& forall|r: int|
                0 <= r < be16_at(s, face + 4) ==> #[trigger] out.subrange(12 + 16 * r, 20 + 16 * r)
                    == s.subrange(face + 12 + 16 * r, face + 20 + 16 * r) && out.subrange(
                    24 + 16 * r,
                    28 + 16 * r,
                ) == s.subrange(face + 24 + 16 * r, face + 28 + 16 * r)
        }),
{
    let (face, count) = face_location(s, index)->Some_0;
    lemma_extracted_face_layout(s, index);
    assert(0 <= be32_at(s, 8) <= 0xFFFF_FFFF);
    assert(spec_read_u32(s, 8) is Some);
    assert(index < be32_at(s, 8));
    assert(spec_read_u32(s, 12 + 4 * index) is Some);
    assert(0 <= be32_at(s, 12 + 4 * index) <= 0xFFFF_FFFF);
    assert(face == be32_at(s, 12 + 4 * index));
    assert(0 <= be16_at(s, face + 4) <= 0xFFFF);
    assert(count == be16_at(s, face + 4));
    let out = spec_extract_collection_face(s, index)->Some_0;
    assert(records_kept(out, s, face, count));
    assert forall|r: int| 0 <= r < count implies #[trigger] out.subrange(12 + 16 * r, 20 + 16 * r)
        == s.subrange(face + 12 + 16 * r, face + 20 + 16 * r) && out.subrange(
        24 + 16 * r,
        28 + 16 * r,
    ) == s.subrange(face + 24 + 16 * r, face + 28 + 16 * r) by {
        assert(record_at(face, r) == face + 12 + 16 * r);
    }
    assert(12 + 4 * index + 4 <= s.len());
    assert(face + 12 + 16 * be16_at(s, face + 4) <= s.len());
    assert(out.subrange(0, 12) == s.subrange(face, face + 12));
    let f = be32_at(s, 12 + 4 * index);
    assert forall|r: int| 0 <= r < be16_at(s, f + 4) implies #[trigger] out.subrange(
        12 + 16 * r,
        20 + 16 * r,
    ) == s.subrange(f + 12 + 16 * r, f + 20 + 16 * r) && out.subrange(24 + 16 * r, 28 + 16 * r)
        == s.subrange(f + 24 + 16 * r, f + 28 + 16 * r) by {
        assert(r < count);
        assert(record_at(face, r) == face + 12 + 16 * r);
    }
}

/// Whether table record `r` of the face at `face` of `s` is a `head` record.
pub open spec fn is_head_record(s: Seq<u8>, face: int, r: int) -> bool {
    s.subrange(face + 12 + 16 * r, face + 16 + 16 * r) == tag4(0x68, 0x65, 0x61, 0x64)
}

/// Copying the tables of a face whose tables all lie inside the collection never fails, and
/// the `head` table it keeps is one of the face's `head` tables, present once one was copied.
proof fn lemma_copied_tables_succeed(s: Seq<u8>, face: int, count: int, k: nat)
    requires
        0 <= face,
        0 <= count,
        k <= count,
        face + 12 + 16 * count <= s.len(),
        forall|r: int|
            0 <= r < count ==> #[trigger] be32_at(s, face + 20 + 16 * r) + be32_at(
                s,
                face + 24 + 16 * r,
            ) <= s.len(),
    ensures
        copied_tables(s, face, count, k) is Some,
        (exists|r: int| 0 <= r < k && #[trigger] is_head_record(s, face, r)) ==> copied_tables(
            s,
            face,
            count,
            k,
        )->Some_0.1 is Some,
        copied_tables(s, face, count, k)->Some_0.1 matches Some((ho, hl)) ==> exists|r: int|
            0 <= r < k && #[trigger] is_head_record(s, face, r) && hl == be32_at(
                s,
                face + 24 + 16 * r,
            ),
    decreases k,
{
    if k > 0 {
        let i = k - 1;
        lemma_copied_tables_succeed(s, face, count, (k - 1) as nat);
        assert(be32_at(s, face + 20 + 16 * i) + be32_at(s, face + 24 + 16 * i) <= s.len());
        assert(record_at(face, i) + 8 == face + 20 + 16 * i);
        assert(tag_at(s, record_at(face, i), head_tag()) == is_head_record(s, face, i));
        if exists|r: int| 0 <= r < k && #[trigger] is_head_record(s, face, r) {
            let r = choose|r: int| 0 <= r < k && #[trigger] is_head_record(s, face, r);
            if r < i {
                assert(exists|r: int| 0 <= r < k - 1 && #[trigger] is_head_record(s, face, r));
            }
        }
    }
}

/// Extraction succeeds on every well-formed face of a collection: `index` below the face
/// count, a supported scaler type (`00 01 00 00`, `true`, `typ1` or `OTTO`) at the offset the
/// offset table names for it, its directory and all its tables inside the collection, and at
/// least one `head` table, every one at least 12 bytes long.
pub proof fn lemma_collection_face_extracts(s: Seq<u8>, index: int)
    requires
        is_collection(s),
        s.len() >= 12,
        0 <= index < be32_at(s, 8),
        12 + 4 * index + 4 <= s.len(),
        is_sfnt_scaler(
            s.subrange(be32_at(s, 12 + 4 * index), be32_at(s, 12 + 4 * index) + 4),
        ),
        be32_at(s, 12 + 4 * index) + 12 + 16 * be16_at(s, be32_at(s, 12 + 4 * index) + 4)
            <= s.len(),
        forall|r: int|
            0 <= r < be16_at(s, be32_at(s, 12 + 4 * index) + 4) ==> #[trigger] be32_at(
                s,
                be32_at(s, 12 + 4 * index) + 20 + 16 * r,
            ) + be32_at(s, be32_at(s, 12 + 4 * index) + 24 + 16 * r) <= s.len(),
        exists|r: int|
            0 <= r < be16_at(s, be32_at(s, 12 + 4 * index) + 4) && #[trigger] is_head_record(
                s,
                be32_at(s, 12 + 4 * index),
                r,
            ),
        forall|r: int|
            0 <= r < be16_at(s, be32_at(s, 12 + 4 * index) + 4) && #[trigger] is_head_record(
                s,
                be32_at(s, 12 + 4 * index),
                r,
            ) ==> be32_at(s, be32_at(s, 12 + 4 * index) + 24 + 16 * r) >= 12,
    ensures
        spec_extract_collection_face(s, index) is Some,
{
    let face = be32_at(s, 12 + 4 * index);
    let count = be16_at(s, face + 4);
    assert(face_location(s, index) == Some((face, count)));
    lemma_copied_tables_succeed(s, face, count, count as nat);
}

/// `x` rounded up to the next multiple of four.
pub open spec fn round_up4(x: int) -> int {
    x + (4 - x % 4) % 4
}

/// The first table starts right after the directory, each next one at the end of the one
/// before rounded up to a multiple of four, the bytes between them zero.
proof fn lemma_table_start_step(s: Seq<u8>, face: int, count: int, i: int)
    requires
        0 <= face,
        0 <= i < count,
        face + 12 + 16 * count <= s.len(),
        copied_tables(s, face, count, count as nat) is Some,
    ensures
        table_start(s, face, count, 0) == 12 + 16 * count,
        copied_tables(s, face, count, (i + 1) as nat) is Some,
        table_start(s, face, count, i + 1) == round_up4(
            table_start(s, face, count, i) + table_source(s, face, i).1,
        ),
        forall|p: int|
            table_start(s, face, count, i) + table_source(s, face, i).1 <= p < table_start(
                s,
                face,
                count,
                i + 1,
            ) ==> #[trigger] copied_tables(s, face, count, (i + 1) as nat)->Some_0.0[p] == 0,
{
    reveal(table_start);
    lemma_copied_tables_grow(s, face, count, (i + 1) as nat, count as nat);
    lemma_copied_tables_shape(s, face, count, i as nat);
    let (o, head) = copied_tables(s, face, count, i as nat)->Some_0;
    let (source, length) = table_source(s, face, i);
    let start = o.len() as int;
    let at = offset_field(i);
    let v = (start % 0x1_0000_0000) as u32;
    lemma_put_be32_len(o, at, v);
    let appended = put_be32(o, at, v) + s.subrange(source, source + length);
    lemma_pad4(appended);
    assert(appended.len() == start + length);
    assert(copied_tables(s, face, count, (i + 1) as nat)->Some_0.0 == pad4(appended));
    assert(s.subrange(face, face + 12 + 16 * count).len() == 12 + 16 * count);
}

/// Copying further tables keeps everything behind the directory that was built before.
proof fn lemma_tail_kept(s: Seq<u8>, face: int, count: int, k1: nat, k2: nat)
    requires
        0 <= face,
        0 <= count,
        k1 <= k2 <= count,
        face + 12 + 16 * count <= s.len(),
        copied_tables(s, face, count, k2) is Some,
    ensures
        copied_tables(s, face, count, k1) is Some,
        ({
            let o1 = copied_tables(s, face, count, k1)->Some_0.0;
            let o2 = copied_tables(s, face, count, k2)->Some_0.0;
            o1.len() <= o2.len() && o2.subrange(12 + 16 * count, o1.len() as int) == o1.subrange(
                12 + 16 * count,
                o1.len() as int,
            )
        }),
    decreases k2,
{
    lemma_copied_tables_grow(s, face, count, k1, k2);
    lemma_copied_tables_shape(s, face, count, k1);
    if k1 < k2 {
        let p = (k2 - 1) as nat;
        lemma_tail_kept(s, face, count, k1, p);
        lemma_copied_tables_shape(s, face, count, p);
        let (o, head) = copied_tables(s, face, count, p)->Some_0;
        let i = p as int;
        let (source, length) = table_source(s, face, i);
        let at = offset_field(i);
        let v = (o.len() as int % 0x1_0000_0000) as u32;
        let table = s.subrange(source, source + length);
        assert(copied_tables(s, face, count, k2)->Some_0.0 == pad4(put_be32(o, at, v) + table));
        let l1 = copied_tables(s, face, count, k1)->Some_0.0.len() as int;
        lemma_step_keeps(o, at, v, table, 12 + 16 * count, l1);
    }
}

/// Byte `p` of the face built from all tables, outside the checksum adjustment field of the
/// `head` table `star` and behind the directory, is unchanged by recomputing that field when it
/// lies in the padding behind table `i`.
proof fn lemma_padding_kept(s: Seq<u8>, face: int, count: int, star: int, i: int, p: int)
    requires
        0 <= face,
        0 <= i < count,
        0 <= star < count,
        face + 12 + 16 * count <= s.len(),
        copied_tables(s, face, count, count as nat) is Some,
        table_placed(copied_tables(s, face, count, count as nat)->Some_0.0, s, face, count, star),
        table_placed(copied_tables(s, face, count, count as nat)->Some_0.0, s, face, count, i),
        starts_ordered(s, face, count, count),
        table_source(s, face, star).1 >= 12,
        table_start(s, face, count, i) + table_source(s, face, i).1 <= p < table_start(
            s,
            face,
            count,
            i + 1,
        ),
    ensures
        ({
            let o = copied_tables(s, face, count, count as nat)->Some_0.0;
            with_checksum_adjustment(o, table_start(s, face, count, star) + 8)[p] == 0
        }),
{
    let o = copied_tables(s, face, count, count as nat)->Some_0.0;
    lemma_table_start_step(s, face, count, i);
    lemma_tail_kept(s, face, count, (i + 1) as nat, count as nat);
    let o1 = copied_tables(s, face, count, (i + 1) as nat)->Some_0.0;
    reveal(table_start);
    assert(o1.len() == table_start(s, face, count, i + 1));
    assert(o[p] == o.subrange(12 + 16 * count, o1.len() as int)[p - (12 + 16 * count)]);
    assert(o1[p] == o1.subrange(12 + 16 * count, o1.len() as int)[p - (12 + 16 * count)]);
    let ho = table_start(s, face, count, star);
    let hl = table_source(s, face, star).1;
    if star <= i {
        if star < i {
            assert(ho + hl <= table_start(s, face, count, i));
        }
    } else {
        if i + 1 < star {
            assert(table_start(s, face, count, i + 1) + table_source(s, face, i + 1).1 <= ho);
        }
        if i + 1 == count {
            assert(false);
        }
        assert(table_start(s, face, count, i + 1) <= ho) by {
            if i + 1 < star {
            }
        }
    }
    lemma_adjustment_keeps(o, ho + 8, p);
}

/// In the face built from all tables, with its checksum adjustment recomputed, the offset
/// field of each record reads back where its table starts.
proof fn lemma_offset_reads_start(s: Seq<u8>, face: int, count: int, i: int)
    requires
        0 <= face,
        0 <= i < count,
        face + 12 + 16 * count <= s.len(),
        copied_tables(s, face, count, count as nat) matches Some((o, Some((ho, hl)))) && hl
            >= 12 && o.len() < 0x1_0000_0000,
    ensures
        ({
            let (o, head) = copied_tables(s, face, count, count as nat)->Some_0;
            be32_at(with_checksum_adjustment(o, head->Some_0.0 + 8), 20 + 16 * i) == table_start(
                s,
                face,
                count,
                i,
            )
        }),
{
    lemma_copied_tables_shape(s, face, count, count as nat);
    lemma_layout_holds(s, face, count, count as nat);
    let (o, head) = copied_tables(s, face, count, count as nat)->Some_0;
    let at = head->Some_0.0 + 8;
    assert(table_placed(o, s, face, count, i)) by {
        reveal(layout_holds);
    }
    let field = offset_field(i);
    lemma_adjustment_keeps(o, at, field);
    lemma_adjustment_keeps(o, at, field + 1);
    lemma_adjustment_keeps(o, at, field + 2);
    lemma_adjustment_keeps(o, at, field + 3);
}

/// The zero padding behind each table survives recomputing the checksum adjustment.
proof fn lemma_padding_zero(s: Seq<u8>, face: int, count: int, i: int, p: int)
    requires
        0 <= face,
        0 <= i < count,
        face + 12 + 16 * count <= s.len(),
        copied_tables(s, face, count, count as nat) matches Some((o, Some((ho, hl)))) && hl
            >= 12,
        table_start(s, face, count, i) + table_source(s, face, i).1 <= p < table_start(
            s,
            face,
            count,
            i + 1,
        ),
    ensures
        ({
            let (o, head) = copied_tables(s, face, count, count as nat)->Some_0;
            with_checksum_adjustment(o, head->Some_0.0 + 8)[p] == 0
        }),
{
    lemma_copied_tables_shape(s, face, count, count as nat);
    lemma_layout_holds(s, face, count, count as nat);
    let (o, head) = copied_tables(s, face, count, count as nat)->Some_0;
    let (ho, hl) = head->Some_0;
    assert(starts_ordered(s, face, count, count) && head_found(s, face, count, count, head)
        && table_placed(o, s, face, count, i)) by {
        reveal(layout_holds);
    }
    let star = choose|k: int|
        0 <= k < count && tag_at(s, record_at(face, k), head_tag()) && ho == #[trigger] table_start(
            s,
            face,
            count,
            k,
        ) && hl == table_source(s, face, k).1;
    assert(table_placed(o, s, face, count, star)) by {
        reveal(layout_holds);
    }
    lemma_padding_kept(s, face, count, star, i, p);
}

/// The packing of the face built from all tables, with its checksum adjustment recomputed.
proof fn lemma_packing_core(s: Seq<u8>, face: int, count: int)
    requires
        0 <= face,
        0 < count,
        face + 12 + 16 * count <= s.len(),
        copied_tables(s, face, count, count as nat) matches Some((o, Some((ho, hl)))) && hl
            >= 12 && o.len() < 0x1_0000_0000,
    ensures
        ({
            let (o, head) = copied_tables(s, face, count, count as nat)->Some_0;
            let out = with_checksum_adjustment(o, head->Some_0.0 + 8);
            &&& be32_at(out, 20) == 12 + 16 * count
            &&& forall|i: int|
                0 <= i < count - 1 ==> #[trigger] be32_at(out, 20 + 16 * (i + 1)) == round_up4(
                    be32_at(out, 20 + 16 * i) + be32_at(s, face + 24 + 16 * i),
                )
            &&& out.len() == round_up4(
                be32_at(out, 20 + 16 * (count - 1)) + be32_at(s, face + 24 + 16 * (count - 1)),
            )
            &&& forall|i: int, p: int|
                #![trigger be32_at(out, 20 + 16 * i), out[p]]
                0 <= i < count && be32_at(out, 20 + 16 * i) + be32_at(s, face + 24 + 16 * i) <= p
                    < round_up4(be32_at(out, 20 + 16 * i) + be32_at(s, face + 24 + 16 * i))
                    ==> out[p] == 0
        }),
{
    lemma_copied_tables_shape(s, face, count, count as nat);
    let (o, head) = copied_tables(s, face, count, count as nat)->Some_0;
    let at = head->Some_0.0 + 8;
    let out = with_checksum_adjustment(o, at);
    lemma_with_checksum_adjustment_len(o, at);
    lemma_table_start_step(s, face, count, 0);
    lemma_offset_reads_start(s, face, count, 0);
    assert forall|i: int| 0 <= i < count - 1 implies #[trigger] be32_at(out, 20 + 16 * (i + 1))
        == round_up4(be32_at(out, 20 + 16 * i) + be32_at(s, face + 24 + 16 * i)) by {
        lemma_table_start_step(s, face, count, i);
        lemma_offset_reads_start(s, face, count, i);
        lemma_offset_reads_start(s, face, count, i + 1);
        assert(record_at(face, i) + 12 == face + 24 + 16 * i);
        assert(20 + 16 * (i + 1) == 20 + 16 * (i + 1));
    }
    lemma_table_start_step(s, face, count, count - 1);
    lemma_offset_reads_start(s, face, count, count - 1);
    assert(table_start(s, face, count, count) == o.len()) by {
        reveal(table_start);
    }
    assert(record_at(face, count - 1) + 12 == face + 24 + 16 * (count - 1));
    assert forall|i: int, p: int|
        #![trigger be32_at(out, 20 + 16 * i), out[p]]
        0 <= i < count && be32_at(out, 20 + 16 * i) + be32_at(s, face + 24 + 16 * i) <= p
            < round_up4(be32_at(out, 20 + 16 * i) + be32_at(s, face + 24 + 16 * i)) implies out[p]
        == 0 by {
        lemma_table_start_step(s, face, count, i);
        lemma_offset_reads_start(s, face, count, i);
        assert(record_at(face, i) + 12 == face + 24 + 16 * i);
        lemma_padding_zero(s, face, count, i, p);
    }
}

/// An extracted face shorter than 2^32 bytes is packed: its first table starts right after
/// its directory, each further table at the end of the one before rounded up to a multiple of
/// four, the bytes in between are zero, and the face ends at the end of its last table rounded
/// up to a multiple of four. The face is the one that the offset table names for `index`.
pub proof fn lemma_extracted_face_packing(s: Seq<u8>, index: int)
    requires
        0 <= index,
        is_collection(s),
        spec_extract_collection_face(s, index) is Some,
        spec_extract_collection_face(s, index)->Some_0.len() < 0x1_0000_0000,
    ensures
        ({
            let f = be32_at(s, 12 + 4 * index);
            let n = be16_at(s, f + 4);
            let out = spec_extract_collection_face(s, index)->Some_0;
            &&& n > 0
            &&& be32_at(out, 20) == 12 + 16 * n
            &&& forall|i: int|
                0 <= i < n - 1 ==> #[trigger] be32_at(out, 20 + 16 * (i + 1)) == round_up4(
                    be32_at(out, 20 + 16 * i) + be32_at(s, f + 24 + 16 * i),
                )
            &&& out.len() == round_up4(
                be32_at(out, 20 + 16 * (n - 1)) + be32_at(s, f + 24 + 16 * (n - 1)),
            )
            &&& forall|i: int, p: int|
                #![trigger be32_at(out, 20 + 16 * i), out[p]]
                0 <= i < n && be32_at(out, 20 + 16 * i) + be32_at(s, f + 24 + 16 * i) <= p
                    < round_up4(be32_at(out, 20 + 16 * i) + be32_at(s, f + 24 + 16 * i))
                    ==> out[p] == 0
        }),
{
    lemma_extracted_face_is_requested_face(s, index);
    let (face, count) = face_location(s, index)->Some_0;
    lemma_copied_tables_shape(s, face, count, count as nat);
    let (o, head) = copied_tables(s, face, count, count as nat)->Some_0;
    lemma_with_checksum_adjustment_len(o, head->Some_0.0 + 8);
    assert(face == be32_at(s, 12 + 4 * index));
    assert(count == be16_at(s, face + 4));
    assert(count > 0);
    lemma_packing_core(s, face, count);
}

} // verus!




