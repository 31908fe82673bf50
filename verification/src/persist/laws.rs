//! What an image gives back of an index.

use vstd::prelude::*;
use crate::bloom::{filter_of, tag_names_of};
use crate::endian::{le_bytes, le_value, lemma_le_bytes_len, lemma_le_round_trip, lemma_pow256};
use crate::index::{TagType, TextRange, XmlIndex};
use crate::persist::format::{
    body, enc16, enc32, enc64, enc_name, enc_text, enc_type, flags, flat, header, image,
    list_offsets, magic, name_count, offset_table, packed, section_start, sections, xxh3,
    HEADER_SIZE, NUM_SECTIONS, PREFIX_SIZE, VERSION,
};
use crate::persist::reader::{
    dec16, dec32, dec64, dec_name, dec_text, dec_type, decoded, field, has_names, lemma_stored_wf,
    name_total, offsets_at, posting_data, posting_offsets, postings_at, readable, refusal, sec_end,
    sec_start, section, smaller, table_at, tag_total, text_total, unpacked, Refusal,
};

verus! {

/// Whether the counts of an index fit an image: a name index is either absent or
/// complete and not empty.
pub open spec fn storable(index: XmlIndex, hash: u64) -> bool {
    &&& index.tags() <= u32::MAX
    &&& index.text_ranges@.len() <= u32::MAX
    &&& image(index, hash).len() <= u64::MAX
    &&& if index.name_ids@.len() == 0 {
        &&& index.name_table@.len() == 0
        &&& index.name_posting@.len() == 0
    } else {
        &&& index.name_ids@.len() == index.tags()
        &&& 0 < index.name_table@.len() <= u16::MAX
        &&& index.name_posting@.len() == index.name_table@.len()
        &&& flat(index.name_posting@).len() <= u32::MAX
    }
}

proof fn lemma_packed_len<T>(v: Seq<T>, enc: spec_fn(T) -> Seq<u8>, w: int)
    requires
        forall|x: T| #[trigger] enc(x).len() == w,
    ensures
        packed(v, enc).len() == w * v.len(),
    decreases v.len(),
{
    if v.len() > 0 {
        lemma_packed_len(v.drop_last(), enc, w);
        assert(enc(v.last()).len() == w);
        assert(w * (v.len() - 1) + w == w * v.len()) by (nonlinear_arith);
    } else {
        assert(w * 0 == 0) by (nonlinear_arith);
    }
}

proof fn lemma_packed_entry<T>(v: Seq<T>, enc: spec_fn(T) -> Seq<u8>, w: int, i: int)
    requires
        forall|x: T| #[trigger] enc(x).len() == w,
        0 <= i < v.len(),
        w > 0,
    ensures
        0 <= i * w,
        i * w + w <= packed(v, enc).len(),
        packed(v, enc).subrange(i * w, i * w + w) == enc(v[i]),
    decreases v.len(),
{
    let before = v.drop_last();
    lemma_packed_len(v, enc, w);
    lemma_packed_len(before, enc, w);
    assert(enc(v.last()).len() == w);
    assert(0 <= i * w && i * w + w <= w * v.len()) by (nonlinear_arith)
        requires
            0 <= i < v.len(),
            w > 0,
    ;
    if i < before.len() {
        lemma_packed_entry(before, enc, w, i);
        assert(packed(v, enc).subrange(i * w, i * w + w) =~= packed(before, enc).subrange(
            i * w,
            i * w + w,
        ));
    } else {
        assert(i * w == w * (v.len() - 1)) by (nonlinear_arith)
            requires
                i == v.len() - 1,
        ;
        assert(packed(v, enc).subrange(i * w, i * w + w) =~= enc(v.last()));
    }
}

/// Entries that each decode to what was encoded are read back, also when other
/// bytes follow.
proof fn lemma_unpacked<T>(
    v: Seq<T>,
    enc: spec_fn(T) -> Seq<u8>,
    dec: spec_fn(Seq<u8>) -> T,
    w: int,
    count: int,
    rest: Seq<u8>,
)
    requires
        forall|x: T| #[trigger] enc(x).len() == w && dec(enc(x)) == x,
        w > 0,
        count == v.len() || (rest.len() == 0 && count >= v.len()),
    ensures
        unpacked(packed(v, enc) + rest, count, w, dec) == v,
{
    let data = packed(v, enc) + rest;
    lemma_packed_len(v, enc, w);
    assert(smaller(count, data.len() as int / w) == v.len()) by {
        assert(w * v.len() / w == v.len()) by (nonlinear_arith)
            requires
                w > 0,
        ;
        assert(data.len() as int / w >= v.len()) by (nonlinear_arith)
            requires
                w > 0,
                data.len() >= w * v.len(),
        ;
    }
    let u = unpacked(data, count, w, dec);
    assert forall|i: int| 0 <= i < u.len() implies u[i] == v[i] by {
        lemma_packed_entry(v, enc, w, i);
        assert(data.subrange(i * w, i * w + w) =~= packed(v, enc).subrange(i * w, i * w + w));
        assert(dec(enc(v[i])) == v[i]);
    }
    assert(u =~= v);
}

proof fn lemma_encodings()
    ensures
        forall|x: u64| #[trigger] enc64()(x).len() == 8 && dec64()(enc64()(x)) == x,
        forall|x: u32| #[trigger] enc32()(x).len() == 4 && dec32()(enc32()(x)) == x,
        forall|x: u16| #[trigger] enc16()(x).len() == 2 && dec16()(enc16()(x)) == x,
        forall|x: TagType| #[trigger] enc_type()(x).len() == 1 && dec_type()(enc_type()(x)) == x,
        forall|x: (u64, u16)|
            #[trigger] enc_name()(x).len() == 10 && dec_name()(enc_name()(x)) == x,
        forall|x: TextRange|
            #[trigger] enc_text()(x).len() == 20 && dec_text()(enc_text()(x)) == x,
{
    lemma_pow256();
    assert forall|x: u64| #[trigger] enc64()(x).len() == 8 && dec64()(enc64()(x)) == x by {
        lemma_le_bytes_len(x as int, 8);
        lemma_le_round_trip(x as int, 8);
    }
    assert forall|x: u32| #[trigger] enc32()(x).len() == 4 && dec32()(enc32()(x)) == x by {
        lemma_le_bytes_len(x as int, 4);
        lemma_le_round_trip(x as int, 4);
    }
    assert forall|x: u16| #[trigger] enc16()(x).len() == 2 && dec16()(enc16()(x)) == x by {
        lemma_le_bytes_len(x as int, 2);
        lemma_le_round_trip(x as int, 2);
    }
    assert forall|x: (u64, u16)|
        #[trigger] enc_name()(x).len() == 10 && dec_name()(enc_name()(x)) == x by {
        lemma_le_bytes_len(x.0 as int, 8);
        lemma_le_round_trip(x.0 as int, 8);
        lemma_le_bytes_len(x.1 as int, 2);
        lemma_le_round_trip(x.1 as int, 2);
        let e = enc_name()(x);
        assert(e.subrange(0, 8) =~= le_bytes(x.0 as int, 8));
        assert(e.subrange(8, 10) =~= le_bytes(x.1 as int, 2));
    }
    assert forall|x: TextRange|
        #[trigger] enc_text()(x).len() == 20 && dec_text()(enc_text()(x)) == x by {
        lemma_le_bytes_len(x.start as int, 8);
        lemma_le_round_trip(x.start as int, 8);
        lemma_le_bytes_len(x.end as int, 8);
        lemma_le_round_trip(x.end as int, 8);
        lemma_le_bytes_len(x.parent_tag as int, 4);
        lemma_le_round_trip(x.parent_tag as int, 4);
        let e = enc_text()(x);
        assert(e.subrange(0, 8) =~= le_bytes(x.start as int, 8));
        assert(e.subrange(8, 16) =~= le_bytes(x.end as int, 8));
        assert(e.subrange(16, 20) =~= le_bytes(x.parent_tag as int, 4));
    }
}

proof fn lemma_offset_table(secs: Seq<Seq<u8>>, k: int)
    requires
        0 <= k,
    ensures
        offset_table(secs, k).len() == 8 * k,
        forall|i: int|
            0 <= i < k ==> #[trigger] offset_table(secs, k).subrange(8 * i, 8 * i + 8) == le_bytes(
                section_start(secs, i),
                8,
            ),
    decreases k,
{
    if k > 0 {
        lemma_offset_table(secs, k - 1);
        lemma_le_bytes_len(section_start(secs, k - 1), 8);
        let before = offset_table(secs, k - 1);
        let all = offset_table(secs, k);
        assert forall|i: int| 0 <= i < k implies #[trigger] all.subrange(8 * i, 8 * i + 8)
            == le_bytes(section_start(secs, i), 8) by {
            if i < k - 1 {
                assert(all.subrange(8 * i, 8 * i + 8) =~= before.subrange(8 * i, 8 * i + 8));
            } else {
                assert(all.subrange(8 * i, 8 * i + 8) =~= le_bytes(section_start(secs, i), 8));
            }
        }
    }
}

proof fn lemma_body(secs: Seq<Seq<u8>>, i: int, k: int)
    requires
        0 <= i < k <= secs.len(),
    ensures
        body(secs.take(i + 1)).len() == body(secs.take(i)).len() + secs[i].len(),
        body(secs.take(i + 1)).len() <= body(secs.take(k)).len(),
        body(secs.take(k)).subrange(
            body(secs.take(i)).len() as int,
            body(secs.take(i + 1)).len() as int,
        ) == secs[i],
    decreases k,
{
    assert(secs.take(i + 1).drop_last() =~= secs.take(i));
    assert(secs.take(k).drop_last() =~= secs.take(k - 1));
    let a = body(secs.take(i)).len() as int;
    let b = body(secs.take(i + 1)).len() as int;
    if i < k - 1 {
        lemma_body(secs, i, k - 1);
        assert(body(secs.take(k)).subrange(a, b) =~= body(secs.take(k - 1)).subrange(a, b));
    } else {
        assert(body(secs.take(k)).subrange(a, b) =~= secs[i]);
    }
}

proof fn lemma_flat(lists: Seq<Vec<u32>>, i: int, k: int)
    requires
        0 <= i < k <= lists.len(),
    ensures
        flat(lists.take(i + 1)).len() == flat(lists.take(i)).len() + lists[i]@.len(),
        flat(lists.take(i + 1)).len() <= flat(lists.take(k)).len(),
        flat(lists.take(k)).subrange(
            flat(lists.take(i)).len() as int,
            flat(lists.take(i + 1)).len() as int,
        ) == lists[i]@,
    decreases k,
{
    assert(lists.take(i + 1).drop_last() =~= lists.take(i));
    assert(lists.take(k).drop_last() =~= lists.take(k - 1));
    let a = flat(lists.take(i)).len() as int;
    let b = flat(lists.take(i + 1)).len() as int;
    if i < k - 1 {
        lemma_flat(lists, i, k - 1);
        assert(flat(lists.take(k)).subrange(a, b) =~= flat(lists.take(k - 1)).subrange(a, b));
    } else {
        assert(flat(lists.take(k)).subrange(a, b) =~= lists[i]@);
    }
}

/// The fields of the header of an image.
proof fn lemma_header(index: XmlIndex, hash: u64)
    requires
        index.tags() <= u32::MAX,
        index.text_ranges@.len() <= u32::MAX,
        name_count(index) <= u16::MAX,
    ensures
        ({
            let b = image(index, hash);
            &&& header(index, hash).len() == HEADER_SIZE
            &&& b.len() >= HEADER_SIZE
            &&& b.subrange(0, 4) == magic()
            &&& field(b, 4, 4) == VERSION
            &&& field(b, 8, 8) == hash
            &&& tag_total(b) == index.tags()
            &&& text_total(b) == index.text_ranges@.len()
            &&& name_total(b) == name_count(index)
            &&& field(b, 26, 2) == flags(index)
            &&& field(b, 28, 16) == filter_of(tag_names_of(index, index.tags() as int))
        }),
{
    lemma_pow256();
    let b = image(index, hash);
    let filter = filter_of(tag_names_of(index, index.tags() as int)) as int;
    lemma_le_bytes_len(VERSION as int, 4);
    lemma_le_bytes_len(hash as int, 8);
    lemma_le_bytes_len(index.tags() as int, 4);
    lemma_le_bytes_len(index.text_ranges@.len() as int, 4);
    lemma_le_bytes_len(name_count(index), 2);
    lemma_le_bytes_len(flags(index), 2);
    lemma_le_bytes_len(filter, 16);
    lemma_le_round_trip(VERSION as int, 4);
    lemma_le_round_trip(hash as int, 8);
    lemma_le_round_trip(index.tags() as int, 4);
    lemma_le_round_trip(index.text_ranges@.len() as int, 4);
    lemma_le_round_trip(name_count(index), 2);
    lemma_le_round_trip(flags(index), 2);
    lemma_le_round_trip(filter, 16);
    assert(b.subrange(0, 4) =~= magic());
    assert(b.subrange(4, 8) =~= le_bytes(VERSION as int, 4));
    assert(b.subrange(8, 16) =~= le_bytes(hash as int, 8));
    assert(b.subrange(16, 20) =~= le_bytes(index.tags() as int, 4));
    assert(b.subrange(20, 24) =~= le_bytes(index.text_ranges@.len() as int, 4));
    assert(b.subrange(24, 26) =~= le_bytes(name_count(index), 2));
    assert(b.subrange(26, 28) =~= le_bytes(flags(index), 2));
    assert(b.subrange(28, 44) =~= le_bytes(filter, 16));
}

/// The sections of an image are found where they were put.
proof fn lemma_sections(index: XmlIndex, hash: u64, i: int)
    requires
        storable(index, hash),
        0 <= i < NUM_SECTIONS,
    ensures
        image(index, hash).len() >= PREFIX_SIZE,
        sec_start(image(index, hash), i) <= sec_end(image(index, hash), i),
        section(image(index, hash), i) == sections(index)[i],
{
    let b = image(index, hash);
    let secs = sections(index);
    lemma_header(index, hash);
    lemma_offset_table(secs, NUM_SECTIONS as int);
    lemma_pow256();
    assert(secs.take(NUM_SECTIONS as int) =~= secs);
    assert forall|j: int| 0 <= j < NUM_SECTIONS implies #[trigger] sec_start(b, j)
        == section_start(secs, j) && section_start(secs, j + 1) == section_start(secs, j)
        + secs[j].len() && section_start(secs, j + 1) <= b.len() by {
        lemma_body(secs, j, NUM_SECTIONS as int);
        let table = offset_table(secs, NUM_SECTIONS as int);
        assert(table.subrange(8 * j, 8 * j + 8) == le_bytes(section_start(secs, j), 8));
        assert(b.subrange(HEADER_SIZE + 8 * j, HEADER_SIZE + 8 * j + 8) =~= table.subrange(
            8 * j,
            8 * j + 8,
        ));
        lemma_le_round_trip(section_start(secs, j), 8);
    }
    assert(sec_start(b, i) == section_start(secs, i));
    if i + 1 < NUM_SECTIONS {
        assert(sec_start(b, i + 1) == section_start(secs, i + 1));
    }
    lemma_body(secs, i, NUM_SECTIONS as int);
    let all = body(secs);
    assert(section(b, i) =~= all.subrange(
        section_start(secs, i) - PREFIX_SIZE,
        section_start(secs, i) - PREFIX_SIZE + secs[i].len(),
    ));
}

/// The name index is read back.
proof fn lemma_names(index: XmlIndex, hash: u64)
    requires
        storable(index, hash),
        index.name_ids@.len() > 0,
    ensures
        ({
            let b = image(index, hash);
            &&& has_names(b)
            &&& postings_at(b) <= section(b, 13).len()
            &&& posting_offsets(b) == list_offsets(index.name_posting@)
            &&& posting_data(b) == flat(index.name_posting@)
            &&& forall|i: int| #![trigger posting_offsets(b)[i]]
                0 <= i < name_total(b) ==> posting_offsets(b)[i] <= posting_offsets(b)[i + 1]
                    <= posting_data(b).len()
            &&& decoded(b).name_ids == index.name_ids@
            &&& decoded(b).name_table == index.name_table@
            &&& decoded(b).name_posting == index.stored().name_posting
        }),
{
    let b = image(index, hash);
    lemma_header(index, hash);
    lemma_sections(index, hash, 13);
    lemma_encodings();
    let lists = index.name_posting@;
    let ids = packed(index.name_ids@, enc16());
    let table = packed(index.name_table@, enc_name());
    let offsets = packed(list_offsets(lists), enc32());
    let data = packed(flat(lists), enc32());
    lemma_packed_len(index.name_ids@, enc16(), 2);
    lemma_packed_len(index.name_table@, enc_name(), 10);
    lemma_packed_len(list_offsets(lists), enc32(), 4);
    lemma_packed_len(flat(lists), enc32(), 4);
    let sec = section(b, 13);
    assert(sec == ids + table + offsets + data);
    assert(sec =~= ids + (table + offsets + data));
    assert(sec.skip(table_at(b)) =~= table + (offsets + data));
    assert(sec.skip(offsets_at(b)) =~= offsets + data);
    assert(sec.skip(postings_at(b)) =~= data + Seq::<u8>::empty());
    lemma_unpacked(
        index.name_ids@,
        enc16(),
        dec16(),
        2,
        tag_total(b),
        table + offsets + data,
    );
    lemma_unpacked(
        index.name_table@,
        enc_name(),
        dec_name(),
        10,
        name_total(b),
        offsets + data,
    );
    lemma_unpacked(list_offsets(lists), enc32(), dec32(), 4, name_total(b) + 1, data);
    assert(lists.take(lists.len() as int) =~= lists);
    lemma_unpacked(
        flat(lists),
        enc32(),
        dec32(),
        4,
        posting_offsets(b).last() as int,
        Seq::<u8>::empty(),
    );
    assert forall|i: int| #![trigger posting_offsets(b)[i]] 0 <= i < name_total(b) implies posting_offsets(
        b,
    )[i] <= posting_offsets(b)[i + 1] <= posting_data(b).len() && posting_data(b).subrange(
        posting_offsets(b)[i] as int,
        posting_offsets(b)[i + 1] as int,
    ) == lists[i]@ by {
        lemma_flat(lists, i, lists.len() as int);
    }
    assert(decoded(b).name_posting =~= index.stored().name_posting);
}

/// Storing an index and loading it again gives back the same arrays: an image
/// of an index is accepted for the XML bytes that it was made of, and holds all
/// that the index holds.
pub proof fn lemma_image_round_trip(index: XmlIndex)
    requires
        index.wf(),
        storable(index, xxh3(index.input@)),
    ensures
        refusal(image(index, xxh3(index.input@)), index.input@) is None,
        decoded(image(index, xxh3(index.input@))) == index.stored(),
{
    let hash = xxh3(index.input@);
    let b = image(index, hash);
    let secs = sections(index);
    lemma_header(index, hash);
    lemma_encodings();
    assert forall|i: int| 0 <= i < NUM_SECTIONS implies #[trigger] sec_start(b, i) <= sec_end(b, i)
        && section(b, i) == secs[i] by {
        lemma_sections(index, hash, i);
    }
    let none = Seq::<u8>::empty();
    let tags = tag_total(b);
    assert forall|i: int| 0 <= i < NUM_SECTIONS implies section(b, i) == #[trigger] secs[i] + none by {
        assert(sec_start(b, i) <= sec_end(b, i));
        assert(secs[i] + none =~= secs[i]);
    }
    lemma_packed_len(index.tag_types@, enc_type(), 1);
    lemma_packed_len(index.child_offsets@, enc32(), 4);
    lemma_packed_len(index.child_data@, enc32(), 4);
    lemma_packed_len(index.text_child_offsets@, enc32(), 4);
    lemma_packed_len(index.text_child_data@, enc32(), 4);
    lemma_unpacked(index.tag_starts@, enc64(), dec64(), 8, tags, none);
    lemma_unpacked(index.tag_ends@, enc64(), dec64(), 8, tags, none);
    lemma_unpacked(index.tag_types@, enc_type(), dec_type(), 1, tags, none);
    lemma_unpacked(index.tag_names@, enc_name(), dec_name(), 10, tags, none);
    lemma_unpacked(index.depths@, enc16(), dec16(), 2, tags, none);
    lemma_unpacked(index.parents@, enc32(), dec32(), 4, tags, none);
    lemma_unpacked(index.text_ranges@, enc_text(), dec_text(), 20, text_total(b), none);
    lemma_unpacked(
        index.child_offsets@,
        enc32(),
        dec32(),
        4,
        section(b, 7).len() as int,
        none,
    );
    lemma_unpacked(index.child_data@, enc32(), dec32(), 4, section(b, 8).len() as int, none);
    lemma_unpacked(
        index.text_child_offsets@,
        enc32(),
        dec32(),
        4,
        section(b, 9).len() as int,
        none,
    );
    lemma_unpacked(index.text_child_data@, enc32(), dec32(), 4, section(b, 10).len() as int, none);
    lemma_unpacked(index.close_map@, enc32(), dec32(), 4, tags, none);
    lemma_unpacked(index.post_order@, enc32(), dec32(), 4, tags, none);
    assert(section(b, 0) == secs[0] + none);
    assert(section(b, 1) == secs[1] + none);
    assert(section(b, 2) == secs[2] + none);
    assert(section(b, 3) == secs[3] + none);
    assert(section(b, 4) == secs[4] + none);
    assert(section(b, 5) == secs[5] + none);
    assert(section(b, 6) == secs[6] + none);
    assert(section(b, 7) == secs[7] + none);
    assert(section(b, 8) == secs[8] + none);
    assert(section(b, 9) == secs[9] + none);
    assert(section(b, 10) == secs[10] + none);
    assert(section(b, 11) == secs[11] + none);
    assert(section(b, 12) == secs[12] + none);
    if index.name_ids@.len() > 0 {
        lemma_names(index, hash);
    } else {
        assert(decoded(b).name_posting =~= index.stored().name_posting);
        assert(decoded(b).name_ids =~= index.name_ids@);
        assert(decoded(b).name_table =~= index.name_table@);
    }
    assert(decoded(b).doc =~= index.doc());
    assert(decoded(b) =~= index.stored());
    lemma_sections(index, hash, 0);
    assert(readable(b));
    lemma_stored_wf(index);
}

/// An image is refused as stale for XML bytes with another hash than those it
/// was made of.
pub proof fn lemma_stale_refused(index: XmlIndex, hash: u64, xml: Seq<u8>)
    requires
        storable(index, hash),
        xxh3(xml) != hash,
    ensures
        refusal(image(index, hash), xml) == Some(Refusal::Stale),
{
    lemma_header(index, hash);
    lemma_sections(index, hash, 0);
}

/// The header of an image alone tells the bloom filter of the tag names.
pub proof fn lemma_header_tells_bloom(index: XmlIndex, hash: u64)
    requires
        storable(index, hash),
    ensures
        ({
            let head = image(index, hash).take(HEADER_SIZE as int);
            &&& head.subrange(0, 4) == magic()
            &&& field(head, 26, 2) / 2 % 2 == 1
            &&& field(head, 28, 16) == filter_of(tag_names_of(index, index.tags() as int))
        }),
{
    let b = image(index, hash);
    let head = b.take(HEADER_SIZE as int);
    lemma_header(index, hash);
    assert(head.subrange(0, 4) =~= b.subrange(0, 4));
    assert(head.subrange(26, 28) =~= b.subrange(26, 28));
    assert(head.subrange(28, 44) =~= b.subrange(28, 44));
}

/// Where the header of an image tells what: the bytes `SXI` and 1, the version, the hash
/// of the document, the numbers of tags, texts and names, the flags and the filter, each
/// with the least significant byte first.
pub proof fn lemma_header_layout(index: XmlIndex, hash: u64)
    requires
        storable(index, hash),
    ensures
        ({
            let b = image(index, hash);
            &&& b.len() >= 64
            &&& b[0] == 0x53 && b[1] == 0x58 && b[2] == 0x49 && b[3] == 1
            &&& le_value(b.subrange(4, 8)) == 2
            &&& le_value(b.subrange(8, 16)) == hash
            &&& le_value(b.subrange(16, 20)) == index.tags()
            &&& le_value(b.subrange(20, 24)) == index.text_ranges@.len()
            &&& le_value(b.subrange(24, 26)) == (if index.name_ids@.len() > 0 {
                index.name_table@.len() as int
            } else {
                0
            })
            &&& le_value(b.subrange(26, 28)) == (if index.name_ids@.len() > 0 {
                3int
            } else {
                2int
            })
            &&& le_value(b.subrange(28, 44)) == filter_of(tag_names_of(index, index.tags() as int))
        }),
{
    let b = image(index, hash);
    lemma_header(index, hash);
    let first = b.subrange(0, 4);
    assert(b[0] == first[0] && b[1] == first[1] && b[2] == first[2] && b[3] == first[3]);
}

/// What is refused: less than 176 bytes, bytes that do not begin with `SXI` and 1, and
/// another version than 2, in this order.
pub proof fn lemma_refused(b: Seq<u8>, xml: Seq<u8>)
    ensures
        b.len() < 176 <==> refusal(b, xml) == Some(Refusal::TooSmall),
        b.len() >= 176 && !(b[0] == 0x53 && b[1] == 0x58 && b[2] == 0x49 && b[3] == 1) <==> refusal(
            b,
            xml,
        ) == Some(Refusal::BadMagic),
        b.len() >= 176 && b[0] == 0x53 && b[1] == 0x58 && b[2] == 0x49 && b[3] == 1 && le_value(
            b.subrange(4, 8),
        ) != 2 ==> refusal(b, xml) == Some(Refusal::Version(le_value(b.subrange(4, 8)))),
        b.len() >= 176 && refusal(b, xml) is None ==> le_value(b.subrange(8, 16)) == xxh3(xml),
{
    let first = b.subrange(0, 4);
    if b.len() >= 176 {
        assert(first[0] == b[0] && first[1] == b[1] && first[2] == b[2] && first[3] == b[3]);
        if b[0] == 0x53 && b[1] == 0x58 && b[2] == 0x49 && b[3] == 1 {
            assert(first =~= magic());
        }
    }
}

} // verus!
