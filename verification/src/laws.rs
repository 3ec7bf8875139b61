use crate::item::{encoded_item, wf_item, ItemModel};
use crate::tag::{concat_all, encoded_records, insert_by_len, sort_by_len, sum_len};
use vstd::prelude::*;

verus! {

/// Inserts an item after the last one whose encoded record is no longer:
/// the model-level counterpart of the byte-level insertion step.
pub open spec fn insert_model(s: Seq<ItemModel>, x: ItemModel) -> Seq<ItemModel>
    decreases s.len(),
{
    if s.len() == 0 {
        seq![x]
    } else if encoded_item(s.last()).len() <= encoded_item(x).len() {
        s.push(x)
    } else {
        insert_model(s.drop_last(), x).push(s.last())
    }
}

/// The items in the order their encoded records take after the stable
/// ascending sort by record length.
pub open spec fn sort_models(s: Seq<ItemModel>) -> Seq<ItemModel>
    decreases s.len(),
{
    if s.len() == 0 {
        Seq::empty()
    } else {
        insert_model(sort_models(s.drop_last()), s.last())
    }
}

/// Encoding commutes with the insertion step.
proof fn lemma_insert_model_records(s: Seq<ItemModel>, x: ItemModel)
    ensures
        encoded_records(insert_model(s, x)) == insert_by_len(encoded_records(s), encoded_item(x)),
    decreases s.len(),
{
    let rs = encoded_records(s);
    if s.len() == 0 {
        assert(encoded_records(insert_model(s, x)) =~= seq![encoded_item(x)]);
        assert(insert_by_len(rs, encoded_item(x)) =~= seq![encoded_item(x)]) by {
            assert(rs =~= Seq::<Seq<u8>>::empty());
        }
    } else {
        assert(rs.len() == s.len());
        assert(rs.last() == encoded_item(s.last()));
        if encoded_item(s.last()).len() <= encoded_item(x).len() {
            assert(encoded_records(insert_model(s, x)) =~= rs.push(encoded_item(x)));
        } else {
            lemma_insert_model_records(s.drop_last(), x);
            assert(encoded_records(s.drop_last()) =~= rs.drop_last());
            assert(encoded_records(insert_model(s, x)) =~= insert_by_len(
                rs.drop_last(),
                encoded_item(x),
            ).push(rs.last()));
        }
    }
}

/// Encoding commutes with the sort.
pub proof fn lemma_sort_models_records(s: Seq<ItemModel>)
    ensures
        encoded_records(sort_models(s)) == sort_by_len(encoded_records(s)),
    decreases s.len(),
{
    if s.len() == 0 {
        assert(encoded_records(sort_models(s)) =~= Seq::<Seq<u8>>::empty());
        assert(encoded_records(s) =~= Seq::<Seq<u8>>::empty());
    } else {
        lemma_sort_models_records(s.drop_last());
        lemma_insert_model_records(sort_models(s.drop_last()), s.last());
        assert(encoded_records(s.drop_last()) =~= encoded_records(s).drop_last());
        assert(encoded_records(s).last() == encoded_item(s.last()));
    }
}

/// The insertion step only adds the new item.
proof fn lemma_insert_model_multiset(s: Seq<ItemModel>, x: ItemModel)
    ensures
        insert_model(s, x).to_multiset() == s.to_multiset().insert(x),
    decreases s.len(),
{
    broadcast use vstd::seq_lib::group_to_multiset_ensures;

    if s.len() == 0 {
        assert(seq![x] =~= Seq::<ItemModel>::empty().push(x));
        assert(insert_model(s, x).to_multiset() =~= s.to_multiset().insert(x));
    } else if encoded_item(s.last()).len() <= encoded_item(x).len() {
        assert(insert_model(s, x).to_multiset() =~= s.to_multiset().insert(x));
    } else {
        lemma_insert_model_multiset(s.drop_last(), x);
        assert(s =~= s.drop_last().push(s.last()));
        assert(s.to_multiset() =~= s.drop_last().to_multiset().insert(s.last()));
        assert(insert_model(s, x).to_multiset() =~= insert_model(
            s.drop_last(),
            x,
        ).to_multiset().insert(s.last()));
        assert(s.drop_last().to_multiset().insert(x).insert(s.last()) =~= s.drop_last()
            .to_multiset().insert(s.last()).insert(x));
    }
}

/// Sorting the items keeps exactly the same item set: every key, kind and
/// value occurs as often after the sort as before.
pub proof fn lemma_sort_models_multiset(s: Seq<ItemModel>)
    ensures
        sort_models(s).to_multiset() == s.to_multiset(),
    decreases s.len(),
{
    broadcast use vstd::seq_lib::group_to_multiset_ensures;

    if s.len() > 0 {
        lemma_sort_models_multiset(s.drop_last());
        lemma_insert_model_multiset(sort_models(s.drop_last()), s.last());
        assert(s =~= s.drop_last().push(s.last()));
        assert(s.to_multiset() =~= s.drop_last().to_multiset().insert(s.last()));
    }
}

/// The insertion step keeps every item well formed.
proof fn lemma_insert_model_wf(s: Seq<ItemModel>, x: ItemModel)
    requires
        forall|i: int| 0 <= i < s.len() ==> wf_item(#[trigger] s[i]),
        wf_item(x),
    ensures
        insert_model(s, x).len() == s.len() + 1,
        forall|i: int|
            0 <= i < insert_model(s, x).len() ==> wf_item(#[trigger] insert_model(s, x)[i]),
    decreases s.len(),
{
    if s.len() == 0 {
    } else if encoded_item(s.last()).len() <= encoded_item(x).len() {
    } else {
        assert(forall|i: int|
            0 <= i < s.drop_last().len() ==> wf_item(#[trigger] s.drop_last()[i]));
        lemma_insert_model_wf(s.drop_last(), x);
    }
}

/// The sort keeps every item well formed and the item count.
pub proof fn lemma_sort_models_wf(s: Seq<ItemModel>)
    requires
        forall|i: int| 0 <= i < s.len() ==> wf_item(#[trigger] s[i]),
    ensures
        sort_models(s).len() == s.len(),
        forall|i: int| 0 <= i < sort_models(s).len() ==> wf_item(#[trigger] sort_models(s)[i]),
    decreases s.len(),
{
    if s.len() > 0 {
        assert(forall|i: int|
            0 <= i < s.drop_last().len() ==> wf_item(#[trigger] s.drop_last()[i]));
        lemma_sort_models_wf(s.drop_last());
        lemma_insert_model_wf(sort_models(s.drop_last()), s.last());
    }
}

/// Concatenation can also be peeled from the front.
proof fn lemma_concat_first(s: Seq<Seq<u8>>)
    requires
        s.len() > 0,
    ensures
        concat_all(s) == s.first() + concat_all(s.drop_first()),
    decreases s.len(),
{
    if s.len() == 1 {
        assert(s.drop_last() =~= Seq::<Seq<u8>>::empty());
        assert(s.drop_first() =~= Seq::<Seq<u8>>::empty());
        assert(s.last() == s.first());
        assert(concat_all(s) =~= s.first() + concat_all(s.drop_first()));
    } else {
        lemma_concat_first(s.drop_last());
        assert(s.drop_last().first() == s.first());
        assert(s.drop_last().drop_first() =~= s.drop_first().drop_last());
        assert(s.drop_first().last() == s.last());
        assert(concat_all(s) == concat_all(s.drop_last()) + s.last());
        assert(concat_all(s.drop_first()) == concat_all(s.drop_first().drop_last()) + s.last());
        assert(s.first() + (concat_all(s.drop_first().drop_last()) + s.last()) =~= (s.first()
            + concat_all(s.drop_first().drop_last())) + s.last());
    }
}

/// The sum can also be peeled from the front.
proof fn lemma_sum_first(s: Seq<Seq<u8>>)
    requires
        s.len() > 0,
    ensures
        sum_len(s) == s.first().len() + sum_len(s.drop_first()),
    decreases s.len(),
{
    if s.len() == 1 {
        assert(s.drop_last() =~= Seq::<Seq<u8>>::empty());
        assert(s.drop_first() =~= Seq::<Seq<u8>>::empty());
    } else {
        lemma_sum_first(s.drop_last());
        assert(s.drop_last().first() == s.first());
        assert(s.drop_last().drop_first() =~= s.drop_first().drop_last());
        assert(s.drop_first().last() == s.last());
    }
}

/// Every record sums a nonnegative length.
proof fn lemma_sum_nonneg(s: Seq<Seq<u8>>)
    ensures
        sum_len(s) >= 0,
    decreases s.len(),
{
    if s.len() > 0 {
        lemma_sum_nonneg(s.drop_last());
    }
}

/// A well-formed item's record, lying anywhere in a file, decodes back to
/// exactly that item, with the cursor landing just past the record.
pub proof fn lemma_decode_one_encoded(d: Seq<u8>, pos: int, m: ItemModel)
    requires
        wf_item(m),
        0 <= pos,
        pos + encoded_item(m).len() <= d.len(),
        d.subrange(pos, pos + encoded_item(m).len()) == encoded_item(m),
    ensures
        crate::tag::decode_one(d, pos) == crate::tag::DecodeStep::Good(
            m,
            pos + encoded_item(m).len(),
        ),
{
    let enc = encoded_item(m);
    let kb = crate::item::key_bytes(m);
    let kl = kb.len() as int;
    let vlen = m.value.len() as int;
    let tc = crate::item::type_code(m.ty);
    assert(enc.len() == 9 + kl + vlen);
    assert forall|a: int, b: int| 0 <= a <= b <= enc.len() implies #[trigger] d.subrange(
        pos + a,
        pos + b,
    ) == enc.subrange(a, b) by {
        assert(d.subrange(pos + a, pos + b) =~= enc.subrange(a, b));
    }
    assert(enc.subrange(0, 4) =~= crate::util::le32_bytes(m.value.len() as u32));
    assert(enc.subrange(4, 8) =~= crate::util::le32_bytes(tc << 1));
    crate::util::lemma_le32_value_of_bytes(m.value.len() as u32);
    crate::util::lemma_le32_value_of_bytes(tc << 1);
    assert(crate::util::le32_value(d.subrange(pos, pos + 4)) == m.value.len() as u32);
    assert(crate::util::le32_value(d.subrange(pos + 4, pos + 8)) == tc << 1);
    assert(((0u32 << 1) & 6) >> 1 == 0u32 && ((1u32 << 1) & 6) >> 1 == 1u32 && ((2u32 << 1) & 6)
        >> 1 == 2u32) by (bit_vector);
    let code = ((tc << 1) & 6) >> 1;
    assert(code == tc);
    assert(crate::tag::code_type(code) == m.ty);
    assert forall|q: int| pos + 8 <= q < pos + 8 + kl implies #[trigger] d[q] != 0 by {
        assert(d[q] == enc.subrange(8, 8 + kl)[q - (pos + 8)]);
        assert(enc.subrange(8, 8 + kl) =~= kb);
    }
    assert(d[pos + 8 + kl] == 0) by {
        assert(d.subrange(pos + 8 + kl, pos + 9 + kl) == enc.subrange(8 + kl, 9 + kl));
        assert(enc.subrange(8 + kl, 9 + kl) =~= seq![0u8]);
        assert(d.subrange(pos + 8 + kl, pos + 9 + kl)[0] == d[pos + 8 + kl]);
    }
    crate::util::lemma_find_nul(d, pos + 8);
    let fq = crate::util::find_nul(d, pos + 8);
    if fq < pos + 8 + kl {
        assert(d[fq] != 0);
        assert(false);
    }
    if fq > pos + 8 + kl {
        assert(d[pos + 8 + kl] != 0);
        assert(false);
    }
    assert(fq == pos + 8 + kl);
    assert(d.subrange(pos + 8, fq) == enc.subrange(8, 8 + kl));
    assert(enc.subrange(8, 8 + kl) =~= kb);
    vstd::utf8::encode_utf8_valid_utf8(m.key);
    vstd::utf8::encode_utf8_decode_utf8(m.key);
    assert(enc.subrange(9 + kl, 9 + kl + vlen) =~= m.value);
    assert(d.subrange(fq + 1, fq + 1 + vlen) == m.value);
}

/// A run of well-formed records, lying back to back in a file, decodes to
/// exactly those items, with the cursor landing just past the last record.
pub proof fn lemma_decode_encoded_seq(d: Seq<u8>, pos: int, ms: Seq<ItemModel>)
    requires
        forall|i: int| 0 <= i < ms.len() ==> wf_item(#[trigger] ms[i]),
        0 <= pos,
        pos + sum_len(encoded_records(ms)) <= d.len(),
        d.subrange(pos, pos + sum_len(encoded_records(ms))) == concat_all(encoded_records(ms)),
    ensures
        crate::tag::decode_items(d, pos, ms.len()) == crate::tag::DecodeResult::Done(
            ms,
            pos + sum_len(encoded_records(ms)),
        ),
    decreases ms.len(),
{
    let rs = encoded_records(ms);
    if ms.len() == 0 {
        assert(sum_len(rs) == 0) by {
            assert(rs =~= Seq::<Seq<u8>>::empty());
        }
        assert(ms =~= Seq::<ItemModel>::empty());
        assert(crate::tag::decode_items(d, pos, 0nat) == crate::tag::DecodeResult::Done(
            Seq::<ItemModel>::empty(),
            pos,
        ));
    } else {
        let e0 = encoded_item(ms[0]);
        assert(rs.first() == e0);
        lemma_concat_first(rs);
        lemma_sum_first(rs);
        lemma_sum_nonneg(rs.drop_first());
        let l0 = e0.len() as int;
        let total = sum_len(rs);
        assert(d.subrange(pos, pos + l0) == e0) by {
            assert(d.subrange(pos, pos + l0) =~= concat_all(rs).subrange(0, l0));
            assert(concat_all(rs).subrange(0, l0) =~= e0);
        }
        lemma_decode_one_encoded(d, pos, ms[0]);
        let rest = ms.drop_first();
        assert(encoded_records(rest) =~= rs.drop_first());
        assert(forall|i: int| 0 <= i < rest.len() ==> wf_item(#[trigger] rest[i]));
        assert(d.subrange(pos + l0, pos + total) == concat_all(rs.drop_first())) by {
            assert(concat_all(rs).len() == total) by {
                assert(concat_all(rs) == d.subrange(pos, pos + total));
            }
            assert forall|i: int| 0 <= i < total - l0 implies #[trigger] d.subrange(
                pos + l0,
                pos + total,
            )[i] == concat_all(rs.drop_first())[i] by {
                assert(d.subrange(pos + l0, pos + total)[i] == d[pos + l0 + i]);
                assert(d.subrange(pos, pos + total)[l0 + i] == d[pos + l0 + i]);
                assert(concat_all(rs)[l0 + i] == (rs.first() + concat_all(rs.drop_first()))[l0
                    + i]);
            }
            assert(d.subrange(pos + l0, pos + total) =~= concat_all(rs.drop_first()));
        }
        assert(sum_len(encoded_records(rest)) == total - l0) by {
            assert(encoded_records(rest) == rs.drop_first());
        }
        lemma_decode_encoded_seq(d, pos + l0, rest);
        let cnt = ms.len();
        assert(crate::tag::decode_one(d, pos) == crate::tag::DecodeStep::Good(ms[0], pos + l0));
        assert(crate::tag::decode_items(d, pos + l0, (cnt - 1) as nat)
            == crate::tag::DecodeResult::Done(rest, pos + total));
        assert(crate::tag::decode_items(d, pos, cnt) == crate::tag::DecodeResult::Done(
            seq![ms[0]] + rest,
            pos + total,
        ));
        assert(seq![ms[0]] + rest =~= ms);
    }
}

/// The outcome of one removal on a file image: the image afterwards, or
/// nothing when the removal fails with an error.
pub open spec fn remove_outcome(d: Seq<u8>) -> Option<Seq<u8>> {
    match crate::meta::locate_spec(d) {
        crate::meta::LocateSpec::Found(m) => Some(crate::tag::erased(d, m)),
        crate::meta::LocateSpec::NotFound => Some(d),
        _ => None,
    }
}

/// Idempotent removal: once a removal has succeeded and the remaining
/// image holds no tag, a second removal also succeeds and leaves the image
/// byte for byte as the first one left it.  (An image whose remaining
/// bytes happen to spell the tag signature at one of the probe offsets is
/// left out: there the second removal would find that spurious tag.)
pub proof fn lemma_remove_idempotent(d: Seq<u8>, d1: Seq<u8>)
    requires
        remove_outcome(d) == Some(d1),
        crate::meta::locate_spec(d1) is NotFound,
    ensures
        remove_outcome(d1) == Some(d1),
{
}

/// Legacy preservation: the written image ends with the tag-free host
/// image's legacy tail, byte for byte, whatever the tag's size.
pub proof fn lemma_write_preserves_legacy(d1: Seq<u8>, items: Seq<ItemModel>)
    requires
        crate::tag::legacy_fits(d1),
    ensures
        ({
            let img = crate::tag::written_image(d1, items);
            let lg = crate::tag::spec_legacy_len(d1);
            img.subrange(img.len() - lg, img.len() as int) == d1.subrange(
                d1.len() - lg,
                d1.len() as int,
            )
        }),
{
    let img = crate::tag::written_image(d1, items);
    let lg = crate::tag::spec_legacy_len(d1);
    assert(img.subrange(img.len() - lg, img.len() as int) =~= d1.subrange(
        d1.len() - lg,
        d1.len() as int,
    ));
}

/// The shape of a removal: the image shrinks by exactly the erased
/// region's length, every byte before the region keeps its place, and
/// every byte after it moves backward by the region's length, unchanged.
pub proof fn lemma_erased_shape(d: Seq<u8>, m: crate::meta::Meta)
    requires
        crate::meta::meta_wf(m, d),
    ensures
        ({
            let o = crate::meta::spec_erase_region(m).0;
            let l = crate::meta::spec_erase_region(m).1;
            let out = crate::tag::erased(d, m);
            &&& out.len() == d.len() - l
            &&& forall|k: int| 0 <= k < o ==> #[trigger] out[k] == d[k]
            &&& forall|k: int| o <= k < out.len() ==> #[trigger] out[k] == d[k + l]
        }),
{
}

/// Concatenation's length is the sum of the parts.
proof fn lemma_concat_len(s: Seq<Seq<u8>>)
    ensures
        concat_all(s).len() == sum_len(s),
    decreases s.len(),
{
    if s.len() > 0 {
        lemma_concat_len(s.drop_last());
    }
}

/// Round trip: writing a well-formed item set into any tag-free host image
/// and locating-and-decoding the result yields exactly the same item set —
/// every key, kind and value, as often as before — in ascending order of
/// record length, with the cursor landing exactly on the payload's end.
///
/// The host image must be benign: its legacy tail (if any) must not spell
/// the tag signature at the probe offsets of the written image, and a
/// variable legacy block must declare a nonnegative content size.
#[verifier::rlimit(100)]
#[verifier::spinoff_prover]
pub proof fn lemma_write_read_round_trip(d1: Seq<u8>, items: Seq<ItemModel>)
    requires
        forall|i: int| 0 <= i < items.len() ==> wf_item(#[trigger] items[i]),
        crate::tag::spec_encodable(items),
        crate::tag::legacy_fits(d1),
        d1.len() + crate::tag::spec_total_size(items) <= u64::MAX,
        crate::util::spec_lyrics3v2_present(d1) && crate::text::parseable(
            crate::util::lyrics3v2_digits(d1),
        ) ==> crate::util::spec_lyrics3v2_size(d1) >= 15,
        crate::tag::spec_legacy_len(d1) > 0 ==> !crate::meta::probe_end(
            crate::tag::written_image(d1, items),
        ) && !crate::meta::probe_start(crate::tag::written_image(d1, items)),
        crate::tag::spec_legacy_len(d1) > 128 ==> !crate::meta::sig_at(
            crate::tag::written_image(d1, items),
            crate::tag::written_image(d1, items).len() - 160,
        ),
    ensures
        ({
            let img = crate::tag::written_image(d1, items);
            match crate::meta::locate_spec(img) {
                crate::meta::LocateSpec::Found(m) => {
                    &&& m.item_count == items.len()
                    &&& m.position == crate::meta::MetaPosition::Footer
                    &&& match crate::tag::decode_items(
                        img,
                        m.start_pos as int,
                        m.item_count as nat,
                    ) {
                        crate::tag::DecodeResult::Done(got, end) => {
                            &&& end == m.end_pos
                            &&& got == sort_models(items)
                            &&& got.to_multiset() == items.to_multiset()
                        },
                        crate::tag::DecodeResult::Failed(e) => false,
                    }
                },
                _ => false,
            }
        }),
{
    let img = crate::tag::written_image(d1, items);
    let lg = crate::tag::spec_legacy_len(d1);
    let dlen = d1.len() as int;
    let stripped = d1.take(dlen - lg);
    let legacy = d1.skip(dlen - lg);
    let records = encoded_records(items);
    let payload = concat_all(sort_by_len(records));
    let ts = crate::tag::spec_total_size(items);
    let count = items.len() as u32;
    let foot = crate::tag::footer_bytes(ts as u32, count);
    let s = stripped.len() as int;
    let p = payload.len() as int;
    let fo = s + p;
    let ll = img.len() as int;

    // shape facts
    crate::tag::lemma_sum_len_sort(records);
    lemma_concat_len(sort_by_len(records));
    assert(p == ts - 32);
    assert(foot.len() == 32);
    assert(img =~= stripped + (payload + foot) + legacy);
    assert(ll == s + p + 32 + lg);
    assert(s + lg == dlen);

    // the footer's bytes stand at fo
    assert forall|a: int, b: int| 0 <= a <= b <= 32 implies #[trigger] img.subrange(
        fo + a,
        fo + b,
    ) == foot.subrange(a, b) by {
        assert(img.subrange(fo + a, fo + b) =~= foot.subrange(a, b));
    }
    assert(foot.subrange(0, 8) =~= crate::util::ape_preamble());
    assert(crate::meta::sig_at(img, fo)) by {
        assert(img.subrange(fo, fo + 8) == foot.subrange(0, 8));
    }

    // the legacy tail of img is the legacy tail of d1
    assert(img.subrange(ll - lg, ll) =~= d1.subrange(dlen - lg, dlen));

    // the locator finds the footer at fo
    if lg == 0 {
        assert(fo == ll - 32);
        assert(crate::meta::probe_end(img));
    } else {
        assert(crate::util::spec_id3v1_present(d1));
        assert(lg >= 128);
        assert(crate::util::spec_id3v1_present(img)) by {
            assert(img.subrange(ll - 128, ll - 125) =~= d1.subrange(dlen - 128, dlen - 125));
            assert(d1.subrange(dlen - 128, dlen - 125) == crate::util::id3v1_header());
        }
        if lg == 128 {
            assert(fo == ll - 160);
            assert(crate::meta::probe_id3_pos(img));
        } else {
            let sz = crate::util::spec_lyrics3v2_size(d1);
            assert(lg == 128 + sz && sz >= 15);
            assert(!crate::meta::probe_id3_pos(img));
            assert(crate::util::spec_lyrics3v2_present(img)) by {
                assert(img.subrange(ll - 137, ll - 128) =~= d1.subrange(dlen - 137, dlen - 128));
                assert(d1.subrange(dlen - 137, dlen - 128) == crate::util::lyrics3v2_header());
            }
            assert(crate::util::lyrics3v2_digits(img) == crate::util::lyrics3v2_digits(d1)) by {
                assert(img.subrange(ll - 143, ll - 137) =~= d1.subrange(dlen - 143, dlen - 137));
            }
            assert(crate::util::spec_lyrics3v2_size(img) == sz);
            assert(!crate::meta::lyrics_error(img));
            assert(crate::meta::lyrics_cand_off(img) == fo);
            assert(crate::meta::probe_lyrics_pos(img));
        }
    }
    assert(crate::meta::located_offset(img) == Some(fo));

    // the control fields decode to this crate's own footer
    crate::util::lemma_le32_value_of_bytes(crate::meta::APE_VERSION);
    crate::util::lemma_le32_value_of_bytes(ts as u32);
    crate::util::lemma_le32_value_of_bytes(count);
    crate::util::lemma_le32_value_of_bytes(0u32);
    assert(foot.subrange(8, 12) =~= crate::util::le32_bytes(crate::meta::APE_VERSION));
    assert(foot.subrange(12, 16) =~= crate::util::le32_bytes(ts as u32));
    assert(foot.subrange(16, 20) =~= crate::util::le32_bytes(count));
    assert(foot.subrange(20, 24) =~= crate::util::le32_bytes(0u32));
    assert(crate::meta::block_version(img, fo) == crate::meta::APE_VERSION);
    assert(crate::meta::block_size(img, fo) == ts as u32);
    assert(crate::meta::block_count(img, fo) == count);
    assert(crate::meta::block_flags(img, fo) == 0u32);
    assert(0u32 & 0x8000_0000u32 == 0 && 0u32 & 0x4000_0000u32 == 0 && 0u32 & 0x2000_0000u32
        == 0) by (bit_vector);
    assert(!crate::meta::flag_is_header(0u32));
    assert(!crate::meta::flag_has_header(0u32));
    assert(crate::meta::flag_has_footer(0u32));

    // the declared size is sane, and the payload bounds drop out
    assert(32 <= ts <= u32::MAX);
    assert(crate::meta::block_sane(img, fo));
    let m = crate::meta::meta_of(img, fo);
    assert(m.start_pos == s && m.end_pos == fo && m.item_count == count && m.position
        == crate::meta::MetaPosition::Footer);
    assert(crate::meta::locate_spec(img) == crate::meta::LocateSpec::Found(m));

    // the payload decodes back to the sorted items
    let sorted = sort_models(items);
    lemma_sort_models_records(items);
    lemma_sort_models_wf(items);
    lemma_sort_models_multiset(items);
    broadcast use vstd::seq_lib::group_to_multiset_ensures;

    assert(sorted.len() == items.len());
    assert(encoded_records(sorted) == sort_by_len(records));
    assert(sum_len(encoded_records(sorted)) == p) by {
        crate::tag::lemma_sum_len_sort(records);
    }
    assert(img.subrange(s, s + p) =~= payload);
    lemma_decode_encoded_seq(img, s, sorted);
    assert(crate::tag::decode_items(img, s, sorted.len()) == crate::tag::DecodeResult::Done(
        sorted,
        fo,
    ));
    assert(m.item_count as nat == items.len());
}

} // verus!
