use crate::error::Error;
use crate::item::{Item, ItemModel, ItemType};
use crate::text;
use crate::util;
use vstd::prelude::*;

verus! {

/// An item's key matches the given key, ignoring ASCII case.
pub open spec fn key_matches(m: ItemModel, key: Seq<char>) -> bool {
    text::keys_match(m.key, key)
}

/// An APE tag: an ordered collection of items.  Insertion removes any item
/// whose key matches (ignoring ASCII case) before appending, so keys stay
/// unique up to case.
#[derive(Debug, Clone)]
pub struct Tag(Vec<Item>);

impl View for Tag {
    type V = Seq<ItemModel>;

    closed spec fn view(&self) -> Seq<ItemModel> {
        self.0@.map(|i: int, it: Item| it@)
    }
}

impl Default for Tag {
    /// An empty tag.
    fn default() -> (r: Self)
        ensures
            r@ == Seq::<ItemModel>::empty(),
    {
        let t = Tag(Vec::new());
        proof {
            assert(t@ =~= Seq::<ItemModel>::empty());
        }
        t
    }
}

impl Tag {
    /// Creates a new empty tag.
    pub fn new() -> (r: Tag)
        ensures
            r@ == Seq::<ItemModel>::empty(),
    {
        let t = Tag(Vec::new());
        proof {
            assert(t@ =~= Seq::<ItemModel>::empty());
        }
        t
    }

    /// Returns the first item whose key matches, ignoring ASCII case.
    pub fn item(&self, key: &str) -> (r: Option<&Item>)
        ensures
            match r {
                Some(it) => exists|i: int|
                    {
                        &&& 0 <= i < self@.len()
                        &&& #[trigger] key_matches(self@[i], key@)
                        &&& it@ == self@[i]
                        &&& forall|j: int| 0 <= j < i ==> !key_matches(self@[j], key@)
                    },
                None => forall|i: int| 0 <= i < self@.len() ==> !key_matches(self@[i], key@),
            },
    {
        let n: usize = self.0.len();
        let mut i: usize = 0;
        while i < n
            invariant
                n == self.0@.len(),
                n == self@.len(),
                0 <= i <= n,
                forall|j: int| 0 <= j < i ==> !key_matches(self@[j], key@),
                forall|j: int| 0 <= j < n ==> #[trigger] self@[j] == self.0@[j]@,
            decreases n - i,
        {
            if text::str_eq_ignore_case(self.0[i].key_str(), key) {
                proof {
                    assert(key_matches(self@[i as int], key@));
                }
                return Some(&self.0[i]);
            }
            i += 1;
        }
        None
    }

    /// Returns all items whose key matches, ignoring ASCII case.
    pub fn items(&self, key: &str) -> (r: Vec<&Item>)
        ensures
            r@.map(|i: int, it: &Item| it@) == self@.filter(
                |m: ItemModel| key_matches(m, key@),
            ),
    {
        let ghost pred = |m: ItemModel| key_matches(m, key@);
        let n: usize = self.0.len();
        let mut out: Vec<&Item> = Vec::new();
        let mut i: usize = 0;
        proof {
            assert(self@.take(0) =~= Seq::<ItemModel>::empty());
            reveal(Seq::filter);
            assert(out@.map(|k: int, it: &Item| it@) =~= self@.take(0).filter(pred));
        }
        while i < n
            invariant
                n == self.0@.len(),
                n == self@.len(),
                0 <= i <= n,
                forall|j: int| 0 <= j < n ==> #[trigger] self@[j] == self.0@[j]@,
                out@.map(|k: int, it: &Item| it@) == self@.take(i as int).filter(pred),
                pred == (|m: ItemModel| key_matches(m, key@)),
            decreases n - i,
        {
            if text::str_eq_ignore_case(self.0[i].key_str(), key) {
                out.push(&self.0[i]);
            }
            proof {
                reveal(Seq::filter);
                assert(self@.take(i + 1).drop_last() =~= self@.take(i as int));
                assert(self@.take(i + 1).last() == self@[i as int]);
                assert(out@.map(|k: int, it: &Item| it@) =~= self@.take(i + 1).filter(pred));
            }
            i += 1;
        }
        proof {
            assert(self@.take(n as int) =~= self@);
        }
        out
    }

    /// Removes every item whose key matches the new item's key, ignoring
    /// ASCII case, then appends the new item.
    pub fn set_item(&mut self, item: Item)
        ensures
            final(self)@ == old(self)@.filter(|m: ItemModel| !key_matches(m, item@.key)).push(
                item@,
            ),
    {
        let key_copy = copy_string(item.key_str());
        self.remove_items(key_copy.as_str());
        proof {
            assert(self@ == old(self)@.filter(|m: ItemModel| !key_matches(m, item@.key)));
        }
        let ghost before = self@;
        self.0.push(item);
        proof {
            assert(self@ =~= before.push(item@));
        }
    }

    /// Removes all items whose key matches, ignoring ASCII case, and
    /// returns how many were removed.
    pub fn remove_items(&mut self, key: &str) -> (r: usize)
        ensures
            final(self)@ == old(self)@.filter(|m: ItemModel| !key_matches(m, key@)),
            r == old(self)@.len() - final(self)@.len(),
    {
        let ghost keep = |m: ItemModel| !key_matches(m, key@);
        let original_len: usize = self.0.len();
        let ghost orig = self@;
        let mut i: usize = 0;
        let mut k: usize = 0;
        proof {
            reveal(Seq::filter);
            assert(orig.take(0).filter(keep) =~= Seq::<ItemModel>::empty());
            assert(self@ =~= orig.take(0).filter(keep) + orig.skip(0));
        }
        while k < original_len
            invariant
                original_len == orig.len(),
                0 <= k <= original_len,
                i == orig.take(k as int).filter(keep).len(),
                i <= k,
                self@ == orig.take(k as int).filter(keep) + orig.skip(k as int),
                self.0@.len() == self@.len(),
                forall|j: int| 0 <= j < self@.len() ==> #[trigger] self@[j] == self.0@[j]@,
                keep == (|m: ItemModel| !key_matches(m, key@)),
            decreases original_len - k,
        {
            proof {
                reveal(Seq::filter);
                assert(orig.take(k + 1).drop_last() =~= orig.take(k as int));
                assert(orig.take(k + 1).last() == orig[k as int]);
                orig.take(k as int).lemma_filter_len(keep);
                assert(self@[i as int] == orig.skip(k as int)[0]);
                assert(orig.skip(k as int)[0] == orig[k as int]);
            }
            let ghost before = self@;
            if text::str_eq_ignore_case(self.0[i].key_str(), key) {
                let _ = self.0.remove(i);
                proof {
                    assert(self@ =~= before.remove(i as int));
                    assert(self@ =~= orig.take(k + 1).filter(keep) + orig.skip(k + 1));
                }
            } else {
                proof {
                    assert(self@ =~= orig.take(k + 1).filter(keep) + orig.skip(k + 1));
                }
                i += 1;
            }
            k += 1;
        }
        proof {
            assert(orig.take(original_len as int) =~= orig);
            assert(orig.skip(original_len as int) =~= Seq::<ItemModel>::empty());
            assert(self@ =~= orig.filter(keep));
            orig.lemma_filter_len(keep);
        }
        original_len - self.0.len()
    }

    /// Returns the items of the tag, in order.
    pub fn iter(&self) -> (r: &Vec<Item>)
        ensures
            r@.len() == self@.len(),
            forall|i: int| 0 <= i < r@.len() ==> #[trigger] r@[i]@ == self@[i],
    {
        &self.0
    }
}

/// The file image after erasing the located tag's byte region.
pub open spec fn erased(d: Seq<u8>, m: crate::meta::Meta) -> Seq<u8> {
    let o = crate::meta::spec_erase_region(m).0;
    let l = crate::meta::spec_erase_region(m).1;
    d.subrange(0, o) + d.subrange(o + l, d.len() as int)
}

/// Removes the byte region `[offset, offset + length)` from the file
/// image, moving the bytes after it backward in bounded chunks and then
/// truncating.  Each chunk is staged in a buffer of at most 64 KiB before
/// it is written back, so a byte is never overwritten before it has been
/// read, whatever the relation between the chunk size and `length`.
fn shift_left(data: &mut Vec<u8>, offset: usize, length: usize)
    requires
        offset + length <= old(data)@.len(),
        length >= 1,
    ensures
        final(data)@ == old(data)@.subrange(0, offset as int) + old(data)@.subrange(
            offset + length,
            old(data)@.len() as int,
        ),
{
    let filesize: usize = data.len();
    let movesize: usize = filesize - offset - length;
    let mut moved: usize = 0;
    while moved < movesize
        invariant
            offset + length + movesize == filesize,
            0 <= moved <= movesize,
            data@.len() == filesize,
            forall|k: int| 0 <= k < offset ==> #[trigger] data@[k] == old(data)@[k],
            forall|k: int|
                0 <= k < moved ==> #[trigger] data@[offset + k] == old(data)@[offset + length
                    + k],
            forall|k: int|
                offset + length + moved <= k < filesize ==> #[trigger] data@[k] == old(data)@[k],
        decreases movesize - moved,
    {
        let chunk: usize = if movesize - moved < 65536 {
            movesize - moved
        } else {
            65536
        };
        let mut buff: Vec<u8> = Vec::new();
        let mut j: usize = 0;
        while j < chunk
            invariant
                offset + length + movesize == filesize,
                moved + chunk <= movesize,
                data@.len() == filesize,
                0 <= j <= chunk,
                buff@.len() == j,
                forall|k: int|
                    0 <= k < j ==> #[trigger] buff@[k] == data@[offset + length + moved + k],
            decreases chunk - j,
        {
            buff.push(data[offset + length + moved + j]);
            j += 1;
        }
        let ghost d0 = data@;
        let mut w: usize = 0;
        while w < chunk
            invariant
                offset + length + movesize == filesize,
                moved + chunk <= movesize,
                data@.len() == filesize,
                0 <= w <= chunk,
                buff@.len() == chunk,
                forall|k: int|
                    0 <= k < chunk ==> #[trigger] buff@[k] == d0[offset + length + moved + k],
                forall|k: int| 0 <= k < offset + moved ==> #[trigger] data@[k] == d0[k],
                forall|k: int| 0 <= k < w ==> #[trigger] data@[offset + moved + k] == buff@[k],
                forall|k: int| offset + moved + w <= k < filesize ==> #[trigger] data@[k] == d0[k],
            decreases chunk - w,
        {
            data.set(offset + moved + w, buff[w]);
            w += 1;
        }
        proof {
            assert forall|k: int|
                0 <= k < moved + chunk implies #[trigger] data@[offset + k] == old(data)@[offset
                + length + k] by {
                if k < moved {
                    assert(data@[offset + k] == d0[offset + k]);
                    assert(d0[offset + k] == old(data)@[offset + length + k]);
                } else {
                    assert(data@[offset + moved + (k - moved)] == buff@[k - moved]);
                    assert(buff@[k - moved] == d0[offset + length + moved + (k - moved)]);
                    assert(d0[offset + length + k] == old(data)@[offset + length + k]);
                }
            }
            assert forall|k: int| 0 <= k < offset implies #[trigger] data@[k] == old(data)@[k] by {
                assert(data@[k] == d0[k]);
                assert(d0[k] == old(data)@[k]);
            }
            assert forall|k: int|
                offset + length + moved + chunk <= k < filesize implies #[trigger] data@[k]
                == old(data)@[k] by {
                assert(data@[k] == d0[k]);
                assert(d0[k] == old(data)@[k]);
            }
        }
        moved += chunk;
    }
    let ghost dpre = data@;
    data.truncate(filesize - length);
    proof {
        let tail = old(data)@.subrange(offset + length, old(data)@.len() as int);
        let goal = old(data)@.subrange(0, offset as int) + tail;
        assert(data@.len() == goal.len());
        assert forall|k: int| 0 <= k < filesize - length implies #[trigger] data@[k]
            == goal[k] by {
            assert(data@[k] == dpre[k]);
            if k < offset {
                assert(dpre[k] == old(data)@[k]);
            } else {
                assert(dpre[offset + (k - offset)] == old(data)@[offset + length + (k - offset)]);
                assert(tail[k - offset] == old(data)@[offset + length + (k - offset)]);
            }
        }
        assert(data@ =~= goal);
    }
}

/// Attempts to remove an APE tag from the file image.
///
/// It is not an error when no tag exists: the image is left untouched.
/// When a tag is found, its byte region (item payload plus control blocks)
/// is erased by the bounded-memory shift and the image shrinks by exactly
/// that region's length; every byte outside the region is preserved.
pub fn remove_from(data: &mut Vec<u8>) -> (r: Result<(), Error>)
    ensures
        ({
            let d = old(data)@;
            match crate::meta::locate_spec(d) {
                crate::meta::LocateSpec::Found(m) => r is Ok && final(data)@ == erased(d, m),
                crate::meta::LocateSpec::NotFound => r is Ok && final(data)@ == d,
                crate::meta::LocateSpec::BadVersion => r == Err::<(), Error>(
                    Error::InvalidApeVersion,
                ) && final(data)@ == d,
                crate::meta::LocateSpec::BadSize => r == Err::<(), Error>(Error::InvalidTagSize)
                    && final(data)@ == d,
                crate::meta::LocateSpec::BadLyrics => {
                    &&& r is Err
                    &&& final(data)@ == d
                    &&& vstd::utf8::valid_utf8(util::lyrics3v2_digits(d)) ==> (r matches Err(
                        Error::ParseLyrics3V2SizeInt(_),
                    ))
                    &&& !vstd::utf8::valid_utf8(util::lyrics3v2_digits(d)) ==> (r matches Err(
                        Error::ParseLyrics3V2SizeStr(_),
                    ))
                },
            }
        }),
{
    let meta = match crate::meta::Meta::read(data) {
        Ok(meta) => meta,
        Err(e) => {
            return match e {
                Error::TagNotFound => Ok(()),
                _ => Err(e),
            };
        },
    };
    let n: usize = data.len();
    proof {
        assert(crate::meta::spec_erase_region(meta).0 + crate::meta::spec_erase_region(meta).1
            <= n);
    }
    let (offset, length) = meta.erase_region();
    shift_left(data, offset as usize, length as usize);
    proof {
        assert(data@ =~= erased(old(data)@, meta));
    }
    Ok(())
}

/// The concatenation of a sequence of byte sequences.
pub open spec fn concat_all(s: Seq<Seq<u8>>) -> Seq<u8>
    decreases s.len(),
{
    if s.len() == 0 {
        Seq::empty()
    } else {
        concat_all(s.drop_last()) + s.last()
    }
}

/// The total byte length of a sequence of byte sequences.
pub open spec fn sum_len(s: Seq<Seq<u8>>) -> int
    decreases s.len(),
{
    if s.len() == 0 {
        0
    } else {
        sum_len(s.drop_last()) + s.last().len()
    }
}

/// Inserts `x` after the last element no longer than it: the insertion
/// step of a stable ascending sort by byte length.
pub open spec fn insert_by_len(s: Seq<Seq<u8>>, x: Seq<u8>) -> Seq<Seq<u8>>
    decreases s.len(),
{
    if s.len() == 0 {
        seq![x]
    } else if s.last().len() <= x.len() {
        s.push(x)
    } else {
        insert_by_len(s.drop_last(), x).push(s.last())
    }
}

/// Stable ascending sort by byte length: what a stable sort of the encoded
/// records yields, ties kept in their original relative order.
pub open spec fn sort_by_len(s: Seq<Seq<u8>>) -> Seq<Seq<u8>>
    decreases s.len(),
{
    if s.len() == 0 {
        Seq::empty()
    } else {
        insert_by_len(sort_by_len(s.drop_last()), s.last())
    }
}

/// The views of a sequence of byte vectors.
pub open spec fn views(s: Seq<Vec<u8>>) -> Seq<Seq<u8>> {
    s.map(|i: int, v: Vec<u8>| v@)
}

/// The encoded records of a sequence of items, in order.
pub open spec fn encoded_records(items: Seq<ItemModel>) -> Seq<Seq<u8>> {
    items.map(|i: int, m: ItemModel| crate::item::encoded_item(m))
}

/// The 32 bytes of a trailing control block as this crate writes it:
/// signature, version, total size, item count, zero flags, reserved
/// zeroes.
pub open spec fn footer_bytes(size: u32, count: u32) -> Seq<u8> {
    crate::util::ape_preamble() + crate::util::le32_bytes(crate::meta::APE_VERSION)
        + crate::util::le32_bytes(size) + crate::util::le32_bytes(count)
        + crate::util::le32_bytes(0u32) + seq![0u8, 0u8, 0u8, 0u8, 0u8, 0u8, 0u8, 0u8]
}

/// The declared total size of a written tag: the trailing control block
/// plus every encoded record.
pub open spec fn spec_total_size(items: Seq<ItemModel>) -> int {
    32 + sum_len(encoded_records(items))
}

/// Every item can be encoded and the control fields fit their 32-bit
/// slots.
pub open spec fn spec_encodable(items: Seq<ItemModel>) -> bool {
    &&& forall|i: int| 0 <= i < items.len() ==> (#[trigger] items[i].value).len() <= u32::MAX
    &&& spec_total_size(items) <= u32::MAX
    &&& items.len() <= u32::MAX
}

/// The byte image of a freshly written tag: the records sorted ascending
/// by length, then the trailing control block.
pub open spec fn tag_image(items: Seq<ItemModel>) -> Seq<u8> {
    concat_all(sort_by_len(encoded_records(items))) + footer_bytes(
        spec_total_size(items) as u32,
        items.len() as u32,
    )
}

/// The length of the legacy tail of a (tag-free) file: the fixed block
/// and, when its signature and size digits are readable, the variable
/// block before it.
pub open spec fn spec_legacy_len(d: Seq<u8>) -> int {
    if crate::util::spec_id3v1_present(d) {
        if crate::util::spec_lyrics3v2_present(d) && text::parseable(crate::util::lyrics3v2_digits(d))
            && crate::util::spec_lyrics3v2_size(d) != -1 {
            128 + crate::util::spec_lyrics3v2_size(d)
        } else {
            128
        }
    } else {
        0
    }
}

/// The variable legacy block is present but its size digits do not parse.
pub open spec fn legacy_parse_error(d: Seq<u8>) -> bool {
    &&& crate::util::spec_id3v1_present(d)
    &&& crate::util::spec_lyrics3v2_present(d)
    &&& !text::parseable(crate::util::lyrics3v2_digits(d))
}

/// The legacy tail's declared length lies inside the file.
pub open spec fn legacy_fits(d: Seq<u8>) -> bool {
    0 <= spec_legacy_len(d) <= d.len()
}

/// The file image after appending a fresh tag to the tag-free image `d1`:
/// the legacy tail is carved off, the tag is appended, and the tail is put
/// back after it, byte for byte.
pub open spec fn written_image(d1: Seq<u8>, items: Seq<ItemModel>) -> Seq<u8> {
    let lg = spec_legacy_len(d1);
    d1.take(d1.len() - lg) + tag_image(items) + d1.skip(d1.len() - lg)
}

/// What writing to the tag-free image `d1` leaves behind: the legacy
/// probe's errors, or the written image.
pub open spec fn write_result(
    d1: Seq<u8>,
    items: Seq<ItemModel>,
    r: Result<(), Error>,
    fin: Seq<u8>,
) -> bool {
    &&& legacy_parse_error(d1) ==> r is Err && fin == d1
    &&& !legacy_parse_error(d1) && !legacy_fits(d1) ==> r == Err::<(), Error>(
        Error::InvalidTagSize,
    ) && fin == d1
    &&& !legacy_parse_error(d1) && legacy_fits(d1) ==> r is Ok && fin == written_image(d1, items)
}

/// Splitting off one more element of a prefix adds its length to the
/// prefix sum.
proof fn lemma_sum_len_take_step(s: Seq<Seq<u8>>, k: int)
    requires
        0 <= k < s.len(),
    ensures
        sum_len(s.take(k + 1)) == sum_len(s.take(k)) + s[k].len(),
{
    assert(s.take(k + 1).drop_last() =~= s.take(k));
    assert(s.take(k + 1).last() == s[k]);
}

/// A prefix never sums to more than the whole.
proof fn lemma_sum_len_prefix(s: Seq<Seq<u8>>, k: int)
    requires
        0 <= k <= s.len(),
    ensures
        sum_len(s.take(k)) <= sum_len(s),
    decreases s.len() - k,
{
    if k == s.len() {
        assert(s.take(k) =~= s);
    } else {
        lemma_sum_len_take_step(s, k);
        lemma_sum_len_prefix(s, k + 1);
    }
}

/// Inserting an element adds its length to the sum.
proof fn lemma_sum_len_insert(s: Seq<Seq<u8>>, x: Seq<u8>)
    ensures
        sum_len(insert_by_len(s, x)) == sum_len(s) + x.len(),
    decreases s.len(),
{
    if s.len() == 0 {
        let one = insert_by_len(s, x);
        assert(one == seq![x]);
        assert(one.drop_last() =~= Seq::<Seq<u8>>::empty());
        assert(one.last() == x);
        assert(sum_len(one.drop_last()) == 0);
        assert(sum_len(one) == x.len());
    } else if s.last().len() <= x.len() {
        let one = s.push(x);
        assert(insert_by_len(s, x) == one);
        assert(one.drop_last() =~= s);
        assert(one.last() == x);
        assert(sum_len(one) == sum_len(one.drop_last()) + x.len());
    } else {
        lemma_sum_len_insert(s.drop_last(), x);
        let inner = insert_by_len(s.drop_last(), x);
        let one = inner.push(s.last());
        assert(insert_by_len(s, x) == one);
        assert(one.drop_last() =~= inner);
        assert(one.last() == s.last());
        assert(sum_len(one) == sum_len(one.drop_last()) + s.last().len());
    }
}

/// Sorting preserves the total length.
pub proof fn lemma_sum_len_sort(s: Seq<Seq<u8>>)
    ensures
        sum_len(sort_by_len(s)) == sum_len(s),
    decreases s.len(),
{
    if s.len() > 0 {
        lemma_sum_len_sort(s.drop_last());
        lemma_sum_len_insert(sort_by_len(s.drop_last()), s.last());
    }
}

/// Where the stable insertion lands: before every element longer than
/// `x`, after the rest.
proof fn lemma_insert_position(s: Seq<Seq<u8>>, x: Seq<u8>, p: int)
    requires
        0 <= p <= s.len(),
        p == 0 || s[p - 1].len() <= x.len(),
        forall|q: int| p <= q < s.len() ==> (#[trigger] s[q]).len() > x.len(),
    ensures
        insert_by_len(s, x) == s.insert(p, x),
    decreases s.len(),
{
    if s.len() == 0 {
        assert(insert_by_len(s, x) =~= s.insert(0, x));
    } else if s.last().len() <= x.len() {
        assert(p == s.len());
        assert(insert_by_len(s, x) =~= s.insert(p, x));
    } else {
        assert(p < s.len());
        lemma_insert_position(s.drop_last(), x, p);
        assert(insert_by_len(s.drop_last(), x).push(s.last()) =~= s.insert(p, x));
    }
}

/// Concatenating one more element appends it.
proof fn lemma_concat_take_step(s: Seq<Seq<u8>>, k: int)
    requires
        0 <= k < s.len(),
    ensures
        concat_all(s.take(k + 1)) == concat_all(s.take(k)) + s[k],
{
    assert(s.take(k + 1).drop_last() =~= s.take(k));
    assert(s.take(k + 1).last() == s[k]);
}

/// Sorts encoded records ascending by byte length, keeping equal lengths
/// in their original relative order.
fn sort_encoded(items: Vec<Vec<u8>>) -> (r: Vec<Vec<u8>>)
    ensures
        views(r@) == sort_by_len(views(items@)),
{
    let ghost orig = views(items@);
    let mut rest = items;
    let mut out: Vec<Vec<u8>> = Vec::new();
    let ghost mut k: int = 0;
    proof {
        assert(orig.take(0) =~= Seq::<Seq<u8>>::empty());
        assert(views(out@) =~= sort_by_len(orig.take(0)));
        assert(views(rest@) =~= orig.skip(0));
    }
    while rest.len() > 0
        invariant
            0 <= k <= orig.len(),
            views(rest@) == orig.skip(k),
            rest@.len() == orig.len() - k,
            views(out@) == sort_by_len(orig.take(k)),
        decreases rest@.len(),
    {
        let ghost rest_prev = rest@;
        let x = rest.remove(0);
        proof {
            assert(x@ == views(rest_prev)[0]);
            assert(views(rest_prev)[0] == orig.skip(k)[0]);
            assert(orig.skip(k)[0] == orig[k]);
            assert forall|q: int| 0 <= q < rest@.len() implies views(rest@)[q] == orig.skip(
                k + 1,
            )[q] by {
                assert(rest@[q] == rest_prev[q + 1]);
                assert(views(rest_prev)[q + 1] == orig.skip(k)[q + 1]);
                assert(orig.skip(k)[q + 1] == orig[k + 1 + q]);
                assert(orig.skip(k + 1)[q] == orig[k + 1 + q]);
            }
            assert(views(rest@) =~= orig.skip(k + 1));
        }
        let mut p: usize = out.len();
        while p > 0 && out[p - 1].len() > x.len()
            invariant
                0 <= p <= out@.len(),
                forall|q: int| p <= q < out@.len() ==> (#[trigger] out@[q]@).len() > x@.len(),
            decreases p,
        {
            p -= 1;
        }
        let ghost sorted_prev = views(out@);
        out.insert(p, x);
        proof {
            assert forall|q: int| p <= q < sorted_prev.len() implies (#[trigger] sorted_prev[q]).len()
                > x@.len() by {
                assert(sorted_prev[q] == out@[q + 1]@);
            }
            lemma_insert_position(sorted_prev, x@, p as int);
            assert(views(out@) =~= sorted_prev.insert(p as int, x@));
            assert(orig.take(k + 1).drop_last() =~= orig.take(k));
            assert(orig.take(k + 1).last() == orig[k]);
            k = k + 1;
        }
    }
    proof {
        assert(orig.take(k) =~= orig);
        assert(views(rest@) =~= Seq::<Seq<u8>>::empty());
    }
    out
}

/// Attempts to write the tag to the file image.
///
/// Every item is encoded fully in memory first, and the write is abandoned
/// before any mutation when an item cannot be encoded or the control
/// fields would not fit their 32-bit slots.  Any existing tag is then
/// removed (a no-op when none exists), the legacy trailing blocks are
/// carved off, and the encoded records — sorted ascending by length, ties
/// in their original order — the trailing control block and the legacy
/// bytes are appended in that order.
#[verifier::rlimit(100)]
pub fn write_to(tag: &Tag, data: &mut Vec<u8>) -> (r: Result<(), Error>)
    ensures
        ({
            let d = old(data)@;
            let items = tag@;
            &&& !spec_encodable(items) ==> (r == Err::<(), Error>(Error::InvalidTagSize)
                && final(data)@ == d)
            &&& spec_encodable(items) ==> match crate::meta::locate_spec(d) {
                crate::meta::LocateSpec::Found(m) => write_result(
                    erased(d, m),
                    items,
                    r,
                    final(data)@,
                ),
                crate::meta::LocateSpec::NotFound => write_result(d, items, r, final(data)@),
                crate::meta::LocateSpec::BadVersion => r == Err::<(), Error>(
                    Error::InvalidApeVersion,
                ) && final(data)@ == d,
                crate::meta::LocateSpec::BadSize => r == Err::<(), Error>(Error::InvalidTagSize)
                    && final(data)@ == d,
                crate::meta::LocateSpec::BadLyrics => {
                    &&& r is Err
                    &&& final(data)@ == d
                    &&& vstd::utf8::valid_utf8(util::lyrics3v2_digits(d)) ==> (r matches Err(
                        Error::ParseLyrics3V2SizeInt(_),
                    ))
                    &&& !vstd::utf8::valid_utf8(util::lyrics3v2_digits(d)) ==> (r matches Err(
                        Error::ParseLyrics3V2SizeStr(_),
                    ))
                },
            }
        }),
{
    let items_vec = tag.iter();
    let n_items: usize = items_vec.len();
    let mut encoded: Vec<Vec<u8>> = Vec::new();
    let mut i: usize = 0;
    proof {
        assert(views(encoded@) =~= encoded_records(tag@.take(0)));
    }
    while i < n_items
        invariant
            n_items == items_vec@.len(),
            n_items == tag@.len(),
            forall|j: int| 0 <= j < n_items ==> #[trigger] items_vec@[j]@ == tag@[j],
            0 <= i <= n_items,
            encoded@.len() == i,
            views(encoded@) == encoded_records(tag@.take(i as int)),
            forall|j: int| 0 <= j < i ==> (#[trigger] tag@[j].value).len() <= u32::MAX,
        decreases n_items - i,
    {
        let enc = match items_vec[i].to_vec() {
            Ok(v) => v,
            Err(e) => {
                proof {
                    assert(!spec_encodable(tag@));
                }
                return Err(e);
            },
        };
        let ghost enc_prev = encoded@;
        encoded.push(enc);
        proof {
            assert forall|q: int| 0 <= q < i + 1 implies views(encoded@)[q] == encoded_records(
                tag@.take(i + 1),
            )[q] by {
                assert(tag@.take(i + 1)[q] == tag@[q]);
                if q < i {
                    assert(encoded@[q] == enc_prev[q]);
                    assert(views(enc_prev)[q] == encoded_records(tag@.take(i as int))[q]);
                    assert(tag@.take(i as int)[q] == tag@[q]);
                } else {
                    assert(encoded@[q] == enc);
                    assert(enc@ == crate::item::encoded_item(tag@[q]));
                }
            }
            assert(views(encoded@) =~= encoded_records(tag@.take(i + 1)));
        }
        i += 1;
    }
    proof {
        assert(tag@.take(n_items as int) =~= tag@);
    }
    if n_items as u64 > u32::MAX as u64 {
        return Err(Error::InvalidTagSize);
    }
    let mut total: u64 = 32;
    let mut j: usize = 0;
    proof {
        assert(encoded_records(tag@).take(0) =~= Seq::<Seq<u8>>::empty());
    }
    while j < n_items
        invariant
            n_items == encoded@.len(),
            n_items == tag@.len(),
            views(encoded@) == encoded_records(tag@),
            0 <= j <= n_items,
            total == 32 + sum_len(encoded_records(tag@).take(j as int)),
            32 <= total <= u32::MAX,
        decreases n_items - j,
    {
        let el: u64 = encoded[j].len() as u64;
        proof {
            lemma_sum_len_take_step(encoded_records(tag@), j as int);
        }
        if el > u32::MAX as u64 || total + el > u32::MAX as u64 {
            proof {
                lemma_sum_len_prefix(encoded_records(tag@), j + 1);
                assert(spec_total_size(tag@) > u32::MAX);
            }
            return Err(Error::InvalidTagSize);
        }
        total = total + el;
        j += 1;
    }
    proof {
        assert(encoded_records(tag@).take(n_items as int) =~= encoded_records(tag@));
        assert(total == spec_total_size(tag@));
        assert(spec_encodable(tag@));
    }
    match remove_from(data) {
        Ok(()) => (),
        Err(e) => {
            return Err(e);
        },
    }
    let ghost d1 = data@;
    let filesize: usize = data.len();
    let mut id3: Vec<u8> = Vec::new();
    if crate::util::probe_id3v1(data) {
        let lsize = match crate::util::probe_lyrics3v2(data) {
            Ok(v) => v,
            Err(e) => {
                return Err(e);
            },
        };
        let mut end_size: i64 = 128;
        if lsize != -1 {
            end_size = end_size + lsize;
        }
        proof {
            if crate::util::spec_lyrics3v2_present(d1) && text::parseable(
                crate::util::lyrics3v2_digits(d1),
            ) {
                text::lemma_parsed_value_bound(crate::util::lyrics3v2_digits(d1));
            }
            assert(spec_legacy_len(d1) == end_size as int);
        }
        if end_size < 0 || end_size as u64 > filesize as u64 {
            return Err(Error::InvalidTagSize);
        }
        let e: usize = end_size as usize;
        id3 = crate::util::copy_range(data, filesize - e, filesize);
        data.truncate(filesize - e);
    }
    proof {
        let lg = spec_legacy_len(d1);
        assert(data@ =~= d1.take(d1.len() - lg));
        assert(id3@ =~= d1.skip(d1.len() - lg));
    }
    let ghost d2 = data@;
    let sorted = sort_encoded(encoded);
    let n_sorted: usize = sorted.len();
    let mut w: usize = 0;
    proof {
        assert(views(sorted@).take(0) =~= Seq::<Seq<u8>>::empty());
        assert(data@ =~= d2 + concat_all(views(sorted@).take(0)));
    }
    while w < n_sorted
        invariant
            n_sorted == sorted@.len(),
            0 <= w <= n_sorted,
            views(sorted@) == sort_by_len(encoded_records(tag@)),
            data@ == d2 + concat_all(views(sorted@).take(w as int)),
        decreases n_sorted - w,
    {
        util::push_bytes(data, sorted[w].as_slice());
        proof {
            lemma_concat_take_step(views(sorted@), w as int);
            assert(views(sorted@)[w as int] == sorted@[w as int]@);
        }
        w += 1;
    }
    proof {
        assert(views(sorted@).take(n_sorted as int) =~= views(sorted@));
        assert(data@ == d2 + concat_all(sort_by_len(encoded_records(tag@))));
    }
    let ghost d3 = data@;
    let sig = crate::util::ape_preamble_bytes();
    util::push_bytes(data, sig.as_slice());
    crate::util::push_le_u32(data, crate::meta::APE_VERSION);
    crate::util::push_le_u32(data, total as u32);
    crate::util::push_le_u32(data, n_items as u32);
    crate::util::push_le_u32(data, 0);
    data.push(0u8);
    data.push(0u8);
    data.push(0u8);
    data.push(0u8);
    data.push(0u8);
    data.push(0u8);
    data.push(0u8);
    data.push(0u8);
    proof {
        assert(data@ =~= d3 + footer_bytes(
            spec_total_size(tag@) as u32,
            tag@.len() as u32,
        ));
    }
    util::push_bytes(data, id3.as_slice());
    proof {
        assert(data@ =~= written_image(d1, tag@));
    }
    Ok(())
}

/// Why the decoding of one item record fails.
pub ghost enum FailKind {
    /// The record runs past the end of the file.
    Truncated,
    /// The key bytes are not UTF-8.
    KeyUtf8,
    /// The kind code in the flags, which is not a known item type.
    BadType(u32),
    /// The key's byte length is out of range.
    KeyLen,
    /// The key is one of the denied keys.
    KeyDenied,
    /// The key is not ASCII.
    KeyAscii,
}

/// The error a failed decoding surfaces as.
pub open spec fn fail_matches(k: FailKind, r: Result<Tag, Error>) -> bool {
    match k {
        FailKind::Truncated => r == Err::<Tag, Error>(Error::InvalidTagSize),
        FailKind::KeyUtf8 => r matches Err(Error::ParseItemKey(_)),
        FailKind::BadType(c) => r == Err::<Tag, Error>(Error::InvalidItemType(c)),
        FailKind::KeyLen => r == Err::<Tag, Error>(Error::InvalidItemKeyLen),
        FailKind::KeyDenied => r == Err::<Tag, Error>(Error::ItemKeyDenied),
        FailKind::KeyAscii => r == Err::<Tag, Error>(Error::InvalidItemKeyValue),
    }
}

/// The item type of a two-bit kind code.
pub open spec fn code_type(code: u32) -> ItemType {
    if code == 1 {
        ItemType::Binary
    } else if code == 2 {
        ItemType::Locator
    } else {
        ItemType::Text
    }
}

/// Decoding one item record at `p`, or why it fails.
pub ghost enum DecodeStep {
    /// The decoded item and the position after its record.
    Good(ItemModel, int),
    /// The decoding fails.
    Bad(FailKind),
}

/// Decodes the item record at `p`: value length, flags, NUL-terminated
/// key, then the value bytes, validated exactly as reading does.
pub open spec fn decode_one(d: Seq<u8>, p: int) -> DecodeStep {
    if !(0 <= p && p + 8 <= d.len()) {
        DecodeStep::Bad(FailKind::Truncated)
    } else {
        let vlen = util::le32_value(d.subrange(p, p + 4)) as int;
        let flags = util::le32_value(d.subrange(p + 4, p + 8));
        let q = util::find_nul(d, p + 8);
        if q >= d.len() {
            DecodeStep::Bad(FailKind::Truncated)
        } else {
            let kb = d.subrange(p + 8, q);
            let vstart = q + 1;
            if vstart + vlen > d.len() {
                DecodeStep::Bad(FailKind::Truncated)
            } else if !vstd::utf8::valid_utf8(kb) {
                DecodeStep::Bad(FailKind::KeyUtf8)
            } else {
                let code = (flags & 6) >> 1;
                if code >= 3 {
                    DecodeStep::Bad(FailKind::BadType(code))
                } else if !(2 <= kb.len() <= 255) {
                    DecodeStep::Bad(FailKind::KeyLen)
                } else if crate::item::denied_key(kb) {
                    DecodeStep::Bad(FailKind::KeyDenied)
                } else if !vstd::utf8::is_ascii_chars(vstd::utf8::decode_utf8(kb)) {
                    DecodeStep::Bad(FailKind::KeyAscii)
                } else {
                    DecodeStep::Good(
                        ItemModel {
                            key: vstd::utf8::decode_utf8(kb),
                            ty: code_type(code),
                            value: d.subrange(vstart, vstart + vlen),
                        },
                        vstart + vlen,
                    )
                }
            }
        }
    }
}

/// Decoding `count` item records in sequence, or why it fails.
pub ghost enum DecodeResult {
    /// The decoded items and the position after the last record.
    Done(Seq<ItemModel>, int),
    /// The decoding fails.
    Failed(FailKind),
}

/// Decodes exactly `count` item records starting at `p`.
pub open spec fn decode_items(d: Seq<u8>, p: int, count: nat) -> DecodeResult
    decreases count,
{
    if count == 0 {
        DecodeResult::Done(Seq::empty(), p)
    } else {
        match decode_one(d, p) {
            DecodeStep::Good(m, next) => match decode_items(d, next, (count - 1) as nat) {
                DecodeResult::Done(items, end) => DecodeResult::Done(seq![m] + items, end),
                DecodeResult::Failed(e) => DecodeResult::Failed(e),
            },
            DecodeStep::Bad(e) => DecodeResult::Failed(e),
        }
    }
}

/// Attempts to read an APE tag from the file image.
///
/// The locator's errors are surfaced as they are; a located tag is decoded
/// record by record from `start_pos`, and the read fails with
/// `InvalidTagSize` unless exactly `item_count` records land the cursor on
/// `end_pos` — a mismatch means the declared size or count is corrupt, and
/// is never silently tolerated.  A record that runs past the end of the
/// file fails the same way.
#[verifier::rlimit(100)]
pub fn read_from(data: &Vec<u8>) -> (r: Result<Tag, Error>)
    ensures
        ({
            let d = data@;
            match crate::meta::locate_spec(d) {
                crate::meta::LocateSpec::Found(m) => match decode_items(
                    d,
                    m.start_pos as int,
                    m.item_count as nat,
                ) {
                    DecodeResult::Done(items, end) => {
                        &&& end == m.end_pos ==> (r matches Ok(t) && t@ == items)
                        &&& end != m.end_pos ==> r == Err::<Tag, Error>(Error::InvalidTagSize)
                    },
                    DecodeResult::Failed(e) => fail_matches(e, r),
                },
                crate::meta::LocateSpec::NotFound => r == Err::<Tag, Error>(Error::TagNotFound),
                crate::meta::LocateSpec::BadVersion => r == Err::<Tag, Error>(
                    Error::InvalidApeVersion,
                ),
                crate::meta::LocateSpec::BadSize => r == Err::<Tag, Error>(Error::InvalidTagSize),
                crate::meta::LocateSpec::BadLyrics => {
                    &&& r is Err
                    &&& vstd::utf8::valid_utf8(util::lyrics3v2_digits(d)) ==> (r matches Err(
                        Error::ParseLyrics3V2SizeInt(_),
                    ))
                    &&& !vstd::utf8::valid_utf8(util::lyrics3v2_digits(d)) ==> (r matches Err(
                        Error::ParseLyrics3V2SizeStr(_),
                    ))
                },
            }
        }),
{
    let meta = match crate::meta::Meta::read(data) {
        Ok(m) => m,
        Err(e) => {
            return Err(e);
        },
    };
    let n: usize = data.len();
    let count: u32 = meta.item_count;
    let mut cur: usize = meta.start_pos as usize;
    let mut items: Vec<Item> = Vec::new();
    let mut k: u32 = 0;
    let ghost start = meta.start_pos as int;
    let ghost whole = decode_items(data@, start, count as nat);
    proof {
        match decode_items(data@, cur as int, (count - k) as nat) {
            DecodeResult::Done(rest, end) => {
                assert(Seq::<ItemModel>::empty() + rest =~= rest);
                assert(items@.map(|i: int, it: Item| it@) =~= Seq::<ItemModel>::empty());
            },
            DecodeResult::Failed(e) => {},
        }
    }
    while k < count
        invariant
            n == data@.len(),
            0 <= cur <= n,
            0 <= k <= count,
            crate::meta::locate_spec(data@) == crate::meta::LocateSpec::Found(meta),
            start == meta.start_pos as int,
            count == meta.item_count,
            whole == decode_items(data@, start, count as nat),
            ({
                let acc = items@.map(|i: int, it: Item| it@);
                match decode_items(data@, cur as int, (count - k) as nat) {
                    DecodeResult::Done(rest, end) => whole == DecodeResult::Done(acc + rest, end),
                    DecodeResult::Failed(e) => whole == DecodeResult::Failed(e),
                }
            }),
        decreases count - k,
    {
        let ghost d = data@;
        let ghost acc = items@.map(|i: int, it: Item| it@);
        if n - cur < 8 {
            proof {
                assert(decode_one(d, cur as int) == DecodeStep::Bad(FailKind::Truncated));
                assert(decode_items(d, cur as int, (count - k) as nat)
                    == DecodeResult::Failed(FailKind::Truncated));
            }
            return Err(Error::InvalidTagSize);
        }
        let vlen32 = util::read_le_u32(data, cur);
        let flags = util::read_le_u32(data, cur + 4);
        let mut q: usize = cur + 8;
        while q < n && data[q] != 0
            invariant
                n == data@.len(),
                cur + 8 <= q <= n,
                forall|j: int| cur + 8 <= j < q ==> #[trigger] data@[j] != 0,
            decreases n - q,
        {
            q += 1;
        }
        proof {
            util::lemma_find_nul(d, cur + 8);
            let fq = util::find_nul(d, cur + 8);
            if fq < q {
                assert(d[fq] != 0);
            }
            if fq > q {
                assert(d[q as int] != 0);
            }
            assert(fq == q);
        }
        if q == n {
            proof {
                assert(decode_one(d, cur as int) == DecodeStep::Bad(FailKind::Truncated));
                assert(decode_items(d, cur as int, (count - k) as nat)
                    == DecodeResult::Failed(FailKind::Truncated));
            }
            return Err(Error::InvalidTagSize);
        }
        let vlen: usize = vlen32 as usize;
        if vlen > n - (q + 1) {
            proof {
                assert(decode_one(d, cur as int) == DecodeStep::Bad(FailKind::Truncated));
                assert(decode_items(d, cur as int, (count - k) as nat)
                    == DecodeResult::Failed(FailKind::Truncated));
            }
            return Err(Error::InvalidTagSize);
        }
        let whole_slice = data.as_slice();
        let kb: &[u8] = &whole_slice[cur + 8..q];
        proof {
            assert(kb@ == d.subrange(cur + 8, q as int));
        }
        let key_str = match text::bytes_to_str(kb) {
            Ok(s) => s,
            Err(e) => {
                proof {
                    assert(decode_one(d, cur as int) == DecodeStep::Bad(FailKind::KeyUtf8));
                assert(decode_items(d, cur as int, (count - k) as nat)
                    == DecodeResult::Failed(FailKind::KeyUtf8));
                }
                return Err(Error::ParseItemKey(e));
            },
        };
        let ty = match ItemType::from_flags(flags) {
            Ok(t) => t,
            Err(e) => {
                proof {
                    assert(decode_one(d, cur as int) == DecodeStep::Bad(
                        FailKind::BadType((flags & 6) >> 1),
                    ));
                    assert(decode_items(d, cur as int, (count - k) as nat)
                        == DecodeResult::Failed(FailKind::BadType((flags & 6) >> 1)));
                }
                return Err(e);
            },
        };
        let value = util::copy_range(data, q + 1, q + 1 + vlen);
        let key_string = copy_string(key_str);
        proof {
            vstd::utf8::decode_utf8_encode_utf8(kb@);
            assert(vstd::utf8::encode_utf8(key_string@) == kb@);
        }
        let item = match Item::new(key_string, ty, value) {
            Ok(it) => it,
            Err(e) => {
                proof {
                    let code = (flags & 6) >> 1;
                    if !(2 <= kb@.len() <= 255) {
                        assert(decode_one(d, cur as int) == DecodeStep::Bad(FailKind::KeyLen));
                assert(decode_items(d, cur as int, (count - k) as nat)
                    == DecodeResult::Failed(FailKind::KeyLen));
                    } else if crate::item::denied_key(kb@) {
                        assert(decode_one(d, cur as int) == DecodeStep::Bad(FailKind::KeyDenied));
                assert(decode_items(d, cur as int, (count - k) as nat)
                    == DecodeResult::Failed(FailKind::KeyDenied));
                    } else {
                        assert(decode_one(d, cur as int) == DecodeStep::Bad(FailKind::KeyAscii));
                assert(decode_items(d, cur as int, (count - k) as nat)
                    == DecodeResult::Failed(FailKind::KeyAscii));
                    }
                }
                return Err(e);
            },
        };
        let ghost model = ItemModel {
            key: vstd::utf8::decode_utf8(kb@),
            ty: code_type((flags & 6) >> 1),
            value: d.subrange(q + 1, q + 1 + vlen),
        };
        proof {
            assert(item@ == model);
            assert(decode_one(d, cur as int) == DecodeStep::Good(model, q + 1 + vlen));
        }
        items.push(item);
        cur = q + 1 + vlen;
        k = k + 1;
        proof {
            let acc_new = items@.map(|i: int, it: Item| it@);
            assert(acc_new =~= acc.push(model));
            match decode_items(d, cur as int, (count - k) as nat) {
                DecodeResult::Done(rest, end) => {
                    assert(acc + (seq![model] + rest) =~= acc_new + rest);
                },
                DecodeResult::Failed(e) => {},
            }
        }
    }
    proof {
        let acc = items@.map(|i: int, it: Item| it@);
        assert(decode_items(data@, cur as int, 0nat) == DecodeResult::Done(
            Seq::<ItemModel>::empty(),
            cur as int,
        ));
        assert(acc + Seq::<ItemModel>::empty() =~= acc);
        assert(whole == DecodeResult::Done(acc, cur as int));
    }
    if cur as u64 != meta.end_pos {
        return Err(Error::InvalidTagSize);
    }
    let tag = Tag(items);
    Ok(tag)
}

/// Copies a string.
fn copy_string(s: &str) -> (r: String)
    ensures
        r@ == s@,
{
    <String as vstd::string::StringExecFns>::from_str(s)
}

} // verus!
