use crate::error::Error;
use crate::text;
use vstd::prelude::*;

verus! {

/// The four little-endian bytes of a 32-bit integer.
pub open spec fn le32_bytes(x: u32) -> Seq<u8> {
    seq![
        (x & 0xff) as u8,
        ((x >> 8) & 0xff) as u8,
        ((x >> 16) & 0xff) as u8,
        ((x >> 24) & 0xff) as u8,
    ]
}

/// The 32-bit integer stored in four little-endian bytes.
pub open spec fn le32_value(s: Seq<u8>) -> u32
    recommends
        s.len() == 4,
{
    (s[0] as u32) | (s[1] as u32) << 8 | (s[2] as u32) << 16 | (s[3] as u32) << 24
}

/// Reading back the four little-endian bytes of an integer yields the
/// integer.
pub proof fn lemma_le32_value_of_bytes(x: u32)
    ensures
        le32_value(le32_bytes(x)) == x,
{
    assert((((x & 0xff) as u8) as u32) | ((((x >> 8) & 0xff) as u8) as u32) << 8 | ((((x >> 16)
        & 0xff) as u8) as u32) << 16 | ((((x >> 24) & 0xff) as u8) as u32) << 24 == x)
        by (bit_vector);
}

/// The 8-byte signature `"APETAGEX"` that opens every APE control block.
pub open spec fn ape_preamble() -> Seq<u8> {
    seq![0x41u8, 0x50u8, 0x45u8, 0x54u8, 0x41u8, 0x47u8, 0x45u8, 0x58u8]
}

/// The 3-byte signature `"TAG"` that opens an ID3v1 block.
pub open spec fn id3v1_header() -> Seq<u8> {
    seq![0x54u8, 0x41u8, 0x47u8]
}

/// The 9-byte signature `"LYRICS200"` that closes a Lyrics3v2 block.
pub open spec fn lyrics3v2_header() -> Seq<u8> {
    seq![0x4cu8, 0x59u8, 0x52u8, 0x49u8, 0x43u8, 0x53u8, 0x32u8, 0x30u8, 0x30u8]
}

/// The byte pattern `pat` occurs in `d` at absolute offset `off`.
pub open spec fn matches_at(d: Seq<u8>, off: int, pat: Seq<u8>) -> bool {
    &&& 0 <= off
    &&& off + pat.len() <= d.len()
    &&& d.subrange(off, off + pat.len()) == pat
}

/// The fixed 128-byte legacy block is present at the end of the file.
pub open spec fn spec_id3v1_present(d: Seq<u8>) -> bool {
    d.len() >= 128 && matches_at(d, d.len() - 128, id3v1_header())
}

/// The variable legacy block's signature, together with its six size
/// digits, fits at the end of the file (just before the fixed block's 128
/// bytes).
pub open spec fn spec_lyrics3v2_present(d: Seq<u8>) -> bool {
    d.len() >= 143 && matches_at(d, d.len() - 137, lyrics3v2_header())
}

/// The six ASCII bytes encoding the variable legacy block's size.
pub open spec fn lyrics3v2_digits(d: Seq<u8>) -> Seq<u8> {
    d.subrange(d.len() - 143, d.len() - 137)
}

/// The total length consumed by the variable legacy block: the decimal
/// value of its size digits plus the digits and the signature themselves.
pub open spec fn spec_lyrics3v2_size(d: Seq<u8>) -> int {
    text::parsed_value(lyrics3v2_digits(d)) + 15
}

/// Builds the executable form of `ape_preamble`.
pub(crate) fn ape_preamble_bytes() -> (r: Vec<u8>)
    ensures
        r@ == ape_preamble(),
{
    let mut v: Vec<u8> = Vec::new();
    v.push(0x41u8);
    v.push(0x50u8);
    v.push(0x45u8);
    v.push(0x54u8);
    v.push(0x41u8);
    v.push(0x47u8);
    v.push(0x45u8);
    v.push(0x58u8);
    proof {
        assert(v@ =~= ape_preamble());
    }
    v
}

/// Builds the executable form of `id3v1_header`.
pub(crate) fn id3v1_header_bytes() -> (r: Vec<u8>)
    ensures
        r@ == id3v1_header(),
{
    let mut v: Vec<u8> = Vec::new();
    v.push(0x54u8);
    v.push(0x41u8);
    v.push(0x47u8);
    proof {
        assert(v@ =~= id3v1_header());
    }
    v
}

/// Builds the executable form of `lyrics3v2_header`.
pub(crate) fn lyrics3v2_header_bytes() -> (r: Vec<u8>)
    ensures
        r@ == lyrics3v2_header(),
{
    let mut v: Vec<u8> = Vec::new();
    v.push(0x4cu8);
    v.push(0x59u8);
    v.push(0x52u8);
    v.push(0x49u8);
    v.push(0x43u8);
    v.push(0x53u8);
    v.push(0x32u8);
    v.push(0x30u8);
    v.push(0x30u8);
    proof {
        assert(v@ =~= lyrics3v2_header());
    }
    v
}

/// Compares the bytes of `data` at `off` against `pat`, reporting exactly
/// whether the pattern occurs there.  An offset outside the file never
/// matches.
pub(crate) fn match_at(data: &Vec<u8>, off: usize, pat: &Vec<u8>) -> (r: bool)
    ensures
        r == matches_at(data@, off as int, pat@),
{
    let n: usize = data.len();
    let m: usize = pat.len();
    if off > n || m > n - off {
        return false;
    }
    let mut i: usize = 0;
    while i < m
        invariant
            n == data@.len(),
            m == pat@.len(),
            off + m <= n,
            0 <= i <= m,
            forall|j: int| 0 <= j < i ==> data@[off + j] == pat@[j],
        decreases m - i,
    {
        if data[off + i] != pat[i] {
            proof {
                assert(data@.subrange(off as int, off + pat@.len())[i as int] != pat@[i as int]);
            }
            return false;
        }
        i += 1;
    }
    proof {
        assert(data@.subrange(off as int, off + pat@.len()) =~= pat@);
    }
    true
}

/// Reads the little-endian 32-bit integer stored at `off`.
pub(crate) fn read_le_u32(data: &Vec<u8>, off: usize) -> (r: u32)
    requires
        off + 4 <= data@.len(),
    ensures
        r == le32_value(data@.subrange(off as int, off + 4)),
{
    let n: usize = data.len();
    proof {
        assert(n >= off + 4);
    }
    let b0 = data[off] as u32;
    let b1 = data[off + 1] as u32;
    let b2 = data[off + 2] as u32;
    let b3 = data[off + 3] as u32;
    let r = b0 | b1 << 8 | b2 << 16 | b3 << 24;
    proof {
        let s = data@.subrange(off as int, off + 4);
        assert(s[0] == data@[off as int] && s[1] == data@[off + 1] && s[2] == data@[off + 2]
            && s[3] == data@[off + 3]);
    }
    r
}

/// Appends the little-endian 32-bit encoding of `x`.
pub(crate) fn push_le_u32(data: &mut Vec<u8>, x: u32)
    ensures
        final(data)@ == old(data)@ + le32_bytes(x),
{
    proof {
        assert(x & 0xff < 256 && (x >> 8) & 0xff < 256 && (x >> 16) & 0xff < 256 && (x >> 24)
            & 0xff < 256) by (bit_vector);
    }
    data.push((x & 0xff) as u8);
    data.push((x >> 8 & 0xff) as u8);
    data.push((x >> 16 & 0xff) as u8);
    data.push((x >> 24 & 0xff) as u8);
    proof {
        assert(data@ =~= old(data)@ + le32_bytes(x));
    }
}

/// Appends every byte of `src` to `dst`.
pub(crate) fn push_bytes(dst: &mut Vec<u8>, src: &[u8])
    ensures
        final(dst)@ == old(dst)@ + src@,
{
    let n: usize = src.len();
    let mut i: usize = 0;
    while i < n
        invariant
            n == src@.len(),
            0 <= i <= n,
            dst@ =~= old(dst)@ + src@.subrange(0, i as int),
        decreases n - i,
    {
        dst.push(src[i]);
        proof {
            assert(dst@ =~= old(dst)@ + src@.subrange(0, i + 1));
        }
        i += 1;
    }
    proof {
        assert(src@.subrange(0, n as int) =~= src@);
    }
}

/// Copies a byte vector.
pub(crate) fn copy_bytes(src: &Vec<u8>) -> (r: Vec<u8>)
    ensures
        r@ == src@,
{
    let mut out: Vec<u8> = Vec::new();
    push_bytes(&mut out, src.as_slice());
    out
}

/// Copies the byte range `[from, to)` of a vector.
pub(crate) fn copy_range(src: &Vec<u8>, from: usize, to: usize) -> (r: Vec<u8>)
    requires
        from <= to <= src@.len(),
    ensures
        r@ == src@.subrange(from as int, to as int),
{
    let mut out: Vec<u8> = Vec::new();
    let mut i: usize = from;
    while i < to
        invariant
            from <= i <= to <= src@.len(),
            out@ =~= src@.subrange(from as int, i as int),
        decreases to - i,
    {
        out.push(src[i]);
        proof {
            assert(out@ =~= src@.subrange(from as int, i + 1));
        }
        i += 1;
    }
    out
}

/// Compares a byte slice against a byte vector.
pub(crate) fn slice_eq_bytes(a: &[u8], b: &Vec<u8>) -> (r: bool)
    ensures
        r == (a@ == b@),
{
    let n: usize = a.len();
    if n != b.len() {
        return false;
    }
    let mut i: usize = 0;
    while i < n
        invariant
            n == a@.len(),
            n == b@.len(),
            0 <= i <= n,
            forall|j: int| 0 <= j < i ==> a@[j] == b@[j],
        decreases n - i,
    {
        if a[i] != b[i] {
            return false;
        }
        i += 1;
    }
    proof {
        assert(a@ =~= b@);
    }
    true
}

/// Checks whether the APE tag signature stands at absolute offset `off`.
/// An offset at which the signature does not fit entirely inside the file
/// is a negative probe, never an error.
pub fn probe_ape(data: &Vec<u8>, off: usize) -> (r: bool)
    ensures
        r == matches_at(data@, off as int, ape_preamble()),
{
    let pat = ape_preamble_bytes();
    match_at(data, off, &pat)
}

/// Whether the fixed 128-byte legacy block is present at the end of the
/// file.
pub fn probe_id3v1(data: &Vec<u8>) -> (r: bool)
    ensures
        r == spec_id3v1_present(data@),
{
    if data.len() < 128 {
        return false;
    }
    let pat = id3v1_header_bytes();
    match_at(data, data.len() - 128, &pat)
}

/// Returns the total size of the variable legacy block, or `-1` if the
/// block's signature is absent.  A present signature whose six size digits
/// do not parse as a decimal number is a data error, not a negative probe.
pub fn probe_lyrics3v2(data: &Vec<u8>) -> (r: Result<i64, Error>)
    ensures
        r matches Ok(v) ==> -1000000 <= v <= 1015000,
        !spec_lyrics3v2_present(data@) ==> r == Ok::<i64, Error>(-1i64),
        spec_lyrics3v2_present(data@) && text::parseable(lyrics3v2_digits(data@)) ==> r
            == Ok::<i64, Error>(spec_lyrics3v2_size(data@) as i64),
        spec_lyrics3v2_present(data@) && !text::parseable(lyrics3v2_digits(data@)) ==> {
            &&& r is Err
            &&& vstd::utf8::valid_utf8(lyrics3v2_digits(data@)) ==> (r matches Err(
                Error::ParseLyrics3V2SizeInt(_),
            ))
            &&& !vstd::utf8::valid_utf8(lyrics3v2_digits(data@)) ==> (r matches Err(
                Error::ParseLyrics3V2SizeStr(_),
            ))
        },
{
    if data.len() < 143 {
        return Ok(-1);
    }
    let pat = lyrics3v2_header_bytes();
    if !match_at(data, data.len() - 137, &pat) {
        return Ok(-1);
    }
    let n: usize = data.len();
    let start: usize = n - 143;
    let mut digits: Vec<u8> = Vec::new();
    let mut i: usize = 0;
    while i < 6
        invariant
            n == data@.len(),
            n >= 143,
            start == n - 143,
            0 <= i <= 6,
            digits@ =~= data@.subrange(start as int, start + i),
        decreases 6 - i,
    {
        digits.push(data[start + i]);
        proof {
            assert(digits@ =~= data@.subrange(start as int, start + i + 1));
        }
        i += 1;
    }
    proof {
        assert(digits@ =~= lyrics3v2_digits(data@));
    }
    match text::parse_decimal(&digits) {
        Ok(v) => {
            proof {
                let dg = lyrics3v2_digits(data@);
                assert(text::pow10(0) == 1);
                assert(text::pow10(1) == 10);
                assert(text::pow10(2) == 100);
                assert(text::pow10(3) == 1000);
                assert(text::pow10(4) == 10000);
                assert(text::pow10(5) == 100000);
                assert(text::pow10(6) == 1000000);
                if dg[0] == 0x2b || dg[0] == 0x2d {
                    text::lemma_dec_value_bound(dg.skip(1));
                } else {
                    text::lemma_dec_value_bound(dg);
                }
            }
            Ok(v + 15)
        },
        Err(e) => Err(e),
    }
}

/// The smallest index at or after `p` holding a NUL byte; the sequence's
/// length when there is none.
pub open spec fn find_nul(d: Seq<u8>, p: int) -> int
    decreases d.len() - p,
{
    if p < 0 || p >= d.len() {
        d.len() as int
    } else if d[p] == 0 {
        p
    } else {
        find_nul(d, p + 1)
    }
}

/// What `find_nul` returns: the first NUL at or after `p`, or the end.
pub proof fn lemma_find_nul(d: Seq<u8>, p: int)
    requires
        0 <= p <= d.len(),
    ensures
        p <= find_nul(d, p) <= d.len(),
        forall|q: int| p <= q < find_nul(d, p) ==> #[trigger] d[q] != 0,
        find_nul(d, p) < d.len() ==> d[find_nul(d, p)] == 0,
    decreases d.len() - p,
{
    if p < d.len() && d[p] != 0 {
        lemma_find_nul(d, p + 1);
    }
}

} // verus!
