use crate::error::Error;
use crate::text;
use crate::util::{self, matches_at};
use vstd::prelude::*;

verus! {

/// The only tag version this crate reads and writes.
pub const APE_VERSION: u32 = 2000;

/// Which control block of the tag was found.
#[derive(Clone, Copy, Debug, PartialEq, Eq, Structural)]
pub enum MetaPosition {
    /// The block stands before the item payload.
    Header,
    /// The block stands after the item payload.
    Footer,
}

/// Where an existing tag lies in the file: its control fields and the
/// absolute byte range of its item payload.  Transient: recomputed on every
/// read, write or remove.
#[derive(Clone, Copy, Debug, PartialEq, Eq, Structural)]
pub struct Meta {
    /// Tag size in bytes including the trailing control block and all tag
    /// items, excluding a leading control block.
    pub size: u32,
    /// Position of the control block that was found.
    pub position: MetaPosition,
    /// The tag also carries a leading control block.
    pub has_header: bool,
    /// Number of items in the tag.
    pub item_count: u32,
    /// First byte of the tag items.
    pub start_pos: u64,
    /// One past the last byte of the tag items.
    pub end_pos: u64,
}

/// The tag signature stands at `off`, entirely inside the file.
pub open spec fn sig_at(d: Seq<u8>, off: int) -> bool {
    matches_at(d, off, util::ape_preamble())
}

/// First candidate: a trailing control block at the very end of the file.
pub open spec fn probe_end(d: Seq<u8>) -> bool {
    sig_at(d, d.len() - 32)
}

/// Second candidate: a control block at the start of the file, with room
/// for all of its 32 bytes.
pub open spec fn probe_start(d: Seq<u8>) -> bool {
    d.len() >= 32 && sig_at(d, 0)
}

/// Third candidate: a trailing control block just before a fixed legacy
/// block.
pub open spec fn probe_id3_pos(d: Seq<u8>) -> bool {
    util::spec_id3v1_present(d) && sig_at(d, d.len() - 160)
}

/// Offset of the fourth candidate: a trailing control block before the
/// variable legacy block, which itself precedes the fixed one.
pub open spec fn lyrics_cand_off(d: Seq<u8>) -> int {
    d.len() - 160 - util::spec_lyrics3v2_size(d)
}

/// Fourth candidate: the variable legacy block is present with readable
/// size digits, and the signature stands before it with room for a full
/// control block.
pub open spec fn probe_lyrics_pos(d: Seq<u8>) -> bool {
    &&& util::spec_id3v1_present(d)
    &&& util::spec_lyrics3v2_present(d)
    &&& text::parseable(util::lyrics3v2_digits(d))
    &&& util::spec_lyrics3v2_size(d) != -1
    &&& sig_at(d, lyrics_cand_off(d))
    &&& lyrics_cand_off(d) + 32 <= d.len()
}

/// The probes run in precedence order; the variable legacy block is only
/// consulted when the fixed one is present and the third candidate failed,
/// and unreadable size digits there surface as an error, not as absence.
pub open spec fn lyrics_error(d: Seq<u8>) -> bool {
    &&& !probe_end(d)
    &&& !probe_start(d)
    &&& !probe_id3_pos(d)
    &&& util::spec_id3v1_present(d)
    &&& util::spec_lyrics3v2_present(d)
    &&& !text::parseable(util::lyrics3v2_digits(d))
}

/// The offset of the control block the locator reads, by precedence;
/// `None` when no candidate matches (or the size digits of the variable
/// legacy block are unreadable, which is an error of its own).
pub open spec fn located_offset(d: Seq<u8>) -> Option<int> {
    if probe_end(d) {
        Some(d.len() - 32)
    } else if probe_start(d) {
        Some(0int)
    } else if probe_id3_pos(d) {
        Some(d.len() - 160)
    } else if lyrics_error(d) {
        None
    } else if probe_lyrics_pos(d) {
        Some(lyrics_cand_off(d))
    } else {
        None
    }
}

/// The version field of the control block at `off`.
pub open spec fn block_version(d: Seq<u8>, off: int) -> u32 {
    util::le32_value(d.subrange(off + 8, off + 12))
}

/// The size field of the control block at `off`.
pub open spec fn block_size(d: Seq<u8>, off: int) -> u32 {
    util::le32_value(d.subrange(off + 12, off + 16))
}

/// The item-count field of the control block at `off`.
pub open spec fn block_count(d: Seq<u8>, off: int) -> u32 {
    util::le32_value(d.subrange(off + 16, off + 20))
}

/// The flag field of the control block at `off`.
pub open spec fn block_flags(d: Seq<u8>, off: int) -> u32 {
    util::le32_value(d.subrange(off + 20, off + 24))
}

/// Flag bit 31: a leading control block exists.
pub open spec fn flag_has_header(f: u32) -> bool {
    f & 0x8000_0000u32 != 0
}

/// Flag bit 30, inverted: a trailing control block exists.
pub open spec fn flag_has_footer(f: u32) -> bool {
    f & 0x4000_0000u32 == 0
}

/// Flag bit 29: this control block is the leading one.
pub open spec fn flag_is_header(f: u32) -> bool {
    f & 0x2000_0000u32 != 0
}

/// The declared size and flags describe a tag that lies entirely inside
/// the file, with the item payload between well-ordered bounds.  A block
/// that fails this is corrupt: its declared size cannot be trusted.
pub open spec fn block_sane(d: Seq<u8>, off: int) -> bool {
    let size = block_size(d, off) as int;
    let flags = block_flags(d, off);
    if flag_is_header(flags) {
        &&& flag_has_footer(flags) ==> size >= 32
        &&& size + 32 <= d.len()
        &&& if flag_has_footer(flags) {
            off + size <= d.len()
        } else {
            off + 32 + size <= d.len()
        }
    } else {
        &&& size >= 32
        &&& size <= off + 32
        &&& flag_has_header(flags) ==> size <= off
    }
}

/// The tag location decoded from the control block at `off`.
pub open spec fn meta_of(d: Seq<u8>, off: int) -> Meta {
    let size = block_size(d, off);
    let flags = block_flags(d, off);
    let count = block_count(d, off);
    if flag_is_header(flags) {
        Meta {
            size,
            position: MetaPosition::Header,
            has_header: flag_has_header(flags),
            item_count: count,
            start_pos: (off + 32) as u64,
            end_pos: (off + 32 + size - (if flag_has_footer(flags) {
                32int
            } else {
                0int
            })) as u64,
        }
    } else {
        Meta {
            size,
            position: MetaPosition::Footer,
            has_header: flag_has_header(flags),
            item_count: count,
            start_pos: (off + 32 - size) as u64,
            end_pos: off as u64,
        }
    }
}

/// The physical byte region a removal erases: offset and length.  For a
/// leading block the whole prefix up to the end of the payload and its
/// trailing block goes; for a trailing block the payload and the block go,
/// extended backward over a leading block when one exists.
pub open spec fn spec_erase_region(m: Meta) -> (int, int) {
    if m.position == MetaPosition::Header {
        (0int, m.size + 32)
    } else if m.has_header {
        (m.start_pos - 32, m.size + 32)
    } else {
        (m.start_pos as int, m.size as int)
    }
}

/// A located tag as the locator guarantees it: payload bounds ordered and
/// inside the file, and the erase region inside the file as well.
pub open spec fn meta_wf(m: Meta, d: Seq<u8>) -> bool {
    &&& m.start_pos <= m.end_pos <= d.len()
    &&& 0 <= spec_erase_region(m).0
    &&& spec_erase_region(m).0 + spec_erase_region(m).1 <= d.len()
    &&& 32 <= spec_erase_region(m).1
}

/// The outcome of the locator on a file image, fully determined by the
/// image's bytes.
pub ghost enum LocateSpec {
    /// A control block was found, its version is right and its declared
    /// size is sane: the tag's location.
    Found(Meta),
    /// No candidate offset carries the signature.
    NotFound,
    /// A control block was found whose version field is not `APE_VERSION`.
    BadVersion,
    /// A control block was found whose declared size cannot lie in the
    /// file.
    BadSize,
    /// The variable legacy block's size digits had to be consulted and do
    /// not parse.
    BadLyrics,
}

/// What locating a tag in `d` yields.
pub open spec fn locate_spec(d: Seq<u8>) -> LocateSpec {
    match located_offset(d) {
        Some(off) => {
            if block_version(d, off) != APE_VERSION {
                LocateSpec::BadVersion
            } else if !block_sane(d, off) {
                LocateSpec::BadSize
            } else {
                LocateSpec::Found(meta_of(d, off))
            }
        },
        None => {
            if lyrics_error(d) {
                LocateSpec::BadLyrics
            } else {
                LocateSpec::NotFound
            }
        },
    }
}

/// The decoded form of a control block's flag field.
pub(crate) struct MetaFlags {
    pub(crate) position: MetaPosition,
    pub(crate) has_header: bool,
    pub(crate) has_footer: bool,
}

impl MetaFlags {
    /// Decodes the three control bits of a flag field.
    pub(crate) fn from_raw(raw: u32) -> (r: Self)
        ensures
            r.position == (if flag_is_header(raw) {
                MetaPosition::Header
            } else {
                MetaPosition::Footer
            }),
            r.has_header == flag_has_header(raw),
            r.has_footer == flag_has_footer(raw),
    {
        MetaFlags {
            position: if raw & 0x2000_0000u32 != 0 {
                MetaPosition::Header
            } else {
                MetaPosition::Footer
            },
            has_header: raw & 0x8000_0000u32 != 0,
            has_footer: raw & 0x4000_0000u32 == 0,
        }
    }
}

impl Meta {
    /// Locates an existing tag: checks the candidate offsets in precedence
    /// order, decodes the control block found there, and computes the
    /// payload bounds.  A control block whose declared size cannot lie in
    /// the file is reported as `InvalidTagSize`; when no candidate matches
    /// the error is `TagNotFound`.
    #[verifier::rlimit(60)]
    pub fn read(data: &Vec<u8>) -> (r: Result<Meta, Error>)
        ensures
            ({
                let d = data@;
                &&& locate_spec(d) matches LocateSpec::Found(m) ==> r == Ok::<Meta, Error>(m)
                &&& locate_spec(d) is NotFound ==> r == Err::<Meta, Error>(Error::TagNotFound)
                &&& locate_spec(d) is BadVersion ==> r == Err::<Meta, Error>(
                    Error::InvalidApeVersion,
                )
                &&& locate_spec(d) is BadSize ==> r == Err::<Meta, Error>(Error::InvalidTagSize)
                &&& locate_spec(d) is BadLyrics ==> {
                    &&& r is Err
                    &&& vstd::utf8::valid_utf8(util::lyrics3v2_digits(d)) ==> (r matches Err(
                        Error::ParseLyrics3V2SizeInt(_),
                    ))
                    &&& !vstd::utf8::valid_utf8(util::lyrics3v2_digits(d)) ==> (r matches Err(
                        Error::ParseLyrics3V2SizeStr(_),
                    ))
                }
            }),
            r matches Ok(m) ==> meta_wf(m, data@) && locate_spec(data@) == LocateSpec::Found(m),
    {
        let n: usize = data.len();
        let off: usize;
        if n >= 32 && util::probe_ape(data, n - 32) {
            off = n - 32;
        } else if n >= 32 && util::probe_ape(data, 0) {
            off = 0;
        } else if util::probe_id3v1(data) && n >= 160 && util::probe_ape(data, n - 160) {
            off = n - 160;
        } else if util::probe_id3v1(data) {
            let lsize = match util::probe_lyrics3v2(data) {
                Ok(v) => v,
                Err(e) => {
                    return Err(e);
                },
            };
            proof {
                if util::spec_lyrics3v2_present(data@) && text::parseable(
                    util::lyrics3v2_digits(data@),
                ) {
                    text::lemma_parsed_value_bound(util::lyrics3v2_digits(data@));
                }
            }
            if lsize == -1 {
                return Err(Error::TagNotFound);
            }
            let cand: i128 = n as i128 - 160 - lsize as i128;
            if cand < 0 || cand + 32 > n as i128 {
                return Err(Error::TagNotFound);
            }
            let c = cand as usize;
            if !util::probe_ape(data, c) {
                return Err(Error::TagNotFound);
            }
            off = c;
        } else {
            return Err(Error::TagNotFound);
        }
        proof {
            assert(off + 32 <= n);
            assert(located_offset(data@) == Some(off as int));
        }
        if util::read_le_u32(data, off + 8) != APE_VERSION {
            return Err(Error::InvalidApeVersion);
        }
        let size = util::read_le_u32(data, off + 12);
        let item_count = util::read_le_u32(data, off + 16);
        let flags = MetaFlags::from_raw(util::read_le_u32(data, off + 20));
        match flags.position {
            MetaPosition::Header => {
                if flags.has_footer && size < 32 {
                    return Err(Error::InvalidTagSize);
                }
                if size as u64 + 32 > n as u64 {
                    return Err(Error::InvalidTagSize);
                }
                let room: usize = n - off;
                let end_pos: u64;
                if flags.has_footer {
                    if size as u64 > room as u64 {
                        return Err(Error::InvalidTagSize);
                    }
                    end_pos = off as u64 + size as u64;
                } else {
                    if size as u64 + 32 > room as u64 {
                        return Err(Error::InvalidTagSize);
                    }
                    end_pos = off as u64 + 32 + size as u64;
                }
                Ok(Meta {
                    size,
                    position: MetaPosition::Header,
                    has_header: flags.has_header,
                    item_count,
                    start_pos: off as u64 + 32,
                    end_pos,
                })
            },
            MetaPosition::Footer => {
                if size < 32 {
                    return Err(Error::InvalidTagSize);
                }
                if size as u64 > off as u64 + 32 {
                    return Err(Error::InvalidTagSize);
                }
                if flags.has_header && size as u64 > off as u64 {
                    return Err(Error::InvalidTagSize);
                }
                Ok(Meta {
                    size,
                    position: MetaPosition::Footer,
                    has_header: flags.has_header,
                    item_count,
                    start_pos: off as u64 + 32 - size as u64,
                    end_pos: off as u64,
                })
            },
        }
    }

    /// The physical byte region a removal of this tag erases, as offset
    /// and length.
    pub(crate) fn erase_region(&self) -> (r: (u64, u64))
        requires
            self.position == MetaPosition::Footer && self.has_header ==> self.start_pos >= 32,
        ensures
            r.0 == spec_erase_region(*self).0,
            r.1 == spec_erase_region(*self).1,
    {
        match self.position {
            MetaPosition::Header => (0u64, self.size as u64 + 32),
            MetaPosition::Footer => {
                if self.has_header {
                    (self.start_pos - 32, self.size as u64 + 32)
                } else {
                    (self.start_pos, self.size as u64)
                }
            },
        }
    }
}

} // verus!
