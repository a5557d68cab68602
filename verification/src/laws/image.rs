//! Sectors of whole images.
use crate::chd::ChdHeader;
use crate::device::{Log, Query, Step};
use crate::error::DiscError;
use crate::image;
use crate::image::{Image, SectorDataView};
use crate::laws;
use crate::laws::{chd, sector};
use crate::track::DataTrack;
use vstd::prelude::*;

verus! {

/// The byte of the file of its data track where sector 0 of an image is shown
/// from: the first byte of the track, but the first byte of the file in a sheet
/// and in a media descriptor.
pub open spec fn first_byte(image: Image, t: DataTrack) -> int {
    match image {
        Image::Cue { .. } => 0,
        Image::Mds(_) => 0,
        _ => t.track_offset as int,
    }
}

/// The bytes that a sector of an image is shown with: those that the track tells
/// in the formats that tell, those of a raw sector in a sheet and in a subchannel
/// image, and by the user data in the others.
pub open spec fn width(image: Image, t: DataTrack) -> int {
    match image {
        Image::Cdi => t.stride as int,
        Image::Gdi(_) => t.stride as int,
        Image::Mds(_) => t.stride as int,
        Image::Cue { .. } => 2352,
        Image::Ccd(_) => 2352,
        _ => if t.user_data_offset == 0 {
            2048
        } else {
            2352
        },
    }
}

/// What is shown of an image as sector `lba`: the `width` bytes of `content` so many
/// sectors of that width behind `first`.
pub open spec fn shown(
    r: Result<SectorDataView, DiscError>,
    content: Seq<u8>,
    lba: u64,
    first: int,
    width: int,
    udo: int,
) -> bool {
    let from = first + lba * width;
    match r {
        Ok(s) => {
            &&& from + width <= content.len()
            &&& s.bytes == content.subrange(from, from + width)
            &&& s.sector_size == width
            &&& s.user_data_offset == udo
            &&& s.lba == lba
            &&& first + s.total_sectors * width <= content.len()
            &&& content.len() < first + (s.total_sectors + 1) * width
        },
        Err(e) => {
            &&& from + width > content.len()
            &&& first + width > content.len() ==> e == DiscError::ImageEmpty
            &&& first + width <= content.len() ==> (e matches DiscError::SectorRange { lba: l, last }
                && l == lba && first + (last + 1) * width <= content.len() && content.len() < first
                + (last + 2) * width)
        },
    }
}

proof fn lemma_whole(n: int, first: int, width: int, lba: int)
    requires
        0 <= first,
        0 < width,
        0 <= lba,
        0 <= n,
    ensures
        ({
            let total = if n >= first {
                (n - first) / width
            } else {
                0
            };
            &&& 0 <= total
            &&& n >= first ==> first + total * width <= n < first + (total + 1) * width
            &&& lba < total <==> first + lba * width + width <= n
            &&& total == 0 <==> first + width > n
            &&& total <= n
        }),
{
    if n >= first {
        let total = (n - first) / width;
        assert(first + total * width <= n < first + (total + 1) * width && 0 <= total) by (nonlinear_arith)
            requires
                total == (n - first) / width,
                n >= first,
                width > 0,
        ;
        assert(total <= n) by (nonlinear_arith)
            requires
                first + total * width <= n,
                width >= 1,
                total >= 0,
                first >= 0,
        ;
        assert(lba < total ==> lba * width + width <= total * width) by (nonlinear_arith)
            requires
                width > 0,
        ;
        assert(lba >= total ==> lba * width >= total * width) by (nonlinear_arith)
            requires
                width > 0,
        ;
        assert((total + 1) * width == total * width + width) by (nonlinear_arith);
        assert(total >= 1 ==> total * width >= width) by (nonlinear_arith)
            requires
                width > 0,
        ;
    } else {
        assert(lba * width >= 0) by (nonlinear_arith)
            requires
                lba >= 0,
                width > 0,
        ;
    }
}

/// What is shown of an image whose data track is `t`: as sector `lba`, the bytes
/// of the file of the track that stand `lba` sectors behind the first one.
pub proof fn lemma_sector_of_track(
    log: Log,
    image: Image,
    t: DataTrack,
    content: Seq<u8>,
    lba: u64,
)
    requires
        image !is Chd,
        image.data(log) == Step::Done(Ok::<DataTrack, DiscError>(t)),
        laws::shows(log, t.bin, content),
        0 < width(image, t) <= u32::MAX,
        t.user_data_offset <= u32::MAX,
    ensures
        image::image_sector(log, image, lba) !is Fault,
        image::image_sector(log, image, lba) matches Step::Ask(q) ==> log.known(q) is None,
        image::image_sector(log, image, lba) matches Step::Done(r) ==> shown(
            r,
            content,
            lba,
            first_byte(image, t),
            width(image, t),
            t.user_data_offset as int,
        ),
{
    let first = first_byte(image, t);
    let w = width(image, t);
    lemma_whole(content.len() as int, first, w, lba as int);
    let size = Query::Size { file: t.bin };
    if log.known(size) is Some {
        let n = log.known(size)->0.size()->0;
        let total = if n >= first {
            (n - first) / w
        } else {
            0
        };
        if n < first {
            assert(0int / w == 0) by (nonlinear_arith)
                requires
                    w > 0,
            ;
        }
        assert((lba + 1) * w == lba * w + w) by (nonlinear_arith);
        assert((total - 1 + 1) * w == total * w);
        assert(0 <= lba * w) by (nonlinear_arith)
            requires
                w > 0,
        ;
    }
}

/// What is shown of a compressed image: sector `lba` of its stream, with the user
/// data where the sector itself shows it, if it is a raw one.
pub proof fn lemma_sector_of_stream(
    log: Log,
    h: ChdHeader,
    stride: u64,
    content: Seq<u8>,
    lba: u64,
)
    requires
        laws::shows(log, 0, content),
        h.logical_bytes == content.len(),
        chd::is_raw(h, stride) || (stride == 2048 && !chd::is_raw(h, 2352) && !chd::is_raw(h, 2448)),
    ensures
        image::image_sector(log, Image::Chd(h), lba) !is Fault,
        image::image_sector(log, Image::Chd(h), lba) matches Step::Ask(q) ==> log.known(q) is None,
        image::image_sector(log, Image::Chd(h), lba) matches Step::Done(Ok(s)) ==> {
            let from = lba * stride;
            &&& from + stride <= content.len()
            &&& s.bytes == content.subrange(from, from + stride)
            &&& s.sector_size == stride
            &&& s.lba == lba
            &&& s.total_sectors * stride <= content.len() < (s.total_sectors + 1) * stride
            &&& s.user_data_offset == (if stride == 2048 || !sector::syncs(content, from) {
                0int
            } else if content[from + 15] == 2 {
                24
            } else {
                16
            })
        },
        image::image_sector(log, Image::Chd(h), lba) matches Step::Done(Err(e)) ==> {
            &&& (lba + 1) * stride > content.len()
            &&& stride > content.len() ==> e == DiscError::ChdEmpty
            &&& stride <= content.len() ==> (e matches DiscError::SectorRange { lba: l, last } && l
                == lba && (last + 1) * stride <= content.len() < (last + 2) * stride)
        },
{
    let w = stride as int;
    lemma_whole(content.len() as int, 0, w, lba as int);
    let total = h.logical_bytes / stride;
    assert((lba + 1) * w == lba * w + w) by (nonlinear_arith);
    assert(0 <= lba * w) by (nonlinear_arith)
        requires
            w > 0,
    ;
    let q = Query::Read { file: 0, offset: (lba * stride) as u64, len: stride };
    if lba < total && log.known(q) is Some {
        let b = log.known(q)->0.bytes();
        let from = lba * stride;
        assert(b == content.subrange(from, from + stride));
        sector::lemma_sector_format(b);
        assert(b[15] == content[from + 15]);
        assert(forall|k: int| 0 <= k < stride ==> #[trigger] b[k] == content[from + k]);
        if sector::syncs(content, from) {
            assert forall|k: int| 1 <= k <= 10 implies #[trigger] b[0 + k] == 255 by {
                assert(content[from + k] == 255);
            }
            assert(sector::syncs(b, 0));
        }
        if sector::syncs(b, 0) {
            assert forall|k: int| 1 <= k <= 10 implies #[trigger] content[from + k] == 255 by {
                assert(b[0 + k] == 255);
            }
            assert(b[0] == content[from + 0] && b[11] == content[from + 11]);
        }
    }
}

/// The data track of an image is the one that its format has: each description is
/// read as what it is, and a file of sectors is one track from its first byte on, with
/// the user data where its first sector shows it.
pub proof fn lemma_data_track(log: Log, d: Seq<u8>)
    requires
        laws::shows(log, 0, d),
    ensures
        forall|b: Vec<u8>| #[trigger]
            Image::Mds(b).data(log) == crate::mds::mds_image(log, b@),
        forall|b: Vec<u8>| #[trigger]
            Image::Nrg(b).data(log) == crate::nrg::nrg_image(log, b@),
        forall|s: String| #[trigger]
            Image::Ccd(s).data(log) == crate::ccd::ccd_image(log, s@),
        Image::Cdi.data(log) == crate::cdi::cdi_image(log),
        forall|lines: Vec<crate::cue::CueLine>, same: Vec<usize>| #[trigger]
            (Image::Cue { lines, same }).data(log) == crate::cue::cue_image(
                log,
                crate::cue::line_views(lines@),
                same@,
            ),
        forall|rows: Vec<crate::gdi::GdiRow>| #[trigger]
            Image::Gdi(rows).data(log) == crate::gdi::gdi_choice(
                log,
                crate::gdi::row_views(rows@),
                0,
                None,
            ),
        Image::Plain.data(log) !is Fault,
        Image::Plain.data(log) matches Step::Done(r) ==> (r matches Ok(t) && {
            &&& t.bin == 0
            &&& t.track_offset == 0
            &&& t.lba_offset == 0
            &&& !t.descramble
            &&& t.user_data_offset == (if d.len() < 16 || !sector::syncs(d, 0) {
                0u64
            } else if d[15] == 2 {
                24
            } else {
                16
            })
        }),
        Image::Mdx.data(log) matches Step::Done(r) ==> (r matches Ok(t)
            && crate::mdx::mdx_image(log) == Step::Done(t)),
{
    sector::lemma_format(log, 0, d, 0);
}

/// The name closes with a full stop and these letters.
pub open spec fn is_dot3(s: Seq<char>, a: char, b: char, c: char) -> bool {
    laws::closes(s, seq!['.', a, b, c])
}

/// The format of a file is told by the last four characters of its name.
pub proof fn lemma_kinds(lower: Seq<char>)
    ensures
        image::kind_of_name(lower) is Cue <==> is_dot3(lower, 'c', 'u', 'e'),
        image::kind_of_name(lower) is Mds <==> is_dot3(lower, 'm', 'd', 's'),
        image::kind_of_name(lower) is Nrg <==> is_dot3(lower, 'n', 'r', 'g'),
        image::kind_of_name(lower) is Ccd <==> is_dot3(lower, 'c', 'c', 'd'),
        image::kind_of_name(lower) is Cdi <==> is_dot3(lower, 'c', 'd', 'i'),
        image::kind_of_name(lower) is Gdi <==> is_dot3(lower, 'g', 'd', 'i'),
        image::kind_of_name(lower) is Chd <==> is_dot3(lower, 'c', 'h', 'd'),
        image::kind_of_name(lower) is Mdx <==> is_dot3(lower, 'm', 'd', 'x'),
{
    reveal_strlit(".cue");
    reveal_strlit(".mds");
    reveal_strlit(".nrg");
    reveal_strlit(".ccd");
    reveal_strlit(".cdi");
    reveal_strlit(".gdi");
    reveal_strlit(".chd");
    reveal_strlit(".mdx");
    let cue = seq!['.', 'c', 'u', 'e'];
    let mds = seq!['.', 'm', 'd', 's'];
    let nrg = seq!['.', 'n', 'r', 'g'];
    let ccd = seq!['.', 'c', 'c', 'd'];
    let cdi = seq!['.', 'c', 'd', 'i'];
    let gdi = seq!['.', 'g', 'd', 'i'];
    let chd = seq!['.', 'c', 'h', 'd'];
    let mdx = seq!['.', 'm', 'd', 'x'];
    assert(".cue"@ =~= cue);
    assert(".mds"@ =~= mds);
    assert(".nrg"@ =~= nrg);
    assert(".ccd"@ =~= ccd);
    assert(".cdi"@ =~= cdi);
    assert(".gdi"@ =~= gdi);
    assert(".chd"@ =~= chd);
    assert(".mdx"@ =~= mdx);
    laws::lemma_closes(lower, cue);
    laws::lemma_closes(lower, mds);
    laws::lemma_closes(lower, nrg);
    laws::lemma_closes(lower, ccd);
    laws::lemma_closes(lower, cdi);
    laws::lemma_closes(lower, gdi);
    laws::lemma_closes(lower, chd);
    laws::lemma_closes(lower, mdx);
    lemma_last_three(lower, 'c', 'u', 'e');
    lemma_last_three(lower, 'm', 'd', 's');
    lemma_last_three(lower, 'n', 'r', 'g');
    lemma_last_three(lower, 'c', 'c', 'd');
    lemma_last_three(lower, 'c', 'd', 'i');
    lemma_last_three(lower, 'g', 'd', 'i');
    lemma_last_three(lower, 'c', 'h', 'd');
    lemma_last_three(lower, 'm', 'd', 'x');
}

proof fn lemma_last_three(s: Seq<char>, a: char, b: char, c: char)
    ensures
        is_dot3(s, a, b, c) ==> s.len() >= 4 && s[s.len() - 3] == a && s[s.len() - 2] == b
            && s[s.len() - 1] == c,
{
    let p = seq!['.', a, b, c];
    if is_dot3(s, a, b, c) {
        assert(p[1] == s[s.len() - 4 + 1]);
        assert(p[2] == s[s.len() - 4 + 2]);
        assert(p[3] == s[s.len() - 4 + 3]);
    }
}

} // verus!
