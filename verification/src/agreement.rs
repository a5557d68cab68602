//! The naming of filesystems and the serving of requests agree: a request that
//! names a filesystem by a name that was found on the image is served from that
//! filesystem.
use crate::chd;
use crate::chd::ChdHeader;
use crate::detect;
use crate::device::{Log, Probe, Query, Spot, Step};
use crate::device;
use crate::error::DiscError;
use crate::image;
use crate::image::{Filesystem, Image, Source};
use crate::mdx;
use crate::text;
use crate::track::DataTrack;
use crate::volume;
use vstd::prelude::*;

verus! {

/// The filesystem that a name stands for. Joliet names are read through the
/// ISO 9660 volume.
pub open spec fn named_fs(name: Seq<char>) -> Option<Filesystem> {
    if name == "CD-i"@ {
        Some(Filesystem::Cdi)
    } else if name == "PC Engine CD-ROM"@ {
        Some(Filesystem::Pce)
    } else if name == "3DO OperaFS"@ {
        Some(Filesystem::ThreeDo)
    } else if name == "XDVDFS"@ {
        Some(Filesystem::Xdvdfs)
    } else if name == "GameCube GCM"@ || name == "Wii GCM"@ {
        Some(Filesystem::Gcm)
    } else if name == "HFS"@ {
        Some(Filesystem::Hfs)
    } else if name == "ISO 9660"@ || name == "Joliet"@ {
        Some(Filesystem::Iso)
    } else if text::starts_with(name, "UDF"@) {
        Some(Filesystem::Udf)
    } else {
        None
    }
}

/// The filesystem that a source serves.
pub open spec fn source_fs(s: Source) -> Filesystem {
    match s {
        Source::Track { fs, .. } => fs,
        Source::Stream(fs) => fs,
        _ => Filesystem::Iso,
    }
}

/// The question for the version of the UDF volume of a track.
pub open spec fn version_query(t: DataTrack) -> Query {
    Query::Probe {
        file: t.bin,
        probe: Probe::UdfVersion,
        spot: Spot::plain(t.track_offset, t.user_data_offset),
    }
}

/// The version of a UDF volume, where it is known, begins with `UDF`.
pub open spec fn version_is_udf(log: Log, t: DataTrack) -> bool {
    log.known(version_query(t)) matches Some(r) ==> (r.label() matches Some(v)
        ==> text::starts_with(v, "UDF"@))
}

/// The names are told apart.
proof fn lemma_names_differ()
    ensures
        named_fs("CD-i"@) == Some(Filesystem::Cdi),
        named_fs("PC Engine CD-ROM"@) == Some(Filesystem::Pce),
        named_fs("3DO OperaFS"@) == Some(Filesystem::ThreeDo),
        named_fs("XDVDFS"@) == Some(Filesystem::Xdvdfs),
        named_fs("GameCube GCM"@) == Some(Filesystem::Gcm),
        named_fs("Wii GCM"@) == Some(Filesystem::Gcm),
        named_fs("HFS"@) == Some(Filesystem::Hfs),
        named_fs("ISO 9660"@) == Some(Filesystem::Iso),
        named_fs("Joliet"@) == Some(Filesystem::Iso),
        named_fs("UDF"@) == Some(Filesystem::Udf),
        forall|s: Seq<char>| #[trigger]
            text::starts_with(s, "UDF"@) ==> named_fs(s) == Some(Filesystem::Udf),
{
    reveal_strlit("CD-i");
    reveal_strlit("PC Engine CD-ROM");
    reveal_strlit("3DO OperaFS");
    reveal_strlit("XDVDFS");
    reveal_strlit("GameCube GCM");
    reveal_strlit("Wii GCM");
    reveal_strlit("HFS");
    reveal_strlit("ISO 9660");
    reveal_strlit("Joliet");
    reveal_strlit("UDF");
    assert("CD-i"@.len() == 4 && "PC Engine CD-ROM"@.len() == 16 && "3DO OperaFS"@.len() == 11);
    assert("XDVDFS"@.len() == 6 && "GameCube GCM"@.len() == 12 && "Wii GCM"@.len() == 7);
    assert("HFS"@.len() == 3 && "ISO 9660"@.len() == 8 && "Joliet"@.len() == 6);
    assert("XDVDFS"@[0] == 'X' && "Joliet"@[0] == 'J' && "HFS"@[0] == 'H' && "UDF"@[0] == 'U');
    assert("CD-i"@[0] == 'C' && "PC Engine CD-ROM"@[0] == 'P' && "3DO OperaFS"@[0] == '3');
    assert("GameCube GCM"@[0] == 'G' && "Wii GCM"@[0] == 'W' && "ISO 9660"@[0] == 'I');
    assert("UDF"@.take(3) =~= "UDF"@);
    assert forall|s: Seq<char>| #[trigger] text::starts_with(s, "UDF"@) implies named_fs(s) == Some(
        Filesystem::Udf,
    ) by {
        assert(s[0] == s.take(3)[0]);
        assert(s[0] == 'U');
    }
}

/// A name that stands for a filesystem is admitted by that filesystem and by
/// no other.
proof fn lemma_admits(name: Seq<char>)
    ensures
        image::matches_fs(Some(name), "XDVDFS"@) <==> named_fs(name) == Some(Filesystem::Xdvdfs),
        image::matches_gcm(Some(name)) <==> named_fs(name) == Some(Filesystem::Gcm),
        image::matches_fs(Some(name), "HFS"@) <==> named_fs(name) == Some(Filesystem::Hfs),
        image::matches_udf(Some(name)) <==> named_fs(name) == Some(Filesystem::Udf),
{
    lemma_names_differ();
}

proof fn lemma_iso_names(n: u64, name: Seq<char>)
    requires
        detect::iso_names(n).contains(name),
    ensures
        named_fs(name) == Some(Filesystem::Iso),
{
    lemma_names_differ();
}

/// What is found of a track whose names are known: a name stands for a
/// filesystem, and the probes tell which.
proof fn lemma_found(log: Log, t: DataTrack, names: Seq<Seq<char>>, name: Seq<char>)
    requires
        detect::track_names(log, t.bin, t.track_offset, t.user_data_offset, t.lba_offset)
            == Step::Done(names),
        names.contains(name),
        version_is_udf(log, t),
    ensures
        named_fs(name) is Some,
        named_fs(name) != Some(Filesystem::Cdi),
        image::is_on(log, Filesystem::Pce, t, Some(name)) == Step::Done(
            named_fs(name) == Some(Filesystem::Pce),
        ),
        named_fs(name) != Some(Filesystem::Pce) ==> image::is_on(
            log,
            Filesystem::ThreeDo,
            t,
            Some(name),
        ) == Step::Done(named_fs(name) == Some(Filesystem::ThreeDo)),
        named_fs(name) == Some(Filesystem::Xdvdfs) ==> image::is_on(
            log,
            Filesystem::Xdvdfs,
            t,
            Some(name),
        ) == Step::Done(true),
        named_fs(name) == Some(Filesystem::Gcm) ==> image::is_on(
            log,
            Filesystem::Gcm,
            t,
            Some(name),
        ) == Step::Done(true),
        named_fs(name) == Some(Filesystem::Hfs) ==> image::is_on(
            log,
            Filesystem::Hfs,
            t,
            Some(name),
        ) == Step::Done(true),
        named_fs(name) == Some(Filesystem::Udf) ==> image::is_on(
            log,
            Filesystem::Udf,
            t,
            Some(name),
        ) == Step::Done(true) && log.known(version_query(t)) is Some,
{
    lemma_names_differ();
    lemma_admits(name);
    let i = choose|i: int| 0 <= i < names.len() && names[i] == name;
    assert(names[i] == name);
}

/// The search on a track ends at the filesystem that the request names by a
/// name that was found.
proof fn lemma_search_ends(log: Log, t: DataTrack, names: Seq<Seq<char>>, name: Seq<char>)
    requires
        detect::track_names(log, t.bin, t.track_offset, t.user_data_offset, t.lba_offset)
            == Step::Done(names),
        names.contains(name),
        version_is_udf(log, t),
    ensures
        named_fs(name) is Some,
        named_fs(name) != Some(Filesystem::Cdi),
        image::first_on(log, image::track_order(), 1, t, Some(name), false) == Step::Done(
            named_fs(name)->0,
        ),
        (named_fs(name) == Some(Filesystem::Udf) ==> log.known(version_query(t))->0.label() is Some)
            ==> image::first_on(log, image::plain_order(), 0, t, Some(name), true) == Step::Done(
            named_fs(name)->0,
        ),
{
    lemma_found(log, t, names, name);
    lemma_admits(name);
    reveal_with_fuel(image::first_on, 8);
}

proof fn lemma_stream_names(log: Log, stride: u64, k: int, names: Seq<Seq<char>>, name: Seq<char>)
    requires
        detect::chd_iso_names(log, stride, k) == Step::Done(names),
        names.contains(name),
    ensures
        named_fs(name) == Some(Filesystem::Iso) || named_fs(name) == Some(Filesystem::ThreeDo),
    decreases chd::CHD_PLACES - k,
{
    lemma_names_differ();
    if k < chd::CHD_PLACES {
        match volume::iso_volume(log, 0, chd::threedo_spot(stride, k), true) {
            Step::Done(Some(n)) => lemma_iso_names(n, name),
            Step::Done(None) => lemma_stream_names(log, stride, k + 1, names, name),
            _ => {},
        }
    }
}

/// A name that was found in a compressed image stands for the filesystem that
/// a request by that name is served from.
proof fn lemma_stream(log: Log, h: ChdHeader, names: Seq<Seq<char>>, name: Seq<char>)
    requires
        detect::chd_names(log, Some(h)) == Step::Done(names),
        names.contains(name),
    ensures
        named_fs(name) == Some(image::stream_fs(Some(name))),
{
    lemma_names_differ();
    let stride = chd::chd_sector_size(h.hunk_size, h.unit_bytes);
    if stride == 2048 {
        let spot = Spot { stride: 2048, ..Spot::plain(0, 0) };
        match volume::iso_volume(log, 0, spot, true) {
            Step::Done(Some(n)) => {
                if detect::iso_names(n).contains(name) {
                    lemma_iso_names(n, name);
                }
            },
            _ => {},
        }
    } else {
        match chd::threedo_place(log, stride, 0) {
            Step::Done(None) => lemma_stream_names(log, stride, 0, names, name),
            _ => {},
        }
    }
}

/// What was named is served: where the filesystems of an image have been named,
/// each name stands for a filesystem, and a request by that name is served from
/// it. A UDF volume of a file that is one track must have told its version,
/// since one that cannot be opened is passed over there. A single-file media
/// descriptor must hold plain sectors: with raw ones its requests are served
/// without regard to the name.
pub proof fn lemma_named_is_served(
    log: Log,
    image: Image,
    names: Seq<Seq<char>>,
    name: Seq<char>,
)
    requires
        image is Mdx ==> (image.data(log) matches Step::Done(Ok(t)) && t.user_data_offset == 0),
        image::disc_filesystems(log, image) == Step::Done(
            Ok::<Seq<Seq<char>>, DiscError>(names),
        ),
        names.contains(name),
        image.data(log) matches Step::Done(Ok(t)) ==> version_is_udf(log, t) && (image is Plain
            ==> (log.known(version_query(t)) matches Some(r) ==> r.label() is Some)),
    ensures
        named_fs(name) is Some,
        image::request_source(log, image, Some(name)) matches Step::Done(Ok(source)) && source_fs(
            source,
        ) == named_fs(name)->0,
{
    lemma_names_differ();
    match image {
        Image::Chd(h) => lemma_stream(log, h, names, name),
        Image::Mdx => {
            let spot = Spot { stride: 2048, ..Spot::plain(mdx::MDX_DATA_OFFSET, 0) };
            match volume::joliet_count(log, 0, spot, 17, 0) {
                Step::Done(n) => lemma_iso_names(n, name),
                _ => {},
            }
        },
        Image::Plain => match image.data(log) {
            Step::Done(Ok(t)) => {
                lemma_found(log, t, names, name);
                lemma_search_ends(log, t, names, name);
            },
            _ => {},
        },
        _ => match image.data(log) {
            Step::Done(Ok(t)) => {
                let cdi = image::spot_of(Filesystem::Cdi, t);
                assert(image::track_order()[0] == Filesystem::Cdi);
                match device::probed(log, t.bin, Probe::CdiDisc, cdi) {
                    Step::Done(false) => {
                        lemma_search_ends(log, t, names, name);
                    },
                    _ => {},
                }
            },
            _ => {},
        },
    }
}

} // verus!
