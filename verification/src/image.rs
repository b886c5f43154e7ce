//! A portable executable image and its resource directory.
use vstd::prelude::*;
use editpe::{DataDirectoryType, Image, ImageReadError, ImageWriteError, ResourceDirectory};
use crate::resources::{dir_root, EntryKey, ResNode};

verus! {

#[verifier::external_type_specification]
#[verifier::external_body]
pub struct ExImage<'a>(Image<'a>);

#[verifier::external_type_specification]
#[verifier::external_body]
pub struct ExImageReadError(ImageReadError);

#[verifier::external_type_specification]
#[verifier::external_body]
pub struct ExImageWriteError(ImageWriteError);

/// The root table of the resource directory of an image, if it has one.
pub uninterp spec fn image_root(img: Image) -> Option<Seq<(EntryKey, ResNode)>>;

/// What parsing the bytes of an image gives: `None` where they are not a
/// valid image, else the root table of its resource directory, if any.
pub uninterp spec fn parsed_image_root(bytes: Seq<u8>) -> Option<Option<Seq<(EntryKey, ResNode)>>>;

/// `Image::parse`: the image held in `bytes`.
#[verifier::external_body]
fn parse_image<'a>(bytes: &'a [u8]) -> (r: Result<Image<'a>, ImageReadError>)
    ensures
        match r {
            Ok(img) => parsed_image_root(bytes@) == Some(image_root(img)),
            Err(_) => parsed_image_root(bytes@) is None,
        },
{
    Image::parse(bytes)
}

/// `Image::resource_directory`, cloned: a copy of the image's resource
/// directory, if it has one.
#[verifier::external_body]
fn image_directory(img: &Image) -> (r: Option<ResourceDirectory>)
    ensures
        match image_root(*img) {
            Some(root) => r matches Some(d) && dir_root(d) == root,
            None => r is None,
        },
{
    img.resource_directory().cloned()
}

/// `ResourceDirectory::default`: a directory with an empty root table.
#[verifier::external_body]
fn empty_directory() -> (r: ResourceDirectory)
    ensures
        dir_root(r) == Seq::<(EntryKey, ResNode)>::empty(),
{
    ResourceDirectory::default()
}

/// The section table of an image, each section as its virtual address,
/// virtual size, file offset of its raw data and size of its raw data.
pub uninterp spec fn image_sections(img: Image) -> Seq<(u32, u32, u32, u32)>;

/// The resource entry of the data directory table of an image, as its
/// virtual address and size, if the table has one.
pub uninterp spec fn image_resource_span(img: Image) -> Option<(u32, u32)>;

/// The length in bytes of the data of an image.
pub uninterp spec fn image_length(img: Image) -> nat;

/// `Image::section_table`, each section header as its virtual address,
/// virtual size, file offset and size of its raw data.
#[verifier::external_body]
fn section_spans(img: &Image) -> (r: Vec<(u32, u32, u32, u32)>)
    ensures
        r@ == image_sections(*img),
{
    img.section_table()
        .iter()
        .map(|s| (s.virtual_address, s.virtual_size, s.pointer_to_raw_data, s.size_of_raw_data))
        .collect()
}

/// `Image::data_directory` for the resource table, as its virtual address
/// and size.
#[verifier::external_body]
fn resource_span(img: &Image) -> (r: Option<(u32, u32)>)
    ensures
        r == image_resource_span(*img),
{
    img.data_directory(DataDirectoryType::ResourceTable).map(|d| (d.virtual_address, d.size))
}

/// `Image::data`, its length: the number of bytes of the image.
#[verifier::external_body]
fn data_length(img: &Image) -> (r: usize)
    ensures
        r == image_length(*img),
{
    img.data().len()
}

/// A section with raw data in the file.
pub open spec fn has_raw_data(s: (u32, u32, u32, u32)) -> bool {
    s.2 > 0 && s.3 > 0
}

/// The file offset just past the raw data of a section.
pub open spec fn raw_end(s: (u32, u32, u32, u32)) -> int {
    s.2 + s.3
}

/// The virtual range of a section holds `addr`.
pub open spec fn holds_address(s: (u32, u32, u32, u32), addr: u32) -> bool {
    s.0 <= addr && addr < s.0 + s.1
}

/// `i` is the first section that holds `addr`.
pub open spec fn first_holding(secs: Seq<(u32, u32, u32, u32)>, addr: u32, i: int) -> bool {
    &&& 0 <= i < secs.len()
    &&& holds_address(secs[i], addr)
    &&& forall|j: int| 0 <= j < i ==> !holds_address(#[trigger] secs[j], addr)
}

/// Some section with raw data ends past `len`.
pub open spec fn raw_data_past(secs: Seq<(u32, u32, u32, u32)>, len: int) -> bool {
    exists|k: int| 0 <= k < secs.len() && has_raw_data(#[trigger] secs[k]) && raw_end(secs[k]) > len
}

/// Some section with raw data starts at or before the offset `p`.
pub open spec fn raw_data_from_at_most(secs: Seq<(u32, u32, u32, u32)>, p: int) -> bool {
    exists|k: int| 0 <= k < secs.len() && has_raw_data(#[trigger] secs[k]) && secs[k].2 <= p
}

/// Some section with raw data ends at or after the offset `e`.
pub open spec fn raw_data_to_at_least(secs: Seq<(u32, u32, u32, u32)>, e: int) -> bool {
    exists|k: int| 0 <= k < secs.len() && has_raw_data(#[trigger] secs[k]) && raw_end(secs[k]) >= e
}

/// The raw data of the section `i`, which holds the old resource directory,
/// can be copied around when the image is rebuilt: the section table is
/// refused outright (a section with raw data ends past the image), or there
/// is a section with raw data, section `i` ends inside the image, and where
/// it has a file offset, it lies between the first and the last raw data.
pub open spec fn resource_section_in_bounds(secs: Seq<(u32, u32, u32, u32)>, i: int, len: int) -> bool {
    let s = secs[i];
    ||| raw_data_past(secs, len)
    ||| {
        &&& raw_data_from_at_most(secs, 0xffff_ffff)
        &&& raw_end(s) <= len
        &&& s.2 > 0 ==> raw_data_from_at_most(secs, s.2 as int)
        &&& s.2 > 0 ==> raw_data_to_at_least(secs, raw_end(s))
    }
}

/// An image with these sections, resource entry and length can be rebuilt
/// around a new resource directory without reading outside its data: where
/// the resource entry is non-empty, the first section that holds its address
/// is in bounds.
pub open spec fn rebuild_in_bounds(
    secs: Seq<(u32, u32, u32, u32)>,
    span: Option<(u32, u32)>,
    len: int,
) -> bool {
    match span {
        Some((va, size)) => size > 0 ==> forall|i: int|
            #[trigger] first_holding(secs, va, i) ==> resource_section_in_bounds(secs, i, len),
        None => true,
    }
}

/// The image `img` can be rebuilt without reading outside its data.
pub open spec fn image_rebuild_in_bounds(img: Image) -> bool {
    rebuild_in_bounds(image_sections(img), image_resource_span(img), image_length(img) as int)
}

/// Whether `img` can be rebuilt around the resource directory `d`: the
/// headers have room for a new section where one is needed, the sections
/// lie inside the image, and the new layout fits the 32-bit address space.
pub uninterp spec fn can_store_directory(img: Image, d: ResourceDirectory) -> bool;

/// `Image::set_resource_directory`: rebuilds the image around `d`; on an
/// error the image keeps its resource directory. It slices the image data
/// by the file offsets of the section that held the old resource directory
/// and unwraps the last section with raw data, so `requires` asks for those
/// to be in bounds; this also turns away a few malformed section tables on
/// which the call would stop with an error or take a branch without those
/// slices before it got there. Left unsaid: the
/// directory size is summed in 32 bits, which overflows only for a
/// directory larger than 4 GiB.
#[verifier::external_body]
fn replace_directory(img: &mut Image, d: ResourceDirectory) -> (r: Result<(), ImageWriteError>)
    requires
        image_rebuild_in_bounds(*old(img)),
    ensures
        r is Ok <==> can_store_directory(*old(img), d),
        r is Ok ==> image_root(*final(img)) == Some(dir_root(d)),
        r is Err ==> image_root(*final(img)) == image_root(*old(img)),
{
    img.set_resource_directory(d).map(|_| ())
}

/// The first section of `secs` that holds `addr`, if any.
fn first_holding_exec(secs: &Vec<(u32, u32, u32, u32)>, addr: u32) -> (r: Option<usize>)
    ensures
        match r {
            Some(i) => first_holding(secs@, addr, i as int),
            None => forall|i: int| 0 <= i < secs@.len() ==> !holds_address(#[trigger] secs@[i], addr),
        },
{
    let mut i: usize = 0;
    while i < secs.len()
        invariant
            i <= secs@.len(),
            forall|j: int| 0 <= j < i ==> !holds_address(#[trigger] secs@[j], addr),
        decreases secs.len() - i,
    {
        let s = secs[i];
        if s.0 <= addr && (addr as u64) < s.0 as u64 + s.1 as u64 {
            return Some(i);
        }
        i = i + 1;
    }
    None
}

/// Whether the image can be rebuilt without reading outside its data: the
/// condition under which `save_resources` may be called.
pub fn can_save_resources(img: &Image) -> (r: bool)
    ensures
        r == image_rebuild_in_bounds(*img),
{
    let secs = section_spans(img);
    let len = data_length(img) as u64;
    let (va, size) = match resource_span(img) {
        None => return true,
        Some(span) => span,
    };
    if size == 0 {
        return true;
    }
    let i = match first_holding_exec(&secs, va) {
        None => return true,
        Some(i) => i,
    };
    let s = secs[i];
    let s_end = s.2 as u64 + s.3 as u64;
    let mut past = false;
    let mut any = false;
    let mut before = false;
    let mut after = false;
    let mut k: usize = 0;
    while k < secs.len()
        invariant
            k <= secs@.len(),
            s == secs@[i as int],
            s_end == raw_end(s),
            past == exists|t: int| 0 <= t < k && has_raw_data(#[trigger] secs@[t]) && raw_end(secs@[t]) > len,
            any == exists|t: int| 0 <= t < k && has_raw_data(#[trigger] secs@[t]) && secs@[t].2 <= 0xffff_ffff,
            before == exists|t: int| 0 <= t < k && has_raw_data(#[trigger] secs@[t]) && secs@[t].2 <= s.2,
            after == exists|t: int| 0 <= t < k && has_raw_data(#[trigger] secs@[t]) && raw_end(secs@[t]) >= s_end,
        decreases secs.len() - k,
    {
        let t = secs[k];
        if t.2 > 0 && t.3 > 0 {
            let t_end = t.2 as u64 + t.3 as u64;
            past = past || t_end > len;
            any = true;
            before = before || t.2 <= s.2;
            after = after || t_end >= s_end;
        }
        k = k + 1;
    }
    let r = past || (any && s_end <= len && (s.2 == 0 || (before && after)));
    proof {
        assert forall|j: int| #[trigger] first_holding(secs@, va, j) implies j == i as int by {
            if j < i as int {
                assert(!holds_address(secs@[j], va));
            } else if j > i as int {
                assert(!holds_address(secs@[i as int], va));
            }
        }
    }
    r
}

/// Parses the image held in `bytes` and returns it with a copy of its
/// resource directory, or an empty directory where it has none.
pub fn open_image<'a>(bytes: &'a [u8]) -> (r: Result<(Image<'a>, ResourceDirectory), ImageReadError>)
    ensures
        match parsed_image_root(bytes@) {
            None => r is Err,
            Some(root) => r matches Ok((img, d)) && image_root(img) == root && dir_root(d) == match root {
                Some(t) => t,
                None => Seq::<(EntryKey, ResNode)>::empty(),
            },
        },
{
    let img = parse_image(bytes)?;
    let resources = match image_directory(&img) {
        Some(d) => d,
        None => empty_directory(),
    };
    Ok((img, resources))
}

/// Rebuilds `img` around the resource directory `resources`, where the
/// section that held its old resource directory lies in bounds (see
/// `can_save_resources`); this succeeds exactly where the image can hold
/// the directory.
pub fn save_resources(img: &mut Image, resources: ResourceDirectory) -> (r: Result<(), ImageWriteError>)
    requires
        image_rebuild_in_bounds(*old(img)),
    ensures
        r is Ok <==> can_store_directory(*old(img), resources),
        r is Ok ==> image_root(*final(img)) == Some(dir_root(resources)),
        r is Err ==> image_root(*final(img)) == image_root(*old(img)),
{
    replace_directory(img, resources)
}

} // verus!
