use rand::Rng;
use vstd::prelude::*;
use vstd::string::*;
use crate::error::CatalogError;
use crate::text::{decimal, joined, join_path, to_decimal};

verus! {

/// Number of distinct random suffixes an asset file name can carry.
pub const SUFFIX_RANGE: u32 = 10000;

/// Which of the two managed asset directories an image belongs in.
#[derive(Clone, Copy, Debug, PartialEq, Eq, Structural)]
pub enum ImageType {
    Icon,
    Background,
}

/// The image type that a numeric tag denotes, if any.
pub open spec fn image_type_of_tag(tag: u8) -> Option<ImageType> {
    if tag == 1 {
        Some(ImageType::Icon)
    } else if tag == 2 {
        Some(ImageType::Background)
    } else {
        None
    }
}

/// Name of the subdirectory of the managed root that holds images of type `t`.
pub open spec fn subdirectory(t: ImageType) -> Seq<char> {
    match t {
        ImageType::Icon => seq!['i', 'c', 'o', 'n', 's'],
        ImageType::Background => seq!['b', 'a', 'c', 'k', 'g', 'r', 'o', 'u', 'n', 'd', 's'],
    }
}

/// `"{id}-{suffix}.png"`.
pub open spec fn asset_file_name(id: u64, suffix: u32) -> Seq<char> {
    decimal(id as nat) + seq!['-'] + decimal(suffix as nat) + seq!['.', 'p', 'n', 'g']
}

/// Where an image of type `t` for entry `id` with random `suffix` is stored.
pub open spec fn asset_location(root: Seq<char>, t: ImageType, id: u64, suffix: u32) -> Seq<char> {
    joined(joined(root, subdirectory(t)), asset_file_name(id, suffix))
}

/// What storing an image does: the old file to delete (best effort), and
/// where the new bytes go.
pub struct StorePlan {
    pub remove_old: Option<String>,
    pub destination: String,
}

/// The plan for storing an image, given the random suffix drawn for the call.
pub open spec fn plan_matches(
    p: StorePlan,
    root: Seq<char>,
    t: ImageType,
    id: u64,
    old_path: Seq<char>,
    old_exists: bool,
    suffix: u32,
) -> bool {
    &&& p.destination@ == asset_location(root, t, id, suffix)
    &&& (old_exists ==> p.remove_old is Some && p.remove_old->Some_0@ == old_path)
    &&& (!old_exists ==> p.remove_old is None)
}

impl ImageType {
    /// Reads a numeric image-type tag: 1 is an icon, 2 a background.
    pub fn from_tag(tag: u8) -> (r: Result<ImageType, CatalogError>)
        ensures
            image_type_of_tag(tag) is Some ==> r == Ok::<ImageType, CatalogError>(
                image_type_of_tag(tag)->Some_0,
            ),
            image_type_of_tag(tag) is None ==> r == Err::<ImageType, CatalogError>(
                CatalogError::InvalidArgument,
            ),
    {
        if tag == 1 {
            Ok(ImageType::Icon)
        } else if tag == 2 {
            Ok(ImageType::Background)
        } else {
            Err(CatalogError::InvalidArgument)
        }
    }

    /// Name of the subdirectory that holds images of this type.
    pub fn directory_name(&self) -> (r: &'static str)
        ensures
            r@ == subdirectory(*self),
    {
        match self {
            ImageType::Icon => {
                proof { reveal_strlit("icons"); }
                "icons"
            },
            ImageType::Background => {
                proof { reveal_strlit("backgrounds"); }
                "backgrounds"
            },
        }
    }
}

/// File name of an asset: `"{id}-{suffix}.png"`.
pub fn file_name(id: u64, suffix: u32) -> (r: String)
    ensures
        r@ == asset_file_name(id, suffix),
{
    let mut s = to_decimal(id);
    proof { reveal_strlit("-"); }
    s.append("-");
    let d = to_decimal(suffix as u64);
    s.append(d.as_str());
    proof { reveal_strlit(".png"); }
    s.append(".png");
    s
}

/// Full path of an asset under the managed root.
pub fn asset_path(root: &str, t: ImageType, id: u64, suffix: u32) -> (r: String)
    ensures
        r@ == asset_location(root@, t, id, suffix),
{
    let dir = join_path(root, t.directory_name());
    let name = file_name(id, suffix);
    join_path(dir.as_str(), name.as_str())
}

/// Plans storing an image for entry `id` once the random suffix is known.
/// An unknown tag yields `InvalidArgument` and no plan, so nothing is touched.
pub fn plan_store_image(
    root: &str,
    id: u64,
    tag: u8,
    old_path: &str,
    old_exists: bool,
    suffix: u32,
) -> (r: Result<StorePlan, CatalogError>)
    ensures
        image_type_of_tag(tag) is None <==> r == Err::<StorePlan, CatalogError>(
            CatalogError::InvalidArgument,
        ),
        image_type_of_tag(tag) is Some ==> r is Ok && plan_matches(
            r->Ok_0,
            root@,
            image_type_of_tag(tag)->Some_0,
            id,
            old_path@,
            old_exists,
            suffix,
        ),
{
    let t = match ImageType::from_tag(tag) {
        Ok(t) => t,
        Err(e) => return Err(e),
    };
    let remove_old = if old_exists {
        Some(String::from_str(old_path))
    } else {
        None
    };
    Ok(StorePlan { remove_old, destination: asset_path(root, t, id, suffix) })
}

/// Relies on rand's `thread_rng().gen_range(0..bound)`: a value in `[0, bound)`;
/// the range is not empty, so the call does not panic.
#[verifier::external_body]
fn draw_below(bound: u32) -> (r: u32)
    requires
        bound > 0,
    ensures
        r < bound,
{
    rand::thread_rng().gen_range(0..bound)
}

/// Plans storing an image with a freshly drawn suffix in `[0, SUFFIX_RANGE)`.
/// The tag is checked before anything is drawn or planned.
pub fn prepare_store_image(
    root: &str,
    id: u64,
    tag: u8,
    old_path: &str,
    old_exists: bool,
) -> (r: Result<StorePlan, CatalogError>)
    ensures
        image_type_of_tag(tag) is None <==> r == Err::<StorePlan, CatalogError>(
            CatalogError::InvalidArgument,
        ),
        image_type_of_tag(tag) is Some ==> r is Ok && exists|s: u32|
            s < SUFFIX_RANGE && plan_matches(
                #[trigger] r->Ok_0,
                root@,
                image_type_of_tag(tag)->Some_0,
                id,
                old_path@,
                old_exists,
                s,
            ),
{
    if tag != 1 && tag != 2 {
        return Err(CatalogError::InvalidArgument);
    }
    let suffix = draw_below(SUFFIX_RANGE);
    plan_store_image(root, id, tag, old_path, old_exists, suffix)
}

} // verus!
