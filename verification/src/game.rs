use vstd::prelude::*;

verus! {

/// The releases of the game this tool knows.
#[derive(Clone, Copy, PartialEq, Eq, Structural, Debug)]
pub enum GameVersion {
    V101,
    V102,
    BAG,
    Debug,
}

/// The release whose main module has the given image size in memory, if
/// it is a known one.
pub open spec fn version_of_size(size: u32) -> Option<GameVersion> {
    if size == 106266624 {
        Some(GameVersion::V101)
    } else if size == 26177536 {
        Some(GameVersion::V102)
    } else if size == 26476544 {
        Some(GameVersion::BAG)
    } else {
        None
    }
}

/// Tells the release of the game by the image size of its main module, as
/// `version_of_size` says; `None` for an unknown size.
pub fn game_version(image_size: u32) -> (r: Option<GameVersion>)
    ensures
        r == version_of_size(image_size),
{
    if image_size == 106266624 {
        Some(GameVersion::V101)
    } else if image_size == 26177536 {
        Some(GameVersion::V102)
    } else if image_size == 26476544 {
        Some(GameVersion::BAG)
    } else {
        None
    }
}

} // verus!
