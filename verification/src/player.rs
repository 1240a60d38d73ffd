//! What the front end keeps of a media player's report: the track's title and
//! artist, and the playback position in milliseconds.
use vstd::prelude::*;

verus! {

/// Title and artist of the playing track.
#[derive(Debug, Clone)]
pub struct PlayerTrackInfo {
    pub title: String,
    pub artist: String,
}

impl PlayerTrackInfo {
    /// Title and artist from a player's metadata: the title, or "Unknown title";
    /// the first of the artists, or "Unknown artist".
    pub fn from_metadata(title: Option<&str>, artists: Option<Vec<String>>) -> (r: PlayerTrackInfo)
        ensures
            r.title@ == match title {
                Some(t) => t@,
                None => "Unknown title"@,
            },
            r.artist@ == match artists {
                Some(a) => if a@.len() > 0 {
                    a@[0]@
                } else {
                    "Unknown artist"@
                },
                None => "Unknown artist"@,
            },
    {
        let title = match title {
            Some(t) => t.to_owned(),
            None => String::from_str("Unknown title"),
        };
        let artist = match artists {
            Some(a) => if a.len() > 0 {
                a[0].clone()
            } else {
                String::from_str("Unknown artist")
            },
            None => String::from_str("Unknown artist"),
        };
        PlayerTrackInfo { title, artist }
    }
}

/// A playback position given in whole milliseconds, truncated to 64 bits as
/// an `as u64` cast does.
pub fn duration_to_ms(millis: u128) -> (ms: u64)
    ensures
        ms as int == millis as int % 0x1_0000_0000_0000_0000,
{
    (millis % 0x1_0000_0000_0000_0000u128) as u64
}

} // verus!
