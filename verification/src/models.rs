use vstd::prelude::*;

verus! {

/// A page of tracks from the Qobuz API.
#[derive(Clone, Debug)]
pub struct Tracks {
    pub offset: i64,
    pub limit: i64,
    pub total: i64,
    pub items: Vec<Track>,
}

/// A track as the Qobuz API describes it.
#[derive(Clone, Debug)]
pub struct Track {
    pub duration: u32,
    pub hires_streamable: bool,
    pub id: u32,
    pub performer: Option<Performer>,
    pub streamable: bool,
    pub title: String,
    pub track_number: u32,
    pub parental_warning: bool,
    pub playlist_track_id: Option<u64>,
    pub favorited_at: Option<i64>,
}

/// The performer of a track.
#[derive(Clone, Debug)]
pub struct Performer {
    pub id: i64,
    pub name: String,
}

impl Default for Performer {
    fn default() -> (p: Self)
        ensures
            p.id == 0,
            p.name@ == Seq::<char>::empty(),
    {
        Performer { id: 0, name: String::new() }
    }
}

impl Default for Track {
    fn default() -> (t: Self)
        ensures
            t.duration == 0,
            !t.hires_streamable,
            t.id == 0,
            t.performer is None,
            !t.streamable,
            t.title@ == Seq::<char>::empty(),
            t.track_number == 0,
            !t.parental_warning,
            t.playlist_track_id is None,
            t.favorited_at is None,
    {
        Track {
            duration: 0,
            hires_streamable: false,
            id: 0,
            performer: None,
            streamable: false,
            title: String::new(),
            track_number: 0,
            parental_warning: false,
            playlist_track_id: None,
            favorited_at: None,
        }
    }
}

impl Default for Tracks {
    fn default() -> (t: Self)
        ensures
            t.offset == 0,
            t.limit == 0,
            t.total == 0,
            t.items@ == Seq::<Track>::empty(),
    {
        Tracks { offset: 0, limit: 0, total: 0, items: Vec::new() }
    }
}

} // verus!
