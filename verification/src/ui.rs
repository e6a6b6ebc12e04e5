use vstd::prelude::*;

use crate::text::{contains, contains_str, lemma_trim_idempotent, lowercased, to_lowercase, trim, trimmed};

verus! {

/// What the player is playing: a single track, or a track of a playlist at
/// a position in it.
#[derive(Clone, Copy, Debug)]
pub enum PlayingEntity {
    Track { id: u32 },
    Playlist { playlist_id: u32, index: usize, track_id: u32 },
}

/// The id of the track being played.
pub fn playing_track_id(entity: &PlayingEntity) -> (id: Option<u32>)
    ensures
        id == match *entity {
            PlayingEntity::Track { id } => Some(id),
            PlayingEntity::Playlist { track_id, .. } => Some(track_id),
        },
{
    match entity {
        PlayingEntity::Track { id } => Some(*id),
        PlayingEntity::Playlist { track_id, .. } => Some(*track_id),
    }
}

/// How a playlist page's track list follows what is playing.
#[derive(Clone, Copy, Debug)]
pub enum PlaylistSelection {
    /// A single track is playing: leave the list as it is.
    Keep,
    /// Another playlist is playing: select nothing.
    Clear,
    /// This playlist is playing: select the row at this position.
    Select(usize),
}

/// How the page of playlist `playlist_id` follows `entity`.
pub fn playlist_selection(entity: &PlayingEntity, playlist_id: u32) -> (s: PlaylistSelection)
    ensures
        s == match *entity {
            PlayingEntity::Track { .. } => PlaylistSelection::Keep,
            PlayingEntity::Playlist { playlist_id: p, index, .. } => if p == playlist_id {
                PlaylistSelection::Select(index)
            } else {
                PlaylistSelection::Clear
            },
        },
{
    match entity {
        PlayingEntity::Track { .. } => PlaylistSelection::Keep,
        PlayingEntity::Playlist { playlist_id: p, index, .. } => {
            if *p == playlist_id {
                PlaylistSelection::Select(*index)
            } else {
                PlaylistSelection::Clear
            }
        },
    }
}

/// The track position a row activation asks to play: the row's index, when
/// it is a real row (not negative).
pub fn activated_track_index(row_index: i32) -> (r: Option<usize>)
    ensures
        r == if row_index >= 0 { Some(row_index as usize) } else { None::<usize> },
{
    if row_index >= 0 {
        Some(row_index as usize)
    } else {
        None
    }
}

/// The query a grid filters by, as matched: trimmed and lowercased; `None`
/// when nothing is left, so that every item shows.
pub open spec fn normalized_query(query: Seq<char>) -> Option<Seq<char>> {
    if trimmed(query).len() == 0 {
        None
    } else {
        Some(lowercased(trimmed(query)))
    }
}

/// Only a blank query lets every item show: any query with a character left
/// after trimming, however short, is matched as its trimmed, lowercased form.
pub proof fn lemma_only_blank_queries_are_ignored(query: Seq<char>)
    ensures
        trimmed(query).len() > 0 ==> normalized_query(query) == Some(lowercased(trimmed(query))),
        normalized_query(query) is None <==> trimmed(query).len() == 0,
{
}

/// The text a grid filters by, kept as typed but trimmed.
pub struct GridFilter {
    query: String,
}

impl GridFilter {
    /// The stored filter text.
    pub closed spec fn text(self) -> Seq<char> {
        self.query@
    }

    /// A filter that lets every item show.
    pub fn new() -> (f: Self)
        ensures
            f.text() == Seq::<char>::empty(),
            normalized_query(f.text()) is None,
    {
        assert(trimmed(Seq::<char>::empty()) =~= Seq::<char>::empty());
        GridFilter { query: String::new() }
    }

    /// Filters by `query`, trimmed; items are then matched against `query`
    /// trimmed and lowercased.
    pub fn set_query(&mut self, query: &str)
        ensures
            final(self).text() == trimmed(query@),
            normalized_query(final(self).text()) == normalized_query(query@),
    {
        self.query = String::from_str(trim(query));
        proof {
            lemma_trim_idempotent(query@);
        }
    }

    /// Drops the filter text, as loading or clearing the grid does, so that
    /// every item shows.
    pub fn reset(&mut self)
        ensures
            final(self).text() == Seq::<char>::empty(),
            normalized_query(final(self).text()) is None,
    {
        assert(trimmed(Seq::<char>::empty()) =~= Seq::<char>::empty());
        self.query = String::new();
    }

    /// The query items are matched against, or `None` when every item shows.
    pub fn active_query(&self) -> (q: Option<String>)
        ensures
            match q {
                Some(s) => normalized_query(self.text()) == Some(s@),
                None => normalized_query(self.text()) is None,
            },
    {
        let q = to_lowercase(trim(self.query.as_str()));
        if q.as_str().unicode_len() == 0 {
            None
        } else {
            Some(q)
        }
    }
}

/// An album shows for query `q` when its title or its artist's name,
/// lowercased, contains `q`.
pub fn album_matches(title: &str, artist_name: &str, q: &str) -> (b: bool)
    ensures
        b == (contains(lowercased(title@), q@) || contains(lowercased(artist_name@), q@)),
{
    let t = to_lowercase(title);
    if contains_str(t.as_str(), q) {
        return true;
    }
    let a = to_lowercase(artist_name);
    contains_str(a.as_str(), q)
}

/// An artist or playlist shows for query `q` when its name, lowercased,
/// contains `q`.
pub fn name_matches(name: &str, q: &str) -> (b: bool)
    ensures
        b == contains(lowercased(name@), q@),
{
    let n = to_lowercase(name);
    contains_str(n.as_str(), q)
}

/// The sections of an artist's page below the top tracks.
#[derive(Clone, Copy, Debug)]
pub enum ArtistSection {
    Albums,
    Singles,
    Live,
    Compilations,
    SimilarArtists,
}

/// The heading of a section.
pub open spec fn section_title_text(s: ArtistSection) -> Seq<char> {
    match s {
        ArtistSection::Albums => "Albums"@,
        ArtistSection::Singles => "Singles"@,
        ArtistSection::Live => "Live"@,
        ArtistSection::Compilations => "Compilations"@,
        ArtistSection::SimilarArtists => "Similar Artists"@,
    }
}

/// The heading of a section.
pub fn section_title(s: ArtistSection) -> (t: &'static str)
    ensures
        t@ == section_title_text(s),
{
    match s {
        ArtistSection::Albums => "Albums",
        ArtistSection::Singles => "Singles",
        ArtistSection::Live => "Live",
        ArtistSection::Compilations => "Compilations",
        ArtistSection::SimilarArtists => "Similar Artists",
    }
}

/// The sections an artist's page shows, in order: each kind of release, then
/// similar artists, leaving out those with nothing in them.
pub open spec fn artist_sections_spec(
    albums: nat,
    singles: nat,
    live: nat,
    compilations: nat,
    similar: nat,
) -> Seq<ArtistSection> {
    (if albums > 0 { seq![ArtistSection::Albums] } else { Seq::empty() })
        + (if singles > 0 { seq![ArtistSection::Singles] } else { Seq::empty() })
        + (if live > 0 { seq![ArtistSection::Live] } else { Seq::empty() })
        + (if compilations > 0 { seq![ArtistSection::Compilations] } else { Seq::empty() })
        + (if similar > 0 { seq![ArtistSection::SimilarArtists] } else { Seq::empty() })
}

/// The sections an artist's page shows, given how many albums, singles, live
/// albums, compilations and similar artists it has.
pub fn artist_sections(
    albums: usize,
    singles: usize,
    live: usize,
    compilations: usize,
    similar: usize,
) -> (r: Vec<ArtistSection>)
    ensures
        r@ == artist_sections_spec(albums as nat, singles as nat, live as nat, compilations as nat, similar as nat),
{
    let mut r: Vec<ArtistSection> = Vec::new();
    if albums > 0 {
        r.push(ArtistSection::Albums);
    }
    if singles > 0 {
        r.push(ArtistSection::Singles);
    }
    if live > 0 {
        r.push(ArtistSection::Live);
    }
    if compilations > 0 {
        r.push(ArtistSection::Compilations);
    }
    if similar > 0 {
        r.push(ArtistSection::SimilarArtists);
    }
    assert(r@ =~= artist_sections_spec(albums as nat, singles as nat, live as nat, compilations as nat, similar as nat));
    r
}

/// Where a section stands on the page: releases first (albums, singles, live,
/// compilations), similar artists last.
pub open spec fn section_rank(s: ArtistSection) -> int {
    match s {
        ArtistSection::Albums => 0,
        ArtistSection::Singles => 1,
        ArtistSection::Live => 2,
        ArtistSection::Compilations => 3,
        ArtistSection::SimilarArtists => 4,
    }
}

/// How many entries the artist has for section `s`.
pub open spec fn section_count(
    s: ArtistSection,
    albums: nat,
    singles: nat,
    live: nat,
    compilations: nat,
    similar: nat,
) -> nat {
    match s {
        ArtistSection::Albums => albums,
        ArtistSection::Singles => singles,
        ArtistSection::Live => live,
        ArtistSection::Compilations => compilations,
        ArtistSection::SimilarArtists => similar,
    }
}

/// The single section `k` when `count` is positive, nothing otherwise.
spec fn section_if(k: ArtistSection, count: nat) -> Seq<ArtistSection> {
    if count > 0 {
        seq![k]
    } else {
        Seq::empty()
    }
}

spec fn ranks_increase(x: Seq<ArtistSection>) -> bool {
    forall|i: int, j: int| 0 <= i < j < x.len() ==> section_rank(x[i]) < section_rank(x[j])
}

spec fn ranks_above(x: Seq<ArtistSection>, r: int) -> bool {
    forall|i: int| 0 <= i < x.len() ==> section_rank(#[trigger] x[i]) > r
}

proof fn lemma_prepend_section(k: ArtistSection, count: nat, rest: Seq<ArtistSection>)
    requires
        ranks_increase(rest),
        ranks_above(rest, section_rank(k)),
    ensures
        ranks_increase(section_if(k, count) + rest),
        ranks_above(section_if(k, count) + rest, section_rank(k) - 1),
        forall|y: ArtistSection|
            (section_if(k, count) + rest).contains(y) <==> ((y == k && count > 0) || rest.contains(y)),
{
    let x = section_if(k, count) + rest;
    let h = section_if(k, count);
    assert forall|i: int| 0 <= i < x.len() implies section_rank(#[trigger] x[i]) > section_rank(k) - 1 by {
        if i >= h.len() {
            assert(x[i] == rest[i - h.len()]);
        }
    }
    assert forall|i: int, j: int| 0 <= i < j < x.len() implies section_rank(x[i]) < section_rank(x[j]) by {
        if i >= h.len() {
            assert(x[i] == rest[i - h.len()]);
        }
        assert(x[j] == rest[j - h.len()]);
    }
    assert forall|y: ArtistSection| x.contains(y) <==> ((y == k && count > 0) || rest.contains(y)) by {
        if x.contains(y) {
            let i = choose|i: int| 0 <= i < x.len() && x[i] == y;
            if i >= h.len() {
                assert(rest[i - h.len()] == y);
            }
        }
        if y == k && count > 0 {
            assert(x[0] == y);
        }
        if rest.contains(y) {
            let i = choose|i: int| 0 <= i < rest.len() && rest[i] == y;
            assert(x[i + h.len()] == y);
        }
    }
}

/// An artist page shows a section exactly when the artist has something for
/// it, each section at most once, in the fixed order albums, singles, live,
/// compilations, similar artists.
pub proof fn lemma_artist_sections_are_the_nonempty_kinds(
    albums: nat,
    singles: nat,
    live: nat,
    compilations: nat,
    similar: nat,
)
    ensures
        ({
            let r = artist_sections_spec(albums, singles, live, compilations, similar);
            &&& forall|k: ArtistSection|
                r.contains(k) <==> section_count(k, albums, singles, live, compilations, similar) > 0
            &&& forall|i: int, j: int| 0 <= i < j < r.len() ==> section_rank(r[i]) < section_rank(r[j])
        }),
{
    let e = Seq::<ArtistSection>::empty();
    let m = section_if(ArtistSection::SimilarArtists, similar) + e;
    let c = section_if(ArtistSection::Compilations, compilations) + m;
    let l = section_if(ArtistSection::Live, live) + c;
    let b = section_if(ArtistSection::Singles, singles) + l;
    let a = section_if(ArtistSection::Albums, albums) + b;
    lemma_prepend_section(ArtistSection::SimilarArtists, similar, e);
    lemma_prepend_section(ArtistSection::Compilations, compilations, m);
    lemma_prepend_section(ArtistSection::Live, live, c);
    lemma_prepend_section(ArtistSection::Singles, singles, l);
    lemma_prepend_section(ArtistSection::Albums, albums, b);
    let r = artist_sections_spec(albums, singles, live, compilations, similar);
    assert(r =~= a);
    assert forall|k: ArtistSection|
        r.contains(k) <==> section_count(k, albums, singles, live, compilations, similar) > 0 by {
        assert(!e.contains(k));
    }
}

/// How many of an artist's top tracks the page lists: at most ten.
pub fn top_track_count(available: usize) -> (n: usize)
    ensures
        n == if available < 10 { available } else { 10 },
{
    if available < 10 {
        available
    } else {
        10
    }
}

} // verus!
