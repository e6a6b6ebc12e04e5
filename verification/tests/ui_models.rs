use qobuz_player::error::Error;
use qobuz_player::models::{Performer, Track, Tracks};
use qobuz_player::ui::{
    activated_track_index, album_matches, artist_sections, name_matches, playing_track_id, playlist_selection,
    section_title, top_track_count, ArtistSection, GridFilter, PlayingEntity, PlaylistSelection,
};

#[test]
fn playing_track_id_of_both_kinds() {
    assert_eq!(playing_track_id(&PlayingEntity::Track { id: 5 }), Some(5));
    assert_eq!(
        playing_track_id(&PlayingEntity::Playlist { playlist_id: 1, index: 3, track_id: 9 }),
        Some(9)
    );
}

#[test]
fn playlist_selection_follows_the_playing_playlist() {
    assert!(matches!(playlist_selection(&PlayingEntity::Track { id: 5 }, 1), PlaylistSelection::Keep));
    let e = PlayingEntity::Playlist { playlist_id: 1, index: 3, track_id: 9 };
    assert!(matches!(playlist_selection(&e, 1), PlaylistSelection::Select(3)));
    assert!(matches!(playlist_selection(&e, 2), PlaylistSelection::Clear));
}

#[test]
fn row_activation_ignores_negative_rows() {
    assert_eq!(activated_track_index(4), Some(4));
    assert_eq!(activated_track_index(0), Some(0));
    assert_eq!(activated_track_index(-1), None);
}

#[test]
fn grid_filter_normalizes_the_query() {
    let mut f = GridFilter::new();
    assert_eq!(f.active_query(), None);
    f.set_query("  Beatles ");
    assert_eq!(f.active_query(), Some("beatles".to_string()));
    f.set_query("   ");
    assert_eq!(f.active_query(), None);
    f.set_query("X");
    f.reset();
    assert_eq!(f.active_query(), None);
    f.set_query("\u{2003} Ab C\u{3000}");
    assert_eq!(f.active_query(), Some("ab c".to_string()));
}

#[test]
fn album_and_name_matching() {
    assert!(album_matches("Abbey Road", "The Beatles", "road"));
    assert!(album_matches("Abbey Road", "The Beatles", "beat"));
    assert!(!album_matches("Abbey Road", "The Beatles", "stones"));
    assert!(name_matches("Miles Davis", "davis"));
    assert!(!name_matches("Miles Davis", "Davis"));
}

#[test]
fn artist_page_sections() {
    assert_eq!(artist_sections(0, 0, 0, 0, 0).len(), 0);
    let s = artist_sections(2, 0, 1, 0, 3);
    assert_eq!(s.len(), 3);
    assert!(matches!(s[0], ArtistSection::Albums));
    assert!(matches!(s[1], ArtistSection::Live));
    assert!(matches!(s[2], ArtistSection::SimilarArtists));
    assert_eq!(section_title(ArtistSection::SimilarArtists), "Similar Artists");
    assert_eq!(section_title(ArtistSection::Compilations), "Compilations");
    assert_eq!(top_track_count(3), 3);
    assert_eq!(top_track_count(25), 10);
}

#[test]
fn error_messages() {
    assert_eq!(Error::Login.message(), "Failed to login.");
    assert_eq!(Error::ActiveSecret.message(), "Failed to get a usable secret from Qobuz.");
    assert_eq!(Error::AppID.message(), "Failed to get an app id from Qobuz.");
    assert_eq!(Error::Create.message(), "Failed to create client");
    assert_eq!(Error::Api { message: "x".to_string() }.message(), "x");
    assert_eq!(
        Error::DeserializeJSON { message: "eof".to_string() }.message(),
        "Failed to deserialize json: eof"
    );
    assert_eq!(
        Error::StreamError { message: "gone".to_string() }.message(),
        "Unable to start stream: gone"
    );
}

#[test]
fn http_status_becomes_api_error() {
    match Error::from_http_status(Some(404)) {
        Error::Api { message } => assert_eq!(message, "404 Not Found"),
        other => panic!("unexpected {other:?}"),
    }
    match Error::from_http_status(None) {
        Error::Api { message } => assert_eq!(message, "Unable to connect to Qobuz api"),
        other => panic!("unexpected {other:?}"),
    }
}

#[test]
fn io_and_local_ip_errors_become_login() {
    let e: Error = std::io::Error::other("x").into();
    assert!(matches!(e, Error::Login));
    let e: Error = local_ip_address::Error::LocalIpAddressNotFound.into();
    assert!(matches!(e, Error::Login));
}

#[test]
fn model_defaults() {
    let t = Track::default();
    assert_eq!(t.id, 0);
    assert!(t.title.is_empty());
    assert!(t.performer.is_none());
    let ts = Tracks::default();
    assert!(ts.items.is_empty());
    let p = Performer::default();
    assert_eq!(p.id, 0);
    let ts2 = Tracks { offset: 0, limit: 1, total: 1, items: vec![Track { performer: Some(p), ..t }] };
    assert_eq!(ts2.items.len(), 1);
}

