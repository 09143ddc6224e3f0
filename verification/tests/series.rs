use gideon_core::json::Json;
use gideon_core::series::{
    known_meta, lenient_count, lenient_genres, lenient_status, lenient_timestamp,
};

type SeriesRef = gideon_core::SeriesRef<f32>;
type SeriesMeta = gideon_core::SeriesMeta<f32>;
type SeriesIndex = gideon_core::SeriesIndex<f32>;

fn origin() -> SeriesRef {
    SeriesRef {
        source_id: "multi.mangadex".into(),
        source_name: "MangaDex".into(),
        manga_id: "m1".into(),
        manga_title: "Manga One".into(),
        ..SeriesRef::default()
    }
}

fn meta() -> SeriesMeta {
    SeriesMeta {
        score: Some(8.74),
        status: Some("Publishing".into()),
        genres: vec!["Action".into(), "Drama".into()],
        rank: Some(42),
        total_chapters: Some(120),
        fetched_at: Some(1_700_000_000),
    }
}

/// The index that is read back from what another one lists.
fn reload(index: &SeriesIndex) -> SeriesIndex {
    let mut reloaded = SeriesIndex::default();
    for (dir, r) in index.iter() {
        reloaded.record(dir, r.clone());
    }
    reloaded
}

#[test]
fn an_index_is_rebuilt_from_its_rows() {
    let mut index = SeriesIndex::default();
    assert!(index.get("Manga One").is_none());

    index.record("Manga One", origin());

    let reloaded = reload(&index);
    assert_eq!(reloaded.get("Manga One"), Some(&origin()));
    assert!(reloaded.get("Sideloaded").is_none());
    assert_eq!(SeriesIndex::path("/books"), "/books/.gideon/series.json");
}

#[test]
fn re_recording_keeps_the_download_history() {
    let mut index = SeriesIndex::default();
    index.record("Manga One", origin());
    index.record_download("Manga One", "c1", "Chapter 1.cbz");
    // A later download re-records the origin; history must survive.
    index.record("Manga One", origin());
    assert_eq!(
        index.get("Manga One").unwrap().downloaded.get("c1"),
        Some(&"Chapter 1.cbz".to_string())
    );

    index.forget_download("Manga One", "Chapter 1.cbz");
    assert!(index.get("Manga One").unwrap().downloaded.is_empty());

    assert_eq!(
        index.find_manga("multi.mangadex", "m1").map(|(d, _)| d),
        Some("Manga One")
    );
    index.remove("Manga One");
    assert!(index.get("Manga One").is_none());
}

#[test]
fn metadata_goes_stale_on_a_schedule_not_on_every_read() {
    // A score and a genre list do not move; the chapter count does when
    // new chapters land, and a score can slide after a bad ending. So
    // metadata is re-checked on the order of a fortnight rather than
    // every time the library is opened.
    let fresh = SeriesMeta {
        fetched_at: Some(1_000_000),
        ..meta()
    };
    const FORTNIGHT: u64 = 14 * 24 * 3600;
    assert!(!fresh.is_stale(1_000_000 + FORTNIGHT - 1, FORTNIGHT));
    assert!(fresh.is_stale(1_000_000 + FORTNIGHT, FORTNIGHT));

    // Cached before the stamp existed: due once, then on the cadence.
    let unstamped = SeriesMeta {
        fetched_at: None,
        ..meta()
    };
    assert!(unstamped.is_stale(0, FORTNIGHT));

    // A stamp from a clock that was wrong reads as just-fetched rather
    // than as an age of billions of seconds.
    let future = SeriesMeta {
        fetched_at: Some(9_000_000),
        ..meta()
    };
    assert!(!future.is_stale(1_000_000, FORTNIGHT));

    // A stamp alone is not knowledge about the series.
    assert!(SeriesMeta {
        fetched_at: Some(1_000_000),
        ..SeriesMeta::default()
    }
    .is_empty());
}

#[test]
fn metadata_is_rebuilt_with_its_index() {
    let mut index = SeriesIndex::default();
    index.record(
        "Manga One",
        SeriesRef {
            meta: Some(meta()),
            ..origin()
        },
    );
    let reloaded = reload(&index);
    assert_eq!(reloaded.get("Manga One").unwrap().meta, Some(meta()));
}

#[test]
fn partial_metadata_survives_and_junk_degrades_to_none() {
    let parse = |text: &str, score: Option<f32>| {
        let value: serde_json::Value = serde_json::from_str(text).unwrap();
        let field = |name: &str| Json::from_value(value.get(name).unwrap_or(&serde_json::Value::Null));
        known_meta(Some(SeriesMeta {
            score,
            status: lenient_status(&field("status")),
            genres: lenient_genres(&field("genres")),
            rank: lenient_count(&field("rank")),
            total_chapters: lenient_count(&field("total_chapters")),
            fetched_at: lenient_timestamp(&field("fetched_at")),
        }))
    };
    let partial = parse(r#"{ "score": 7.5, "genres": ["Comedy"] }"#, Some(7.5)).unwrap();
    assert_eq!(partial.score, Some(7.5));
    assert_eq!(partial.genres, vec!["Comedy".to_string()]);
    assert_eq!(partial.status, None);
    assert_eq!(partial.rank, None);
    assert_eq!(partial.total_chapters, None);

    // Every field junk (0/negative counts included) collapses to an
    // empty struct, which is stored as "no metadata" rather than an
    // empty object.
    let junk = r#"{
        "score": "not a number",
        "status": "",
        "genres": "Action",
        "rank": -3,
        "total_chapters": 0
    }"#;
    assert_eq!(parse(junk, None), None);
    assert_eq!(known_meta::<f32>(None), None);
}

#[test]
fn re_recording_keeps_metadata_unless_the_new_origin_has_some() {
    let mut index = SeriesIndex::default();
    index.record(
        "Manga One",
        SeriesRef {
            meta: Some(meta()),
            ..origin()
        },
    );

    // The download path re-records without metadata: keep the cache.
    index.record("Manga One", origin());
    assert_eq!(index.get("Manga One").unwrap().meta, Some(meta()));

    // A refresh that carries metadata replaces it.
    let refreshed = SeriesMeta {
        score: Some(9.0),
        ..SeriesMeta::default()
    };
    index.record(
        "Manga One",
        SeriesRef {
            meta: Some(refreshed.clone()),
            ..origin()
        },
    );
    assert_eq!(index.get("Manga One").unwrap().meta, Some(refreshed));
}

#[test]
fn fields_of_metadata_parse_leniently() {
    assert_eq!(lenient_timestamp(&Json::Unsigned(7)), Some(7));
    assert_eq!(lenient_timestamp(&Json::Other), None);
    assert_eq!(lenient_status(&Json::Text(" Finished ".into())).as_deref(), Some("Finished"));
    assert_eq!(lenient_status(&Json::Text("  ".into())), None);
    assert_eq!(lenient_status(&Json::Bool(true)), None);
    assert_eq!(
        lenient_genres(&Json::List(vec![Some(" Action".into()), None, Some("".into())])),
        vec!["Action"]
    );
    assert!(lenient_genres(&Json::Text("Action".into())).is_empty());
    assert_eq!(lenient_count(&Json::Unsigned(u32::MAX as u64)), Some(u32::MAX));
    assert_eq!(lenient_count(&Json::Unsigned(u32::MAX as u64 + 1)), None);
    assert_eq!(lenient_count(&Json::Unsigned(0)), None);
}

#[test]
fn forgetting_a_file_keeps_the_other_chapters() {
    let mut index = SeriesIndex::default();
    index.record("S", origin());
    index.record_download("S", "c1", "1.cbz");
    index.record_download("S", "c2", "2.cbz");
    index.record_download("S", "c1b", "1.cbz");
    index.forget_download("S", "1.cbz");
    let downloaded = &index.get("S").unwrap().downloaded;
    assert_eq!(downloaded.len(), 1);
    assert_eq!(downloaded.get("c2"), Some(&"2.cbz".to_string()));

    // An unknown series stays unknown.
    index.record_download("T", "c1", "1.cbz");
    index.forget_download("T", "1.cbz");
    index.remove("T");
    assert!(index.get("T").is_none());
}

#[test]
fn series_are_listed_in_directory_order_and_the_first_match_wins() {
    let mut index = SeriesIndex::default();
    for dir in ["b", "a", "C", "a b"] {
        index.record(dir, origin());
    }
    let dirs: Vec<&str> = index.iter().into_iter().map(|(d, _)| d).collect();
    assert_eq!(dirs, vec!["C", "a", "a b", "b"]);
    assert_eq!(
        index.find_manga("multi.mangadex", "m1").map(|(d, _)| d),
        Some("C")
    );
    assert!(index.find_manga("multi.mangadex", "m2").is_none());
    assert!(index.find_manga("other", "m1").is_none());
}
