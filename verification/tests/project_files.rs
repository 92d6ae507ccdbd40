use exmodhop::files::{get_paths, FilterBy, GlobEntry, Timestamp};
use exmodhop::project::{
    config_root_path, hash_abspath, modified_since, parse_datetime, project_config_path,
    timestamp_of, Project,
};

fn at(nanos: i128) -> Option<Timestamp> {
    Some(Timestamp { nanos })
}

fn listing() -> Vec<GlobEntry> {
    vec![
        GlobEntry::Found { path: "/p/lib/a.ex".to_string(), modified: at(100) },
        GlobEntry::Unreadable,
        GlobEntry::Found { path: "/p/lib/b.ex".to_string(), modified: at(300) },
        GlobEntry::Found { path: "/p/lib/c.ex".to_string(), modified: None },
        GlobEntry::Found { path: "/p/lib/d.ex".to_string(), modified: at(200) },
    ]
}

#[test]
fn filter_by_new_follows_last_update() {
    assert!(matches!(FilterBy::new(None), FilterBy::All));
    assert!(matches!(FilterBy::new(at(5)), FilterBy::ModifiedSince(Timestamp { nanos: 5 })));
}

#[test]
fn filter_keeps_only_newer_files() {
    let filter = FilterBy::new(at(200));
    assert!(filter.keeps(at(201)));
    assert!(!filter.keeps(at(200)));
    assert!(!filter.keeps(at(-5)));
    assert!(!filter.keeps(None));
    assert!(FilterBy::new(None).keeps(None));
}

#[test]
fn get_paths_without_filter_keeps_every_readable_path() {
    let paths = get_paths(listing(), None).unwrap();
    assert_eq!(paths, vec!["/p/lib/a.ex", "/p/lib/b.ex", "/p/lib/c.ex", "/p/lib/d.ex"]);
}

#[test]
fn get_paths_with_filter_keeps_newer_paths() {
    let paths = get_paths(listing(), at(150)).unwrap();
    assert_eq!(paths, vec!["/p/lib/b.ex", "/p/lib/d.ex"]);
    assert_eq!(get_paths(Vec::new(), at(150)).unwrap(), Vec::<String>::new());
}

#[test]
fn project_new_places_index_in_config_path() {
    let project = Project::new("/home/dev/app".to_string(), "/home/dev/.config/exmodhop/app-x".to_string(), at(9));
    assert_eq!(project.root_path, "/home/dev/app");
    assert_eq!(project.config_path, "/home/dev/.config/exmodhop/app-x");
    assert_eq!(project.index_path, "/home/dev/.config/exmodhop/app-x/modules.index");
    assert_eq!(project.modified_since, at(9));
}

#[test]
fn source_glob_pattern_looks_under_lib() {
    let project = Project::new("/home/dev/app".to_string(), "/c".to_string(), None);
    assert_eq!(project.source_glob_pattern(), "/home/dev/app/lib/**/*.ex");
    let project = Project::new("/home/dev/app/".to_string(), "/c".to_string(), None);
    assert_eq!(project.source_glob_pattern(), "/home/dev/app/lib/**/*.ex");
}

#[test]
fn get_elixir_source_paths_uses_the_project_filter() {
    let project = Project::new("/p".to_string(), "/c".to_string(), at(250));
    assert_eq!(project.get_elixir_source_paths(listing()).unwrap(), vec!["/p/lib/b.ex"]);
    let project = Project::new("/p".to_string(), "/c".to_string(), None);
    assert_eq!(project.get_elixir_source_paths(listing()).unwrap().len(), 4);
}

#[test]
fn hash_abspath_is_sha256_hex() {
    assert_eq!(
        hash_abspath("/home/dev/hello_world"),
        "e78bc350d4b42ec68ae5cece94282b64ca59b14b7282cd03ab69fa15898be4c6"
    );
    assert_eq!(hash_abspath("/home/dev/hello_world").len(), 64);
    assert_ne!(hash_abspath("/a"), hash_abspath("/b"));
}

#[test]
fn project_config_path_joins_name_and_hash() {
    let path = project_config_path("/home/dev/hello_world", "/home/dev/.config/exmodhop").unwrap();
    assert_eq!(
        path,
        "/home/dev/.config/exmodhop/hello_world-e78bc350d4b42ec68ae5cece94282b64ca59b14b7282cd03ab69fa15898be4c6"
    );
    assert_eq!(project_config_path("/", "/cfg"), None);
    assert_eq!(project_config_path("/home/..", "/cfg"), None);
}

#[test]
fn config_root_path_is_under_home() {
    assert_eq!(config_root_path("/home/dev"), "/home/dev/.config/exmodhop");
}

#[test]
fn timestamp_of_counts_nanoseconds() {
    assert_eq!(timestamp_of(0, 0).nanos, 0);
    assert_eq!(timestamp_of(2, 5).nanos, 2_000_000_005);
    assert_eq!(timestamp_of(-1, 500_000_000).nanos, -500_000_000);
    assert_eq!(timestamp_of(i64::MIN, 1_999_999_999).nanos, (i64::MIN as i128) * 1_000_000_000 + 1_999_999_999);
}

#[test]
fn parse_datetime_reads_rfc3339() {
    assert_eq!(parse_datetime("1970-01-01T00:00:01Z".to_string()), at(1_000_000_000));
    assert_eq!(parse_datetime("2024-01-02T03:04:05.5Z".to_string()), at(1_704_164_645_500_000_000));
    assert_eq!(parse_datetime("1970-01-01T01:00:00+01:00".to_string()), at(0));
    assert_eq!(parse_datetime("1969-12-31T23:59:59.25Z".to_string()), at(-750_000_000));
    assert_eq!(parse_datetime("yesterday".to_string()), None);
}

#[test]
fn parse_datetime_matches_system_time_conversion() {
    let input = "2021-06-07T08:09:10.123456789+02:00";
    let dt: chrono::DateTime<chrono::Utc> = input.parse().unwrap();
    let st: std::time::SystemTime = dt.into();
    let expected = st.duration_since(std::time::UNIX_EPOCH).unwrap().as_nanos() as i128;
    assert_eq!(parse_datetime(input.to_string()), at(expected));
}

#[test]
fn modified_since_prefers_the_setting() {
    assert_eq!(modified_since(Some("1970-01-01T00:00:02Z".to_string()), at(7)), at(2_000_000_000));
    assert_eq!(modified_since(Some("not a date".to_string()), at(7)), None);
    assert_eq!(modified_since(None, at(7)), at(7));
    assert_eq!(modified_since(None, None), None);
}
