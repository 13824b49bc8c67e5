//! The upload catalog: categories, stamps and records.

use pesto::calendar;
use pesto::history::{
    archived_nzb_name, detect_category, has_year, iso8601_now, record_line, stamp_now, UploadRecord,
};
use pesto::json::json_opt;

#[test]
fn detect_category_tv() {
    assert_eq!(detect_category("Show.S01E03.720p"), "TV");
    assert_eq!(detect_category("Show Season 2"), "TV");
}

#[test]
fn detect_category_movie() {
    assert_eq!(detect_category("Interstellar.2014.BluRay"), "Movie");
    assert_eq!(detect_category("The.Matrix.1999.x264"), "Movie");
}

#[test]
fn detect_category_generic() {
    assert_eq!(detect_category("some_file.rar"), "Generic");
}

#[test]
fn iso8601_format() {
    let s = iso8601_now();
    // YYYY-MM-DDTHH:MM:SS+00:00
    assert_eq!(s.len(), 25);
    assert!(s.ends_with("+00:00"));
    assert_eq!(&s[4..5], "-");
}

#[test]
fn history_json_opt_none_is_null() {
    assert_eq!(json_opt(None), "null");
}

#[test]
fn json_opt_escapes_quotes() {
    assert_eq!(json_opt(Some(r#"say "hi""#)), r#""say \"hi\"""#);
}

#[test]
fn detect_category_anime() {
    assert_eq!(detect_category("[Group] Title - 07 [1080p].mkv"), "Anime");
    assert_eq!(detect_category("Title EP01.mkv"), "Anime");
}

#[test]
fn detect_category_reads_the_last_path_component() {
    assert_eq!(detect_category("Movies.2010/some_file.rar"), "Generic");
    assert_eq!(detect_category("x/Show.s12e01.mkv"), "TV");
    assert_eq!(detect_category(".."), "Generic");
}

#[test]
fn years_stand_alone_and_are_no_dates() {
    let year = |s: &str| has_year(&s.chars().collect::<Vec<char>>());
    assert!(year("film.1999"));
    assert!(year("2014"));
    assert!(!year("a1999"));
    assert!(!year("2014-05-01"));
    assert!(!year("3014"));
    assert!(!year("199"));
}

#[test]
fn archived_names_are_safe_and_short() {
    assert_eq!(
        archived_nzb_name("20240115T123045Z", "a/b:c d-e.f"),
        "20240115T123045Z_a_b_c d-e.f.nzb"
    );
    let long = "x".repeat(200);
    assert_eq!(archived_nzb_name("s", &long), format!("s_{}.nzb", "x".repeat(80)));
    assert_eq!(archived_nzb_name("s", "é!"), "s_é_.nzb");
}

#[test]
fn stamps_of_a_known_time() {
    assert_eq!(calendar::iso8601(1_705_321_845), "2024-01-15T12:30:45+00:00");
    assert_eq!(calendar::stamp(1_705_321_845), "20240115T123045z");
    assert_eq!(calendar::ymd(951_782_400), "2000-02-29");
    assert_eq!(calendar::format_rfc2822(1_704_067_200), "Mon, 01 Jan 2024 00:00:00 +0000");
    assert_eq!(stamp_now().len(), 16);
}

#[test]
fn days_are_numbered_as_in_the_calendar() {
    assert_eq!(calendar::days_to_ymd(0), (1970, 1, 1));
    assert_eq!(calendar::days_to_ymd(11_016), (2000, 2, 29));
    assert_eq!(calendar::days_to_ymd(11_017), (2000, 3, 1));
}

#[test]
fn records_are_exact() {
    let rec = UploadRecord {
        name: "Film.2001.mkv",
        obfuscated_name: None,
        password: Some("p\"w"),
        total_bytes: 42,
        group: Some("alt.test"),
        server: None,
        par2_redundancy: Some("10%"),
        duration_millis: 61_005,
        nzb_path: Some("/o/f.nzb"),
        subject: None,
    };
    assert_eq!(
        record_line(&rec, "2024-01-15T12:30:45+00:00", None),
        concat_lines(&[
            r#"{"data_upload":"2024-01-15T12:30:45+00:00","nome_original":"Film.2001.mkv","#,
            r#""categoria":"Movie","nome_ofuscado":null,"senha_rar":"p\"w","tamanho_bytes":42,"#,
            r#""tmdb_id":null,"grupo_usenet":"alt.test","servidor_nntp":null,"#,
            r#""redundancia_par2":"10%","duracao_upload_s":61.005,"num_arquivos_rar":null,"#,
            r#""caminho_nzb":"/o/f.nzb","subject":null}"#,
        ])
    );
    assert!(record_line(&rec, "", Some("/c/f.nzb")).contains(r#""caminho_nzb":"/c/f.nzb""#));
}

fn concat_lines(parts: &[&str]) -> String {
    parts.concat()
}

#[test]
fn seconds_are_cut_from_nanoseconds() {
    assert_eq!(calendar::whole_seconds(999_999_999), 0);
    assert_eq!(calendar::whole_seconds(1_705_321_845_500_000_000), 1_705_321_845);
    assert_eq!(calendar::whole_seconds(u128::MAX), u64::MAX);
}
