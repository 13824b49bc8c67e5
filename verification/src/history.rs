//! The record of an upload in the shared catalog, and how uploads are
//! classified by name.

use vstd::prelude::*;
use vstd::string::*;

use crate::calendar;
use crate::chars;
use crate::environment;
use crate::json;
use crate::json_reading;
use crate::paths;
use crate::reading;
use crate::scan;
use crate::text;

verus! {

/// The lower-case form of a string that holds characters beyond ASCII.
pub uninterp spec fn unicode_lowercased(s: Seq<char>) -> Seq<char>;

/// Whether a character beyond ASCII is a letter or digit of some script.
pub uninterp spec fn unicode_alphanumeric(c: char) -> bool;

/// Every character is an ASCII one.
pub open spec fn all_ascii(s: Seq<char>) -> bool {
    forall|i: int| 0 <= i < s.len() ==> (#[trigger] s[i] as u32) < 128
}

/// An ASCII letter or digit.
pub open spec fn ascii_alphanumeric(c: char) -> bool {
    'a' <= c <= 'z' || 'A' <= c <= 'Z' || '0' <= c <= '9'
}

/// The lower-case form of a string.
pub open spec fn lowercased(s: Seq<char>) -> Seq<char> {
    if all_ascii(s) {
        chars::lowered(s)
    } else {
        unicode_lowercased(s)
    }
}

/// A letter or digit of any script.
pub open spec fn alphanumeric(c: char) -> bool {
    if (c as u32) < 128 {
        ascii_alphanumeric(c)
    } else {
        unicode_alphanumeric(c)
    }
}

/// `str::to_lowercase` gives the lower-case form of the string: on ASCII text
/// `A` to `Z` become `a` to `z`, beyond it Unicode's rules decide.
pub assume_specification[ str::to_lowercase ](s: &str) -> (r: String)
    ensures
        r@ == if all_ascii(s@) {
            chars::lowered(s@)
        } else {
            unicode_lowercased(s@)
        },
;

/// `char::is_alphanumeric` tells letters and digits: of ASCII the 62 known
/// ones, beyond it what Unicode counts as alphabetic or numeric.
pub assume_specification[ char::is_alphanumeric ](c: char) -> (r: bool)
    ensures
        r == if (c as u32) < 128 {
            ascii_alphanumeric(c)
        } else {
            unicode_alphanumeric(c)
        },
;

/// All data needed to write one history record.
pub struct UploadRecord<'a> {
    /// Original name of the uploaded content (file or folder).
    pub name: &'a str,
    /// Obfuscated name, if obfuscation was active.
    pub obfuscated_name: Option<&'a str>,
    /// Archive password, if one was set.
    pub password: Option<&'a str>,
    /// Total bytes uploaded (including PAR2 and metadata files).
    pub total_bytes: u64,
    /// Newsgroups used (first group only).
    pub group: Option<&'a str>,
    /// Primary server hostname.
    pub server: Option<&'a str>,
    /// PAR2 redundancy percentage (e.g. `"10%"`).
    pub par2_redundancy: Option<&'a str>,
    /// Wall-clock milliseconds the upload took.
    pub duration_millis: u64,
    /// Path to the written `.nzb` file.
    pub nzb_path: Option<&'a str>,
    /// Subject / NZB name used for the upload.
    pub subject: Option<&'a str>,
}

/// A four-digit number that starts with 1 or 2 stands at `i`, not behind a
/// letter or digit, and not followed by `-MM-` as in a date.
pub open spec fn year_at(s: Seq<char>, i: int) -> bool {
    &&& 0 <= i && i + 4 <= s.len()
    &&& s[i] == '1' || s[i] == '2'
    &&& chars::is_digit(s[i + 1]) && chars::is_digit(s[i + 2]) && chars::is_digit(s[i + 3])
    &&& i == 0 || !ascii_alphanumeric(s[i - 1])
    &&& !(i + 7 < s.len() && s[i + 4] == '-' && chars::is_digit(s[i + 5]) && chars::is_digit(
        s[i + 6],
    ) && s[i + 7] == '-')
}

/// A year stands somewhere in the name.
pub open spec fn names_year(s: Seq<char>) -> bool {
    exists|i: int| #[trigger] year_at(s, i)
}

/// Season and episode, as in `S01E`, stand at `i`.
pub open spec fn episode_at(s: Seq<char>, i: int) -> bool {
    &&& 0 <= i && i + 4 <= s.len()
    &&& s[i] == 'S' || s[i] == 's'
    &&& chars::is_digit(s[i + 1]) && chars::is_digit(s[i + 2])
    &&& s[i + 3] == 'E' || s[i + 3] == 'e'
}

/// Season and episode stand somewhere in the name.
pub open spec fn names_episode(s: Seq<char>) -> bool {
    exists|i: int| #[trigger] episode_at(s, i)
}

/// The marks of an anime release.
pub open spec fn looks_like_anime(stem: Seq<char>) -> bool {
    ||| chars::occurs(stem, "EP0"@)
    ||| chars::occurs(stem, "EP1"@)
    ||| chars::occurs(stem, "EP2"@)
    ||| chars::occurs(stem, "["@) && (chars::occurs(stem, " - "@) || chars::occurs(stem, "- "@))
}

/// The marks of a series.
pub open spec fn looks_like_tv(stem: Seq<char>) -> bool {
    ||| chars::occurs(stem, "x0"@)
    ||| chars::occurs(stem, "x1"@)
    ||| chars::occurs(stem, "x2"@)
    ||| chars::occurs(lowercased(stem), "s01e"@)
    ||| chars::occurs(lowercased(stem), "s02e"@)
    ||| chars::occurs(lowercased(stem), "s03e"@)
    ||| chars::occurs(lowercased(stem), "season"@)
    ||| chars::occurs(lowercased(stem), "miniseries"@)
    ||| chars::occurs(lowercased(stem), "complete"@)
    ||| names_episode(stem)
}

/// The category of a name: the first of anime, series and film whose marks it
/// bears, or none of them.
pub open spec fn category_of(name: Seq<char>) -> Seq<char> {
    let stem = paths::stem_of(name);
    if looks_like_anime(stem) {
        "Anime"@
    } else if looks_like_tv(stem) {
        "TV"@
    } else if names_year(stem) {
        "Movie"@
    } else {
        "Generic"@
    }
}

/// A name bears one of these marks.
pub open spec fn bears(s: Seq<char>, marks: Seq<Seq<char>>) -> bool {
    exists|k: int| 0 <= k < marks.len() && chars::occurs(s, #[trigger] marks[k])
}

/// The first category whose marks a name bears counts: for anime the numbers of
/// episodes, or a bracket and a dash; for series the numbers of seasons and
/// episodes and the words for them; for films a year.
pub proof fn law_categories_follow_their_marks(name: Seq<char>)
    ensures
        ({
            let stem = paths::stem_of(name);
            let category = category_of(name);
            let anime = bears(stem, seq!["EP0"@, "EP1"@, "EP2"@]) || bears(stem, seq!["["@])
                && bears(stem, seq![" - "@, "- "@]);
            let series = bears(stem, seq!["x0"@, "x1"@, "x2"@]) || bears(
                lowercased(stem),
                seq!["s01e"@, "s02e"@, "s03e"@, "season"@, "miniseries"@, "complete"@],
            ) || names_episode(stem);
            &&& category == "Anime"@ <==> anime
            &&& category == "TV"@ <==> !anime && series
            &&& category == "Movie"@ <==> !anime && !series && names_year(stem)
            &&& category == "Generic"@ <==> !anime && !series && !names_year(stem)
        }),
{
    reveal_strlit("Anime");
    reveal_strlit("TV");
    reveal_strlit("Movie");
    reveal_strlit("Generic");
    assert("Anime"@.len() == 5 && "TV"@.len() == 2 && "Movie"@.len() == 5 && "Generic"@.len() == 7);
    assert("Anime"@[0] == 'A' && "Movie"@[0] == 'M');
    let stem = paths::stem_of(name);
    let a = seq!["EP0"@, "EP1"@, "EP2"@];
    let b = seq!["["@];
    let c = seq![" - "@, "- "@];
    let d = seq!["x0"@, "x1"@, "x2"@];
    let e = seq!["s01e"@, "s02e"@, "s03e"@, "season"@, "miniseries"@, "complete"@];
    let low = lowercased(stem);
    assert(bears(stem, a) <==> chars::occurs(stem, a[0]) || chars::occurs(stem, a[1])
        || chars::occurs(stem, a[2]));
    assert(bears(stem, b) <==> chars::occurs(stem, b[0]));
    assert(bears(stem, c) <==> chars::occurs(stem, c[0]) || chars::occurs(stem, c[1]));
    assert(bears(stem, d) <==> chars::occurs(stem, d[0]) || chars::occurs(stem, d[1])
        || chars::occurs(stem, d[2]));
    assert(bears(low, e) <==> chars::occurs(low, e[0]) || chars::occurs(low, e[1]) || chars::occurs(
        low,
        e[2],
    ) || chars::occurs(low, e[3]) || chars::occurs(low, e[4]) || chars::occurs(low, e[5]));
}

fn is_ascii_alphanumeric(c: char) -> (r: bool)
    ensures
        r == ascii_alphanumeric(c),
{
    ('a' <= c && c <= 'z') || ('A' <= c && c <= 'Z') || ('0' <= c && c <= '9')
}

/// Whether a year stands in the name.
pub fn has_year(s: &[char]) -> (r: bool)
    ensures
        r == names_year(s@),
{
    let n: usize = s.len();
    if n < 4 {
        return false;
    }
    let mut i: usize = 0;
    while i < n - 3
        invariant
            4 <= n,
            i <= n - 3,
            n == s@.len(),
            forall|j: int| 0 <= j < i ==> !#[trigger] year_at(s@, j),
        decreases n - 3 - i,
    {
        if (s[i] == '1' || s[i] == '2') && chars::digit(s[i + 1]) && chars::digit(s[i + 2])
            && chars::digit(s[i + 3]) {
            let before_ok: bool = i == 0 || !is_ascii_alphanumeric(s[i - 1]);
            let dated: bool = n - i > 7 && s[i + 4] == '-' && chars::digit(s[i + 5])
                && chars::digit(s[i + 6]) && s[i + 7] == '-';
            if before_ok && !dated {
                assert(year_at(s@, i as int));
                return true;
            }
        }
        i = i + 1;
    }
    false
}

fn has_episode(s: &[char]) -> (r: bool)
    ensures
        r == names_episode(s@),
{
    let n: usize = s.len();
    if n < 4 {
        return false;
    }
    let mut i: usize = 0;
    while i < n - 3
        invariant
            4 <= n,
            i <= n - 3,
            n == s@.len(),
            forall|j: int| 0 <= j < i ==> !#[trigger] episode_at(s@, j),
        decreases n - 3 - i,
    {
        if (s[i] == 'S' || s[i] == 's') && chars::digit(s[i + 1]) && chars::digit(s[i + 2]) && (s[i
            + 3] == 'E' || s[i + 3] == 'e') {
            assert(episode_at(s@, i as int));
            return true;
        }
        i = i + 1;
    }
    false
}

fn contains(s: &[char], pat: &str) -> (r: bool)
    ensures
        r == chars::occurs(s@, pat@),
{
    let wanted: Vec<char> = text::chars_of(pat);
    chars::contains(s, wanted.as_slice())
}

/// One of some patterns occurs in a text.
pub open spec fn any_occurs(s: Seq<char>, pats: Seq<&str>) -> bool {
    exists|i: int| 0 <= i < pats.len() && chars::occurs(s, (#[trigger] pats[i])@)
}

/// Whether one of some patterns occurs in a text.
pub fn contains_pattern(s: &[char], pats: &[&str]) -> (r: bool)
    ensures
        r == any_occurs(s@, pats@),
{
    let n: usize = pats.len();
    let mut i: usize = 0;
    while i < n
        invariant
            i <= n,
            n == pats@.len(),
            forall|k: int| 0 <= k < i ==> !chars::occurs(s@, (#[trigger] pats@[k])@),
        decreases n - i,
    {
        if contains(s, pats[i]) {
            assert(chars::occurs(s@, pats@[i as int]@));
            return true;
        }
        i = i + 1;
    }
    false
}

/// Whether one of some lower-case patterns occurs in a text, in upper or lower
/// case.
pub fn contains_ci(s: &[char], pats: &[&str]) -> (r: bool)
    ensures
        r == any_occurs(lowercased(s@), pats@),
{
    let lower: String = text::string_of(s).as_str().to_lowercase();
    let chars: Vec<char> = text::chars_of(lower.as_str());
    contains_pattern(chars.as_slice(), pats)
}

/// Detect the upload category from the name.
pub fn detect_category(name: &str) -> (category: &'static str)
    ensures
        category@ == category_of(name@),
{
    let all: Vec<char> = text::chars_of(name);
    let stem: &[char] = paths::file_stem(all.as_slice());
    let episodes: [&str; 3] = ["EP0", "EP1", "EP2"];
    let dashes: [&str; 2] = [" - ", "- "];
    let crosses: [&str; 3] = ["x0", "x1", "x2"];
    let words: [&str; 6] = ["s01e", "s02e", "s03e", "season", "miniseries", "complete"];
    proof {
        let lower = lowercased(stem@);
        assert(any_occurs(stem@, episodes@) <==> chars::occurs(stem@, episodes@[0]@)
            || chars::occurs(stem@, episodes@[1]@) || chars::occurs(stem@, episodes@[2]@));
        assert(any_occurs(stem@, dashes@) <==> chars::occurs(stem@, dashes@[0]@) || chars::occurs(
            stem@,
            dashes@[1]@,
        ));
        assert(any_occurs(stem@, crosses@) <==> chars::occurs(stem@, crosses@[0]@)
            || chars::occurs(stem@, crosses@[1]@) || chars::occurs(stem@, crosses@[2]@));
        assert(any_occurs(lower, words@) <==> chars::occurs(lower, words@[0]@) || chars::occurs(
            lower,
            words@[1]@,
        ) || chars::occurs(lower, words@[2]@) || chars::occurs(lower, words@[3]@) || chars::occurs(
            lower,
            words@[4]@,
        ) || chars::occurs(lower, words@[5]@));
    }
    let anime: bool = contains_pattern(stem, vstd::array::array_as_slice(&episodes)) || (contains(
        stem,
        "[",
    ) && contains_pattern(stem, vstd::array::array_as_slice(&dashes)));
    if anime {
        return "Anime";
    }
    let tv: bool = contains_pattern(stem, vstd::array::array_as_slice(&crosses)) || contains_ci(
        stem,
        vstd::array::array_as_slice(&words),
    ) || has_episode(stem);
    if tv {
        return "TV";
    }
    if has_year(stem) {
        return "Movie";
    }
    "Generic"
}

/// The character that stands for `c` in a file name of the catalog.
pub open spec fn safe_char(c: char) -> char {
    if alphanumeric(c) || c == '-' || c == '.' || c == ' ' {
        c
    } else {
        '_'
    }
}

/// The name that stands for an upload in the catalog: at most 80 characters,
/// with anything but letters, digits, `-`, `.` and space replaced.
pub open spec fn safe_name_of(name: Seq<char>) -> Seq<char> {
    Seq::new(
        if name.len() < 80 {
            name.len()
        } else {
            80
        },
        |i: int| safe_char(name[i]),
    )
}

/// The file name under which an `.nzb` is archived: `<stamp>_<name>.nzb`.
pub fn archived_nzb_name(stamp: &str, name: &str) -> (file_name: String)
    ensures
        file_name@ == stamp@ + "_"@ + safe_name_of(name@) + ".nzb"@,
{
    let all: Vec<char> = text::chars_of(name);
    let n: usize = if all.len() < 80 {
        all.len()
    } else {
        80
    };
    let mut safe: Vec<char> = Vec::new();
    let mut i: usize = 0;
    while i < n
        invariant
            i <= n,
            n <= all@.len(),
            safe@.len() == i,
            forall|k: int| 0 <= k < i ==> #[trigger] safe@[k] == safe_char(all@[k]),
        decreases n - i,
    {
        let c: char = all[i];
        if c.is_alphanumeric() || c == '-' || c == '.' || c == ' ' {
            safe.push(c);
        } else {
            safe.push('_');
        }
        i = i + 1;
    }
    assert(safe@ =~= safe_name_of(name@));
    let mut file_name: String = String::from_str(stamp);
    file_name.append("_");
    text::push_chars(&mut file_name, safe.as_slice());
    file_name.append(".nzb");
    file_name
}

/// An archived file stays in its directory: its name holds no slash when the
/// stamp holds none.
pub proof fn law_archived_name_has_no_slash(stamp: Seq<char>, name: Seq<char>, i: int)
    requires
        !stamp.contains('/'),
        0 <= i < (stamp + "_"@ + safe_name_of(name) + ".nzb"@).len(),
    ensures
        (stamp + "_"@ + safe_name_of(name) + ".nzb"@)[i] != '/',
{
    reveal_strlit("_");
    reveal_strlit(".nzb");
    if i < stamp.len() {
        assert(stamp.contains(stamp[i]));
    }
}

/// The current time as `YYYY-MM-DDTHH:MM:SS+00:00`.
pub fn iso8601_now() -> (s: String)
    ensures
        exists|secs: u64| s@ == #[trigger] calendar::iso8601_text(secs as nat),
{
    calendar::iso8601(environment::now_secs())
}

/// The current time as `YYYYMMDDTHHMMSSz`.
pub fn stamp_now() -> (s: String)
    ensures
        exists|secs: u64| s@ == #[trigger] calendar::stamp_text(secs as nat),
{
    calendar::stamp(environment::now_secs())
}

/// The catalog line of an upload, without the line end. `nzb` is the path of
/// the archived `.nzb`, which stands in for the one written when there is one.
pub open spec fn record_text(rec: &UploadRecord<'_>, iso: Seq<char>, nzb: Option<&str>) -> Seq<
    char,
> {
    "{\"data_upload\":\""@ + iso + "\",\"nome_original\":"@ + json::json_quoted(rec.name@)
        + ",\"categoria\":\""@ + category_of(rec.name@) + "\",\"nome_ofuscado\":"@
        + json::json_value(rec.obfuscated_name) + ",\"senha_rar\":"@ + json::json_value(
        rec.password,
    ) + ",\"tamanho_bytes\":"@ + text::decimal(rec.total_bytes as nat)
        + ",\"tmdb_id\":null,\"grupo_usenet\":"@ + json::json_value(rec.group)
        + ",\"servidor_nntp\":"@ + json::json_value(rec.server) + ",\"redundancia_par2\":"@
        + json::json_value(rec.par2_redundancy) + ",\"duracao_upload_s\":"@ + text::decimal(
        rec.duration_millis as nat / 1000,
    ) + "."@ + text::zero_padded(rec.duration_millis as nat % 1000, 3)
        + ",\"num_arquivos_rar\":null,\"caminho_nzb\":"@ + json::json_value(
        if nzb is Some {
            nzb
        } else {
            rec.nzb_path
        },
    ) + ",\"subject\":"@ + json::json_value(rec.subject) + "}"@
}

/// The catalog line of an upload, without the line end.
pub fn record_line(rec: &UploadRecord<'_>, iso: &str, nzb: Option<&str>) -> (line: String)
    ensures
        line@ == record_text(rec, iso@, nzb),
{
    let mut line: String = String::from_str("{\"data_upload\":\"");
    line.append(iso);
    line.append("\",\"nome_original\":");
    line.append(json::json_string(rec.name).as_str());
    line.append(",\"categoria\":\"");
    line.append(detect_category(rec.name));
    line.append("\",\"nome_ofuscado\":");
    line.append(json::json_opt(rec.obfuscated_name).as_str());
    line.append(",\"senha_rar\":");
    line.append(json::json_opt(rec.password).as_str());
    line.append(",\"tamanho_bytes\":");
    text::push_decimal(&mut line, rec.total_bytes);
    line.append(",\"tmdb_id\":null,\"grupo_usenet\":");
    line.append(json::json_opt(rec.group).as_str());
    line.append(",\"servidor_nntp\":");
    line.append(json::json_opt(rec.server).as_str());
    line.append(",\"redundancia_par2\":");
    line.append(json::json_opt(rec.par2_redundancy).as_str());
    line.append(",\"duracao_upload_s\":");
    text::push_decimal(&mut line, rec.duration_millis / 1000);
    line.append(".");
    text::push_zero_padded(&mut line, rec.duration_millis % 1000, 3);
    line.append(",\"num_arquivos_rar\":null,\"caminho_nzb\":");
    let path: Option<&str> = match nzb {
        Some(p) => Some(p),
        None => rec.nzb_path,
    };
    line.append(json::json_opt(path).as_str());
    line.append(",\"subject\":");
    line.append(json::json_opt(rec.subject).as_str());
    line.append("}");
    line
}

/// The number of milliseconds that a member gives in seconds, with three decimals.
pub open spec fn millis_in(v: Seq<char>) -> nat {
    scan::digits_value(reading::head(v, '.')) * 1000 + scan::digits_value(reading::tail(v, '.'))
}

/// The members of a record.
spec fn record_fields(
    v0: Seq<char>,
    v1: Seq<char>,
    v2: Seq<char>,
    v3: Seq<char>,
    v4: Seq<char>,
    v5: Seq<char>,
    v7: Seq<char>,
    v8: Seq<char>,
    v9: Seq<char>,
    v10: Seq<char>,
    v12: Seq<char>,
    v13: Seq<char>,
) -> Seq<(Seq<char>, Seq<char>)> {
    seq![("data_upload"@, v0)].push(("nome_original"@, v1)).push(("categoria"@, v2))
        .push(("nome_ofuscado"@, v3)).push(("senha_rar"@, v4)).push(("tamanho_bytes"@, v5))
        .push(("tmdb_id"@, "null"@)).push(("grupo_usenet"@, v7)).push(("servidor_nntp"@, v8))
        .push(("redundancia_par2"@, v9)).push(("duracao_upload_s"@, v10)).push(("num_arquivos_rar"@,
        "null"@)).push(("caminho_nzb"@, v12)).push(("subject"@, v13))
}

#[verifier::rlimit(40)]
proof fn lemma_record_is_well_formed(
    v0: Seq<char>,
    v1: Seq<char>,
    v2: Seq<char>,
    v3: Seq<char>,
    v4: Seq<char>,
    v5: Seq<char>,
    v7: Seq<char>,
    v8: Seq<char>,
    v9: Seq<char>,
    v10: Seq<char>,
    v12: Seq<char>,
    v13: Seq<char>,
)
    requires
        json_reading::is_value(v0),
        json_reading::is_value(v1),
        json_reading::is_value(v2),
        json_reading::is_value(v3),
        json_reading::is_value(v4),
        json_reading::is_value(v5),
        json_reading::is_value(v7),
        json_reading::is_value(v8),
        json_reading::is_value(v9),
        json_reading::is_value(v10),
        json_reading::is_value(v12),
        json_reading::is_value(v13),
    ensures
        json_reading::well_formed(record_fields(v0, v1, v2, v3, v4, v5, v7, v8, v9, v10, v12, v13)),
{
    reveal_strlit("data_upload");
    reveal_strlit("nome_original");
    reveal_strlit("categoria");
    reveal_strlit("nome_ofuscado");
    reveal_strlit("senha_rar");
    reveal_strlit("tamanho_bytes");
    reveal_strlit("tmdb_id");
    reveal_strlit("grupo_usenet");
    reveal_strlit("servidor_nntp");
    reveal_strlit("redundancia_par2");
    reveal_strlit("duracao_upload_s");
    reveal_strlit("num_arquivos_rar");
    reveal_strlit("caminho_nzb");
    reveal_strlit("subject");
    assert("data_upload"@.len() == 11 && "data_upload"@[0] == 'd');
    assert("nome_original"@.len() == 13 && "nome_original"@[0] == 'n' && "nome_original"@[6]
        == 'r');
    assert("categoria"@.len() == 9 && "categoria"@[0] == 'c');
    assert("nome_ofuscado"@.len() == 13 && "nome_ofuscado"@[0] == 'n' && "nome_ofuscado"@[6]
        == 'f');
    assert("senha_rar"@.len() == 9 && "senha_rar"@[0] == 's');
    assert("tamanho_bytes"@.len() == 13 && "tamanho_bytes"@[0] == 't');
    assert("tmdb_id"@.len() == 7 && "tmdb_id"@[0] == 't');
    assert("grupo_usenet"@.len() == 12 && "grupo_usenet"@[0] == 'g');
    assert("servidor_nntp"@.len() == 13 && "servidor_nntp"@[0] == 's');
    assert("redundancia_par2"@.len() == 16 && "redundancia_par2"@[0] == 'r');
    assert("duracao_upload_s"@.len() == 16 && "duracao_upload_s"@[0] == 'd');
    assert("num_arquivos_rar"@.len() == 16 && "num_arquivos_rar"@[0] == 'n');
    assert("caminho_nzb"@.len() == 11 && "caminho_nzb"@[0] == 'c');
    assert("subject"@.len() == 7 && "subject"@[0] == 's');
    json_reading::lemma_null();
    let f1 = seq![("data_upload"@, v0)];
    assert(json_reading::well_formed(f1));
    json_reading::lemma_well_formed(f1, "nome_original"@, v1);
    let f2 = f1.push(("nome_original"@, v1));
    json_reading::lemma_well_formed(f2, "categoria"@, v2);
    let f3 = f2.push(("categoria"@, v2));
    json_reading::lemma_well_formed(f3, "nome_ofuscado"@, v3);
    let f4 = f3.push(("nome_ofuscado"@, v3));
    json_reading::lemma_well_formed(f4, "senha_rar"@, v4);
    let f5 = f4.push(("senha_rar"@, v4));
    json_reading::lemma_well_formed(f5, "tamanho_bytes"@, v5);
    let f6 = f5.push(("tamanho_bytes"@, v5));
    json_reading::lemma_well_formed(f6, "tmdb_id"@, "null"@);
    let f7 = f6.push(("tmdb_id"@, "null"@));
    json_reading::lemma_well_formed(f7, "grupo_usenet"@, v7);
    let f8 = f7.push(("grupo_usenet"@, v7));
    json_reading::lemma_well_formed(f8, "servidor_nntp"@, v8);
    let f9 = f8.push(("servidor_nntp"@, v8));
    json_reading::lemma_well_formed(f9, "redundancia_par2"@, v9);
    let f10 = f9.push(("redundancia_par2"@, v9));
    json_reading::lemma_well_formed(f10, "duracao_upload_s"@, v10);
    let f11 = f10.push(("duracao_upload_s"@, v10));
    json_reading::lemma_well_formed(f11, "num_arquivos_rar"@, "null"@);
    let f12 = f11.push(("num_arquivos_rar"@, "null"@));
    json_reading::lemma_well_formed(f12, "caminho_nzb"@, v12);
    let f13 = f12.push(("caminho_nzb"@, v12));
    json_reading::lemma_well_formed(f13, "subject"@, v13);
    let f14 = f13.push(("subject"@, v13));
}

#[verifier::rlimit(40)]
proof fn lemma_record_text(
    iso: Seq<char>,
    category: Seq<char>,
    whole: Seq<char>,
    part: Seq<char>,
    v1: Seq<char>,
    v3: Seq<char>,
    v4: Seq<char>,
    v5: Seq<char>,
    v7: Seq<char>,
    v8: Seq<char>,
    v9: Seq<char>,
    v12: Seq<char>,
    v13: Seq<char>,
)
    ensures
        "{\"data_upload\":\""@ + iso + "\",\"nome_original\":"@ + v1 + ",\"categoria\":\""@
            + category + "\",\"nome_ofuscado\":"@ + v3 + ",\"senha_rar\":"@ + v4
            + ",\"tamanho_bytes\":"@ + v5 + ",\"tmdb_id\":null,\"grupo_usenet\":"@ + v7
            + ",\"servidor_nntp\":"@ + v8 + ",\"redundancia_par2\":"@ + v9
            + ",\"duracao_upload_s\":"@ + whole + "."@ + part
            + ",\"num_arquivos_rar\":null,\"caminho_nzb\":"@ + v12 + ",\"subject\":"@ + v13 + "}"@
            == json_reading::opened(
            record_fields(
                seq!['"'] + iso + seq!['"'],
                v1,
                seq!['"'] + category + seq!['"'],
                v3,
                v4,
                v5,
                v7,
                v8,
                v9,
                whole + seq!['.'] + part,
                v12,
                v13,
            ),
        ) + seq!['}'],
{
    reveal_strlit("{\"data_upload\":\"");
    reveal_strlit("\",\"nome_original\":");
    reveal_strlit(",\"categoria\":\"");
    reveal_strlit("\",\"nome_ofuscado\":");
    reveal_strlit(",\"senha_rar\":");
    reveal_strlit(",\"tamanho_bytes\":");
    reveal_strlit(",\"tmdb_id\":null,\"grupo_usenet\":");
    reveal_strlit(",\"servidor_nntp\":");
    reveal_strlit(",\"redundancia_par2\":");
    reveal_strlit(",\"duracao_upload_s\":");
    reveal_strlit(".");
    reveal_strlit(",\"num_arquivos_rar\":null,\"caminho_nzb\":");
    reveal_strlit(",\"subject\":");
    reveal_strlit("}");
    reveal_strlit("null");
    reveal_strlit("data_upload");
    reveal_strlit("nome_original");
    reveal_strlit("categoria");
    reveal_strlit("nome_ofuscado");
    reveal_strlit("senha_rar");
    reveal_strlit("tamanho_bytes");
    reveal_strlit("tmdb_id");
    reveal_strlit("grupo_usenet");
    reveal_strlit("servidor_nntp");
    reveal_strlit("redundancia_par2");
    reveal_strlit("duracao_upload_s");
    reveal_strlit("num_arquivos_rar");
    reveal_strlit("caminho_nzb");
    reveal_strlit("subject");
    let q = seq!['"'];
    let v0 = q + iso + q;
    let v2 = q + category + q;
    let v10 = whole + seq!['.'] + part;
    let f1 = seq![("data_upload"@, v0)];
    json_reading::lemma_opened_first("data_upload"@, v0);
    let f2 = f1.push(("nome_original"@, v1));
    json_reading::lemma_opened(f1, "nome_original"@, v1);
    let f3 = f2.push(("categoria"@, v2));
    json_reading::lemma_opened(f2, "categoria"@, v2);
    let f4 = f3.push(("nome_ofuscado"@, v3));
    json_reading::lemma_opened(f3, "nome_ofuscado"@, v3);
    let f5 = f4.push(("senha_rar"@, v4));
    json_reading::lemma_opened(f4, "senha_rar"@, v4);
    let f6 = f5.push(("tamanho_bytes"@, v5));
    json_reading::lemma_opened(f5, "tamanho_bytes"@, v5);
    let f7 = f6.push(("tmdb_id"@, "null"@));
    json_reading::lemma_opened(f6, "tmdb_id"@, "null"@);
    let f8 = f7.push(("grupo_usenet"@, v7));
    json_reading::lemma_opened(f7, "grupo_usenet"@, v7);
    let f9 = f8.push(("servidor_nntp"@, v8));
    json_reading::lemma_opened(f8, "servidor_nntp"@, v8);
    let f10 = f9.push(("redundancia_par2"@, v9));
    json_reading::lemma_opened(f9, "redundancia_par2"@, v9);
    let f11 = f10.push(("duracao_upload_s"@, v10));
    json_reading::lemma_opened(f10, "duracao_upload_s"@, v10);
    let f12 = f11.push(("num_arquivos_rar"@, "null"@));
    json_reading::lemma_opened(f11, "num_arquivos_rar"@, "null"@);
    let f13 = f12.push(("caminho_nzb"@, v12));
    json_reading::lemma_opened(f12, "caminho_nzb"@, v12);
    let f14 = f13.push(("subject"@, v13));
    json_reading::lemma_opened(f13, "subject"@, v13);
    assert("{\"data_upload\":\""@ =~= seq!['{', '"'] + "data_upload"@ + seq!['"', ':'] + q);
    assert("\",\"nome_original\":"@ =~= q + json_reading::label("nome_original"@));
    assert(",\"categoria\":\""@ =~= json_reading::label("categoria"@) + q);
    assert("\",\"nome_ofuscado\":"@ =~= q + json_reading::label("nome_ofuscado"@));
    assert(",\"senha_rar\":"@ =~= json_reading::label("senha_rar"@));
    assert(",\"tamanho_bytes\":"@ =~= json_reading::label("tamanho_bytes"@));
    assert(",\"tmdb_id\":null,\"grupo_usenet\":"@ =~= json_reading::label("tmdb_id"@) + "null"@
        + json_reading::label("grupo_usenet"@));
    assert(",\"servidor_nntp\":"@ =~= json_reading::label("servidor_nntp"@));
    assert(",\"redundancia_par2\":"@ =~= json_reading::label("redundancia_par2"@));
    assert(",\"duracao_upload_s\":"@ =~= json_reading::label("duracao_upload_s"@));
    assert("."@ =~= seq!['.']);
    assert(",\"num_arquivos_rar\":null,\"caminho_nzb\":"@
        =~= json_reading::label("num_arquivos_rar"@) + "null"@
        + json_reading::label("caminho_nzb"@));
    assert(",\"subject\":"@ =~= json_reading::label("subject"@));
    assert("}"@ =~= seq!['}']);
    json_reading::lemma_joins(seq!['{', '"'] + "data_upload"@ + seq!['"', ':'], iso,
        json_reading::label("nome_original"@));
    json_reading::lemma_joins(json_reading::opened(f2) + json_reading::label("categoria"@),
        category, json_reading::label("nome_ofuscado"@));
    json_reading::lemma_thrice(json_reading::opened(f2), json_reading::label("categoria"@), q);
    lemma_inserted(json_reading::opened(f6), json_reading::label("tmdb_id"@), "null"@,
        json_reading::label("grupo_usenet"@));
    json_reading::lemma_thrice(json_reading::opened(f10) + json_reading::label("duracao_upload_s"@),
        whole, seq!['.'] + part);
    lemma_decimals(json_reading::opened(f10) + json_reading::label("duracao_upload_s"@), whole,
        part);
    lemma_inserted(json_reading::opened(f11), json_reading::label("num_arquivos_rar"@), "null"@,
        json_reading::label("caminho_nzb"@));
}

proof fn lemma_inserted(a: Seq<char>, b: Seq<char>, c: Seq<char>, d: Seq<char>)
    ensures
        a + (b + c + d) == a + b + c + d,
{
    assert(a + (b + c + d) =~= a + b + c + d);
}

proof fn lemma_decimals(a: Seq<char>, whole: Seq<char>, part: Seq<char>)
    ensures
        a + whole + seq!['.'] + part == a + (whole + seq!['.'] + part),
{
    assert(a + whole + seq!['.'] + part =~= a + (whole + seq!['.'] + part));
}

proof fn lemma_category_is_plain(name: Seq<char>, i: int)
    requires
        0 <= i < category_of(name).len(),
    ensures
        category_of(name)[i] != '"',
        category_of(name)[i] != '\\',
        category_of(name)[i] >= ' ',
{
    reveal_strlit("Anime");
    reveal_strlit("TV");
    reveal_strlit("Movie");
    reveal_strlit("Generic");
}

/// A reader of the catalog finds in a record the time it was given, and all of the
/// upload: its name and category, the obfuscated name, the password, the size, group,
/// server, redundancy and subject, the duration to the millisecond, and the path of
/// the archived `.nzb`, or else of the one written.
#[verifier::rlimit(40)]
pub proof fn law_records_read_back(rec: &UploadRecord<'_>, iso: Seq<char>, nzb: Option<&str>)
    requires
        forall|i: int|
            0 <= i < iso.len() ==> #[trigger] iso[i] != '"' && iso[i] != '\\' && iso[i] >= ' ',
    ensures
        ({
            let line = record_text(rec, iso, nzb);
            &&& json_reading::text_member(line, "data_upload"@) == Some(iso)
            &&& json_reading::text_member(line, "nome_original"@) == Some(rec.name@)
            &&& json_reading::text_member(line, "categoria"@) == Some(category_of(rec.name@))
            &&& json_reading::tells(line, "nome_ofuscado"@, rec.obfuscated_name)
            &&& json_reading::tells(line, "senha_rar"@, rec.password)
            &&& json_reading::number_member(line, "tamanho_bytes"@) == Some(
                rec.total_bytes as nat,
            )
            &&& json_reading::tells(line, "grupo_usenet"@, rec.group)
            &&& json_reading::tells(line, "servidor_nntp"@, rec.server)
            &&& json_reading::tells(line, "redundancia_par2"@, rec.par2_redundancy)
            &&& match json_reading::raw(line, "duracao_upload_s"@) {
                Some(v) => millis_in(v) == rec.duration_millis && reading::tail(v, '.').len() == 3,
                None => false,
            }
            &&& nzb is Some ==> json_reading::tells(line, "caminho_nzb"@, nzb)
            &&& nzb is None ==> json_reading::tells(line, "caminho_nzb"@, rec.nzb_path)
            &&& json_reading::tells(line, "subject"@, rec.subject)
        }),
{
    let category = category_of(rec.name@);
    let path = if nzb is Some {
        nzb
    } else {
        rec.nzb_path
    };
    let whole = text::decimal(rec.duration_millis as nat / 1000);
    let part = text::zero_padded(rec.duration_millis as nat % 1000, 3);
    let v0 = seq!['"'] + iso + seq!['"'];
    let v1 = json::json_quoted(rec.name@);
    let v2 = seq!['"'] + category + seq!['"'];
    let v3 = json::json_value(rec.obfuscated_name);
    let v4 = json::json_value(rec.password);
    let v5 = text::decimal(rec.total_bytes as nat);
    let v7 = json::json_value(rec.group);
    let v8 = json::json_value(rec.server);
    let v9 = json::json_value(rec.par2_redundancy);
    let v10 = whole + seq!['.'] + part;
    let v12 = json::json_value(path);
    let v13 = json::json_value(rec.subject);
    json_reading::lemma_plain_quoted(iso);
    assert forall|i: int| 0 <= i < category.len() implies #[trigger] category[i] != '"'
        && category[i] != '\\' && category[i] >= ' ' by {
        lemma_category_is_plain(rec.name@, i);
    }
    json_reading::lemma_plain_quoted(category);
    json_reading::lemma_literal(iso);
    json_reading::lemma_literal(rec.name@);
    json_reading::lemma_literal(category);
    json_reading::lemma_optional(rec.obfuscated_name);
    json_reading::lemma_optional(rec.password);
    json_reading::lemma_number(rec.total_bytes as nat);
    json_reading::lemma_optional(rec.group);
    json_reading::lemma_optional(rec.server);
    json_reading::lemma_optional(rec.par2_redundancy);
    json_reading::lemma_optional(path);
    json_reading::lemma_optional(rec.subject);
    lemma_seconds(rec.duration_millis as nat);
    lemma_record_is_well_formed(v0, v1, v2, v3, v4, v5, v7, v8, v9, v10, v12, v13);
    lemma_record_text(iso, category, whole, part, v1, v3, v4, v5, v7, v8, v9, v12, v13);
    let fields = record_fields(v0, v1, v2, v3, v4, v5, v7, v8, v9, v10, v12, v13);
    let line = record_text(rec, iso, nzb);
    assert(line == json_reading::opened(fields) + seq!['}']);
    json_reading::lemma_object(fields, 0);
    json_reading::lemma_object(fields, 1);
    json_reading::lemma_object(fields, 2);
    json_reading::lemma_object(fields, 3);
    json_reading::lemma_object(fields, 4);
    json_reading::lemma_object(fields, 5);
    json_reading::lemma_object(fields, 7);
    json_reading::lemma_object(fields, 8);
    json_reading::lemma_object(fields, 9);
    json_reading::lemma_object(fields, 10);
    json_reading::lemma_object(fields, 12);
    json_reading::lemma_object(fields, 13);
}

proof fn lemma_seconds(millis: nat)
    ensures
        ({
            let v = text::decimal(millis / 1000) + seq!['.'] + text::zero_padded(millis % 1000, 3);
            &&& json_reading::is_value(v)
            &&& millis_in(v) == millis
            &&& reading::tail(v, '.').len() == 3
        }),
{
    let whole = text::decimal(millis / 1000);
    let part = text::zero_padded(millis % 1000, 3);
    let v = whole + seq!['.'] + part;
    reading::law_decimals_read_back(millis / 1000);
    reading::law_padded_decimals_read_back(millis % 1000, 3);
    reading::lemma_three_digits(millis % 1000);
    assert forall|i: int| 0 <= i < whole.len() implies #[trigger] whole[i] != '.' by {
        assert(chars::is_digit(whole[i]));
    }
    reading::lemma_parts(whole, '.', part);
    assert forall|i: int| 0 <= i < v.len() implies #[trigger] v[i] != ',' && v[i] != '}' && v[i]
        != '"' by {
        if i < whole.len() {
            assert(v[i] == whole[i]);
            assert(chars::is_digit(whole[i]));
        } else if i > whole.len() {
            assert(v[i] == part[i - whole.len() - 1]);
            assert(chars::is_digit(part[i - whole.len() - 1]));
        }
    }
}

} // verus!
