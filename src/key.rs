use chrono::Datelike;
use std::hash::{Hash, Hasher};
use vstd::prelude::*;
use vstd::string::*;

use crate::error::ReadError;

verus! {

/// A calendar date, as the date part of a timestamp in its own offset.
#[derive(Debug, Clone, Copy, PartialEq, Eq, Structural)]
pub struct CalendarDate {
    pub year: i32,
    pub month: u32,
    pub day: u32,
}

pub open spec fn is_digit(c: char) -> bool {
    '0' <= c && c <= '9'
}

pub open spec fn digit_value(c: char) -> int {
    (c as u32) as int - 48
}

/// The character of the last decimal digit of `n >= 0`.
pub open spec fn digit_char(n: int) -> char {
    ((n % 10) + 48) as u32 as char
}

/// Whether `s` begins with a date written `YYYY-MM-DD` in decimal digits.
pub open spec fn starts_with_written_date(s: Seq<char>) -> bool {
    &&& s.len() >= 10
    &&& is_digit(s[0]) && is_digit(s[1]) && is_digit(s[2]) && is_digit(s[3])
    &&& s[4] == '-'
    &&& is_digit(s[5]) && is_digit(s[6])
    &&& s[7] == '-'
    &&& is_digit(s[8]) && is_digit(s[9])
}

/// The date written in the first ten characters of `s`.
pub open spec fn written_date(s: Seq<char>) -> CalendarDate {
    CalendarDate {
        year: (1000 * digit_value(s[0]) + 100 * digit_value(s[1]) + 10 * digit_value(s[2])
            + digit_value(s[3])) as i32,
        month: (10 * digit_value(s[5]) + digit_value(s[6])) as u32,
        day: (10 * digit_value(s[8]) + digit_value(s[9])) as u32,
    }
}

/// A date as `YYYY-MM-DD`, each part zero-padded (years 0 to 9999).
pub open spec fn date_text(d: CalendarDate) -> Seq<char> {
    let y = d.year as int;
    let m = d.month as int;
    let dd = d.day as int;
    seq![
        digit_char(y / 1000),
        digit_char(y / 100),
        digit_char(y / 10),
        digit_char(y),
        '-',
        digit_char(m / 10),
        digit_char(m),
        '-',
        digit_char(dd / 10),
        digit_char(dd),
    ]
}

/// The canonical shard name `{service}_{env}_{YYYY-MM-DD}`.
pub open spec fn key_name(service: Seq<char>, env: Seq<char>, date: CalendarDate) -> Seq<char> {
    service + seq!['_'] + env + seq!['_'] + date_text(date)
}

/// Whether chrono reads `s` as an RFC 3339 timestamp.
pub uninterp spec fn rfc3339_accepts(s: Seq<char>) -> bool;

/// The string found in the JSON text `text` by following the object keys of
/// `path`, outermost first; `None` where the text is not JSON or no string
/// is there.
pub uninterp spec fn json_str_at(text: Seq<char>, path: Seq<Seq<char>>) -> Option<Seq<char>>;

/// The 64-bit XXH3 hash (default seed) of a text, fed as `Hash for str` feeds it.
pub uninterp spec fn xxh3_text_hash(s: Seq<char>) -> u64;

/// Where a record keeps its service.
pub open spec fn service_path() -> Seq<Seq<char>> {
    seq!["@meta"@, "service"@]
}

/// Where a record keeps its environment.
pub open spec fn env_path() -> Seq<Seq<char>> {
    seq!["@meta"@, "env"@]
}

/// Where a record keeps its timestamp.
pub open spec fn timestamp_path() -> Seq<Seq<char>> {
    seq!["@timestamp"@]
}

/// The shard key of a log line: where its service, environment and
/// timestamp are strings and the timestamp is RFC 3339,
/// `{service}_{env}_{date}`; otherwise `None`.
pub open spec fn line_key(line: Seq<char>) -> Option<Seq<char>> {
    match (
        json_str_at(line, service_path()),
        json_str_at(line, env_path()),
        json_str_at(line, timestamp_path()),
    ) {
        (Some(service), Some(env), Some(ts)) => if rfc3339_accepts(ts) {
            Some(key_name(service, env, written_date(ts)))
        } else {
            None
        },
        _ => None,
    }
}

pub open spec fn path_view(path: Seq<&str>) -> Seq<Seq<char>> {
    path.map_values(|k: &str| k@)
}

pub open spec fn opt_text(o: Option<String>) -> Option<Seq<char>> {
    match o {
        Some(s) => Some(s@),
        None => None,
    }
}

/// Relies on chrono's `DateTime::parse_from_rfc3339` and `date_naive`: the
/// parser takes the date from the first ten characters, written `YYYY-MM-DD`
/// in digits and checked to exist, and `date_naive` gives that date in the
/// timestamp's own offset.
#[verifier::external_body]
fn timestamp_date(s: &str) -> (r: Option<CalendarDate>)
    ensures
        r.is_some() == rfc3339_accepts(s@),
        r matches Some(d) ==> {
            &&& starts_with_written_date(s@)
            &&& d == written_date(s@)
            &&& 1 <= d.month <= 12
            &&& 1 <= d.day <= 31
        },
{
    let date = chrono::DateTime::parse_from_rfc3339(s).ok()?.date_naive();
    Some(CalendarDate { year: date.year(), month: date.month(), day: date.day() })
}

/// Relies on `json::parse`, on `JsonValue`'s indexing by key (null where the
/// value is no object or lacks the key) and on `JsonValue::as_str` (`Some`
/// for a string only): the result depends on the text and the path alone.
#[verifier::external_body]
fn json_str(text: &str, path: &Vec<&str>) -> (r: Option<String>)
    ensures
        opt_text(r) == json_str_at(text@, path_view(path@)),
{
    let doc = json::parse(text).ok()?;
    let mut v = &doc;
    for k in path {
        v = &v[*k];
    }
    v.as_str().map(String::from)
}

/// The string of `line` at the path `outer`, then `inner` where given.
fn field(line: &str, outer: &'static str, inner: Option<&'static str>) -> (r: Option<String>)
    ensures
        opt_text(r) == json_str_at(
            line@,
            match inner {
                Some(i) => seq![outer@, i@],
                None => seq![outer@],
            },
        ),
{
    let mut path: Vec<&str> = Vec::new();
    path.push(outer);
    match inner {
        Some(i) => path.push(i),
        None => {},
    }
    assert(path_view(path@) =~= match inner {
        Some(i) => seq![outer@, i@],
        None => seq![outer@],
    });
    json_str(line, &path)
}

/// Relies on xxhash_rust's `Xxh3Builder` (default seed) fed through
/// `Hash for str`: the hash depends on the text alone.
#[verifier::external_body]
fn text_hash(s: &str) -> (r: u64)
    ensures
        r == xxh3_text_hash(s@),
{
    let mut hasher = xxhash_rust::xxh3::Xxh3Builder::new().build();
    s.hash(&mut hasher);
    hasher.finish()
}

proof fn lemma_digit_char(c: char)
    requires
        is_digit(c),
    ensures
        0 <= digit_value(c) <= 9,
        digit_char(digit_value(c)) == c,
{
    let u = c as u32;
    assert((digit_value(c) % 10) + 48 == u as int);
    assert((u as char) == c);
}

proof fn lemma_digits(a: int, b: int, c: int, d: int)
    requires
        0 <= a <= 9,
        0 <= b <= 9,
        0 <= c <= 9,
        0 <= d <= 9,
    ensures
        (1000 * a + 100 * b + 10 * c + d) / 1000 % 10 == a,
        (1000 * a + 100 * b + 10 * c + d) / 100 % 10 == b,
        (1000 * a + 100 * b + 10 * c + d) / 10 % 10 == c,
        (1000 * a + 100 * b + 10 * c + d) % 10 == d,
        (10 * c + d) / 10 % 10 == c,
        (10 * c + d) % 10 == d,
{
    assert((1000 * a + 100 * b + 10 * c + d) / 1000 == a) by (nonlinear_arith)
        requires 0 <= a <= 9, 0 <= b <= 9, 0 <= c <= 9, 0 <= d <= 9;
    assert((1000 * a + 100 * b + 10 * c + d) / 100 == 10 * a + b) by (nonlinear_arith)
        requires 0 <= a <= 9, 0 <= b <= 9, 0 <= c <= 9, 0 <= d <= 9;
    assert((1000 * a + 100 * b + 10 * c + d) / 10 == 100 * a + 10 * b + c) by (nonlinear_arith)
        requires 0 <= a <= 9, 0 <= b <= 9, 0 <= c <= 9, 0 <= d <= 9;
    assert((10 * a + b) % 10 == b) by (nonlinear_arith)
        requires 0 <= a <= 9, 0 <= b <= 9;
    assert((100 * a + 10 * b + c) % 10 == c) by (nonlinear_arith)
        requires 0 <= a <= 9, 0 <= b <= 9, 0 <= c <= 9;
    assert((1000 * a + 100 * b + 10 * c + d) % 10 == d) by (nonlinear_arith)
        requires 0 <= a <= 9, 0 <= b <= 9, 0 <= c <= 9, 0 <= d <= 9;
    assert((10 * c + d) / 10 == c) by (nonlinear_arith)
        requires 0 <= c <= 9, 0 <= d <= 9;
    assert((10 * c + d) % 10 == d) by (nonlinear_arith)
        requires 0 <= c <= 9, 0 <= d <= 9;
}

/// A date written `YYYY-MM-DD` in digits is the text of the date it denotes.
pub proof fn lemma_written_date_text(s: Seq<char>)
    requires
        starts_with_written_date(s),
    ensures
        date_text(written_date(s)) == s.subrange(0, 10),
{
    let d = written_date(s);
    lemma_digit_char(s[0]);
    lemma_digit_char(s[1]);
    lemma_digit_char(s[2]);
    lemma_digit_char(s[3]);
    lemma_digit_char(s[5]);
    lemma_digit_char(s[6]);
    lemma_digit_char(s[8]);
    lemma_digit_char(s[9]);
    lemma_digits(digit_value(s[0]), digit_value(s[1]), digit_value(s[2]), digit_value(s[3]));
    lemma_digits(0, 0, digit_value(s[5]), digit_value(s[6]));
    lemma_digits(0, 0, digit_value(s[8]), digit_value(s[9]));
    assert(date_text(d) =~= s.subrange(0, 10));
}

/// The names of the three fields that key a record.
pub struct MsgKeyRaw<'a> {
    pub info_meta_service: &'a str,
    pub info_meta_env: &'a str,
    /// The record's timestamp, whose date names the shard.
    pub info_timestamp: &'a str,
}

/// The key of a shard: its canonical name `{service}_{env}_{YYYY-MM-DD}`,
/// with the name's hash kept beside it for routing and lookup.
#[derive(Debug, Hash)]
pub struct MsgKey {
    hash: u64,
    name: String,
}

impl View for MsgKey {
    type V = Seq<char>;

    closed spec fn view(&self) -> Seq<char> {
        self.name@
    }
}

impl MsgKey {
    #[verifier::type_invariant]
    spec fn hash_matches(self) -> bool {
        self.hash == xxh3_text_hash(self.name@)
    }

    /// The key of a record with these fields; `None` where the timestamp is
    /// not RFC 3339.
    pub fn from_raw(r: &MsgKeyRaw) -> (k: Option<MsgKey>)
        ensures
            k.is_some() == rfc3339_accepts(r.info_timestamp@),
            k matches Some(k) ==> starts_with_written_date(r.info_timestamp@) && k@ == key_name(
                r.info_meta_service@,
                r.info_meta_env@,
                written_date(r.info_timestamp@),
            ),
    {
        match timestamp_date(r.info_timestamp) {
            None => None,
            Some(_) => {
                let date = r.info_timestamp.substring_char(0, 10);
                proof {
                    lemma_written_date_text(r.info_timestamp@);
                    reveal_strlit("_");
                }
                let mut name = String::from_str(r.info_meta_service);
                name.append("_");
                name.append(r.info_meta_env);
                name.append("_");
                name.append(date);
                let hash = text_hash(name.as_str());
                assert(name@ =~= key_name(
                    r.info_meta_service@,
                    r.info_meta_env@,
                    written_date(r.info_timestamp@),
                ));
                Some(MsgKey { hash, name })
            },
        }
    }

    /// The canonical name of the shard.
    pub fn name(&self) -> (r: &str)
        ensures
            r@ == self@,
    {
        self.name.as_str()
    }

    /// The hash of the name.
    pub fn hash_value(&self) -> (r: u64)
        ensures
            r == xxh3_text_hash(self@),
    {
        proof {
            use_type_invariant(self);
        }
        self.hash
    }

    /// The path of the shard's file under the directory `root`.
    pub fn path_to(&self, root: &str) -> (p: String)
        ensures
            p@ == shard_path(root@, self@),
    {
        proof {
            reveal_strlit("/");
            reveal_strlit(".json.gz");
        }
        let mut p = String::from_str(root);
        let n = root.unicode_len();
        if n > 0 && root.get_char(n - 1) != '/' {
            p.append("/");
        }
        p.append(self.name.as_str());
        p.append(".json.gz");
        p
    }
}

/// The file of the shard `name` in the directory `root`:
/// `{root}/{name}.json.gz`, with no second separator where `root` ends in one.
pub open spec fn shard_path(root: Seq<char>, name: Seq<char>) -> Seq<char> {
    let dir = if root.len() == 0 || root.last() == '/' {
        root
    } else {
        root + seq!['/']
    };
    dir + name + ".json.gz"@
}

impl Clone for MsgKey {
    fn clone(&self) -> (r: MsgKey)
        ensures
            r@ == self@,
    {
        proof {
            use_type_invariant(self);
        }
        MsgKey { hash: self.hash, name: self.name.clone() }
    }
}

impl PartialEq for MsgKey {
    fn eq(&self, other: &MsgKey) -> (r: bool) {
        self.name == other.name
    }
}

impl vstd::std_specs::cmp::PartialEqSpecImpl for MsgKey {
    open spec fn obeys_eq_spec() -> bool {
        true
    }

    open spec fn eq_spec(&self, other: &MsgKey) -> bool {
        self@ == other@
    }
}

impl Eq for MsgKey {
}

/// A keyed log line: its original text with one trailing newline, and the
/// key of the shard it belongs to.
#[derive(Debug)]
pub struct LineData {
    orig: String,
    key: MsgKey,
}

impl Clone for LineData {
    fn clone(&self) -> (r: LineData)
        ensures
            r.text() == self.text(),
            r.spec_key()@ == self.spec_key()@,
    {
        LineData { orig: self.orig.clone(), key: self.key.clone() }
    }
}

impl LineData {
    /// The text the line's shard receives.
    pub closed spec fn text(&self) -> Seq<char> {
        self.orig@
    }

    /// The line's shard key.
    pub closed spec fn spec_key(&self) -> MsgKey {
        self.key
    }

    pub fn key(&self) -> (r: &MsgKey)
        ensures
            *r == self.spec_key(),
    {
        &self.key
    }

    pub fn original_line_text(&self) -> (r: &str)
        ensures
            r@ == self.text(),
    {
        self.orig.as_str()
    }

    /// Reads a line (without its newline) as a keyed record; the record's
    /// text gets one trailing newline.
    pub fn parse(line: &str) -> (r: Result<LineData, ReadError>)
        ensures
            match r {
                Ok(d) => line_key(line@) == Some(d.spec_key()@) && d.text() == line@ + seq!['\n'],
                Err(e) => line_key(line@).is_none() && (e matches ReadError::InvalidLine(s) && s@
                    == line@),
            },
    {
        let invalid = ReadError::InvalidLine(String::from_str(line));
        let service = field(line, "@meta", Some("service"));
        let env = field(line, "@meta", Some("env"));
        let timestamp = field(line, "@timestamp", None);
        let (service, env, timestamp) = match (service, env, timestamp) {
            (Some(s), Some(e), Some(t)) => (s, e, t),
            _ => return Err(invalid),
        };
        let raw = MsgKeyRaw {
            info_meta_service: service.as_str(),
            info_meta_env: env.as_str(),
            info_timestamp: timestamp.as_str(),
        };
        match MsgKey::from_raw(&raw) {
            None => Err(invalid),
            Some(key) => {
                proof {
                    reveal_strlit("\n");
                }
                let mut orig = String::from_str(line);
                orig.append("\n");
                assert(orig@ =~= line@ + seq!['\n']);
                Ok(LineData { orig, key })
            },
        }
    }
}

/// Lines that agree in service, environment and the date of their
/// timestamps, whatever else they hold, get the same shard key.
pub proof fn lemma_key_depends_on_date(a: Seq<char>, b: Seq<char>)
    requires
        json_str_at(a, service_path()) == json_str_at(b, service_path()),
        json_str_at(a, env_path()) == json_str_at(b, env_path()),
        json_str_at(a, timestamp_path()) matches Some(ta),
        json_str_at(b, timestamp_path()) matches Some(tb),
        rfc3339_accepts(json_str_at(a, timestamp_path()).unwrap()),
        rfc3339_accepts(json_str_at(b, timestamp_path()).unwrap()),
        written_date(json_str_at(a, timestamp_path()).unwrap()) == written_date(
            json_str_at(b, timestamp_path()).unwrap(),
        ),
    ensures
        line_key(a) == line_key(b),
{
}

} // verus!
