//! The capabilities a run is given (network, clock, subprocesses, a fault
//! hook), and the configuration file with the settings the run reads.

use vstd::prelude::*;

verus! {

/// Network interface.
pub trait Network {
    /// Opens an URL. Empty data means HTTP GET, otherwise it means a HTTP POST.
    fn urlopen(&self, url: &str, data: &str) -> Result<String, String>;
}

/// Time interface.
pub trait Time {
    /// The current Unix timestamp.
    fn now(&self) -> i64;

    /// Delays execution for a given number of seconds.
    fn sleep(&self, seconds: u64);
}

/// Subprocess interface.
pub trait Subprocess {
    /// Runs a command, capturing its output.
    fn run(&self, args: Vec<String>) -> Result<String, String>;

    /// Terminates the current process with the specified exit code.
    fn exit(&self, code: i32);
}

/// Fault-injection hook, consulted once at the end of a run; the
/// production implementation reports nothing.
pub trait Unit {
    /// Reports an injected error, if any.
    fn make_error(&self) -> Result<(), String>;
}

#[verifier::external_type_specification]
#[verifier::external_body]
pub struct ExConfigIni(configparser::ini::Ini);

/// What a parsed configuration answers: for a section and a key as a
/// caller names them, the value that `Ini::get` returns.
pub uninterp spec fn ini_entries(c: configparser::ini::Ini) -> Map<(Seq<char>, Seq<char>), Seq<char>>;

/// Whether configparser accepts a configuration text.
pub uninterp spec fn ini_parses(text: Seq<char>) -> bool;

/// Relies on `configparser::ini::Ini::new` and `Ini::read`: a fresh
/// configuration, with configparser's default options, filled from the
/// text. Whether the text parses then depends on the text alone.
#[verifier::external_body]
fn ini_parse(text: String) -> (r: Result<configparser::ini::Ini, String>)
    ensures
        r is Ok <==> ini_parses(text@),
{
    let mut config = configparser::ini::Ini::new();
    match config.read(text) {
        Ok(_) => Ok(config),
        Err(e) => Err(e),
    }
}

/// Relies on `configparser::ini::Ini::get`.
#[verifier::external_body]
fn ini_get(c: &configparser::ini::Ini, section: &str, key: &str) -> (r: Option<String>)
    ensures
        match r {
            Some(v) => ini_entries(*c).contains_key((section@, key@)) && v@ == ini_entries(
                *c,
            )[(section@, key@)],
            None => !ini_entries(*c).contains_key((section@, key@)),
        },
{
    c.get(section, key)
}

/// Relies on `str::chars`: the characters of a text, in order.
#[verifier::external_body]
fn chars_of(s: &str) -> (r: Vec<char>)
    ensures
        r@ == s@,
{
    s.chars().collect()
}

/// Relies on `String`'s `FromIterator<&char>`: the text of these characters.
#[verifier::external_body]
fn string_of(v: &Vec<char>) -> (r: String)
    ensures
        r@ == v@,
{
    v.iter().collect()
}

/// Why the configuration cannot be used; fatal to a run.
#[derive(Debug, PartialEq, Eq)]
pub enum ConfigError {
    /// The configuration file does not parse.
    Unreadable(String),
    /// A required key of the `wsgi` section is missing.
    MissingKey(String),
    /// A numeric setting is not a number.
    NotANumber(String),
}

/// Configuration file reader.
pub struct IniFile {
    pub config: configparser::ini::Ini,
    /// The directory the configuration's relative paths start from.
    pub root: String,
}

/// The value of a key of the `wsgi` section.
pub open spec fn wsgi_value(ini: &IniFile, key: Seq<char>) -> Option<Seq<char>> {
    if ini_entries(ini.config).contains_key(("wsgi"@, key)) {
        Some(ini_entries(ini.config)[("wsgi"@, key)])
    } else {
        None
    }
}

/// `root/rel`.
pub open spec fn under_root(root: Seq<char>, rel: Seq<char>) -> Seq<char> {
    root + seq!['/'] + rel
}

/// The pieces of a text between spaces.
pub open spec fn space_separated(s: Seq<char>) -> Seq<Seq<char>> {
    crate::text::split_on(s, ' ')
}

/// The optionally signed decimal number of a text.
pub open spec fn signed_value(s: Seq<char>) -> Option<int> {
    if s.len() > 0 && s[0] == '-' && crate::stats::all_digits(s.drop_first()) {
        Some(-(crate::stats::digits_value(s.drop_first()) as int))
    } else if s.len() > 0 && s[0] == '+' && crate::stats::all_digits(s.drop_first()) {
        Some(crate::stats::digits_value(s.drop_first()) as int)
    } else if crate::stats::all_digits(s) {
        Some(crate::stats::digits_value(s) as int)
    } else {
        None
    }
}

fn append_str(s: &mut String, tail: &str)
    ensures
        final(s)@ == old(s)@ + tail@,
{
    s.append(tail);
}

impl IniFile {
    /// Parses the configuration text; `root` is the directory its relative
    /// paths start from.
    pub fn new(config_text: String, root: &str) -> (r: Result<IniFile, ConfigError>)
        ensures
            r is Ok <==> ini_parses(config_text@),
            r matches Ok(ini) ==> ini.root@ == root@,
            r matches Err(e) ==> e is Unreadable,
    {
        match ini_parse(config_text) {
            Ok(config) => Ok(IniFile { config, root: root.to_owned() }),
            Err(e) => Err(ConfigError::Unreadable(e)),
        }
    }

    fn root_path(&self, rel: &str) -> (r: String)
        ensures
            r@ == under_root(self.root@, rel@),
    {
        let mut path = self.root.clone();
        proof {
            reveal_strlit("/");
        }
        append_str(&mut path, "/");
        append_str(&mut path, rel);
        assert(path@ =~= under_root(self.root@, rel@));
        path
    }

    fn wsgi(&self, key: &str) -> (r: Option<String>)
        ensures
            match r {
                Some(v) => wsgi_value(self, key@) == Some(v@),
                None => wsgi_value(self, key@) is None,
            },
    {
        ini_get(&self.config, "wsgi", key)
    }

    fn required_path(&self, key: &str) -> (r: Result<String, ConfigError>)
        ensures
            match r {
                Ok(p) => wsgi_value(self, key@) matches Some(v) && p@ == under_root(self.root@, v),
                Err(e) => wsgi_value(self, key@) is None && (e matches ConfigError::MissingKey(k)
                    && k@ == key@),
            },
    {
        match self.wsgi(key) {
            Some(rel) => Ok(self.root_path(rel.as_str())),
            None => Err(ConfigError::MissingKey(key.to_owned())),
        }
    }

    /// Gets the directory which is writable.
    pub fn get_workdir(&self) -> (r: String)
        ensures
            r@ == under_root(self.root@, "workdir"@),
    {
        self.root_path("workdir")
    }

    /// Gets the abs paths of ref housenumbers.
    pub fn get_reference_housenumber_paths(&self) -> (r: Result<Vec<String>, ConfigError>)
        ensures
            match r {
                Ok(paths) => wsgi_value(self, "reference_housenumbers"@) matches Some(v) && paths@.len()
                    == space_separated(v).len() && forall|i: int|
                    0 <= i < paths@.len() ==> (#[trigger] paths@[i])@ == under_root(
                        self.root@,
                        space_separated(v)[i],
                    ),
                Err(_) => wsgi_value(self, "reference_housenumbers"@) is None,
            },
    {
        let value = match self.wsgi("reference_housenumbers") {
            Some(v) => v,
            None => {
                return Err(ConfigError::MissingKey("reference_housenumbers".to_owned()));
            },
        };
        let chars = chars_of(value.as_str());
        let pieces = crate::text::split_text(chars.as_slice(), ' ');
        let mut paths: Vec<String> = Vec::new();
        let mut i: usize = 0;
        while i < pieces.len()
            invariant
                i <= pieces@.len(),
                wsgi_value(self, "reference_housenumbers"@) == Some(value@),
                crate::text::texts_of(pieces@) == space_separated(value@),
                paths@.len() == i,
                forall|k: int|
                    0 <= k < i ==> (#[trigger] paths@[k])@ == under_root(
                        self.root@,
                        space_separated(value@)[k],
                    ),
            decreases pieces@.len() - i,
        {
            let rel = string_of(&pieces[i]);
            assert(rel@ == space_separated(value@)[i as int]);
            paths.push(self.root_path(rel.as_str()));
            i += 1;
        }
        Ok(paths)
    }

    /// Gets the abs path of ref streets.
    pub fn get_reference_street_path(&self) -> (r: Result<String, ConfigError>)
        ensures
            match r {
                Ok(p) => wsgi_value(self, "reference_street"@) matches Some(v) && p@ == under_root(
                    self.root@,
                    v,
                ),
                Err(_) => wsgi_value(self, "reference_street"@) is None,
            },
    {
        self.required_path("reference_street")
    }

    /// Gets the abs path of ref citycounts.
    pub fn get_reference_citycounts_path(&self) -> (r: Result<String, ConfigError>)
        ensures
            match r {
                Ok(p) => wsgi_value(self, "reference_citycounts"@) matches Some(v) && p@
                    == under_root(self.root@, v),
                Err(_) => wsgi_value(self, "reference_citycounts"@) is None,
            },
    {
        self.required_path("reference_citycounts")
    }

    /// Gets the abs path of ref zipcounts.
    pub fn get_reference_zipcounts_path(&self) -> (r: Result<String, ConfigError>)
        ensures
            match r {
                Ok(p) => wsgi_value(self, "reference_zipcounts"@) matches Some(v) && p@
                    == under_root(self.root@, v),
                Err(_) => wsgi_value(self, "reference_zipcounts"@) is None,
            },
    {
        self.required_path("reference_zipcounts")
    }

    /// Gets the global URI prefix.
    pub fn get_uri_prefix(&self) -> (r: Result<String, ConfigError>)
        ensures
            match r {
                Ok(p) => wsgi_value(self, "uri_prefix"@) == Some(p@),
                Err(_) => wsgi_value(self, "uri_prefix"@) is None,
            },
    {
        match self.wsgi("uri_prefix") {
            Some(v) => Ok(v),
            None => Err(ConfigError::MissingKey("uri_prefix".to_owned())),
        }
    }

    fn get_with_fallback(&self, key: &str, fallback: &str) -> (r: String)
        ensures
            r@ == match wsgi_value(self, key@) {
                Some(v) => v,
                None => fallback@,
            },
    {
        match self.wsgi(key) {
            Some(value) => value,
            None => fallback.to_owned(),
        }
    }

    /// Gets the TCP port to be used; 8000 unless configured.
    pub fn get_tcp_port(&self) -> (r: Result<i64, ConfigError>)
        ensures
            match r {
                Ok(port) => match wsgi_value(self, "tcp_port"@) {
                    Some(v) => signed_value(v) == Some(port as int),
                    None => port == 8000,
                },
                Err(_) => wsgi_value(self, "tcp_port"@) matches Some(v) && (signed_value(v) is None
                    || !(i64::MIN <= signed_value(v)->0 <= i64::MAX)),
            },
    {
        let text = self.get_with_fallback("tcp_port", "8000");
        proof {
            reveal_strlit("8000");
            reveal_with_fuel(crate::stats::digits_value, 5);
            let fallback = seq!['8', '0', '0', '0'];
            assert("8000"@ =~= fallback);
            assert(fallback.drop_last() =~= seq!['8', '0', '0']);
            assert(seq!['8', '0', '0'].drop_last() =~= seq!['8', '0']);
            assert(seq!['8', '0'].drop_last() =~= seq!['8']);
            assert(seq!['8'].drop_last() =~= Seq::<char>::empty());
            assert(crate::stats::digits_value(fallback) == 8000);
            assert(crate::stats::all_digits(fallback));
            assert(signed_value(fallback) == Some(8000int));
        }
        let chars = chars_of(text.as_str());
        match parse_i64(&chars) {
            Some(port) => Ok(port),
            None => Err(ConfigError::NotANumber(text)),
        }
    }

    /// Gets the URI of the overpass instance to be used.
    pub fn get_overpass_uri(&self) -> (r: String)
        ensures
            r@ == match wsgi_value(self, "overpass_uri"@) {
                Some(v) => v,
                None => "https://overpass-api.de"@,
            },
    {
        self.get_with_fallback("overpass_uri", "https://overpass-api.de")
    }

    /// Should the cron job update inactive relations?
    pub fn get_cron_update_inactive(&self) -> (r: bool)
        ensures
            r == (wsgi_value(self, "cron_update_inactive"@) == Some("True"@)),
    {
        let value = self.get_with_fallback("cron_update_inactive", "False");
        proof {
            reveal_strlit("True");
            reveal_strlit("False");
        }
        let chars = chars_of(value.as_str());
        let r = chars.len() == 4 && chars[0] == 'T' && chars[1] == 'r' && chars[2] == 'u' && chars[3]
            == 'e';
        assert(r == (value@ =~= "True"@));
        r
    }
}

/// Reads an optionally signed decimal number that fits in 64 bits.
fn parse_i64(s: &Vec<char>) -> (r: Option<i64>)
    ensures
        match r {
            Some(v) => signed_value(s@) == Some(v as int),
            None => signed_value(s@) is None || !(i64::MIN <= signed_value(s@)->0 <= i64::MAX),
        },
{
    let negative = s.len() > 0 && s[0] == '-';
    let signed = s.len() > 0 && (s[0] == '-' || s[0] == '+');
    let start: usize = if signed { 1 } else { 0 };
    let ghost body = s@.skip(start as int);
    if start == 1 {
        assert(body =~= s@.drop_first());
    } else {
        assert(body =~= s@);
    }
    if s.len() == start {
        assert(body =~= Seq::<char>::empty());
        return None;
    }
    let mut v: u64 = 0;
    let mut i: usize = start;
    while i < s.len()
        invariant
            start <= i <= s@.len(),
            start == 1 <==> (s@.len() > 0 && (s@[0] == '-' || s@[0] == '+')),
            start <= 1,
            negative == (s@.len() > 0 && s@[0] == '-'),
            body == s@.skip(start as int),
            v as nat == crate::stats::digits_value(body.take(i - start)),
            forall|k: int| 0 <= k < i - start ==> crate::stats::is_digit(#[trigger] body[k]),
            v <= 9223372036854775808,
        decreases s@.len() - i,
    {
        let c = s[i];
        assert(c == body[i - start]);
        if !(c >= '0' && c <= '9') {
            assert(!crate::stats::all_digits(body));
            assert(!crate::stats::is_digit(s@[0]) || !crate::stats::all_digits(s@) || start == 0);
            if start == 0 {
                assert(!crate::stats::all_digits(s@));
            } else {
                assert(!crate::stats::all_digits(s@)) by {
                    assert(!crate::stats::is_digit(s@[0]));
                }
            }
            return None;
        }
        let d = (c as u32 - '0' as u32) as u64;
        assert(body.take(i + 1 - start).drop_last() =~= body.take(i - start));
        if v > (9223372036854775808 - d) / 10 {
            proof {
                if crate::stats::all_digits(body) {
                    assert(body.take(i + 1 - start).last() == c);
                    assert(crate::stats::digits_value(body.take(i + 1 - start)) == v * 10 + d);
                    crate::stats::lemma_digits_value_prefix_grows(body, i + 1 - start);
                    if start == 1 {
                        assert(body =~= s@.drop_first());
                        assert(!crate::stats::is_digit(s@[0]));
                    } else {
                        assert(body =~= s@);
                        assert(crate::stats::is_digit(s@[0]));
                    }
                }
            }
            return None;
        }
        v = v * 10 + d;
        i += 1;
    }
    assert(body.take(i - start) =~= body);
    assert(crate::stats::all_digits(body));
    if start == 1 {
        assert(body =~= s@.drop_first());
        assert(!crate::stats::is_digit(s@[0]));
    } else {
        assert(body =~= s@);
        assert(crate::stats::is_digit(s@[0]));
    }
    if negative {
        assert(signed_value(s@) == Some(-(crate::stats::digits_value(body) as int)));
        let r = (0 - (v as i128)) as i64;
        assert(r as int == -(v as int));
        Some(r)
    } else if v <= 9223372036854775807 {
        assert(signed_value(s@) == Some(crate::stats::digits_value(body) as int));
        Some(v as i64)
    } else {
        None
    }
}

} // verus!
