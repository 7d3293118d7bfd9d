//! The game locator: its hot-reloadable configuration and the verified
//! interpretation of a locator response.  The transport performs the HTTP
//! exchange and hands the status and decoded body back as plain values.

use vstd::prelude::*;
use vstd::string::StrSliceExecFns;
use crate::game::Game;

verus! {

/// A decoded JSON value, carried as plain data so that the extraction rules
/// can be verified.  The transport converts the wire form into this shape.
#[derive(Debug)]
pub enum JsonVal {
    Null,
    Bool(bool),
    Int(i64),
    Str(String),
    Arr(Vec<JsonVal>),
    Obj(Vec<(String, JsonVal)>),
}

/// Why a game could not be located.
#[derive(Debug)]
pub enum GameFinderError {
    /// The configuration file could not be read or written.
    ConfigIo(String),
    /// The configuration file could not be parsed.
    ConfigParse(String),
    /// The HTTP exchange itself failed.
    Http(String),
    /// The endpoint answered with a non-success status.
    GameNotFound(u16),
    /// A required response field is missing or has the wrong type.
    InvalidField(String),
    /// The port value is missing, not an integer, or out of range.
    InvalidPort,
}

/// The locator's configuration: the endpoint template and the selector for
/// each extracted field.  A selector names one top-level response field,
/// written `$.field`.
#[derive(Clone, Debug)]
pub struct GameFinderSettings {
    pub base_url: String,
    pub id_path: String,
    pub host_path: String,
    pub port_path: String,
}

impl Default for GameFinderSettings {
    /// The documented defaults.
    fn default() -> (r: GameFinderSettings)
        ensures
            r.base_url@ == "http://example.com/{playlist}"@,
            r.id_path@ == "$.gameId"@,
            r.host_path@ == "$.host"@,
            r.port_path@ == "$.port"@,
    {
        GameFinderSettings {
            base_url: "http://example.com/{playlist}".to_owned(),
            id_path: "$.gameId".to_owned(),
            host_path: "$.host".to_owned(),
            port_path: "$.port".to_owned(),
        }
    }
}

/// The game locator.
#[derive(Clone, Debug)]
pub struct GameFinder {
    pub config: GameFinderSettings,
}

impl GameFinder {
    /// A locator under the default configuration.  The transport overrides
    /// fields from its environment before use.
    pub fn new() -> (r: GameFinder)
        ensures
            r.config.base_url@ == "http://example.com/{playlist}"@,
            r.config.id_path@ == "$.gameId"@,
            r.config.host_path@ == "$.host"@,
            r.config.port_path@ == "$.port"@,
    {
        GameFinder { config: GameFinderSettings::default() }
    }

    /// A locator under the given configuration; replaces atomically.
    pub fn with_config(config: GameFinderSettings) -> (r: GameFinder)
        ensures
            r.config == config,
    {
        GameFinder { config }
    }
}

/// The field a selector names: `$.field` selects the top-level `field`.
/// Anything else — no `$.` prefix, an empty name, or a nested path — selects
/// nothing.
pub open spec fn selector_field(p: Seq<char>) -> Option<Seq<char>> {
    if p.len() >= 3 && p[0] == '$' && p[1] == '.' && (forall|k: int|
        2 <= k < p.len() ==> p[k] != '.') {
        Some(p.skip(2))
    } else {
        None
    }
}

/// The value stored under the first field named `key`, if any.
pub open spec fn obj_lookup(fields: Seq<(String, JsonVal)>, key: Seq<char>) -> Option<JsonVal>
    decreases fields.len(),
{
    if fields.len() == 0 {
        None
    } else if fields[0].0@ == key {
        Some(fields[0].1)
    } else {
        obj_lookup(fields.drop_first(), key)
    }
}

/// The top-level field of `v` named `key`: only objects have fields.
pub open spec fn json_field(v: JsonVal, key: Seq<char>) -> Option<JsonVal> {
    match v {
        JsonVal::Obj(fields) => obj_lookup(fields@, key),
        _ => None,
    }
}

/// What a selector extracts from a response value, if anything.
pub open spec fn selected(v: JsonVal, path: Seq<char>) -> Option<JsonVal> {
    match selector_field(path) {
        None => None,
        Some(key) => json_field(v, key),
    }
}

/// If the field names before position `j` all differ from `key`, the lookup
/// is decided by the fields from `j` on.
proof fn lemma_obj_lookup_skip(fields: Seq<(String, JsonVal)>, key: Seq<char>, j: int)
    requires
        0 <= j <= fields.len(),
        forall|l: int| 0 <= l < j ==> (#[trigger] fields[l]).0@ != key,
    ensures
        obj_lookup(fields, key) == obj_lookup(fields.skip(j), key),
    decreases j,
{
    if j > 0 {
        assert(fields.skip(1) =~= fields.drop_first());
        assert(forall|l: int|
            0 <= l < j - 1 ==> (#[trigger] fields.drop_first()[l]).0 == fields[l + 1].0);
        lemma_obj_lookup_skip(fields.drop_first(), key, j - 1);
        assert(fields.drop_first().skip(j - 1) =~= fields.skip(j));
    } else {
        assert(fields.skip(0) =~= fields);
    }
}

/// Whether two string slices spell the same characters.
fn str_eq_chars(a: &str, b: &str) -> (r: bool)
    ensures
        r == (a@ == b@),
{
    let alen = a.unicode_len();
    let blen = b.unicode_len();
    if alen != blen {
        return false;
    }
    let mut k: usize = 0;
    while k < alen
        invariant
            k <= alen,
            alen == a@.len(),
            alen == b@.len(),
            forall|l: int| 0 <= l < k ==> a@[l] == b@[l],
        decreases alen - k,
    {
        if a.get_char(k) != b.get_char(k) {
            return false;
        }
        k = k + 1;
    }
    proof {
        assert(a@ =~= b@);
    }
    true
}

/// The field name a selector names, or nothing for malformed selectors.
fn parse_selector(path: &str) -> (r: Option<&str>)
    ensures
        match r {
            Some(f) => selector_field(path@) == Some(f@),
            None => selector_field(path@) is None,
        },
{
    let n = path.unicode_len();
    if n < 3 {
        return None;
    }
    if path.get_char(0) != '$' || path.get_char(1) != '.' {
        return None;
    }
    let mut k: usize = 2;
    while k < n
        invariant
            2 <= k <= n,
            n == path@.len(),
            forall|l: int| 2 <= l < k ==> path@[l] != '.',
        decreases n - k,
    {
        if path.get_char(k) == '.' {
            return None;
        }
        k = k + 1;
    }
    let field = path.substring_char(2, n);
    proof {
        assert(field@ =~= path@.skip(2));
    }
    Some(field)
}

/// The top-level field of `v` that the selector `path` names, if the
/// selector is well formed and the field exists.
fn select_field<'a>(v: &'a JsonVal, path: &str) -> (r: Option<&'a JsonVal>)
    ensures
        match r {
            Some(f) => selected(*v, path@) == Some(*f),
            None => selected(*v, path@) is None,
        },
{
    let key = match parse_selector(path) {
        None => {
            return None;
        },
        Some(k) => k,
    };
    match v {
        JsonVal::Obj(fields) => {
            let ghost fs = fields@;
            let mut j: usize = 0;
            while j < fields.len()
                invariant
                    j <= fs.len(),
                    fs == fields@,
                    json_field(*v, key@) == obj_lookup(fs, key@),
                    selector_field(path@) == Some(key@),
                    forall|l: int| 0 <= l < j ==> (#[trigger] fs[l]).0@ != key@,
                decreases fs.len() - j,
            {
                if str_eq_chars(fields[j].0.as_str(), key) {
                    proof {
                        lemma_obj_lookup_skip(fs, key@, j as int);
                        assert(fs.skip(j as int)[0] == fs[j as int]);
                        assert(fs[j as int].0@ == key@);
                        assert(obj_lookup(fs.skip(j as int), key@) == Some(fs[j as int].1));
                        assert(json_field(*v, key@) == Some(fs[j as int].1));
                        assert(selected(*v, path@) == Some(fs[j as int].1));
                    }
                    return Some(&fields[j].1);
                }
                j = j + 1;
            }
            proof {
                lemma_obj_lookup_skip(fs, key@, fs.len() as int);
                assert(fs.skip(fs.len() as int) =~= Seq::<(String, JsonVal)>::empty());
            }
            None
        },
        _ => None,
    }
}

/// Interprets one locator exchange: a non-success status is `GameNotFound`;
/// a missing or non-string game id or host is an `InvalidField` naming it; a
/// missing, non-integer or out-of-range port is `InvalidPort`; otherwise the
/// extracted server descriptor is returned.
pub fn interpret_response(status: u16, body: &JsonVal, config: &GameFinderSettings) -> (r: Result<
    Game,
    GameFinderError,
>)
    ensures
        !(200 <= status < 300) ==> (r matches Err(e) && e matches GameFinderError::GameNotFound(st)
            && st == status),
        (200 <= status < 300) ==> match selected(*body, config.id_path@) {
            Some(JsonVal::Str(id)) => match selected(*body, config.host_path@) {
                Some(JsonVal::Str(host)) => match selected(*body, config.port_path@) {
                    Some(JsonVal::Int(port)) => {
                        if 0 <= port <= 65535 {
                            r matches Ok(g) && g.id == id && g.server_host == host
                                && g.server_port == port
                        } else {
                            r matches Err(e) && e is InvalidPort
                        }
                    },
                    Some(_) => r matches Err(e) && e is InvalidPort,
                    None => r matches Err(e) && e is InvalidPort,
                },
                Some(_) => (r matches Err(e) && e matches GameFinderError::InvalidField(f) && f@
                    == "host"@),
                None => (r matches Err(e) && e matches GameFinderError::InvalidField(f) && f@
                    == "host"@),
            },
            Some(_) => (r matches Err(e) && e matches GameFinderError::InvalidField(f) && f@
                == "gameId"@),
            None => (r matches Err(e) && e matches GameFinderError::InvalidField(f) && f@
                == "gameId"@),
        },
{
    if !(200 <= status && status < 300) {
        return Err(GameFinderError::GameNotFound(status));
    }
    let id = match select_field(body, config.id_path.as_str()) {
        Some(JsonVal::Str(s)) => s.clone(),
        _ => {
            return Err(GameFinderError::InvalidField("gameId".to_owned()));
        },
    };
    let host = match select_field(body, config.host_path.as_str()) {
        Some(JsonVal::Str(s)) => s.clone(),
        _ => {
            return Err(GameFinderError::InvalidField("host".to_owned()));
        },
    };
    let port = match select_field(body, config.port_path.as_str()) {
        Some(JsonVal::Int(p)) => {
            if 0 <= *p && *p <= 65535 {
                *p as u16
            } else {
                return Err(GameFinderError::InvalidPort);
            }
        },
        _ => {
            return Err(GameFinderError::InvalidPort);
        },
    };
    Ok(Game::new(host, port, id))
}

} // verus!
