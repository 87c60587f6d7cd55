//! Finding the ports a project uses and the services it connects to, from the
//! text of its `.env*` files, its `package.json` and the URLs inside them.
use vstd::prelude::*;

use crate::json::{
    has_key, has_key_exec, json_get, json_get_exec, json_of_text, parse_json, JsonValue,
};
use crate::text::{
    all_digits, ascii_lower, decimal_text, is_digit, is_space, lemma_decimal_text, lemma_single_word,
    lemma_trim_clean, chars_of, class_has, contains_seq, contains_upper_in, ends_with,
    ends_with_in, eq_ignore_case, find_char, find_char_in, find_class, find_class_in, find_seq,
    find_seq_in, first_word, in_class, lemma_find_char, lemma_find_char_bounds, lemma_find_class,
    lemma_find_class_bounds, lemma_find_seq_none, lemma_rfind_class_bounds, lemma_trim_drop_last,
    lines, lower_char, next_line, next_word, occurs_at, parse_u16, parse_u16_in, range_eq,
    rfind_char, rfind_char_in, rfind_class, rfind_class_in, starts_with, starts_with_in, string_of,
    strip_cr, to_lower, to_upper, trim, trim_range, words, CharClass,
};

verus! {

/// A port discovered in the project, with a human-readable source for display.
pub struct DetectedPort {
    pub port: u16,
    pub source: String,
}

/// A backing service (database, cache, broker) the project expects to connect to.
pub struct DetectedService {
    pub port: u16,
    pub name: String,
    pub source: String,
}

impl View for DetectedPort {
    type V = (u16, Seq<char>);

    open spec fn view(&self) -> (u16, Seq<char>) {
        (self.port, self.source@)
    }
}

impl View for DetectedService {
    type V = (u16, Seq<char>, Seq<char>);

    open spec fn view(&self) -> (u16, Seq<char>, Seq<char>) {
        (self.port, self.name@, self.source@)
    }
}

/// The views of a list of detected ports.
pub open spec fn ports_view(s: Seq<DetectedPort>) -> Seq<(u16, Seq<char>)> {
    s.map_values(|d: DetectedPort| d@)
}

/// The views of a list of detected services.
pub open spec fn services_view(s: Seq<DetectedService>) -> Seq<(u16, Seq<char>, Seq<char>)> {
    s.map_values(|d: DetectedService| d@)
}

/// The ports of a list of detected ports, in order.
pub open spec fn detected_ports(d: Seq<DetectedPort>) -> Seq<u16> {
    d.map_values(|x: DetectedPort| x.port)
}

/// The port numbers of a list of detected ports, in order.
pub fn port_numbers(detected: &Vec<DetectedPort>) -> (r: Vec<u16>)
    ensures
        r@ == detected_ports(detected@),
{
    let mut ports: Vec<u16> = Vec::new();
    let mut i: usize = 0;
    while i < detected.len()
        invariant
            i <= detected@.len(),
            ports@ == detected_ports(detected@).take(i as int),
        decreases detected@.len() - i,
    {
        ports.push(detected[i].port);
        assert(ports@ =~= detected_ports(detected@).take(i + 1));
        i = i + 1;
    }
    assert(ports@ =~= detected_ports(detected@));
    ports
}

/// The upper-case names whose presence in an env key marks a datastore.
pub open spec fn datastore_names() -> Seq<Seq<char>> {
    seq!["DB"@, "DATABASE"@, "POSTGRES"@, "MYSQL"@, "MONGO"@, "REDIS"@, "SQL"@, "RABBIT"@]
}

/// An env key names a port when its upper-cased text contains `PORT`.
pub open spec fn mentions_port(key: Seq<char>) -> bool {
    contains_seq(to_upper(key), "PORT"@)
}

/// An env key names a datastore when its upper-cased text contains one of [`datastore_names`].
pub open spec fn names_datastore(key: Seq<char>) -> bool {
    exists|i: int| 0 <= i < datastore_names().len() && contains_seq(to_upper(key), #[trigger] datastore_names()[i])
}

/// The CLI port flags of Node dev servers.
pub open spec fn port_flag(token: Seq<char>) -> bool {
    token == "--port"@ || token == "-p"@ || token == "-P"@
}

/// A valid port: a `u16` as `str::parse` reads it, other than zero.
pub open spec fn parsed_port(s: Seq<char>) -> Option<u16> {
    match parse_u16(s) {
        Some(p) => if p != 0 {
            Some(p)
        } else {
            None
        },
        None => None,
    }
}

/// Parses a string into a valid, non-zero port number.
pub fn parse_port(value: &str) -> (r: Option<u16>)
    ensures
        r == parsed_port(value@),
{
    let v = chars_of(value);
    port_in(&v, 0, v.len())
}

/// The valid port that `v[lo..hi]` spells, if any.
pub fn port_in(v: &Vec<char>, lo: usize, hi: usize) -> (r: Option<u16>)
    requires
        lo <= hi <= v@.len(),
    ensures
        r == parsed_port(v@.subrange(lo as int, hi as int)),
{
    match parse_u16_in(v, lo, hi) {
        Some(p) => if p != 0 {
            Some(p)
        } else {
            None
        },
        None => None,
    }
}

/// True for the CLI port flags used by Node dev servers.
pub fn is_port_flag(token: &str) -> (r: bool)
    ensures
        r == port_flag(token@),
{
    let v = chars_of(token);
    port_flag_in(&v, 0, v.len())
}

/// Whether `v[lo..hi]` is a port flag.
pub fn port_flag_in(v: &Vec<char>, lo: usize, hi: usize) -> (r: bool)
    requires
        lo <= hi <= v@.len(),
    ensures
        r == port_flag(v@.subrange(lo as int, hi as int)),
{
    range_eq(v, lo, hi, &chars_of("--port")) || range_eq(v, lo, hi, &chars_of("-p"))
        || range_eq(v, lo, hi, &chars_of("-P"))
}

/// True if an env-var key names a port, e.g. `PORT`, `API_PORT`, `VITE_PORT`.
pub fn key_mentions_port(key: &str) -> (r: bool)
    ensures
        r == mentions_port(key@),
{
    let v = chars_of(key);
    mentions_port_in(&v, 0, v.len())
}

/// Whether the key `v[lo..hi]` names a port.
pub fn mentions_port_in(v: &Vec<char>, lo: usize, hi: usize) -> (r: bool)
    requires
        lo <= hi <= v@.len(),
    ensures
        r == mentions_port(v@.subrange(lo as int, hi as int)),
{
    contains_upper_in(v, lo, hi, &chars_of("PORT"))
}

/// True if the key refers to a datastore/service you connect *to* rather than a
/// dev server you run.
pub fn is_datastore_key(key: &str) -> (r: bool)
    ensures
        r == names_datastore(key@),
{
    let v = chars_of(key);
    datastore_in(&v, 0, v.len())
}

/// Whether the key `v[lo..hi]` names a datastore.
pub fn datastore_in(v: &Vec<char>, lo: usize, hi: usize) -> (r: bool)
    requires
        lo <= hi <= v@.len(),
    ensures
        r == names_datastore(v@.subrange(lo as int, hi as int)),
{
    let names = vec!["DB", "DATABASE", "POSTGRES", "MYSQL", "MONGO", "REDIS", "SQL", "RABBIT"];
    assert(names@.len() == 8);
    assert forall|i: int| 0 <= i < 8 implies #[trigger] names@[i]@ == datastore_names()[i] by {}
    let mut i: usize = 0;
    while i < names.len()
        invariant
            lo <= hi <= v@.len(),
            names@.len() == 8,
            i <= 8,
            forall|j: int| 0 <= j < 8 ==> #[trigger] names@[j]@ == datastore_names()[j],
            forall|j: int| 0 <= j < i ==> !contains_seq(to_upper(v@.subrange(lo as int, hi as int)), #[trigger] datastore_names()[j]),
        decreases 8 - i,
    {
        if contains_upper_in(v, lo, hi, &chars_of(names[i])) {
            return true;
        }
        i = i + 1;
    }
    false
}

/// The key and value of an env assignment line, if it is one: the line is
/// trimmed and an `export ` prefix dropped; comment lines and lines without `=`
/// are not assignments. The key is the trimmed text before the first `=`; the
/// value is the first word after it, with surrounding quotes removed.
pub open spec fn env_assignment(line: Seq<char>) -> Option<(Seq<char>, Seq<char>)> {
    let t0 = trim(CharClass::Space, line);
    let t = if starts_with(t0, "export "@) {
        t0.skip("export "@.len() as int)
    } else {
        t0
    };
    if t.len() > 0 && t[0] == '#' {
        None
    } else {
        let k = find_char(t, '=');
        if k >= t.len() {
            None
        } else {
            Some(
                (
                    trim(CharClass::Space, t.take(k)),
                    trim(CharClass::Quote, first_word(t.skip(k + 1))),
                ),
            )
        }
    }
}

/// The bounds in `v` of the key and value of the env assignment `v[lo..hi]`.
pub fn env_assignment_in(v: &Vec<char>, lo: usize, hi: usize) -> (r: Option<
    (usize, usize, usize, usize),
>)
    requires
        lo <= hi <= v@.len(),
    ensures
        match r {
            None => env_assignment(v@.subrange(lo as int, hi as int)) is None,
            Some((a, b, c, d)) => {
                &&& lo <= a <= b <= hi
                &&& lo <= c <= d <= hi
                &&& env_assignment(v@.subrange(lo as int, hi as int)) == Some(
                    (v@.subrange(a as int, b as int), v@.subrange(c as int, d as int)),
                )
            },
        },
{
    let ghost line = v@.subrange(lo as int, hi as int);
    let (s0, e) = trim_range(CharClass::Space, v, lo, hi);
    let export = chars_of("export ");
    let s = if starts_with_in(v, s0, e, &export) {
        s0 + export.len()
    } else {
        s0
    };
    let ghost t0 = v@.subrange(s0 as int, e as int);
    let ghost t = v@.subrange(s as int, e as int);
    assert(t =~= (if starts_with(t0, "export "@) {
        t0.skip("export "@.len() as int)
    } else {
        t0
    }));
    if s < e && v[s] == '#' {
        return None;
    }
    let k = find_char_in(v, s, e, '=');
    if k == e {
        return None;
    }
    assert(t.take(k - s) =~= v@.subrange(s as int, k as int));
    assert(t.skip(k - s + 1) =~= v@.subrange(k + 1, e as int));
    let (a, b) = trim_range(CharClass::Space, v, s, k);
    let (wa, wb) = match next_word(v, k + 1, e) {
        Some((wa, wb)) => (wa, wb),
        None => (e, e),
    };
    assert(first_word(v@.subrange(k + 1, e as int)) =~= v@.subrange(wa as int, wb as int));
    let (c, d) = trim_range(CharClass::Quote, v, wa, wb);
    Some((a, b, c, d))
}

/// The project port an env line assigns, if any: a key that names a port and
/// no datastore, with a valid port as its value.
pub open spec fn env_line_port(line: Seq<char>) -> Option<u16> {
    match env_assignment(line) {
        Some((key, value)) => if mentions_port(key) && !names_datastore(key) {
            parsed_port(value)
        } else {
            None
        },
        None => None,
    }
}

/// The values that an optional value holds: none or one.
pub open spec fn opt_seq<T>(o: Option<T>) -> Seq<T> {
    match o {
        Some(x) => seq![x],
        None => seq![],
    }
}

/// The project ports of a list of env lines, in order.
pub open spec fn env_ports_of(ls: Seq<Seq<char>>) -> Seq<u16>
    decreases ls.len(),
{
    if ls.len() == 0 {
        seq![]
    } else {
        opt_seq(env_line_port(ls[0])) + env_ports_of(ls.drop_first())
    }
}

/// Extracts ports from `.env` style content: any `KEY=VALUE` line whose key
/// mentions PORT and whose value is a number, e.g. `PORT=3000`, `VITE_PORT=5173`.
/// Keys that name a datastore are skipped.
pub fn ports_from_env(contents: &str) -> (r: Vec<u16>)
    ensures
        r@ == env_ports_of(lines(contents@)),
{
    let v = chars_of(contents);
    let n = v.len();
    let mut ports: Vec<u16> = Vec::new();
    let mut p: usize = 0;
    assert(v@.skip(0) =~= v@);
    while p < n
        invariant
            p <= n == v@.len(),
            v@ == contents@,
            env_ports_of(lines(contents@)) == ports@ + env_ports_of(lines(v@.skip(p as int))),
        decreases n - p,
    {
        let (e, next) = next_line(&v, p);
        let ghost rest = lines(v@.skip(next as int));
        let ghost ls = lines(v@.skip(p as int));
        assert(ls.drop_first() =~= rest);
        let ghost before = ports@;
        match env_assignment_in(&v, p, e) {
            Some((a, b, c, d)) => {
                if mentions_port_in(&v, a, b) && !datastore_in(&v, a, b) {
                    match port_in(&v, c, d) {
                        Some(port) => {
                            ports.push(port);
                        },
                        None => {},
                    }
                }
            },
            None => {},
        }
        assert(ports@ =~= before + opt_seq(env_line_port(ls[0])));
        p = next;
    }
    assert(v@.skip(n as int) =~= Seq::<char>::empty());
    assert(ports@ + env_ports_of(lines(v@.skip(n as int))) =~= ports@);
    ports
}

/// The friendly service name of a datastore env key: the key lower-cased, without
/// a trailing `_port`; `service` when nothing is left.
pub open spec fn label_of(key: Seq<char>) -> Seq<char> {
    let low = to_lower(key);
    let t = if ends_with(low, "_port"@) {
        low.take(low.len() - "_port"@.len())
    } else {
        low
    };
    if t.len() == 0 {
        "service"@
    } else {
        t
    }
}

/// Turns a datastore env key into a friendly service name, e.g. `DATABASE_PORT`
/// → `database`, `REDIS_PORT` → `redis`.
pub fn service_label(key: &str) -> (r: String)
    ensures
        r@ == label_of(key@),
{
    let v = chars_of(key);
    label_in(&v, 0, v.len())
}

/// The service label of the key `v[lo..hi]`.
pub fn label_in(v: &Vec<char>, lo: usize, hi: usize) -> (r: String)
    requires
        lo <= hi <= v@.len(),
    ensures
        r@ == label_of(v@.subrange(lo as int, hi as int)),
{
    let ghost key = v@.subrange(lo as int, hi as int);
    let mut low: Vec<char> = Vec::new();
    let mut i = lo;
    while i < hi
        invariant
            lo <= i <= hi <= v@.len(),
            key == v@.subrange(lo as int, hi as int),
            low@ =~= to_lower(v@.subrange(lo as int, i as int)),
        decreases hi - i,
    {
        low.push(lower_char(v[i]));
        i = i + 1;
    }
    let suffix = chars_of("_port");
    let n = low.len();
    let end = if ends_with_in(&low, 0, n, &suffix) {
        n - suffix.len()
    } else {
        n
    };
    assert(low@.subrange(0, n as int) =~= low@);
    assert(low@.subrange(0, end as int) =~= (if ends_with(to_lower(key), "_port"@) {
        to_lower(key).take(to_lower(key).len() - "_port"@.len())
    } else {
        to_lower(key)
    }));
    if end == 0 {
        "service".to_owned()
    } else {
        string_of(&low, 0, end)
    }
}

/// Connection-URL schemes, the service each names, and the port it listens on by default.
pub open spec fn url_schemes() -> Seq<(Seq<char>, Seq<char>, u16)> {
    seq![
        ("postgresql"@, "postgres"@, 5432u16),
        ("postgres"@, "postgres"@, 5432u16),
        ("mysql"@, "mysql"@, 3306u16),
        ("mariadb"@, "mariadb"@, 3306u16),
        ("redis"@, "redis"@, 6379u16),
        ("rediss"@, "redis"@, 6379u16),
        ("mongodb"@, "mongodb"@, 27017u16),
        ("amqp"@, "rabbitmq"@, 5672u16),
    ]
}

/// The service and default port of the first entry of [`url_schemes`], from
/// index `i` on, whose scheme matches `scheme` ignoring ASCII case.
pub open spec fn scheme_from(scheme: Seq<char>, i: nat) -> Option<(Seq<char>, u16)>
    decreases url_schemes().len() - i,
{
    if i >= url_schemes().len() {
        None
    } else if eq_ignore_case(scheme, url_schemes()[i as int].0) {
        Some((url_schemes()[i as int].1, url_schemes()[i as int].2))
    } else {
        scheme_from(scheme, i + 1)
    }
}

/// The service name and port of a connection URL `scheme://[user[:pass]@]host[:port][/path][?query]`
/// with a known scheme: the port after the last `:` of the host part when it is
/// a valid port, the scheme's default port otherwise.
pub open spec fn url_service(value: Seq<char>) -> Option<(Seq<char>, u16)> {
    let i = find_seq(value, "://"@);
    if i < 0 {
        None
    } else {
        match scheme_from(value.take(i), 0) {
            None => None,
            Some((name, default_port)) => {
                let rest = value.skip(i + "://"@.len());
                let authority = rest.take(find_class(CharClass::PathOrQuery, rest));
                let host_port = authority.skip(rfind_char(authority, '@') + 1);
                let c = rfind_char(host_port, ':');
                let port = if c < 0 {
                    default_port
                } else {
                    match parsed_port(host_port.skip(c + 1)) {
                        Some(p) => p,
                        None => default_port,
                    }
                };
                Some((name, port))
            },
        }
    }
}

/// Whether `v[lo..hi]` and `p` are equal ignoring ASCII case.
fn eq_ignore_case_in(v: &Vec<char>, lo: usize, hi: usize, p: &Vec<char>) -> (r: bool)
    requires
        lo <= hi <= v@.len(),
    ensures
        r == eq_ignore_case(v@.subrange(lo as int, hi as int), p@),
{
    let ghost a = v@.subrange(lo as int, hi as int);
    if hi - lo != p.len() {
        assert(to_lower(a).len() != to_lower(p@).len());
        return false;
    }
    let mut j: usize = 0;
    while j < p.len()
        invariant
            lo <= hi <= v@.len(),
            hi - lo == p@.len(),
            a == v@.subrange(lo as int, hi as int),
            j <= p@.len(),
            forall|i: int| 0 <= i < j ==> ascii_lower(v@[lo + i]) == ascii_lower(#[trigger] p@[i]),
        decreases p@.len() - j,
    {
        if lower_char(v[lo + j]) != lower_char(p[j]) {
            assert(to_lower(a)[j as int] != to_lower(p@)[j as int]);
            return false;
        }
        j = j + 1;
    }
    assert(to_lower(a) =~= to_lower(p@));
    true
}

/// The service name and default port that the scheme `v[lo..hi]` stands for.
fn scheme_lookup(v: &Vec<char>, lo: usize, hi: usize) -> (r: Option<(&'static str, u16)>)
    requires
        lo <= hi <= v@.len(),
    ensures
        match r {
            None => scheme_from(v@.subrange(lo as int, hi as int), 0) is None,
            Some((name, port)) => scheme_from(v@.subrange(lo as int, hi as int), 0) == Some(
                (name@, port),
            ),
        },
{
    let ghost scheme = v@.subrange(lo as int, hi as int);
    let table = vec![
        ("postgresql", "postgres", 5432u16),
        ("postgres", "postgres", 5432u16),
        ("mysql", "mysql", 3306u16),
        ("mariadb", "mariadb", 3306u16),
        ("redis", "redis", 6379u16),
        ("rediss", "redis", 6379u16),
        ("mongodb", "mongodb", 27017u16),
        ("amqp", "rabbitmq", 5672u16),
    ];
    assert forall|j: int| 0 <= j < 8 implies (#[trigger] table@[j]).0@ == url_schemes()[j].0
        && table@[j].1@ == url_schemes()[j].1 && table@[j].2 == url_schemes()[j].2 by {}
    let mut t: usize = 0;
    while t < table.len()
        invariant
            table@.len() == 8,
            t <= 8,
            lo <= hi <= v@.len(),
            scheme == v@.subrange(lo as int, hi as int),
            forall|j: int| 0 <= j < 8 ==> (#[trigger] table@[j]).0@ == url_schemes()[j].0
                && table@[j].1@ == url_schemes()[j].1 && table@[j].2 == url_schemes()[j].2,
            scheme_from(scheme, 0) == scheme_from(scheme, t as nat),
        decreases 8 - t,
    {
        if eq_ignore_case_in(v, lo, hi, &chars_of(table[t].0)) {
            return Some((table[t].1, table[t].2));
        }
        t = t + 1;
    }
    None
}

/// Parses a connection URL into its `(service_name, port)`, using the scheme's
/// default port when the URL omits one. Returns `None` for unknown schemes.
pub fn port_from_connection_url(value: &str) -> (r: Option<(String, u16)>)
    ensures
        match r {
            None => url_service(value@) is None,
            Some((name, port)) => url_service(value@) == Some((name@, port)),
        },
{
    let v = chars_of(value);
    url_in(&v, 0, v.len())
}

/// The service and port of the connection URL `v[lo..hi]`, if it is one.
pub fn url_in(v: &Vec<char>, lo: usize, hi: usize) -> (r: Option<(String, u16)>)
    requires
        lo <= hi <= v@.len(),
    ensures
        match r {
            None => url_service(v@.subrange(lo as int, hi as int)) is None,
            Some((name, port)) => url_service(v@.subrange(lo as int, hi as int)) == Some(
                (name@, port),
            ),
        },
{
    let ghost value = v@.subrange(lo as int, hi as int);
    let sep = chars_of("://");
    let i = match find_seq_in(v, lo, hi, &sep) {
        Some(i) => i,
        None => return None,
    };
    let ghost scheme = value.take(i - lo);
    assert(scheme =~= v@.subrange(lo as int, i as int));
    let (name, default_port) = match scheme_lookup(v, lo, i) {
        Some(entry) => entry,
        None => return None,
    };
    let rs = i + sep.len();
    let ghost rest = value.skip(i - lo + sep@.len());
    assert(rest =~= v@.subrange(rs as int, hi as int));
    let ae = find_class_in(CharClass::PathOrQuery, v, rs, hi);
    let ghost authority = rest.take(ae - rs);
    assert(authority =~= v@.subrange(rs as int, ae as int));
    let hs = match rfind_char_in(v, rs, ae, '@') {
        Some(at) => at + 1,
        None => rs,
    };
    let ghost host_port = authority.skip(rfind_char(authority, '@') + 1);
    assert(host_port =~= v@.subrange(hs as int, ae as int));
    let port = match rfind_char_in(v, hs, ae, ':') {
        None => default_port,
        Some(c) => {
            assert(host_port.skip(rfind_char(host_port, ':') + 1) =~= v@.subrange(c + 1, ae as int));
            match port_in(v, c + 1, ae) {
                Some(p) => p,
                None => default_port,
            }
        },
    };
    Some((name.to_owned(), port))
}

/// The backing service an env line names, as `(port, name, source)`: a key that
/// names both a port and a datastore gives the service labelled after the key
/// when its value is a valid port; any other assignment gives the service of
/// its value when that is a connection URL with a known scheme.
pub open spec fn env_line_service(line: Seq<char>, source: Seq<char>) -> Option<
    (u16, Seq<char>, Seq<char>),
> {
    match env_assignment(line) {
        None => None,
        Some((key, value)) => if mentions_port(key) && names_datastore(key) {
            match parsed_port(value) {
                Some(p) => Some((p, label_of(key), source)),
                None => None,
            }
        } else {
            match url_service(value) {
                Some((name, p)) => Some((p, name, source)),
                None => None,
            }
        },
    }
}

/// The backing services of a list of env lines, in order.
pub open spec fn env_services_of(ls: Seq<Seq<char>>, source: Seq<char>) -> Seq<
    (u16, Seq<char>, Seq<char>),
>
    decreases ls.len(),
{
    if ls.len() == 0 {
        seq![]
    } else {
        opt_seq(env_line_service(ls[0], source)) + env_services_of(ls.drop_first(), source)
    }
}

/// Pulls service ports out of `.env` content: datastore `*_PORT` variables and
/// recognized connection URLs.
pub fn services_from_env(contents: &str, source: &str) -> (r: Vec<DetectedService>)
    ensures
        services_view(r@) == env_services_of(lines(contents@), source@),
{
    let v = chars_of(contents);
    let n = v.len();
    let mut services: Vec<DetectedService> = Vec::new();
    let mut p: usize = 0;
    assert(v@.skip(0) =~= v@);
    while p < n
        invariant
            p <= n == v@.len(),
            v@ == contents@,
            env_services_of(lines(contents@), source@) == services_view(services@)
                + env_services_of(lines(v@.skip(p as int)), source@),
        decreases n - p,
    {
        let (e, next) = next_line(&v, p);
        let ghost rest = lines(v@.skip(next as int));
        let ghost ls = lines(v@.skip(p as int));
        assert(ls.drop_first() =~= rest);
        let ghost before = services@;
        match env_assignment_in(&v, p, e) {
            Some((a, b, c, d)) => {
                if mentions_port_in(&v, a, b) && datastore_in(&v, a, b) {
                    match port_in(&v, c, d) {
                        Some(port) => {
                            services.push(
                                DetectedService {
                                    port,
                                    name: label_in(&v, a, b),
                                    source: source.to_owned(),
                                },
                            );
                        },
                        None => {},
                    }
                } else {
                    match url_in(&v, c, d) {
                        Some((name, port)) => {
                            services.push(DetectedService { port, name, source: source.to_owned() });
                        },
                        None => {},
                    }
                }
            },
            None => {},
        }
        assert(services_view(services@) =~= services_view(before) + opt_seq(
            env_line_service(ls[0], source@),
        ));
        p = next;
    }
    assert(v@.skip(n as int) =~= Seq::<char>::empty());
    assert(services_view(services@) + env_services_of(lines(v@.skip(n as int)), source@)
        =~= services_view(services@));
    services
}

/// The port that token `i` of a command's tokens `ts` sets, if any: `KEY=VALUE`
/// tokens whose key is a port flag or names a port (`--port=3000`, `PORT=3000`)
/// but names no datastore (`DATABASE_PORT=5432` sets none), and port flags
/// followed by a value token (`--port 3000`, `-p 3000`).
pub open spec fn token_port(ts: Seq<Seq<char>>, i: int) -> Option<u16> {
    let t = ts[i];
    let k = find_char(t, '=');
    if k < t.len() {
        let key = t.take(k);
        if (port_flag(key) || mentions_port(key)) && !names_datastore(key) {
            parsed_port(t.skip(k + 1))
        } else {
            None
        }
    } else if port_flag(t) && i + 1 < ts.len() {
        parsed_port(ts[i + 1])
    } else {
        None
    }
}

/// The ports that the first `n` tokens of `ts` set, in order.
pub open spec fn token_ports(ts: Seq<Seq<char>>, n: int) -> Seq<u16>
    decreases n,
{
    if n <= 0 {
        seq![]
    } else {
        token_ports(ts, n - 1) + opt_seq(token_port(ts, n - 1))
    }
}

/// The ports a shell command sets, over its whitespace-separated tokens.
pub open spec fn command_ports(command: Seq<char>) -> Seq<u16> {
    token_ports(words(command), words(command).len() as int)
}

/// The texts of the ranges `toks` of `v`.
pub open spec fn ranges_view(v: Seq<char>, toks: Seq<(usize, usize)>) -> Seq<Seq<char>> {
    Seq::new(toks.len(), |i: int| v.subrange(toks[i].0 as int, toks[i].1 as int))
}

/// The bounds in `v` of the whitespace-separated words of `v[lo..hi]`.
pub fn word_ranges(v: &Vec<char>, lo: usize, hi: usize) -> (r: Vec<(usize, usize)>)
    requires
        lo <= hi <= v@.len(),
    ensures
        ranges_view(v@, r@) == words(v@.subrange(lo as int, hi as int)),
        forall|i: int| 0 <= i < r@.len() ==> lo <= (#[trigger] r@[i]).0 <= r@[i].1 <= hi,
{
    let mut toks: Vec<(usize, usize)> = Vec::new();
    let mut p = lo;
    loop
        invariant
            lo <= p <= hi <= v@.len(),
            words(v@.subrange(lo as int, hi as int)) == ranges_view(v@, toks@) + words(
                v@.subrange(p as int, hi as int),
            ),
            forall|i: int| 0 <= i < toks@.len() ==> lo <= (#[trigger] toks@[i]).0 <= toks@[i].1 <= hi,
        decreases hi - p,
    {
        match next_word(v, p, hi) {
            None => {
                assert(ranges_view(v@, toks@) + Seq::<Seq<char>>::empty() =~= ranges_view(v@, toks@));
                return toks;
            },
            Some((a, b)) => {
                let ghost before = toks@;
                toks.push((a, b));
                assert(ranges_view(v@, toks@) =~= ranges_view(v@, before).push(
                    v@.subrange(a as int, b as int),
                ));
                assert(ranges_view(v@, before) + words(v@.subrange(p as int, hi as int))
                    =~= ranges_view(v@, toks@) + words(v@.subrange(b as int, hi as int)));
                p = b;
            },
        }
    }
}

/// Scans a shell command string for ports specified as flags (`--port`, `-p`)
/// or inline env assignments (`PORT=3000`); assignments to datastore keys
/// (`DATABASE_PORT=5432`) are skipped, as in `.env` files.
pub fn ports_from_command(command: &str) -> (r: Vec<u16>)
    ensures
        r@ == command_ports(command@),
{
    let v = chars_of(command);
    let toks = word_ranges(&v, 0, v.len());
    let ghost ts = words(command@);
    let mut ports: Vec<u16> = Vec::new();
    let mut i: usize = 0;
    while i < toks.len()
        invariant
            v@ == command@,
            ts == words(command@),
            ranges_view(v@, toks@) == ts,
            forall|j: int| 0 <= j < toks@.len() ==> 0 <= (#[trigger] toks@[j]).0 <= toks@[j].1 <= v@.len(),
            i <= toks@.len(),
            ports@ == token_ports(ts, i as int),
        decreases toks@.len() - i,
    {
        let (a, b) = toks[i];
        assert(ts[i as int] == v@.subrange(a as int, b as int));
        let ghost before = ports@;
        let k = find_char_in(&v, a, b, '=');
        if k < b {
            let ghost t = ts[i as int];
            assert(t.take(k - a) =~= v@.subrange(a as int, k as int));
            assert(t.skip(k - a + 1) =~= v@.subrange(k + 1, b as int));
            if (port_flag_in(&v, a, k) || mentions_port_in(&v, a, k)) && !datastore_in(&v, a, k) {
                match port_in(&v, k + 1, b) {
                    Some(port) => ports.push(port),
                    None => {},
                }
            }
        } else if port_flag_in(&v, a, b) && i + 1 < toks.len() {
            let (c, d) = toks[i + 1];
            assert(ts[i + 1] == v@.subrange(c as int, d as int));
            match port_in(&v, c, d) {
                Some(port) => ports.push(port),
                None => {},
            }
        }
        assert(ports@ =~= before + opt_seq(token_port(ts, i as int)));
        i = i + 1;
    }
    ports
}

/// The path syntax of the platform the tool runs on.
#[derive(Clone, Copy)]
pub enum PathStyle {
    /// Components separated by `/`.
    Unix,
    /// Components separated by `/` or `\\`.
    Windows,
}

/// The class of a path style's separators.
pub open spec fn separators(style: PathStyle) -> CharClass {
    match style {
        PathStyle::Unix => CharClass::Slash,
        PathStyle::Windows => CharClass::SlashOrBackslash,
    }
}

/// The separators of a path style.
fn separators_of(style: PathStyle) -> (r: CharClass)
    ensures
        r == separators(style),
{
    match style {
        PathStyle::Unix => CharClass::Slash,
        PathStyle::Windows => CharClass::SlashOrBackslash,
    }
}

/// A path component that `Components::as_path` drops at either end: empty or `.`.
pub open spec fn is_blank_component(comp: Seq<char>) -> bool {
    comp.len() == 0 || comp == seq!['.']
}

/// `s` without its leading empty and `.` components and their separators.
pub open spec fn trim_front_components(sep: CharClass, s: Seq<char>) -> Seq<char>
    decreases s.len(),
{
    if s.len() == 0 {
        s
    } else {
        let k = find_class(sep, s);
        if is_blank_component(s.take(k)) {
            if k >= s.len() {
                seq![]
            } else {
                proof {
                    lemma_find_class_bounds(sep, s);
                }
                trim_front_components(sep, s.skip(k + 1))
            }
        } else {
            s
        }
    }
}

/// `s` without its trailing empty and `.` components and their separators.
pub open spec fn trim_back_components(sep: CharClass, s: Seq<char>) -> Seq<char>
    decreases s.len(),
{
    if s.len() == 0 {
        s
    } else {
        let j = rfind_class(sep, s);
        if is_blank_component(s.skip(j + 1)) {
            if j < 0 {
                seq![]
            } else {
                proof {
                    lemma_rfind_class_bounds(sep, s);
                }
                trim_back_components(sep, s.take(j))
            }
        } else {
            s
        }
    }
}

/// Whether `p` begins with the current-directory component `.`.
pub open spec fn starts_with_cur_dir(sep: CharClass, p: Seq<char>) -> bool {
    p.len() > 0 && p[0] == '.' && (p.len() == 1 || in_class(sep, p[1]))
}

/// How a scanned path is displayed in a given path syntax: a path that begins
/// with the current-directory component `.` loses it (`Path::strip_prefix(".")`),
/// together with the empty and `.` components at either end of what remains;
/// any other path is shown as it is.
pub open spec fn displayed_path(p: Seq<char>, style: PathStyle) -> Seq<char> {
    let sep = separators(style);
    if starts_with_cur_dir(sep, p) {
        trim_back_components(sep, trim_front_components(sep, p.drop_first()))
    } else {
        p
    }
}

/// Whether `v[lo..hi]` is an empty or `.` component.
fn blank_component_in(v: &Vec<char>, lo: usize, hi: usize) -> (r: bool)
    requires
        lo <= hi <= v@.len(),
    ensures
        r == is_blank_component(v@.subrange(lo as int, hi as int)),
{
    if lo == hi {
        true
    } else if hi == lo + 1 && v[lo] == '.' {
        assert(v@.subrange(lo as int, hi as int) =~= seq!['.']);
        true
    } else {
        assert(v@.subrange(lo as int, hi as int).len() != 1 ==> v@.subrange(lo as int, hi as int)
            != seq!['.']);
        assert(v@.subrange(lo as int, hi as int).len() == 1 ==> v@.subrange(lo as int, hi as int)[0]
            != '.');
        false
    }
}

/// Renders a scanned path for display in the platform's path syntax, dropping
/// the leading `./` current-dir component so sources read like `apps/web/package.json`.
pub fn display_path(path: &str, style: PathStyle) -> (r: String)
    ensures
        r@ == displayed_path(path@, style),
{
    let sep = separators_of(style);
    let v = chars_of(path);
    let n = v.len();
    if !(n > 0 && v[0] == '.' && (n == 1 || class_has(sep, v[1]))) {
        return string_of(&v, 0, n);
    }
    let ghost body = v@.subrange(1, n as int);
    assert(body =~= path@.drop_first());
    let mut p: usize = 1;
    let mut a: usize = n;
    loop
        invariant
            1 <= p <= n == v@.len(),
            v@ == path@,
            sep == separators(style),
            body == v@.subrange(1, n as int),
            trim_front_components(sep, body) == trim_front_components(
                sep,
                v@.subrange(p as int, n as int),
            ),
        ensures
            1 <= a <= n,
            trim_front_components(sep, body) == v@.subrange(a as int, n as int),
        decreases n - p,
    {
        if p == n {
            a = n;
            break;
        }
        let ghost s = v@.subrange(p as int, n as int);
        let k = find_class_in(sep, &v, p, n);
        assert(s.take(k - p) =~= v@.subrange(p as int, k as int));
        if blank_component_in(&v, p, k) {
            if k == n {
                a = n;
                assert(v@.subrange(n as int, n as int) =~= Seq::<char>::empty());
                break;
            }
            assert(s.skip(k - p + 1) =~= v@.subrange(k + 1, n as int));
            p = k + 1;
        } else {
            a = p;
            break;
        }
    }
    let mut q: usize = n;
    loop
        invariant
            1 <= a <= q <= n == v@.len(),
            v@ == path@,
            sep == separators(style),
            trim_back_components(sep, trim_front_components(sep, body)) == trim_back_components(
                sep,
                v@.subrange(a as int, q as int),
            ),
        ensures
            a <= q <= n,
            trim_back_components(sep, trim_front_components(sep, body)) == v@.subrange(
                a as int,
                q as int,
            ),
        decreases q - a,
    {
        if q == a {
            break;
        }
        let ghost s = v@.subrange(a as int, q as int);
        match rfind_class_in(sep, &v, a, q) {
            None => {
                assert(s.skip(0) =~= s);
                if blank_component_in(&v, a, q) {
                    q = a;
                    assert(v@.subrange(a as int, a as int) =~= Seq::<char>::empty());
                    break;
                } else {
                    break;
                }
            },
            Some(j) => {
                assert(s.skip(j - a + 1) =~= v@.subrange(j + 1, q as int));
                if blank_component_in(&v, j + 1, q) {
                    assert(s.take(j - a) =~= v@.subrange(a as int, j as int));
                    q = j;
                } else {
                    break;
                }
            },
        }
    }
    string_of(&v, a, q)
}

/// `.env` files scanned in every directory, in priority order.
pub open spec fn env_file_names() -> Seq<Seq<char>> {
    seq![".env"@, ".env.local"@, ".env.development"@, ".env.development.local"@]
}

/// The `.env` files scanned in every directory, in priority order.
pub fn env_files() -> (r: Vec<&'static str>)
    ensures
        r@.map_values(|f: &str| f@) == env_file_names(),
{
    let r = vec![".env", ".env.local", ".env.development", ".env.development.local"];
    assert(r@.map_values(|f: &str| f@) =~= env_file_names());
    r
}

/// Directory names never descended into: dependency trees, build output, VCS metadata.
pub open spec fn skipped_dir_names() -> Seq<Seq<char>> {
    seq![
        "node_modules"@,
        "target"@,
        "dist"@,
        "build"@,
        "out"@,
        "coverage"@,
        "vendor"@,
        ".git"@,
    ]
}

/// How deep the scan recurses below the project directory.
pub const MAX_DEPTH: usize = 6;

/// A directory is skipped when its name is hidden (starts with `.`) or is one of
/// [`skipped_dir_names`].
pub open spec fn skipped_dir(name: Seq<char>) -> bool {
    (name.len() > 0 && name[0] == '.') || skipped_dir_names().contains(name)
}

/// Whether the scan skips a subdirectory called `name` (hidden, dependency,
/// build or VCS directories).
pub fn is_skipped_dir(name: &str) -> (r: bool)
    ensures
        r == skipped_dir(name@),
{
    let v = chars_of(name);
    let n = v.len();
    if n > 0 && v[0] == '.' {
        return true;
    }
    let names = vec![
        "node_modules",
        "target",
        "dist",
        "build",
        "out",
        "coverage",
        "vendor",
        ".git",
    ];
    assert(names@.map_values(|f: &str| f@) =~= skipped_dir_names());
    let mut i: usize = 0;
    while i < names.len()
        invariant
            v@ == name@,
            n == v@.len(),
            names@.len() == 8,
            names@.map_values(|f: &str| f@) == skipped_dir_names(),
            i <= 8,
            forall|j: int| 0 <= j < i ==> skipped_dir_names()[j] != name@,
        decreases 8 - i,
    {
        if range_eq(&v, 0, n, &chars_of(names[i])) {
            assert(skipped_dir_names()[i as int] == name@);
            return true;
        }
        i = i + 1;
    }
    assert(!skipped_dir_names().contains(name@));
    false
}

/// Whether the scan goes on below a directory found at `depth` (the project
/// directory is at depth 0).
pub fn descends_below(depth: usize) -> (r: bool)
    ensures
        r == (depth < MAX_DEPTH),
{
    depth < MAX_DEPTH
}

/// The ports that an `.env` file's contents assign, each with the file as its source.
pub fn env_file_ports(contents: &str, source: &str) -> (r: Vec<DetectedPort>)
    ensures
        ports_view(r@) == env_ports_of(lines(contents@)).map_values(|p: u16| (p, source@)),
{
    let ports = ports_from_env(contents);
    let mut r: Vec<DetectedPort> = Vec::new();
    let mut i: usize = 0;
    while i < ports.len()
        invariant
            i <= ports@.len(),
            ports_view(r@) == ports@.take(i as int).map_values(|p: u16| (p, source@)),
        decreases ports@.len() - i,
    {
        let ghost before = r@;
        let d = DetectedPort { port: ports[i], source: source.to_owned() };
        assert(d@ == (ports@[i as int], source@));
        r.push(d);
        assert(ports_view(r@) =~= ports_view(before).push(d@));
        assert(ports@.take(i + 1) =~= ports@.take(i as int).push(ports@[i as int]));
        assert(ports_view(r@) =~= ports@.take(i + 1).map_values(|p: u16| (p, source@)));
        i = i + 1;
    }
    assert(ports@.take(ports@.len() as int) =~= ports@);
    r
}

/// The strings among the values of the entries `es`, in order.
pub open spec fn string_values(es: Seq<(String, JsonValue)>) -> Seq<Seq<char>>
    decreases es.len(),
{
    if es.len() == 0 {
        seq![]
    } else {
        let rest = string_values(es.drop_first());
        match es[0].1 {
            JsonValue::Str(s) => seq![s@] + rest,
            _ => rest,
        }
    }
}

/// The script commands of a `package.json`: the string values of its `scripts` object.
pub open spec fn script_commands(json: JsonValue) -> Seq<Seq<char>> {
    match json_get(json, "scripts"@) {
        Some(JsonValue::Object(es)) => string_values(es@),
        _ => seq![],
    }
}

/// The ports that a list of commands sets, command by command.
pub open spec fn commands_ports(cmds: Seq<Seq<char>>) -> Seq<u16>
    decreases cmds.len(),
{
    if cmds.len() == 0 {
        seq![]
    } else {
        command_ports(cmds[0]) + commands_ports(cmds.drop_first())
    }
}

/// Whether a `package.json` lists `name` among its `dependencies` or `devDependencies`.
pub open spec fn has_dependency(json: JsonValue, name: Seq<char>) -> bool {
    ||| json_get(json, "dependencies"@) matches Some(JsonValue::Object(es)) && has_key(es@, name)
    ||| json_get(json, "devDependencies"@) matches Some(JsonValue::Object(es)) && has_key(es@, name)
}

/// Well-known frameworks and the port their dev server uses by default, from
/// most specific to most generic so meta-frameworks win over plain Vite.
pub open spec fn frameworks() -> Seq<(Seq<char>, Seq<char>, u16)> {
    seq![
        ("next"@, "Next.js"@, 3000u16),
        ("nuxt"@, "Nuxt"@, 3000u16),
        ("@angular/cli"@, "Angular"@, 4200u16),
        ("react-scripts"@, "Create React App"@, 3000u16),
        ("@vue/cli-service"@, "Vue CLI"@, 8080u16),
        ("gatsby"@, "Gatsby"@, 8000u16),
        ("@remix-run/dev"@, "Remix"@, 3000u16),
        ("astro"@, "Astro"@, 4321u16),
        ("@sveltejs/kit"@, "SvelteKit"@, 5173u16),
        ("vite"@, "Vite"@, 5173u16),
    ]
}

/// The label and default port of the first framework of [`frameworks`], from
/// index `i` on, that the project depends on.
pub open spec fn framework_from(json: JsonValue, i: nat) -> Option<(Seq<char>, u16)>
    decreases frameworks().len() - i,
{
    if i >= frameworks().len() {
        None
    } else if has_dependency(json, frameworks()[i as int].0) {
        Some((frameworks()[i as int].1, frameworks()[i as int].2))
    } else {
        framework_from(json, i + 1)
    }
}

/// The ports of a `package.json`, each with its source: the ports its scripts set,
/// or, when they set none, the default port of the framework it depends on.
pub open spec fn package_ports(json: JsonValue, source: Seq<char>) -> Seq<(u16, Seq<char>)> {
    let explicit = commands_ports(script_commands(json));
    if explicit.len() == 0 {
        match framework_from(json, 0) {
            Some((label, port)) => seq![(port, label + " default ("@ + source + ")"@)],
            None => seq![],
        }
    } else {
        explicit.map_values(|p: u16| (p, source))
    }
}

/// Whether the object `section` of `json` holds the key `name`.
fn section_has(json: &JsonValue, section: &str, name: &str) -> (r: bool)
    ensures
        r == (json_get(*json, section@) matches Some(JsonValue::Object(es)) && has_key(es@, name@)),
{
    match json_get_exec(json, section) {
        Some(JsonValue::Object(es)) => has_key_exec(es, name),
        _ => false,
    }
}

/// Returns the `(label, default_port)` of the first known framework listed in the
/// project's `dependencies` or `devDependencies`, or `None` if none match.
pub fn framework_default(json: &JsonValue) -> (r: Option<(&'static str, u16)>)
    ensures
        match r {
            None => framework_from(*json, 0) is None,
            Some((label, port)) => framework_from(*json, 0) == Some((label@, port)),
        },
{
    let table = vec![
        ("next", "Next.js", 3000u16),
        ("nuxt", "Nuxt", 3000u16),
        ("@angular/cli", "Angular", 4200u16),
        ("react-scripts", "Create React App", 3000u16),
        ("@vue/cli-service", "Vue CLI", 8080u16),
        ("gatsby", "Gatsby", 8000u16),
        ("@remix-run/dev", "Remix", 3000u16),
        ("astro", "Astro", 4321u16),
        ("@sveltejs/kit", "SvelteKit", 5173u16),
        ("vite", "Vite", 5173u16),
    ];
    assert forall|j: int| 0 <= j < 10 implies (#[trigger] table@[j]).0@ == frameworks()[j].0
        && table@[j].1@ == frameworks()[j].1 && table@[j].2 == frameworks()[j].2 by {}
    let mut t: usize = 0;
    while t < table.len()
        invariant
            table@.len() == 10,
            t <= 10,
            forall|j: int| 0 <= j < 10 ==> (#[trigger] table@[j]).0@ == frameworks()[j].0
                && table@[j].1@ == frameworks()[j].1 && table@[j].2 == frameworks()[j].2,
            framework_from(*json, 0) == framework_from(*json, t as nat),
        decreases 10 - t,
    {
        if section_has(json, "dependencies", table[t].0) || section_has(
            json,
            "devDependencies",
            table[t].0,
        ) {
            return Some((table[t].1, table[t].2));
        }
        t = t + 1;
    }
    None
}

/// The ports of a `package.json` document, each with `source`.
///
/// First scans every `scripts` value for explicit ports (`next dev -p 3000`,
/// `vite --port=5173`, `cross-env PORT=4000 …`). If the scripts pin no port, it
/// falls back to the default port of whichever framework the project depends on
/// — so a plain `"dev": "next dev"` still yields 3000.
pub fn ports_from_package_value(json: &JsonValue, source: &str) -> (r: Vec<DetectedPort>)
    ensures
        ports_view(r@) == package_ports(*json, source@),
{
    let mut explicit: Vec<u16> = Vec::new();
    let ghost cmds = script_commands(*json);
    match json_get_exec(json, "scripts") {
        Some(JsonValue::Object(es)) => {
            let mut i: usize = 0;
            assert(es@.skip(0) =~= es@);
            while i < es.len()
                invariant
                    i <= es@.len(),
                    cmds == string_values(es@),
                    commands_ports(cmds) == explicit@ + commands_ports(
                        string_values(es@.skip(i as int)),
                    ),
                decreases es@.len() - i,
            {
                let ghost rest = es@.skip(i + 1);
                assert(es@.skip(i as int).drop_first() =~= rest);
                assert(es@.skip(i as int)[0] == es@[i as int]);
                match &es[i].1 {
                    JsonValue::Str(command) => {
                        let found = ports_from_command(command.as_str());
                        let ghost before = explicit@;
                        let mut found_mut = found;
                        explicit.append(&mut found_mut);
                        assert(explicit@ == before + command_ports(command@));
                        let ghost sv = seq![command@] + string_values(rest);
                        assert(string_values(es@.skip(i as int)) == sv);
                        assert(sv[0] == command@);
                        assert(sv.drop_first() =~= string_values(rest));
                        assert(commands_ports(sv) == command_ports(command@) + commands_ports(
                            string_values(rest),
                        ));
                        assert(before + commands_ports(sv) =~= explicit@ + commands_ports(
                            string_values(rest),
                        ));
                    },
                    _ => {},
                }
                i = i + 1;
            }
            assert(es@.skip(es@.len() as int) =~= Seq::<(String, JsonValue)>::empty());
            assert(explicit@ + Seq::<u16>::empty() =~= explicit@);
        },
        _ => {},
    }
    assert(explicit@ == commands_ports(cmds));
    let mut found: Vec<DetectedPort> = Vec::new();
    if explicit.len() == 0 {
        match framework_default(json) {
            Some((label, port)) => {
                let mut text = label.to_owned();
                text.append(" default (");
                text.append(source);
                text.append(")");
                found.push(DetectedPort { port, source: text });
                assert(ports_view(found@) =~= package_ports(*json, source@));
            },
            None => {},
        }
    } else {
        let mut i: usize = 0;
        while i < explicit.len()
            invariant
                i <= explicit@.len(),
                ports_view(found@) == explicit@.take(i as int).map_values(|p: u16| (p, source@)),
            decreases explicit@.len() - i,
        {
            let ghost before = found@;
            let d = DetectedPort { port: explicit[i], source: source.to_owned() };
            found.push(d);
            assert(ports_view(found@) =~= ports_view(before).push(d@));
            assert(explicit@.take(i + 1) =~= explicit@.take(i as int).push(explicit@[i as int]));
            i = i + 1;
        }
        assert(explicit@.take(explicit@.len() as int) =~= explicit@);
    }
    found
}

/// Extracts ports from the text of a `package.json`; a text that is not JSON yields none.
pub fn ports_from_package_json(contents: &str, source: &str) -> (r: Vec<DetectedPort>)
    ensures
        ports_view(r@) == match json_of_text(contents@) {
            None => Seq::<(u16, Seq<char>)>::empty(),
            Some(json) => package_ports(json, source@),
        },
{
    match parse_json(contents) {
        None => Vec::new(),
        Some(json) => ports_from_package_value(&json, source),
    }
}

/// A project file as it was read: its displayed path, and its text when it
/// could be read.
pub struct ReadFile {
    pub source: String,
    pub contents: Option<String>,
}

/// The ports, each with its source, that one `.env*` file assigns.
pub open spec fn env_file_detections(f: ReadFile) -> Seq<(u16, Seq<char>)> {
    match f.contents {
        None => seq![],
        Some(c) => env_ports_of(lines(c@)).map_values(|p: u16| (p, f.source@)),
    }
}

/// The ports that a list of `.env*` files assign, file after file.
pub open spec fn env_files_detections(fs: Seq<ReadFile>) -> Seq<(u16, Seq<char>)>
    decreases fs.len(),
{
    if fs.len() == 0 {
        seq![]
    } else {
        env_files_detections(fs.drop_last()) + env_file_detections(fs.last())
    }
}

/// The ports that a `package.json` file gives, each with its source.
pub open spec fn package_file_detections(f: ReadFile) -> Seq<(u16, Seq<char>)> {
    match f.contents {
        None => seq![],
        Some(c) => match json_of_text(c@) {
            None => seq![],
            Some(json) => package_ports(json, f.source@),
        },
    }
}

/// The backing services that one `.env*` file names.
pub open spec fn env_file_services(f: ReadFile) -> Seq<(u16, Seq<char>, Seq<char>)> {
    match f.contents {
        None => seq![],
        Some(c) => env_services_of(lines(c@), f.source@),
    }
}

/// The backing services that a list of `.env*` files name, file after file.
pub open spec fn env_files_services(fs: Seq<ReadFile>) -> Seq<(u16, Seq<char>, Seq<char>)>
    decreases fs.len(),
{
    if fs.len() == 0 {
        seq![]
    } else {
        env_files_services(fs.drop_last()) + env_file_services(fs.last())
    }
}

/// The ports that one directory of the project configures: those of its
/// `.env*` files (given in the order of [`env_files`]), then those of its
/// `package.json`.
pub fn directory_ports(env: &Vec<ReadFile>, package_json: &ReadFile) -> (r: Vec<DetectedPort>)
    ensures
        ports_view(r@) == env_files_detections(env@) + package_file_detections(*package_json),
{
    let mut found: Vec<DetectedPort> = Vec::new();
    let mut i: usize = 0;
    while i < env.len()
        invariant
            i <= env@.len(),
            ports_view(found@) == env_files_detections(env@.take(i as int)),
        decreases env@.len() - i,
    {
        let ghost before = found@;
        let f = &env[i];
        match &f.contents {
            Some(c) => {
                let mut more = env_file_ports(c.as_str(), f.source.as_str());
                found.append(&mut more);
            },
            None => {},
        }
        assert(env@.take(i + 1).drop_last() =~= env@.take(i as int));
        assert(ports_view(found@) =~= env_files_detections(env@.take(i + 1)));
        i = i + 1;
    }
    assert(env@.take(env@.len() as int) =~= env@);
    let ghost before = found@;
    match &package_json.contents {
        Some(c) => {
            let mut more = ports_from_package_json(c.as_str(), package_json.source.as_str());
            found.append(&mut more);
        },
        None => {},
    }
    assert(ports_view(found@) =~= ports_view(before) + package_file_detections(*package_json));
    found
}

/// The backing services that the `.env*` files of one directory name, file
/// after file.
pub fn directory_services(env: &Vec<ReadFile>) -> (r: Vec<DetectedService>)
    ensures
        services_view(r@) == env_files_services(env@),
{
    let mut found: Vec<DetectedService> = Vec::new();
    let mut i: usize = 0;
    while i < env.len()
        invariant
            i <= env@.len(),
            services_view(found@) == env_files_services(env@.take(i as int)),
        decreases env@.len() - i,
    {
        let ghost before = found@;
        let f = &env[i];
        match &f.contents {
            Some(c) => {
                let mut more = services_from_env(c.as_str(), f.source.as_str());
                found.append(&mut more);
            },
            None => {},
        }
        assert(env@.take(i + 1).drop_last() =~= env@.take(i as int));
        assert(services_view(found@) =~= env_files_services(env@.take(i + 1)));
        i = i + 1;
    }
    assert(env@.take(env@.len() as int) =~= env@);
    found
}

/// Trimming blank components from the front leaves an empty path or one whose
/// first component is not blank.
pub proof fn lemma_trim_front_first(sep: CharClass, s: Seq<char>)
    ensures
        trim_front_components(sep, s).len() == 0 || !is_blank_component(
            trim_front_components(sep, s).take(find_class(sep, trim_front_components(sep, s))),
        ),
    decreases s.len(),
{
    if s.len() > 0 {
        let k = find_class(sep, s);
        lemma_find_class_bounds(sep, s);
        if is_blank_component(s.take(k)) && k < s.len() {
            lemma_trim_front_first(sep, s.skip(k + 1));
        }
    }
}

/// Trimming blank components from the back of a path whose first component
/// is not blank keeps a prefix of the path that holds that first component.
pub proof fn lemma_trim_back_keeps_first(sep: CharClass, t: Seq<char>)
    requires
        t.len() == 0 || !is_blank_component(t.take(find_class(sep, t))),
    ensures
        trim_back_components(sep, t).len() <= t.len(),
        trim_back_components(sep, t) == t.take(trim_back_components(sep, t).len() as int),
        t.len() > 0 ==> find_class(sep, t) <= trim_back_components(sep, t).len(),
    decreases t.len(),
{
    lemma_find_class_bounds(sep, t);
    if t.len() == 0 {
        assert(t.take(0) =~= t);
    } else {
        let k = find_class(sep, t);
        let j = rfind_class(sep, t);
        lemma_rfind_class_bounds(sep, t);
        if is_blank_component(t.skip(j + 1)) {
            if j < 0 {
                assert(k == t.len()) by {
                    if k < t.len() {
                        assert(in_class(sep, t[k]));
                    }
                }
                assert(t.skip(0) =~= t.take(k));
            } else {
                assert(k <= j) by {
                    if j < k {
                        assert(!in_class(sep, t[j]));
                    }
                }
                let u = t.take(j);
                assert forall|i: int| 0 <= i < k implies !in_class(sep, #[trigger] u[i]) by {
                    assert(u[i] == t[i]);
                }
                lemma_find_class(sep, u, k);
                assert(u.take(k) =~= t.take(k));
                lemma_trim_back_keeps_first(sep, u);
                let r = trim_back_components(sep, u);
                assert(r =~= t.take(r.len() as int));
            }
        } else {
            assert(t.take(t.len() as int) =~= t);
        }
    }
}

/// Displaying a path twice shows it as displaying it once does, in either path syntax.
pub proof fn display_path_idempotent(p: Seq<char>, style: PathStyle)
    ensures
        displayed_path(displayed_path(p, style), style) == displayed_path(p, style),
{
    let sep = separators(style);
    if starts_with_cur_dir(sep, p) {
        let t = trim_front_components(sep, p.drop_first());
        lemma_trim_front_first(sep, p.drop_first());
        lemma_trim_back_keeps_first(sep, t);
        let r = trim_back_components(sep, t);
        if starts_with_cur_dir(sep, r) {
            let k = find_class(sep, t);
            lemma_find_class_bounds(sep, t);
            assert(t[0] == '.');
            if k == 1 {
                assert(t.take(k) =~= seq!['.']);
            } else {
                assert(k >= 2) by {
                    if k == 0 {
                        assert(in_class(sep, t[0]));
                    }
                }
                assert(r[1] == t[1]);
                assert(!in_class(sep, t[1]));
            }
        }
    }
}

/// A valid port is never zero, and only a string of digits (after an optional
/// `+`) is one.
pub proof fn lemma_parsed_port_digits(s: Seq<char>)
    requires
        parsed_port(s) is Some,
    ensures
        parsed_port(s)->0 != 0,
        forall|i: int| 0 <= i < s.len() ==> (s[i] == '+' || ('0' <= #[trigger] s[i] && s[i] <= '9')),
{
    let d = if s.len() > 0 && s[0] == '+' {
        s.drop_first()
    } else {
        s
    };
    assert(all_digits(d));
    assert forall|i: int| 0 <= i < s.len() implies (s[i] == '+' || ('0' <= #[trigger] s[i] && s[i]
        <= '9')) by {
        if s.len() > 0 && s[0] == '+' && i > 0 {
            assert(s[i] == d[i - 1]);
        } else if !(s.len() > 0 && s[0] == '+') {
            assert(s[i] == d[i]);
        }
    }
}

/// `parse_port` reads back the decimal text of a port (`p.to_string()`), and
/// refuses `0`; whatever it accepts is non-zero and is what `str::parse::<u16>`
/// reads.
pub proof fn parse_port_reads_decimal_text(p: u16, s: Seq<char>)
    ensures
        parsed_port(decimal_text(p as nat)) == (if p == 0 {
            None
        } else {
            Some(p)
        }),
        parsed_port(s) matches Some(q) ==> q != 0 && parse_u16(s) == Some(q),
{
    lemma_decimal_text(p as nat);
    let t = decimal_text(p as nat);
    assert(is_digit(t[0]));
}

/// A valid port is not a connection URL.
pub proof fn lemma_port_is_not_url(v: Seq<char>)
    requires
        parsed_port(v) is Some,
    ensures
        url_service(v) is None,
{
    lemma_parsed_port_digits(v);
    reveal_strlit("://");
    assert forall|j: int| !occurs_at(v, "://"@, j) by {
        if occurs_at(v, "://"@, j) {
            assert(v.subrange(j, j + 3)[0] == v[j]);
            assert(v[j] == ':');
        }
    }
    lemma_find_seq_none(v, "://"@);
}

/// Detection never touches a datastore: an env line whose key names a
/// datastore (`DATABASE_PORT`, `REDIS_PORT`, `MONGO_URL`, …) yields no project port.
pub proof fn datastore_keys_yield_no_port(line: Seq<char>)
    requires
        env_assignment(line) matches Some((key, value)) && names_datastore(key),
    ensures
        env_line_port(line) is None,
{
}

/// A connection URL is never taken for a project port: an env line whose value
/// is a URL (`DATABASE_URL=postgres://…:5432/db`) yields no project port.
pub proof fn url_values_yield_no_port(line: Seq<char>)
    requires
        env_assignment(line) matches Some((key, value)) && url_service(value) is Some,
    ensures
        env_line_port(line) is None,
{
    let (key, value) = env_assignment(line)->0;
    if parsed_port(value) is Some {
        lemma_port_is_not_url(value);
    }
}

/// Ports to free and services to verify never overlap: an env line that yields
/// a project port yields no backing service, whatever its source.
pub proof fn project_port_lines_name_no_service(line: Seq<char>, source: Seq<char>)
    requires
        env_line_port(line) is Some,
    ensures
        env_line_service(line, source) is None,
{
    let (key, value) = env_assignment(line)->0;
    lemma_port_is_not_url(value);
}

/// The text of the assignment line `key=value`.
pub open spec fn assignment_text(key: Seq<char>, value: Seq<char>) -> Seq<char> {
    key + seq!['='] + value
}

/// A line `key=value` whose key is a plain word (no whitespace, no `=`, no
/// leading `#`) and whose value is a word without quotes is one line, and it
/// assigns `value` to `key`.
pub proof fn lemma_assignment_line(key: Seq<char>, value: Seq<char>)
    requires
        key.len() > 0,
        key[0] != '#',
        forall|j: int| 0 <= j < key.len() ==> !is_space(#[trigger] key[j]) && key[j] != '=',
        value.len() > 0,
        forall|j: int|
            0 <= j < value.len() ==> !is_space(#[trigger] value[j]) && value[j] != '"' && value[j]
                != '\'',
    ensures
        lines(assignment_text(key, value)) == seq![assignment_text(key, value)],
        env_assignment(assignment_text(key, value)) == Some((key, value)),
{
    let line = assignment_text(key, value);
    let k = key.len() as int;
    assert forall|j: int| 0 <= j < line.len() implies !in_class(
        CharClass::Space,
        #[trigger] line[j],
    ) by {
        if j < k {
            assert(line[j] == key[j]);
        } else if j > k {
            assert(line[j] == value[j - k - 1]);
        }
    }
    lemma_trim_clean(CharClass::Space, line);
    assert forall|j: int| 0 <= j < line.len() implies #[trigger] line[j] != '\n' by {
        assert(!in_class(CharClass::Space, line[j]));
    }
    lemma_find_char(line, '\n', line.len() as int);
    reveal_strlit("export ");
    if line.len() >= 7 {
        assert(line.take(7)[6] == line[6]);
        assert(!in_class(CharClass::Space, line[6]));
        assert(line.take(7) != "export "@);
    }
    assert(line[0] == key[0]);
    assert forall|j: int| 0 <= j < k implies #[trigger] line[j] != '=' by {
        assert(line[j] == key[j]);
    }
    lemma_find_char(line, '=', k);
    assert(line.take(k) =~= key);
    assert(line.skip(k + 1) =~= value);
    assert forall|j: int| 0 <= j < key.len() implies !in_class(CharClass::Space, #[trigger] key[j]) by {}
    lemma_trim_clean(CharClass::Space, key);
    lemma_single_word(value);
    assert forall|j: int| 0 <= j < value.len() implies !in_class(
        CharClass::Quote,
        #[trigger] value[j],
    ) by {}
    lemma_trim_clean(CharClass::Quote, value);
}

/// A port assignment `key=p` in `.env` content (`PORT=3000`,
/// `DATABASE_PORT=5432`) gives exactly one of two things: the project port `p`
/// to free, or the backing service on port `p` to verify, labelled after the
/// key; the service exactly when the key names a datastore.
pub proof fn port_line_is_project_port_or_service(key: Seq<char>, p: u16, source: Seq<char>)
    requires
        key.len() > 0,
        key[0] != '#',
        forall|j: int| 0 <= j < key.len() ==> !is_space(#[trigger] key[j]) && key[j] != '=',
        mentions_port(key),
        p != 0,
    ensures
        names_datastore(key) ==> env_ports_of(
            lines(assignment_text(key, decimal_text(p as nat))),
        ) == Seq::<u16>::empty() && env_services_of(
            lines(assignment_text(key, decimal_text(p as nat))),
            source,
        ) == seq![(p, label_of(key), source)],
        !names_datastore(key) ==> env_ports_of(
            lines(assignment_text(key, decimal_text(p as nat))),
        ) == seq![p] && env_services_of(
            lines(assignment_text(key, decimal_text(p as nat))),
            source,
        ) == Seq::<(u16, Seq<char>, Seq<char>)>::empty(),
{
    let value = decimal_text(p as nat);
    lemma_decimal_text(p as nat);
    assert forall|j: int| 0 <= j < value.len() implies !is_space(#[trigger] value[j]) && value[j]
        != '"' && value[j] != '\'' by {
        assert(is_digit(value[j]));
    }
    lemma_assignment_line(key, value);
    parse_port_reads_decimal_text(p, value);
    let line = assignment_text(key, value);
    let ls = lines(line);
    assert(ls[0] == line);
    assert(ls.drop_first() =~= Seq::<Seq<char>>::empty());
    assert(env_ports_of(ls.drop_first()) =~= Seq::<u16>::empty());
    assert(env_services_of(ls.drop_first(), source) =~= Seq::<(u16, Seq<char>, Seq<char>)>::empty());
    if !names_datastore(key) {
        lemma_port_is_not_url(value);
    }
    assert(env_ports_of(ls) =~= opt_seq(env_line_port(line)));
    assert(env_services_of(ls, source) =~= opt_seq(env_line_service(line, source)));
}

/// Every project port read from `.env` content comes from an assignment line
/// whose key names a port and no datastore.
pub proof fn env_ports_come_from_project_keys(ls: Seq<Seq<char>>)
    ensures
        forall|i: int|
            0 <= i < env_ports_of(ls).len() ==> exists|j: int|
                0 <= j < ls.len() && env_line_port(#[trigger] ls[j]) == Some(
                    #[trigger] env_ports_of(ls)[i],
                ) && (env_assignment(ls[j]) matches Some((key, value)) && mentions_port(key)
                    && !names_datastore(key)),
    decreases ls.len(),
{
    if ls.len() > 0 {
        let rest = ls.drop_first();
        env_ports_come_from_project_keys(rest);
        let head = opt_seq(env_line_port(ls[0]));
        let all = env_ports_of(ls);
        assert forall|i: int| 0 <= i < all.len() implies exists|j: int|
            0 <= j < ls.len() && env_line_port(#[trigger] ls[j]) == Some(#[trigger] all[i]) && (
            env_assignment(ls[j]) matches Some((key, value)) && mentions_port(key)
                && !names_datastore(key)) by {
            if i < head.len() {
                assert(all[i] == head[i]);
                assert(env_line_port(ls[0]) == Some(all[i]));
            } else {
                assert(all[i] == env_ports_of(rest)[i - head.len()]);
                let j = choose|j: int|
                    0 <= j < rest.len() && env_line_port(#[trigger] rest[j]) == Some(
                        #[trigger] env_ports_of(rest)[i - head.len()],
                    ) && (env_assignment(rest[j]) matches Some((key, value)) && mentions_port(key)
                        && !names_datastore(key));
                assert(rest[j] == ls[j + 1]);
            }
        }
    }
}

/// Every port read from `.env` content is a valid, non-zero port.
pub proof fn env_ports_are_nonzero(ls: Seq<Seq<char>>)
    ensures
        forall|i: int| 0 <= i < env_ports_of(ls).len() ==> #[trigger] env_ports_of(ls)[i] != 0,
    decreases ls.len(),
{
    if ls.len() > 0 {
        env_ports_are_nonzero(ls.drop_first());
        let head = opt_seq(env_line_port(ls[0]));
        if env_line_port(ls[0]) is Some {
            let (key, value) = env_assignment(ls[0])->0;
            lemma_parsed_port_digits(value);
        }
        let all = env_ports_of(ls);
        assert forall|i: int| 0 <= i < all.len() implies #[trigger] all[i] != 0 by {
            if i >= head.len() {
                assert(all[i] == env_ports_of(ls.drop_first())[i - head.len()]);
            }
        }
    }
}

/// From index `k` on, the framework found is the one at `i` or one before it,
/// when the project depends on the one at `i`.
pub proof fn lemma_framework_from(json: JsonValue, k: nat, i: int)
    requires
        k <= i < frameworks().len(),
        has_dependency(json, frameworks()[i].0),
    ensures
        exists|j: int|
            k <= j <= i && framework_from(json, k) == Some(
                (#[trigger] frameworks()[j].1, frameworks()[j].2),
            ),
    decreases i - k,
{
    if has_dependency(json, frameworks()[k as int].0) {
        assert(framework_from(json, k) == Some((frameworks()[k as int].1, frameworks()[k as int].2)));
    } else {
        lemma_framework_from(json, k + 1, i);
        let j = choose|j: int|
            k + 1 <= j <= i && framework_from(json, k + 1) == Some(
                (#[trigger] frameworks()[j].1, frameworks()[j].2),
            );
        assert(framework_from(json, k) == Some((frameworks()[j].1, frameworks()[j].2)));
    }
}

/// Meta-frameworks win over the tools they build on: when a project depends on
/// the framework at position `i` of [`frameworks`], the default port comes from
/// that framework or from one listed before it.
pub proof fn framework_priority(json: JsonValue, i: int)
    requires
        0 <= i < frameworks().len(),
        has_dependency(json, frameworks()[i].0),
    ensures
        exists|j: int|
            0 <= j <= i && framework_from(json, 0) == Some(
                (#[trigger] frameworks()[j].1, frameworks()[j].2),
            ),
{
    lemma_framework_from(json, 0, i);
}

/// Ports pinned in the scripts override the framework default: when the
/// scripts set any port, every port found names the `package.json` itself.
pub proof fn script_ports_override_default(json: JsonValue, source: Seq<char>)
    requires
        commands_ports(script_commands(json)).len() > 0,
    ensures
        package_ports(json, source).len() == commands_ports(script_commands(json)).len(),
        forall|i: int|
            0 <= i < package_ports(json, source).len() ==> (#[trigger] package_ports(json, source)[i])
                == (commands_ports(script_commands(json))[i], source),
{
}

/// Token `t` assigns to a datastore key (`DATABASE_PORT=5432`, `REDIS_PORT=6379`).
pub open spec fn datastore_assignment(t: Seq<char>) -> bool {
    find_char(t, '=') < t.len() && names_datastore(t.take(find_char(t, '=')))
}

/// Some token of `command` that is not a datastore assignment sets the port `p`.
pub open spec fn set_by_project_token(command: Seq<char>, p: u16) -> bool {
    exists|j: int|
        0 <= j < words(command).len() && token_port(words(command), j) == Some(p)
            && !datastore_assignment(#[trigger] words(command)[j])
}

/// Each port the first `n` tokens set comes from a token that is not a datastore assignment.
pub proof fn lemma_token_ports_from_project_tokens(ts: Seq<Seq<char>>, n: int)
    requires
        0 <= n <= ts.len(),
    ensures
        forall|i: int|
            0 <= i < token_ports(ts, n).len() ==> exists|j: int|
                0 <= j < n && token_port(ts, j) == Some(#[trigger] token_ports(ts, n)[i])
                    && !datastore_assignment(#[trigger] ts[j]),
    decreases n,
{
    if n > 0 {
        lemma_token_ports_from_project_tokens(ts, n - 1);
        let prev = token_ports(ts, n - 1);
        let all = token_ports(ts, n);
        assert forall|i: int| 0 <= i < all.len() implies exists|j: int|
            0 <= j < n && token_port(ts, j) == Some(#[trigger] all[i]) && !datastore_assignment(
                #[trigger] ts[j],
            ) by {
            if i < prev.len() {
                assert(all[i] == prev[i]);
                let j = choose|j: int|
                    0 <= j < n - 1 && token_port(ts, j) == Some(#[trigger] prev[i])
                        && !datastore_assignment(#[trigger] ts[j]);
                assert(token_port(ts, j) == Some(all[i]) && !datastore_assignment(ts[j]));
            } else {
                assert(token_port(ts, n - 1) == Some(all[i]));
                assert(!datastore_assignment(ts[n - 1]));
            }
        }
    }
}

/// Each port a list of commands sets comes from a token of one of them that is
/// not a datastore assignment.
pub proof fn lemma_commands_ports_from_project_tokens(cmds: Seq<Seq<char>>)
    ensures
        forall|i: int|
            0 <= i < commands_ports(cmds).len() ==> exists|c: int|
                0 <= c < cmds.len() && set_by_project_token(
                    #[trigger] cmds[c],
                    #[trigger] commands_ports(cmds)[i],
                ),
    decreases cmds.len(),
{
    if cmds.len() > 0 {
        let rest = cmds.drop_first();
        lemma_commands_ports_from_project_tokens(rest);
        let head = command_ports(cmds[0]);
        let ts = words(cmds[0]);
        lemma_token_ports_from_project_tokens(ts, ts.len() as int);
        let all = commands_ports(cmds);
        assert forall|i: int| 0 <= i < all.len() implies exists|c: int|
            0 <= c < cmds.len() && set_by_project_token(#[trigger] cmds[c], #[trigger] all[i]) by {
            if i < head.len() {
                assert(all[i] == head[i]);
                let j = choose|j: int|
                    0 <= j < ts.len() && token_port(ts, j) == Some(#[trigger] head[i])
                        && !datastore_assignment(#[trigger] ts[j]);
                assert(set_by_project_token(cmds[0], all[i]));
            } else {
                assert(all[i] == commands_ports(rest)[i - head.len()]);
                let c = choose|c: int|
                    0 <= c < rest.len() && set_by_project_token(
                        #[trigger] rest[c],
                        #[trigger] commands_ports(rest)[i - head.len()],
                    );
                assert(rest[c] == cmds[c + 1]);
                assert(set_by_project_token(cmds[c + 1], all[i]));
            }
        }
    }
}

/// `package.json` never yields a datastore's port: every port its scripts set
/// comes from a flag or a `KEY=VALUE` token whose key names no datastore
/// (`cross-env DATABASE_PORT=5432 …` sets none); when the scripts set none,
/// at most the framework's default port is found.
pub proof fn package_ports_skip_datastores(json: JsonValue, source: Seq<char>)
    ensures
        commands_ports(script_commands(json)).len() > 0 ==> forall|i: int|
            0 <= i < package_ports(json, source).len() ==> exists|c: int|
                0 <= c < script_commands(json).len() && set_by_project_token(
                    #[trigger] script_commands(json)[c],
                    #[trigger] package_ports(json, source)[i].0,
                ),
        commands_ports(script_commands(json)).len() == 0 ==> {
            &&& package_ports(json, source).len() <= 1
            &&& forall|i: int|
                0 <= i < package_ports(json, source).len() ==> (framework_from(json, 0) matches Some(
                    (label, p),
                ) && (#[trigger] package_ports(json, source)[i]).0 == p)
        },
{
    let cmds = script_commands(json);
    lemma_commands_ports_from_project_tokens(cmds);
    let pp = package_ports(json, source);
    if commands_ports(cmds).len() > 0 {
        assert forall|i: int| 0 <= i < pp.len() implies exists|c: int|
            0 <= c < cmds.len() && set_by_project_token(#[trigger] cmds[c], #[trigger] pp[i].0) by {
            assert(pp[i].0 == commands_ports(cmds)[i]);
        }
    }
}

/// A carriage return at the end of a line does not change the assignment it holds.
pub proof fn lemma_strip_cr_assignment(l: Seq<char>)
    ensures
        env_assignment(strip_cr(l)) == env_assignment(l),
{
    if l.len() > 0 && l.last() == '\r' {
        lemma_trim_drop_last(CharClass::Space, l);
    }
}

/// The project ports of one line followed by more lines.
pub proof fn lemma_env_ports_cons(x: Seq<char>, ls: Seq<Seq<char>>)
    ensures
        env_ports_of(seq![x] + ls) == opt_seq(env_line_port(x)) + env_ports_of(ls),
{
    assert((seq![x] + ls)[0] == x);
    assert((seq![x] + ls).drop_first() =~= ls);
}

/// `.env` texts joined by a line feed: the project ports of the whole are those
/// of the first text followed by those of the second, in discovery order and
/// with repeats kept.
pub proof fn env_ports_of_joined_text(a: Seq<char>, b: Seq<char>)
    ensures
        env_ports_of(lines(a + seq!['\n'] + b)) == env_ports_of(lines(a)) + env_ports_of(lines(b)),
    decreases a.len(),
{
    let j = a + seq!['\n'] + b;
    if a.len() == 0 {
        assert(j[0] == '\n');
        lemma_find_char(j, '\n', 0);
        assert(j.skip(1) =~= b);
        assert(j.take(0) =~= Seq::<char>::empty());
        lemma_env_ports_cons(Seq::<char>::empty(), lines(b));
        assert(env_ports_of(lines(a)) + env_ports_of(lines(b)) =~= env_ports_of(lines(b)));
    } else {
        let k = find_char(a, '\n');
        lemma_find_char_bounds(a, '\n');
        assert forall|i: int| 0 <= i < k implies #[trigger] j[i] != '\n' by {
            assert(j[i] == a[i]);
        }
        if k < a.len() {
            assert(j[k] == a[k]);
            lemma_find_char(j, '\n', k);
            let rest = a.skip(k + 1);
            assert(j.take(k) =~= a.take(k));
            assert(j.skip(k + 1) =~= rest + seq!['\n'] + b);
            env_ports_of_joined_text(rest, b);
            lemma_env_ports_cons(strip_cr(a.take(k)), lines(j.skip(k + 1)));
            lemma_env_ports_cons(strip_cr(a.take(k)), lines(rest));
            assert(env_ports_of(lines(j)) =~= env_ports_of(lines(a)) + env_ports_of(lines(b)));
        } else {
            assert(j[k] == '\n');
            lemma_find_char(j, '\n', k);
            assert(j.take(k) =~= a);
            assert(j.skip(k + 1) =~= b);
            lemma_strip_cr_assignment(a);
            lemma_env_ports_cons(strip_cr(a), lines(b));
            assert(lines(a) =~= seq![a]);
            lemma_env_ports_cons(a, Seq::<Seq<char>>::empty());
            assert(env_ports_of(lines(a)) =~= opt_seq(env_line_port(a)));
        }
    }
}

/// Lines joined by line feeds: the text whose lines (`str::split('\n')`) they are.
pub open spec fn join_lines(ls: Seq<Seq<char>>) -> Seq<char>
    decreases ls.len(),
{
    if ls.len() == 0 {
        seq![]
    } else if ls.len() == 1 {
        ls[0]
    } else {
        ls[0] + seq!['\n'] + join_lines(ls.drop_first())
    }
}

/// Whether `ls` could be the pieces of a text split at its line feeds: no piece holds one.
pub open spec fn single_lines(ls: Seq<Seq<char>>) -> bool {
    forall|i: int, j: int| 0 <= i < ls.len() && 0 <= j < ls[i].len() ==> #[trigger] ls[i][j] != '\n'
}

/// The pieces of `s` between its line feeds (`str::split('\n')`).
pub open spec fn split_lines(s: Seq<char>) -> Seq<Seq<char>>
    decreases s.len(),
{
    let k = find_char(s, '\n');
    if k >= s.len() {
        seq![s]
    } else {
        proof {
            lemma_find_char_bounds(s, '\n');
        }
        seq![s.take(k)] + split_lines(s.skip(k + 1))
    }
}

/// Every text is the join of its pieces between line feeds, and no piece holds
/// a line feed: the laws stated over joined lines cover every text.
pub proof fn lemma_text_is_joined_lines(s: Seq<char>)
    ensures
        split_lines(s).len() > 0,
        single_lines(split_lines(s)),
        join_lines(split_lines(s)) == s,
    decreases s.len(),
{
    let k = find_char(s, '\n');
    lemma_find_char_bounds(s, '\n');
    let ls = split_lines(s);
    if k < s.len() {
        let rest = s.skip(k + 1);
        lemma_text_is_joined_lines(rest);
        let tail = split_lines(rest);
        assert(ls.drop_first() =~= tail);
        assert forall|i: int, j: int| 0 <= i < ls.len() && 0 <= j < ls[i].len() implies #[trigger] ls[i][j]
            != '\n' by {
            if i > 0 {
                assert(ls[i] == tail[i - 1]);
            } else {
                assert(ls[0][j] == s[j]);
            }
        }
        assert(s =~= s.take(k) + seq!['\n'] + rest);
    } else {
        assert forall|i: int, j: int| 0 <= i < ls.len() && 0 <= j < ls[i].len() implies #[trigger] ls[i][j]
            != '\n' by {
            assert(ls[i] == s);
        }
    }
}

/// An env line that assigns to a key naming a datastore.
pub open spec fn datastore_line(l: Seq<char>) -> bool {
    env_assignment(l) matches Some((key, value)) && names_datastore(key)
}

/// The lines of `ls` that do not assign to a datastore key, in order.
pub open spec fn project_lines(ls: Seq<Seq<char>>) -> Seq<Seq<char>> {
    ls.filter(|l: Seq<char>| !datastore_line(l))
}

/// The project ports of a text without line feeds are those of its one line.
proof fn lemma_env_ports_one_line(a: Seq<char>)
    requires
        forall|j: int| 0 <= j < a.len() ==> #[trigger] a[j] != '\n',
    ensures
        env_ports_of(lines(a)) == opt_seq(env_line_port(a)),
{
    if a.len() == 0 {
        assert(env_assignment(a) is None);
    } else {
        lemma_find_char(a, '\n', a.len() as int);
        assert(lines(a) =~= seq![a]);
        lemma_env_ports_cons(a, Seq::<Seq<char>>::empty());
        assert(seq![a] =~= seq![a] + Seq::<Seq<char>>::empty());
    }
}

/// The project ports of lines joined into a text are those of the lines.
pub proof fn lemma_env_ports_joined(ls: Seq<Seq<char>>)
    requires
        single_lines(ls),
    ensures
        env_ports_of(lines(join_lines(ls))) == env_ports_of(ls),
    decreases ls.len(),
{
    if ls.len() == 0 {
        assert(lines(join_lines(ls)) =~= Seq::<Seq<char>>::empty());
    } else {
        let rest = ls.drop_first();
        assert(ls =~= seq![ls[0]] + rest);
        lemma_env_ports_cons(ls[0], rest);
        assert forall|j: int| 0 <= j < ls[0].len() implies #[trigger] ls[0][j] != '\n' by {}
        lemma_env_ports_one_line(ls[0]);
        if ls.len() == 1 {
            assert(rest =~= Seq::<Seq<char>>::empty());
            assert(env_ports_of(rest) =~= Seq::<u16>::empty());
            assert(env_ports_of(ls) =~= opt_seq(env_line_port(ls[0])));
        } else {
            assert forall|i: int, j: int| 0 <= i < rest.len() && 0 <= j < rest[i].len() implies #[trigger] rest[i][j]
                != '\n' by {
                assert(rest[i] == ls[i + 1]);
            }
            lemma_env_ports_joined(rest);
            env_ports_of_joined_text(ls[0], join_lines(rest));
        }
    }
}

/// Lines that assign to a datastore key add no project port.
pub proof fn lemma_env_ports_project_lines(ls: Seq<Seq<char>>)
    ensures
        env_ports_of(project_lines(ls)) == env_ports_of(ls),
    decreases ls.len(),
{
    let keep = |l: Seq<char>| !datastore_line(l);
    if ls.len() == 0 {
        reveal(Seq::filter);
        assert(project_lines(ls) =~= ls);
    } else {
        let x = ls[0];
        let rest = ls.drop_first();
        assert(ls =~= seq![x] + rest);
        Seq::filter_distributes_over_add(seq![x], rest, keep);
        reveal(Seq::filter);
        assert(seq![x].drop_last() =~= Seq::<Seq<char>>::empty());
        assert(Seq::<Seq<char>>::empty().filter(keep) =~= Seq::<Seq<char>>::empty());
        lemma_env_ports_project_lines(rest);
        lemma_env_ports_cons(x, rest);
        if keep(x) {
            assert(seq![x].filter(keep) =~= seq![x]);
            lemma_env_ports_cons(x, rest.filter(keep));
        } else {
            assert(seq![x].filter(keep) =~= Seq::<Seq<char>>::empty());
            assert(seq![x].filter(keep) + rest.filter(keep) =~= rest.filter(keep));
            assert(env_line_port(x) is None);
        }
    }
}

/// Adding or removing any number of lines that assign to a datastore key
/// (`DATABASE_PORT=5432`, `export REDIS_PORT=6379`) anywhere in `.env`
/// content, first and last lines included, leaves its project ports unchanged:
/// two texts whose lines differ only in such lines assign the same ports.
pub proof fn datastore_lines_change_no_ports(ls1: Seq<Seq<char>>, ls2: Seq<Seq<char>>)
    requires
        single_lines(ls1),
        single_lines(ls2),
        project_lines(ls1) == project_lines(ls2),
    ensures
        env_ports_of(lines(join_lines(ls1))) == env_ports_of(lines(join_lines(ls2))),
{
    lemma_env_ports_joined(ls1);
    lemma_env_ports_joined(ls2);
    lemma_env_ports_project_lines(ls1);
    lemma_env_ports_project_lines(ls2);
}

/// The ports that commands set, taken together, are the ports that each sets,
/// in order: the ports of `a` followed by `b` are those of `a` followed by those of `b`.
pub proof fn commands_ports_concatenate(a: Seq<Seq<char>>, b: Seq<Seq<char>>)
    ensures
        commands_ports(a + b) == commands_ports(a) + commands_ports(b),
    decreases a.len(),
{
    if a.len() == 0 {
        assert(a + b =~= b);
        assert(commands_ports(a) =~= Seq::<u16>::empty());
        assert(commands_ports(a) + commands_ports(b) =~= commands_ports(b));
    } else {
        assert((a + b)[0] == a[0]);
        assert((a + b).drop_first() =~= a.drop_first() + b);
        commands_ports_concatenate(a.drop_first(), b);
        assert(commands_ports(a + b) =~= commands_ports(a) + commands_ports(b));
    }
}

/// The ports of a single command are the ports it sets.
pub proof fn commands_ports_of_one(c: Seq<char>)
    ensures
        commands_ports(seq![c]) == command_ports(c),
{
    assert(seq![c].drop_first() =~= Seq::<Seq<char>>::empty());
    assert(commands_ports(seq![c].drop_first()) =~= Seq::<u16>::empty());
    assert(command_ports(c) + Seq::<u16>::empty() =~= command_ports(c));
}

/// Every port that some command of `cmds` sets is among the ports of `cmds`,
/// at the place that command holds: none is dropped for another command.
pub proof fn every_command_port_is_found(cmds: Seq<Seq<char>>, i: int)
    requires
        0 <= i < cmds.len(),
    ensures
        commands_ports(cmds) == commands_ports(cmds.take(i)) + command_ports(cmds[i])
            + commands_ports(cmds.skip(i + 1)),
        forall|j: int|
            0 <= j < command_ports(cmds[i]).len() ==> commands_ports(cmds).contains(
                #[trigger] command_ports(cmds[i])[j],
            ),
{
    let a = cmds.take(i);
    let b = cmds.skip(i + 1);
    assert(cmds =~= a + (seq![cmds[i]] + b));
    commands_ports_concatenate(a, seq![cmds[i]] + b);
    commands_ports_concatenate(seq![cmds[i]], b);
    commands_ports_of_one(cmds[i]);
    let all = commands_ports(cmds);
    let mine = command_ports(cmds[i]);
    let off = commands_ports(a).len();
    assert(all =~= commands_ports(a) + mine + commands_ports(b));
    assert forall|j: int| 0 <= j < mine.len() implies all.contains(#[trigger] mine[j]) by {
        assert(all[off + j] == mine[j]);
    }
}

/// Every port that some script of a `package.json` pins is detected, with the
/// file as its source, whatever the other scripts pin.
pub proof fn every_script_port_is_detected(json: JsonValue, source: Seq<char>, i: int, j: int)
    requires
        0 <= i < script_commands(json).len(),
        0 <= j < command_ports(script_commands(json)[i]).len(),
    ensures
        package_ports(json, source).contains((command_ports(script_commands(json)[i])[j], source)),
{
    let cmds = script_commands(json);
    every_command_port_is_found(cmds, i);
    let p = command_ports(cmds[i])[j];
    assert(commands_ports(cmds).contains(p));
    let k = choose|k: int| 0 <= k < commands_ports(cmds).len() && commands_ports(cmds)[k] == p;
    script_ports_override_default(json, source);
    assert(package_ports(json, source)[k] == (p, source));
}

/// A `package.json` depends on a package exactly when its `dependencies` or
/// `devDependencies` object holds that package's name as a key, the whole name:
/// a dependency whose name merely begins with it (`vitest` for `vite`) does not count.
pub proof fn dependency_is_an_exact_key(json: JsonValue, name: Seq<char>)
    ensures
        has_dependency(json, name) <==> {
            ||| (json_get(json, "dependencies"@) matches Some(JsonValue::Object(es)) && exists|i: int|
                0 <= i < es@.len() && (#[trigger] es@[i]).0@ == name)
            ||| (json_get(json, "devDependencies"@) matches Some(JsonValue::Object(es))
                && exists|i: int| 0 <= i < es@.len() && (#[trigger] es@[i]).0@ == name)
        },
{
}

/// A connection URL names a service only when its whole scheme, the text before
/// the first `://`, equals one of the known schemes ignoring ASCII case, and the
/// service is the one that scheme names (`mongodb+srv://…` names none).
pub proof fn url_service_needs_a_known_scheme(v: Seq<char>)
    requires
        url_service(v) is Some,
    ensures
        find_seq(v, "://"@) >= 0,
        exists|k: int|
            0 <= k < url_schemes().len() && to_lower(v.take(find_seq(v, "://"@))) == to_lower(
                #[trigger] url_schemes()[k].0,
            ) && (url_service(v)->0).0 == url_schemes()[k].1,
{
    let s = v.take(find_seq(v, "://"@));
    lemma_scheme_from(s, 0);
    let k = choose|k: int|
        0 <= k < url_schemes().len() && eq_ignore_case(s, url_schemes()[k].0) && scheme_from(s, 0)
            == Some((url_schemes()[k].1, url_schemes()[k].2));
    assert(to_lower(s) == to_lower(url_schemes()[k].0));
}

/// The entry that `scheme_from` finds matches the scheme ignoring case.
proof fn lemma_scheme_from(s: Seq<char>, i: nat)
    ensures
        scheme_from(s, i) is Some ==> exists|k: int|
            i <= k < url_schemes().len() && eq_ignore_case(s, #[trigger] url_schemes()[k].0)
                && scheme_from(s, i) == Some((url_schemes()[k].1, url_schemes()[k].2)),
    decreases url_schemes().len() - i,
{
    if i < url_schemes().len() && !eq_ignore_case(s, url_schemes()[i as int].0) {
        lemma_scheme_from(s, i + 1);
    }
}

/// An env key names a datastore exactly when its upper-cased text contains one
/// of `DB`, `DATABASE`, `POSTGRES`, `MYSQL`, `MONGO`, `REDIS`, `SQL` or
/// `RABBIT`; an assignment to such a key (`POSTGRES_PORT=5432`) yields no project port.
pub proof fn datastore_keys_are_recognised(key: Seq<char>, line: Seq<char>)
    ensures
        names_datastore(key) <==> {
            let u = to_upper(key);
            ||| contains_seq(u, "DB"@)
            ||| contains_seq(u, "DATABASE"@)
            ||| contains_seq(u, "POSTGRES"@)
            ||| contains_seq(u, "MYSQL"@)
            ||| contains_seq(u, "MONGO"@)
            ||| contains_seq(u, "REDIS"@)
            ||| contains_seq(u, "SQL"@)
            ||| contains_seq(u, "RABBIT"@)
        },
        (env_assignment(line) matches Some((k, value)) && names_datastore(k)) ==> env_line_port(
            line,
        ) is None,
{
    let d = datastore_names();
    assert(d[0] == "DB"@);
    assert(d[1] == "DATABASE"@);
    assert(d[2] == "POSTGRES"@);
    assert(d[3] == "MYSQL"@);
    assert(d[4] == "MONGO"@);
    assert(d[5] == "REDIS"@);
    assert(d[6] == "SQL"@);
    assert(d[7] == "RABBIT"@);
}

} // verus!
