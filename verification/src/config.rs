//! Configuration: its keys and defaults, the layers it is read from, and what it says of
//! interfaces and budgets.
use crate::double::{
    bits_double, bits_positive, int_double, int_is_exact, of_bits, of_int, one, product, times,
    to_whole, unit_bits, whole, whole_products_are_exact, INFINITY_BITS,
};
use crate::text::{
    chars_of, decimal, find_char, has_prefix, integers_are_read_back, numbers_are_read_back,
    parse_signed, parse_unsigned, place_of, place_of_is_first, same_text, signed_decimal,
    signed_value, starts_with, text_of, texts, unsigned_value,
};
use crate::tree::{
    document_pairs, entries, integer_tree, is_document_with, is_merged, is_number_tree,
    is_scalar_tree, merge, one_more_pair, parse_toml, put_in_document, toml_document, tree,
    with_pair, Node, SetError, Tree,
};
use vstd::arithmetic::power2::lemma_pow2_pos;
use vstd::prelude::*;
use vstd::slice::slice_subrange;
use vstd::string::*;

verus! {

/// What the meter is told: how often to poll, what to count, how long to keep it.
pub struct Config {
    pub poll_interval_sec: u64,
    pub database_path: String,
    /// binary | decimal
    pub units: String,
    pub timezone: String,
    pub exclude_ifaces: Vec<String>,
    pub lan_subnets: Vec<String>,
    pub force_lan_ifaces: Vec<String>,
    pub retention_days_raw: i64,
    pub retention_days_hourly: i64,
    pub proc_retention_days: i64,
    pub proc_recording: bool,
    pub max_rate_mbit: u64,
    /// day | week | month
    pub budget_period: String,
    /// The budget in GiB, a double-precision number by its bits.
    pub budget_gb: u64,
    /// total | wan
    pub budget_basis: String,
    pub notify_on_budget: bool,
}

/// The interfaces that are left out by default.
pub open spec fn default_excluded() -> Seq<Seq<char>> {
    seq!["lo"@, "docker*"@, "veth*"@, "br-*"@, "virbr*"@]
}

/// The networks that are local by default.
pub open spec fn default_subnets() -> Seq<Seq<char>> {
    seq!["10.0.0.0/8"@, "172.16.0.0/12"@, "192.168.0.0/16"@, "fe80::/10"@, "fc00::/7"@]
}

/// The interfaces whose traffic is local by default.
pub open spec fn default_forced() -> Seq<Seq<char>> {
    seq!["tailscale0*"@, "zt*"@]
}

impl Default for Config {
    fn default() -> (r: Config)
        ensures
            r.poll_interval_sec == 5,
            r.database_path@ == "/var/lib/netmeter/netmeter.db"@,
            r.units@ == "binary"@,
            r.timezone@ == "local"@,
            texts(r.exclude_ifaces@) == default_excluded(),
            texts(r.lan_subnets@) == default_subnets(),
            texts(r.force_lan_ifaces@) == default_forced(),
            r.retention_days_raw == 30,
            r.retention_days_hourly == 365,
            r.proc_retention_days == 30,
            r.proc_recording,
            r.max_rate_mbit == 10000,
            r.budget_period@ == "month"@,
            r.budget_gb == 0,
            r.budget_basis@ == "total"@,
            r.notify_on_budget,
    {
        let mut exclude_ifaces: Vec<String> = Vec::new();
        exclude_ifaces.push("lo".to_owned());
        exclude_ifaces.push("docker*".to_owned());
        exclude_ifaces.push("veth*".to_owned());
        exclude_ifaces.push("br-*".to_owned());
        exclude_ifaces.push("virbr*".to_owned());
        let mut lan_subnets: Vec<String> = Vec::new();
        lan_subnets.push("10.0.0.0/8".to_owned());
        lan_subnets.push("172.16.0.0/12".to_owned());
        lan_subnets.push("192.168.0.0/16".to_owned());
        lan_subnets.push("fe80::/10".to_owned());
        lan_subnets.push("fc00::/7".to_owned());
        let mut force_lan_ifaces: Vec<String> = Vec::new();
        force_lan_ifaces.push("tailscale0*".to_owned());
        force_lan_ifaces.push("zt*".to_owned());
        assert(texts(exclude_ifaces@) =~= default_excluded());
        assert(texts(lan_subnets@) =~= default_subnets());
        assert(texts(force_lan_ifaces@) =~= default_forced());
        Config {
            poll_interval_sec: 5,
            database_path: "/var/lib/netmeter/netmeter.db".to_owned(),
            units: "binary".to_owned(),
            timezone: "local".to_owned(),
            exclude_ifaces,
            lan_subnets,
            force_lan_ifaces,
            retention_days_raw: 30,
            retention_days_hourly: 365,
            proc_retention_days: 30,
            proc_recording: true,
            max_rate_mbit: 10000,
            budget_period: "month".to_owned(),
            budget_gb: 0,
            budget_basis: "total".to_owned(),
            notify_on_budget: true,
        }
    }
}

// ---- interface patterns ----

/// Whether a name matches a pattern: one that ends in `*` matches every name that starts
/// with what stands before it, any other one only itself.
pub open spec fn glob(pattern: Seq<char>, name: Seq<char>) -> bool {
    if pattern.len() > 0 && pattern.last() == '*' {
        starts_with(name, pattern.drop_last())
    } else {
        pattern == name
    }
}

/// Whether a name matches one of some patterns.
pub open spec fn matches_any(patterns: Seq<String>, name: Seq<char>) -> bool {
    exists|i: int| 0 <= i < patterns.len() && glob((#[trigger] patterns[i])@, name)
}

/// Whether a name matches a pattern.
pub fn glob_match(pat: &str, s: &str) -> (r: bool)
    ensures
        r == glob(pat@, s@),
{
    let p = chars_of(pat);
    let name = chars_of(s);
    if p.len() > 0 && p[p.len() - 1] == '*' {
        let stem = slice_subrange(p.as_slice(), 0, p.len() - 1);
        assert(stem@ =~= pat@.drop_last());
        has_prefix(name.as_slice(), stem)
    } else {
        same_text(pat, s)
    }
}

/// Whether a name matches one of some patterns.
pub fn matches_one(patterns: &Vec<String>, name: &str) -> (r: bool)
    ensures
        r == matches_any(patterns@, name@),
{
    let mut i: usize = 0;
    while i < patterns.len()
        invariant
            i <= patterns.len(),
            forall|k: int| 0 <= k < i ==> !glob((#[trigger] patterns@[k])@, name@),
        decreases patterns.len() - i,
    {
        if glob_match(patterns[i].as_str(), name) {
            return true;
        }
        i = i + 1;
    }
    false
}

/// The pattern `*` matches every name.
pub proof fn star_matches_all(name: Seq<char>)
    ensures
        glob(seq!['*'], name),
{
    assert(seq!['*'].drop_last() =~= Seq::<char>::empty());
    assert(name.take(0) =~= Seq::<char>::empty());
}

/// A pattern that ends in `*` matches each name made of what stands before the star and
/// anything after it, and no other.
pub proof fn star_matches_what_follows(stem: Seq<char>, name: Seq<char>)
    ensures
        glob(stem.push('*'), name) <==> exists|tail: Seq<char>| name == #[trigger] (stem + tail),
{
    assert(stem.push('*').drop_last() =~= stem);
    if starts_with(name, stem) {
        assert(name =~= stem + name.skip(stem.len() as int));
    }
    if exists|tail: Seq<char>| name == #[trigger] (stem + tail) {
        let tail = choose|tail: Seq<char>| name == #[trigger] (stem + tail);
        assert((stem + tail).take(stem.len() as int) =~= stem);
    }
}

// ---- budgets ----

/// The budget period as it counts: "day", "week", and the month for any other word.
pub open spec fn counted_period(period: Seq<char>) -> Seq<char> {
    if period == "day"@ || period == "week"@ || period == "month"@ {
        period
    } else {
        "month"@
    }
}

/// A budget in GiB as whole bytes, at most those of a signed 64-bit count.
pub open spec fn budget_bytes(gb: u64) -> int {
    if gb >= INFINITY_BITS {
        i64::MAX as int
    } else {
        let bytes = whole(product(bits_double(gb), int_double(1_073_741_824)));
        if bytes <= i64::MAX {
            bytes as int
        } else {
            i64::MAX as int
        }
    }
}

/// A budget in GiB, above zero, as whole bytes.
pub fn bytes_of_budget(gb: u64) -> (r: i64)
    requires
        bits_positive(gb),
    ensures
        r == budget_bytes(gb),
        r >= 0,
{
    if gb >= INFINITY_BITS {
        i64::MAX
    } else {
        to_whole(times(of_bits(gb), of_int(1_073_741_824)), i64::MAX as u64) as i64
    }
}

impl Config {
    /// Where the configuration of the whole system lies.
    pub fn system_path() -> (r: String)
        ensures
            r@ == "/etc/netmeter/config.toml"@,
    {
        "/etc/netmeter/config.toml".to_owned()
    }

    /// Whether an interface is left out.
    pub fn excluded(&self, iface: &str) -> (r: bool)
        ensures
            r == matches_any(self.exclude_ifaces@, iface@),
    {
        matches_one(&self.exclude_ifaces, iface)
    }

    /// Whether all traffic of an interface is local.
    pub fn forced_lan(&self, iface: &str) -> (r: bool)
        ensures
            r == matches_any(self.force_lan_ifaces@, iface@),
    {
        matches_one(&self.force_lan_ifaces, iface)
    }

    /// Whether times are those of the machine's clock.
    pub fn local_time(&self) -> (r: bool)
        ensures
            r == (self.timezone@ != "utc"@),
    {
        !same_text(self.timezone.as_str(), "utc")
    }

    /// Whether bytes are shown in decimal units.
    pub fn decimal_units(&self) -> (r: bool)
        ensures
            r == (self.units@ == "decimal"@),
    {
        same_text(self.units.as_str(), "decimal")
    }

    /// The budget that counts, as its period and the GiB; nothing where it is off.
    pub fn effective_budget(&self) -> (r: Option<(&str, u64)>)
        ensures
            r is Some <==> bits_positive(self.budget_gb),
            r matches Some(b) ==> b.0@ == counted_period(self.budget_period@) && b.1
                == self.budget_gb,
    {
        if self.budget_gb > 0 && self.budget_gb <= INFINITY_BITS {
            let p = self.budget_period.as_str();
            if same_text(p, "day") || same_text(p, "week") || same_text(p, "month") {
                Some((p, self.budget_gb))
            } else {
                Some(("month", self.budget_gb))
            }
        } else {
            None
        }
    }
}

// ---- layers ----

/// Lays one table of raw values over another.
pub fn merge_value(base: Node, over: Node) -> (r: Node)
    ensures
        is_merged(tree(r), tree(base), tree(over)),
{
    merge(base, over)
}

/// The values of a configuration file; none where there is no file or it is no TOML.
pub open spec fn file_entries(file: Option<Seq<char>>) -> Map<Seq<char>, Tree> {
    match file {
        Some(text) => match toml_document(text) {
            Some(t) => entries(t),
            None => Map::empty(),
        },
        None => Map::empty(),
    }
}

/// The text of a file that is there.
pub open spec fn file_text(file: Option<&str>) -> Option<Seq<char>> {
    match file {
        Some(text) => Some(text@),
        None => None,
    }
}

/// Lays a configuration file over what is below it.
fn with_file(base: Node, file: Option<&str>) -> (r: Node)
    requires
        tree(base) is Table,
    ensures
        tree(r) is Table,
        entries(tree(r)) == entries(tree(base)).union_prefer_right(file_entries(file_text(file))),
{
    match file {
        Some(text) => match parse_toml(text) {
            Some(part) => {
                let r = merge_value(base, part);
                assert(entries(tree(r)) =~= entries(tree(base)).union_prefer_right(
                    file_entries(file_text(file)),
                ));
                r
            },
            None => {
                assert(entries(tree(base)) =~= entries(tree(base)).union_prefer_right(
                    file_entries(file_text(file)),
                ));
                base
            },
        },
        None => {
            assert(entries(tree(base)) =~= entries(tree(base)).union_prefer_right(
                file_entries(file_text(file)),
            ));
            base
        },
    }
}

/// The values of all layers: the defaults below, the system's file over them, the user's
/// file on top.
pub fn layered(defaults: Node, system: Option<&str>, user: Option<&str>) -> (r: Node)
    requires
        tree(defaults) is Table,
    ensures
        tree(r) is Table,
        entries(tree(r)) == entries(tree(defaults)).union_prefer_right(
            file_entries(file_text(system)),
        ).union_prefer_right(file_entries(file_text(user))),
{
    with_file(with_file(defaults, system), user)
}

/// A key takes its value from the topmost layer that has it: the user's file, the
/// system's file, the defaults.
pub proof fn topmost_layer_counts(
    defaults: Map<Seq<char>, Tree>,
    system: Map<Seq<char>, Tree>,
    user: Map<Seq<char>, Tree>,
    key: Seq<char>,
)
    ensures
        ({
            let all = defaults.union_prefer_right(system).union_prefer_right(user);
            &&& user.contains_key(key) ==> all.contains_key(key) && all[key] == user[key]
            &&& !user.contains_key(key) && system.contains_key(key) ==> all.contains_key(key)
                && all[key] == system[key]
            &&& !user.contains_key(key) && !system.contains_key(key) ==> (all.contains_key(key)
                <==> defaults.contains_key(key)) && (all.contains_key(key) ==> all[key]
                == defaults[key])
        }),
{
}

/// Laying a table over another a second time changes nothing.
pub proof fn merging_again_changes_nothing(once: Tree, twice: Tree, base: Tree, over: Tree)
    requires
        base is Table,
        over is Table,
        is_merged(once, base, over),
        is_merged(twice, once, over),
    ensures
        entries(twice) == entries(once),
{
    assert(entries(twice) =~= entries(once));
}

// ---- the environment ----

/// What the environment overrides. The budget stands here as the bits of the number, if
/// its variable holds one.
pub struct Overrides {
    pub database_path: Option<String>,
    pub poll_interval_sec: Option<String>,
    pub units: Option<String>,
    pub budget_gb: Option<u64>,
    pub budget_period: Option<String>,
}

/// The text of an override, or what stood there.
pub open spec fn overridden(env: Option<String>, was: Seq<char>) -> Seq<char> {
    match env {
        Some(v) => v@,
        None => was,
    }
}

/// The poll interval after an override: a number in the variable, else what stood there;
/// from 1 to 60 seconds.
pub open spec fn poll_interval(env: Option<String>, was: u64) -> int {
    let n = match env {
        Some(v) => match unsigned_value(v@, 10, u64::MAX as int) {
            Some(n) => n,
            None => was as int,
        },
        None => was as int,
    };
    if n < 1 {
        1
    } else if n > 60 {
        60
    } else {
        n
    }
}

fn pick_text(env: Option<String>, was: String) -> (r: String)
    ensures
        r@ == overridden(env, was@),
{
    match env {
        Some(v) => v,
        None => was,
    }
}

impl Config {
    /// The configuration with the overrides of the environment.
    pub fn with_overrides(self, env: Overrides) -> (r: Config)
        ensures
            is_overridden(r, self, env),
            r.database_path@ == overridden(env.database_path, self.database_path@),
            r.poll_interval_sec == poll_interval(env.poll_interval_sec, self.poll_interval_sec),
            r.units@ == overridden(env.units, self.units@),
            r.budget_gb == match env.budget_gb {
                Some(gb) => gb,
                None => self.budget_gb,
            },
            r.budget_period@ == overridden(env.budget_period, self.budget_period@),
            r.timezone == self.timezone,
            r.exclude_ifaces == self.exclude_ifaces,
            r.lan_subnets == self.lan_subnets,
            r.force_lan_ifaces == self.force_lan_ifaces,
            r.retention_days_raw == self.retention_days_raw,
            r.retention_days_hourly == self.retention_days_hourly,
            r.proc_retention_days == self.proc_retention_days,
            r.proc_recording == self.proc_recording,
            r.max_rate_mbit == self.max_rate_mbit,
            r.budget_basis == self.budget_basis,
            r.notify_on_budget == self.notify_on_budget,
    {
        let asked = match env.poll_interval_sec {
            Some(v) => match parse_unsigned(chars_of(v.as_str()).as_slice(), 10, u64::MAX) {
                Some(n) => n,
                None => self.poll_interval_sec,
            },
            None => self.poll_interval_sec,
        };
        let poll_interval_sec: u64 = if asked < 1 {
            1
        } else if asked > 60 {
            60
        } else {
            asked
        };
        let budget_gb = match env.budget_gb {
            Some(gb) => gb,
            None => self.budget_gb,
        };
        Config {
            poll_interval_sec,
            database_path: pick_text(env.database_path, self.database_path),
            units: pick_text(env.units, self.units),
            budget_gb,
            budget_period: pick_text(env.budget_period, self.budget_period),
            timezone: self.timezone,
            exclude_ifaces: self.exclude_ifaces,
            lan_subnets: self.lan_subnets,
            force_lan_ifaces: self.force_lan_ifaces,
            retention_days_raw: self.retention_days_raw,
            retention_days_hourly: self.retention_days_hourly,
            proc_retention_days: self.proc_retention_days,
            proc_recording: self.proc_recording,
            max_rate_mbit: self.max_rate_mbit,
            budget_basis: self.budget_basis,
            notify_on_budget: self.notify_on_budget,
        }
    }

    /// Where the database lies, with the home directory put in.
    pub fn db_path_expanded(&self, home: Option<&str>) -> (r: String)
        ensures
            r@ == expanded(self.database_path@, file_text(home)),
    {
        shellexpand_tilde(self.database_path.as_str(), home)
    }

    /// Where the user's configuration lies: in the project's directory if there is one,
    /// else under the home directory.
    pub fn user_path(config_dir: Option<&str>, home: Option<&str>) -> (r: Option<String>)
        ensures
            r is Some <==> config_dir is Some || home is Some,
            config_dir matches Some(d) ==> r->0@ == below(d@, "config.toml"@),
            config_dir is None && home is Some ==> r->0@ == below(
                home->0@,
                ".config/netmeter/config.toml"@,
            ),
    {
        match config_dir {
            Some(d) => Some(join_path(d, "config.toml")),
            None => match home {
                Some(h) => Some(join_path(h, ".config/netmeter/config.toml")),
                None => None,
            },
        }
    }
}

// ---- paths ----

/// A path with `~/` at its start replaced by the home directory, where that is known.
pub open spec fn expanded(path: Seq<char>, home: Option<Seq<char>>) -> Seq<char> {
    match home {
        Some(h) if starts_with(path, "~/"@) => h + "/"@ + path.skip("~/"@.len() as int),
        _ => path,
    }
}

/// A path with `~/` at its start replaced by the home directory, where that is known.
pub fn shellexpand_tilde(s: &str, home: Option<&str>) -> (r: String)
    ensures
        r@ == expanded(s@, file_text(home)),
{
    let path = chars_of(s);
    let tilde = chars_of("~/");
    match home {
        Some(h) => if has_prefix(path.as_slice(), tilde.as_slice()) {
            let rest = slice_subrange(path.as_slice(), tilde.len(), path.len());
            assert(rest@ =~= s@.skip("~/"@.len() as int));
            let mut r = String::new();
            r.append(h);
            r.append("/");
            r.append(text_of(rest).as_str());
            assert(r@ =~= expanded(s@, file_text(home)));
            r
        } else {
            s.to_owned()
        },
        None => s.to_owned(),
    }
}

/// A relative path below a directory.
pub open spec fn below(dir: Seq<char>, path: Seq<char>) -> Seq<char> {
    if dir.len() == 0 || dir.last() == '/' {
        dir + path
    } else {
        dir + "/"@ + path
    }
}

/// A relative path below a directory.
pub fn join_path(dir: &str, path: &str) -> (r: String)
    ensures
        r@ == below(dir@, path@),
{
    let d = chars_of(dir);
    let mut r = String::new();
    r.append(dir);
    if d.len() > 0 && d[d.len() - 1] != '/' {
        r.append("/");
    }
    r.append(path);
    assert(r@ =~= below(dir@, path@));
    r
}

// ---- setting a key ----

/// A letter in lower case.
pub open spec fn lower(c: char) -> char {
    if 'A' <= c && c <= 'Z' {
        (c as int + 32) as char
    } else {
        c
    }
}

/// Whether a text is a word in lower case, the case of its letters aside.
pub open spec fn is_word(s: Seq<char>, word: Seq<char>) -> bool {
    s.len() == word.len() && forall|i: int| 0 <= i < s.len() ==> lower(#[trigger] s[i]) == word[i]
}

/// Whether a text holds digits and nothing else.
pub open spec fn all_digits(s: Seq<char>) -> bool {
    forall|i: int| 0 <= i < s.len() ==> '0' <= #[trigger] s[i] && s[i] <= '9'
}

/// The place of the first `e` or `E`, or the length where there is none.
pub open spec fn exponent_place(s: Seq<char>) -> nat
    decreases s.len(),
{
    if s.len() == 0 || s[0] == 'e' || s[0] == 'E' {
        0
    } else {
        1 + exponent_place(s.drop_first())
    }
}

/// Whether a text is a row of digits with a sign before it or none.
pub open spec fn is_exponent(s: Seq<char>) -> bool {
    let digits = if s.len() > 0 && (s[0] == '+' || s[0] == '-') {
        s.drop_first()
    } else {
        s
    };
    digits.len() > 0 && all_digits(digits)
}

/// Whether a text is digits with at most one point among, before or behind them.
pub open spec fn is_mantissa(s: Seq<char>) -> bool {
    let p = place_of(s, '.') as int;
    if p < s.len() {
        s.len() > 1 && all_digits(s.take(p)) && all_digits(s.skip(p + 1))
    } else {
        s.len() > 0 && all_digits(s)
    }
}

/// Whether a text is a decimal number with a point or without one, and with an exponent
/// or without one.
pub open spec fn is_number(s: Seq<char>) -> bool {
    let e = exponent_place(s) as int;
    is_mantissa(s.take(e)) && (e < s.len() ==> is_exponent(s.skip(e + 1)))
}

/// Whether a text says that it is no number, with a sign or none.
pub open spec fn is_nan(s: Seq<char>) -> bool {
    is_word(s, "nan"@) || (s.len() > 0 && (s[0] == '+' || s[0] == '-') && is_word(
        s.drop_first(),
        "nan"@,
    ))
}

/// Whether a text is a floating-point number: with a sign or none, a decimal number, or
/// infinity, or no number at all.
pub open spec fn is_float(s: Seq<char>) -> bool {
    let t = if s.len() > 0 && (s[0] == '+' || s[0] == '-') {
        s.drop_first()
    } else {
        s
    };
    is_word(t, "inf"@) || is_word(t, "infinity"@) || is_word(t, "nan"@) || is_number(t)
}

fn same_word(s: &[char], word: &str) -> (r: bool)
    ensures
        r == is_word(s@, word@),
{
    let w = chars_of(word);
    if s.len() != w.len() {
        return false;
    }
    let mut i: usize = 0;
    while i < s.len()
        invariant
            i <= s.len(),
            s.len() == w.len(),
            w@ == word@,
            forall|k: int| 0 <= k < i ==> lower(#[trigger] s@[k]) == word@[k],
        decreases s.len() - i,
    {
        let c = s[i];
        let n = c as u32;
        let l = if 65 <= n && n <= 90 {
            (n as u8 + 32) as char
        } else {
            c
        };
        assert(l == lower(s@[i as int]));
        if l != w[i] {
            return false;
        }
        i = i + 1;
    }
    true
}

fn only_digits(s: &[char]) -> (r: bool)
    ensures
        r == all_digits(s@),
{
    let mut i: usize = 0;
    while i < s.len()
        invariant
            i <= s.len(),
            forall|k: int| 0 <= k < i ==> '0' <= #[trigger] s@[k] && s@[k] <= '9',
        decreases s.len() - i,
    {
        if s[i] < '0' || s[i] > '9' {
            return false;
        }
        i = i + 1;
    }
    true
}

fn find_exponent(s: &[char]) -> (r: usize)
    ensures
        r == exponent_place(s@),
        r <= s@.len(),
{
    let mut i: usize = 0;
    assert(s@.skip(0) =~= s@);
    while i < s.len() && s[i] != 'e' && s[i] != 'E'
        invariant
            i <= s.len(),
            exponent_place(s@) == i + exponent_place(s@.skip(i as int)),
        decreases s.len() - i,
    {
        assert(s@.skip(i as int)[0] == s@[i as int]);
        assert(s@.skip(i as int).drop_first() =~= s@.skip(i + 1));
        i = i + 1;
    }
    if i < s.len() {
        assert(s@.skip(i as int)[0] == s@[i as int]);
    }
    i
}

/// The text behind a sign, or all of it where it has none.
fn unsigned_part(s: &[char]) -> (r: &[char])
    ensures
        r@ == if s@.len() > 0 && (s@[0] == '+' || s@[0] == '-') {
            s@.drop_first()
        } else {
            s@
        },
{
    if s.len() > 0 && (s[0] == '+' || s[0] == '-') {
        let r = slice_subrange(s, 1, s.len());
        assert(r@ =~= s@.drop_first());
        r
    } else {
        s
    }
}

fn mantissa(s: &[char]) -> (r: bool)
    ensures
        r == is_mantissa(s@),
{
    let p = find_char(s, '.');
    if p < s.len() {
        let whole_part = slice_subrange(s, 0, p);
        let rest = slice_subrange(s, p + 1, s.len());
        assert(whole_part@ =~= s@.take(p as int));
        assert(rest@ =~= s@.skip(p + 1));
        s.len() > 1 && only_digits(whole_part) && only_digits(rest)
    } else {
        s.len() > 0 && only_digits(s)
    }
}

/// Whether a text is a floating-point number.
pub fn float_text(s: &[char]) -> (r: bool)
    ensures
        r == is_float(s@),
{
    let t = unsigned_part(s);
    if same_word(t, "inf") || same_word(t, "infinity") || same_word(t, "nan") {
        return true;
    }
    let e = find_exponent(t);
    let head = slice_subrange(t, 0, e);
    assert(head@ =~= t@.take(e as int));
    if !mantissa(head) {
        return false;
    }
    if e < t.len() {
        let tail = slice_subrange(t, e + 1, t.len());
        assert(tail@ =~= t@.skip(e + 1));
        let digits = unsigned_part(tail);
        digits.len() > 0 && only_digits(digits)
    } else {
        true
    }
}

/// The value of a key as it was typed in.
pub enum Scalar {
    Integer(i64),
    /// A floating-point number, in text.
    Float(String),
    Boolean(bool),
    Text(String),
}

/// Whether `r` is what a typed-in value stands for: an integer of 64 bits if it is one,
/// else a floating-point number, else true or false, else a string.
pub open spec fn is_typed(r: Scalar, value: Seq<char>) -> bool {
    match r {
        Scalar::Integer(n) => signed_value(value) == Some(n as int),
        Scalar::Float(s) => signed_value(value) is None && is_float(value) && s@ == value,
        Scalar::Boolean(b) => signed_value(value) is None && !is_float(value) && value == if b {
            "true"@
        } else {
            "false"@
        },
        Scalar::Text(s) => signed_value(value) is None && !is_float(value) && value != "true"@
            && value != "false"@ && s@ == value,
    }
}

/// What a typed-in value stands for.
pub fn typed(value: &str) -> (r: Scalar)
    ensures
        is_typed(r, value@),
{
    let s = chars_of(value);
    match parse_signed(s.as_slice()) {
        Some(n) => Scalar::Integer(n),
        None => if float_text(s.as_slice()) {
            Scalar::Float(value.to_owned())
        } else if same_text(value, "true") {
            Scalar::Boolean(true)
        } else if same_text(value, "false") {
            Scalar::Boolean(false)
        } else {
            Scalar::Text(value.to_owned())
        },
    }
}

/// Whether a value is what a typed-in text stands for.
pub open spec fn is_typed_tree(t: Tree, value: Seq<char>) -> bool {
    match signed_value(value) {
        Some(n) => t == integer_tree(n as i64),
        None => if is_float(value) {
            is_number_tree(t, value)
        } else if value == "true"@ {
            t == Tree::Bool(true)
        } else if value == "false"@ {
            t == Tree::Bool(false)
        } else {
            t == Tree::Text(value)
        },
    }
}

/// The text of a configuration file with one key set to a typed-in value; the other keys
/// stay. A file that is no TOML counts as an empty one.
pub fn set_key(file: Option<&str>, key: String, value: &str) -> (r: Result<String, SetError>)
    ensures
        exists|t: Tree| #[trigger]
            is_typed_tree(t, value@) && is_document_with(r, file_text(file), key@, t),
{
    let v = typed(value);
    proof {
        reveal_strlit("true");
        reveal_strlit("false");
        assert("true"@.len() != "false"@.len());
        assert forall|t: Tree| #[trigger] is_scalar_tree(t, v) implies is_typed_tree(t, value@) by {
        }
    }
    put_in_document(file, key, v)
}

/// Setting a key leaves the other keys of a configuration file as they were.
pub proof fn other_keys_stay(file: Option<Seq<char>>, key: Seq<char>, value: Tree)
    requires
        document_pairs(file) is Some,
    ensures
        entries(Tree::Table(with_pair(document_pairs(file)->0, key, value))) == file_entries(
            file,
        ).insert(key, value),
{
    one_more_pair(document_pairs(file)->0, key, value);
}

/// Whether the daemon reads a key.
pub open spec fn daemon_key(key: Seq<char>) -> bool {
    ||| key == "database_path"@
    ||| key == "poll_interval_sec"@
    ||| key == "lan_subnets"@
    ||| key == "exclude_ifaces"@
    ||| key == "force_lan_ifaces"@
    ||| key == "classify_tailscale_as_lan"@
    ||| key == "retention_days_raw"@
    ||| key == "retention_days_hourly"@
    ||| key == "max_rate_mbit"@
    ||| key == "timezone"@
    ||| key == "monthly_budget_gb"@
    ||| key == "budget_gb"@
    ||| key == "budget_period"@
    ||| key == "budget_basis"@
    ||| key == "notify_on_budget"@
}

/// Whether the daemon reads a key.
pub fn read_by_daemon(key: &str) -> (r: bool)
    ensures
        r == daemon_key(key@),
{
    same_text(key, "database_path") || same_text(key, "poll_interval_sec") || same_text(
        key,
        "lan_subnets",
    ) || same_text(key, "exclude_ifaces") || same_text(key, "force_lan_ifaces") || same_text(
        key,
        "classify_tailscale_as_lan",
    ) || same_text(key, "retention_days_raw") || same_text(key, "retention_days_hourly")
        || same_text(key, "max_rate_mbit") || same_text(key, "timezone") || same_text(
        key,
        "monthly_budget_gb",
    ) || same_text(key, "budget_gb") || same_text(key, "budget_period") || same_text(
        key,
        "budget_basis",
    ) || same_text(key, "notify_on_budget")
}

/// What is said to a user who sets a key of the daemon in the own file.
pub open spec fn note_text(key: Seq<char>) -> Seq<char> {
    "note: `"@ + key
        + "` affects the daemon, which reads /etc/netmeter/config.toml — set it there (sudo) or the service won't see this value"@
}

/// What is said of setting a key: nothing to the superuser, whose file the daemon reads,
/// nor of a key that the daemon does not read.
pub fn set_note(key: &str, superuser: bool) -> (r: Option<String>)
    ensures
        r is Some <==> !superuser && daemon_key(key@),
        r matches Some(s) ==> s@ == note_text(key@),
{
    if superuser || !read_by_daemon(key) {
        return None;
    }
    let mut r = String::new();
    r.append("note: `");
    r.append(key);
    r.append(
        "` affects the daemon, which reads /etc/netmeter/config.toml — set it there (sudo) or the service won't see this value",
    );
    Some(r)
}

/// The file that setting a key changes: the system's for the superuser, else the user's,
/// if there is a place for one.
pub fn set_path(superuser: bool, user_path: Option<String>) -> (r: Option<String>)
    ensures
        superuser ==> r is Some && r->0@ == "/etc/netmeter/config.toml"@,
        !superuser ==> r == user_path,
{
    if superuser {
        Some(Config::system_path())
    } else {
        user_path
    }
}

// ---- what keys and words stand for ----

/// A pattern without a star at its end matches itself and no other name.
pub proof fn plain_patterns_match_themselves(pattern: Seq<char>, name: Seq<char>)
    requires
        pattern.len() == 0 || pattern.last() != '*',
    ensures
        glob(pattern, pattern),
        name != pattern ==> !glob(pattern, name),
{
}

/// One pattern that matches is enough, wherever it stands, and more patterns never unmatch
/// a name.
pub proof fn one_match_is_enough(patterns: Seq<String>, more: Seq<String>, i: int, name: Seq<char>)
    requires
        0 <= i < patterns.len(),
        glob(patterns[i]@, name),
    ensures
        matches_any(patterns, name),
        matches_any(patterns + more, name),
        matches_any(more + patterns, name),
        !matches_any(Seq::empty(), name),
{
    assert((patterns + more)[i] == patterns[i]);
    assert((more + patterns)[more.len() + i] == patterns[i]);
}

/// A budget counts by the day, the week or the month, by the one that is named if it is one
/// of them.
pub proof fn budgets_count_by_known_periods(period: Seq<char>)
    ensures
        counted_period(period) == "day"@ || counted_period(period) == "week"@ || counted_period(
            period,
        ) == "month"@,
        counted_period("day"@) == "day"@,
        counted_period("week"@) == "week"@,
        period != "day"@ && period != "week"@ ==> counted_period(period) == "month"@,
        counted_period(counted_period(period)) == counted_period(period),
{
}

/// A budget of whole GiB is that many times two to the 30th bytes; one without bound is as
/// large as a count can be.
pub proof fn whole_budgets_are_exact(gb: u64, gib: nat)
    requires
        gb < INFINITY_BITS,
        0 < gib < 0x40_0000,
        bits_double(gb) == int_double(gib),
    ensures
        budget_bytes(gb) == gib * 1024 * 1024 * 1024,
        budget_bytes(INFINITY_BITS) == i64::MAX,
{
    whole_products_are_exact(gib, 1_073_741_824);
    let n = gib * 1_073_741_824;
    int_is_exact(n);
    lemma_pow2_pos(unit_bits());
    let o = one();
    assert((n * o) / o == n) by (nonlinear_arith)
        requires
            o > 0,
    ;
}

/// The poll interval is from 1 to 60 seconds: a number in the variable counts if it lies
/// there, else the nearest one that does; without one what stood there does.
pub proof fn poll_intervals_lie_in_their_range(env: String, n: nat, was: u64)
    requires
        env@ == decimal(n),
    ensures
        1 <= poll_interval(Some(env), was) <= 60,
        1 <= n <= 60 ==> poll_interval(Some(env), was) == n,
        60 < n <= u64::MAX ==> poll_interval(Some(env), was) == 60,
        n == 0 ==> poll_interval(Some(env), was) == 1,
        n > u64::MAX ==> poll_interval(Some(env), was) == poll_interval(None, was),
        1 <= was <= 60 ==> poll_interval(None, was) == was,
        was > 60 ==> poll_interval(None, was) == 60,
        was == 0 ==> poll_interval(None, was) == 1,
{
    numbers_are_read_back(n, u64::MAX as int);
}

/// A tilde before a stroke at the start of a path stands for the home directory; any other
/// path, and every path where no home is known, stays as it is.
pub proof fn a_tilde_stands_for_the_home(rest: Seq<char>, home: Seq<char>, path: Seq<char>)
    ensures
        expanded(seq!['~', '/'] + rest, Some(home)) == home + seq!['/'] + rest,
        path.len() < 2 || path[0] != '~' || path[1] != '/' ==> expanded(path, Some(home)) == path,
        expanded(path, None) == path,
{
    reveal_strlit("~/");
    reveal_strlit("/");
    let p = seq!['~', '/'] + rest;
    assert("~/"@ =~= seq!['~', '/']);
    assert(p.take(2) =~= "~/"@);
    assert(p.skip(2) =~= rest);
    assert("/"@ =~= seq!['/']);
    if path.len() >= 2 && (path[0] != '~' || path[1] != '/') {
        assert(path.take(2)[0] == path[0] && path.take(2)[1] == path[1]);
    }
}

/// A path below a directory is the directory, one stroke, and the path.
pub proof fn paths_are_joined_by_one_stroke(dir: Seq<char>, path: Seq<char>)
    requires
        dir.len() > 0,
        dir.last() != '/',
    ensures
        below(dir, path) == dir + seq!['/'] + path,
        below(dir.push('/'), path) == below(dir, path),
{
    reveal_strlit("/");
    assert("/"@ =~= seq!['/']);
    assert(below(dir.push('/'), path) =~= dir + seq!['/'] + path);
}

/// An integer of 64 bits that is typed in is that integer, as a value and in a file.
pub proof fn typed_integers_are_integers(r: Scalar, t: Tree, n: i64)
    ensures
        is_typed(r, signed_decimal(n as int)) ==> r == Scalar::Integer(n),
        is_typed_tree(t, signed_decimal(n as int)) ==> t == integer_tree(n),
{
    integers_are_read_back(n as int);
}

/// Two rows of digits with a point between them are a floating-point number, with a sign
/// before them too.
#[verifier::spinoff_prover]
pub proof fn numbers_with_a_point_are_floats(a: nat, b: nat)
    ensures
        is_float(decimal(a) + seq!['.'] + decimal(b)),
        is_float(seq!['-'] + (decimal(a) + seq!['.'] + decimal(b))),
{
    let s = decimal(a) + seq!['.'] + decimal(b);
    numbers_are_read_back(a, 0);
    numbers_are_read_back(b, 0);
    assert forall|i: int| 0 <= i < s.len() implies #[trigger] s[i] == '.' || ('0' <= s[i] && s[i]
        <= '9') by {
        if i < decimal(a).len() {
            assert(s[i] == decimal(a)[i]);
        } else if i > decimal(a).len() {
            assert(s[i] == decimal(b)[i - decimal(a).len() - 1]);
        }
    }
    no_exponent(s);
    place_of_is_first(s, '.');
    let p = place_of(s, '.') as int;
    if p < decimal(a).len() {
        assert(s[p] == decimal(a)[p]);
    }
    assert(s[decimal(a).len() as int] == '.');
    assert(s.take(p) =~= decimal(a));
    assert(s.skip(p + 1) =~= decimal(b));
    assert(s.take(exponent_place(s) as int) =~= s);
    assert(is_number(s));
    assert(s[0] == decimal(a)[0]);
    assert((seq!['-'] + s).drop_first() =~= s);
}

proof fn no_exponent(s: Seq<char>)
    requires
        forall|i: int| 0 <= i < s.len() ==> #[trigger] s[i] != 'e' && s[i] != 'E',
    ensures
        exponent_place(s) == s.len(),
    decreases s.len(),
{
    if s.len() > 0 {
        let t = s.drop_first();
        assert forall|i: int| 0 <= i < t.len() implies #[trigger] t[i] != 'e' && t[i] != 'E' by {
            assert(t[i] == s[i + 1]);
        }
        no_exponent(t);
        assert(s[0] != 'e');
    }
}

/// A number with an exponent behind it is one too, and every number holds a digit.
pub proof fn numbers_may_have_an_exponent(a: nat, b: nat, s: Seq<char>)
    ensures
        is_float(decimal(a) + seq!['e'] + decimal(b)),
        is_float(decimal(a) + seq!['e', '-'] + decimal(b)),
        !is_float(decimal(a) + seq!['e']),
        is_number(s) ==> exists|i: int|
            0 <= i < s.len() && '0' <= #[trigger] s[i] && s[i] <= '9',
{
    numbers_are_read_back(a, 0);
    numbers_are_read_back(b, 0);
    let (x, y) = (decimal(a), decimal(b));
    let p = x + seq!['e'] + y;
    let q = x + seq!['e', '-'] + y;
    let r = x + seq!['e'];
    exponent_behind(x, seq!['e'] + y);
    exponent_behind(x, seq!['e', '-'] + y);
    exponent_behind(x, seq!['e']);
    assert(p =~= x + (seq!['e'] + y) && q =~= x + (seq!['e', '-'] + y));
    let n = x.len() as int;
    no_point(x);
    assert(p.take(n) =~= x && q.take(n) =~= x && r.take(n) =~= x);
    assert(p.skip(n + 1) =~= y && q.skip(n + 1) =~= seq!['-'] + y);
    assert(r.skip(n + 1) =~= Seq::empty());
    assert((seq!['-'] + y).drop_first() =~= y);
    assert(p[0] == x[0] && q[0] == x[0] && r[0] == x[0]);
    assert(is_number(p) && is_number(q) && !is_number(r));
    reveal_strlit("inf");
    reveal_strlit("infinity");
    reveal_strlit("nan");
    assert(lower(r[0]) == r[0]);
    if is_number(s) {
        exponents_lie_within(s);
        let m = s.take(exponent_place(s) as int);
        let k = place_of(m, '.') as int;
        place_of_is_first(m, '.');
        if k < m.len() {
            let (before, behind) = (m.take(k), m.skip(k + 1));
            if k > 0 {
                assert(before[0] == s[0]);
            } else {
                assert(behind[0] == s[1]);
            }
        } else {
            assert(m[0] == s[0]);
        }
    }
}

proof fn exponents_lie_within(s: Seq<char>)
    ensures
        exponent_place(s) <= s.len(),
    decreases s.len(),
{
    if s.len() > 0 {
        exponents_lie_within(s.drop_first());
    }
}

proof fn exponent_behind(x: Seq<char>, t: Seq<char>)
    requires
        forall|i: int| 0 <= i < x.len() ==> #[trigger] x[i] != 'e' && x[i] != 'E',
        t.len() > 0,
        t[0] == 'e' || t[0] == 'E',
    ensures
        exponent_place(x + t) == x.len(),
    decreases x.len(),
{
    if x.len() == 0 {
        assert(x + t =~= t);
    } else {
        let y = x.drop_first();
        assert forall|i: int| 0 <= i < y.len() implies #[trigger] y[i] != 'e' && y[i] != 'E' by {
            assert(y[i] == x[i + 1]);
        }
        exponent_behind(y, t);
        assert((x + t).drop_first() =~= y + t);
        assert(x[0] != 'e');
    }
}

proof fn no_point(x: Seq<char>)
    requires
        forall|i: int| 0 <= i < x.len() ==> '0' <= #[trigger] x[i] && x[i] <= '9',
    ensures
        place_of(x, '.') == x.len(),
{
    place_of_is_first(x, '.');
    let k = place_of(x, '.') as int;
    if k < x.len() {
        assert('0' <= x[k]);
    }
}

/// Whether a configuration is another one with the overrides of the environment.
pub open spec fn is_overridden(r: Config, was: Config, env: Overrides) -> bool {
    &&& r.database_path@ == overridden(env.database_path, was.database_path@)
    &&& r.poll_interval_sec == poll_interval(env.poll_interval_sec, was.poll_interval_sec)
    &&& r.units@ == overridden(env.units, was.units@)
    &&& r.budget_gb == match env.budget_gb {
        Some(gb) => gb,
        None => was.budget_gb,
    }
    &&& r.budget_period@ == overridden(env.budget_period, was.budget_period@)
}

/// What the environment sets counts, whatever stood there, and what it does not set stays;
/// setting the same once more changes nothing.
pub proof fn the_environment_counts(r: Config, again: Config, was: Config, env: Overrides)
    requires
        is_overridden(r, was, env),
        is_overridden(again, r, env),
    ensures
        again.database_path@ == r.database_path@,
        again.units@ == r.units@,
        again.budget_gb == r.budget_gb,
        again.budget_period@ == r.budget_period@,
        again.poll_interval_sec == r.poll_interval_sec,
        env.database_path is None ==> r.database_path@ == was.database_path@,
        env.units is None ==> r.units@ == was.units@,
        env.budget_gb is None ==> r.budget_gb == was.budget_gb,
        env.budget_period is None ==> r.budget_period@ == was.budget_period@,
        env.poll_interval_sec is None && 1 <= was.poll_interval_sec <= 60 ==> r.poll_interval_sec
            == was.poll_interval_sec,
        env.database_path matches Some(v) ==> r.database_path@ == v@,
        env.units matches Some(v) ==> r.units@ == v@,
        env.budget_gb matches Some(v) ==> r.budget_gb == v,
        env.budget_period matches Some(v) ==> r.budget_period@ == v@,
        1 <= r.poll_interval_sec <= 60,
{
}

/// A word counts whatever the case of its letters.
pub proof fn letters_count_in_any_case(s: Seq<char>, t: Seq<char>, word: Seq<char>)
    requires
        s.len() == t.len(),
        forall|i: int|
            0 <= i < s.len() ==> (#[trigger] s[i] == t[i] || ('A' <= s[i] && s[i] <= 'Z' && t[i]
                as int == s[i] as int + 32)),
    ensures
        is_word(s, word) == is_word(t, word),
{
    assert forall|i: int| 0 <= i < s.len() implies lower(#[trigger] s[i]) == lower(t[i]) by {
    }
    if is_word(s, word) {
        assert forall|i: int| 0 <= i < t.len() implies lower(#[trigger] t[i]) == word[i] by {
            assert(lower(s[i]) == word[i]);
        }
    }
    if is_word(t, word) {
        assert forall|i: int| 0 <= i < s.len() implies lower(#[trigger] s[i]) == word[i] by {
            assert(lower(t[i]) == word[i]);
        }
    }
}

/// The keys of the configuration.
pub open spec fn config_keys() -> Seq<Seq<char>> {
    seq![
        "poll_interval_sec"@,
        "database_path"@,
        "units"@,
        "timezone"@,
        "exclude_ifaces"@,
        "lan_subnets"@,
        "force_lan_ifaces"@,
        "retention_days_raw"@,
        "retention_days_hourly"@,
        "proc_retention_days"@,
        "proc_recording"@,
        "max_rate_mbit"@,
        "budget_period"@,
        "budget_gb"@,
        "budget_basis"@,
        "notify_on_budget"@,
    ]
}

/// Setting any key is told to bear on the daemon, but for the units, which only viewers
/// read, and the keys of programs.
#[verifier::spinoff_prover]
pub proof fn the_daemon_reads_all_but_units_and_programs(i: int)
    requires
        0 <= i < config_keys().len(),
    ensures
        daemon_key(config_keys()[i]) <==> config_keys()[i] != "units"@ && !starts_with(
            config_keys()[i],
            "proc_"@,
        ),
{
    reveal_strlit("poll_interval_sec");
    reveal_strlit("database_path");
    reveal_strlit("units");
    reveal_strlit("timezone");
    reveal_strlit("exclude_ifaces");
    reveal_strlit("lan_subnets");
    reveal_strlit("force_lan_ifaces");
    reveal_strlit("classify_tailscale_as_lan");
    reveal_strlit("retention_days_raw");
    reveal_strlit("retention_days_hourly");
    reveal_strlit("proc_retention_days");
    reveal_strlit("proc_recording");
    reveal_strlit("max_rate_mbit");
    reveal_strlit("monthly_budget_gb");
    reveal_strlit("budget_period");
    reveal_strlit("budget_gb");
    reveal_strlit("budget_basis");
    reveal_strlit("notify_on_budget");
    reveal_strlit("proc_");
    let key = config_keys()[i];
    let head = key.take(5);
    assert("proc_"@.len() == 5);
    assert("units"@[0] == 'u' && "proc_"@[0] == 'p' && "proc_"@[1] == 'r');
    if i == 9 || i == 10 {
        assert(key[0] == 'p' && key[1] == 'r');
        assert(head =~= "proc_"@);
        assert("poll_interval_sec"@[1] == 'o');
        assert(!daemon_key(key));
    } else if i == 2 {
        assert(key[0] == 'u');
        assert(!daemon_key(key));
    } else {
        assert(daemon_key(key));
        assert(head[0] == key[0] && head[1] == key[1]);
        assert(key[0] != 'p' || key[1] != 'r');
    }
}

} // verus!
