//! Tool configuration.
//!
//! The permitted-domain list is the single input that shapes every generated
//! cross-certificate. It is read from `rucerts.toml`; two older formats are migrated.
use crate::text::{
    ascii_lowered, char_lists, chars_of, ends_with, find_from, first_index, has_suffix, lines,
    lowered, slice_of, split_lines, starts_with, string_of, strip_prefix, texts, trim, trimmed,
};
use vstd::prelude::*;

verus! {

/// Validity of a generated cross-certificate, in days.
///
/// Chosen to outlive the constrained root's own expiry without exceeding it by much.
pub const DEFAULT_CROSS_DAYS: u32 = 2000;

/// Validity of a generated local root, in days.
pub const DEFAULT_ROOT_DAYS: u32 = 3650;

/// `pathLenConstraint` placed on the cross-certificate: one intermediate plus a leaf.
pub const DEFAULT_PATH_LEN: u32 = 1;

/// Upper bound on a validity, in days: what a C `long` of 32 bits counts in seconds.
pub const MAX_DAYS: u32 = 24855;

/// Upper bound on a Common Name, in bytes, from RFC 5280 `ub-common-name`.
///
/// Counted in bytes, not characters: Cyrillic costs two bytes per character in UTF-8.
pub const MAX_CN_BYTES: usize = 64;

/// Complete tool configuration.
#[derive(Debug, Clone)]
pub struct Config {
    /// Name constraints applied to every cross-certificate.
    pub constraints: Constraints,
    /// Signing parameters.
    pub signing: Signing,
}

/// Name constraints applied to every cross-certificate.
#[derive(Debug, Clone)]
pub struct Constraints {
    /// Permitted DNS subtrees. A name here also covers all of its subdomains.
    pub permitted_dns: Vec<String>,
    /// Exclude every IPv4 and IPv6 address.
    pub exclude_ip: bool,
    /// Exclude every rfc822 (email) name.
    pub exclude_email: bool,
    /// Exclude every URI name.
    pub exclude_uri: bool,
}

/// Signing parameters.
#[derive(Debug, Clone, Copy, PartialEq, Eq, Structural)]
pub struct Signing {
    /// Validity of a generated cross-certificate, in days.
    pub cross_days: u32,
    /// Validity of a generated local root, in days.
    pub root_days: u32,
    /// `pathLenConstraint` placed on the cross-certificate.
    pub path_len: u32,
}

/// What a configuration says.
#[verifier::ext_equal]
pub struct ConfigModel {
    /// The permitted names.
    pub permitted: Seq<Seq<char>>,
    /// Whether every address is excluded.
    pub exclude_ip: bool,
    /// Whether every email name is excluded.
    pub exclude_email: bool,
    /// Whether every URI name is excluded.
    pub exclude_uri: bool,
    /// The signing parameters.
    pub signing: Signing,
}

impl View for Config {
    type V = ConfigModel;

    open spec fn view(&self) -> ConfigModel {
        ConfigModel {
            permitted: texts(self.constraints.permitted_dns@),
            exclude_ip: self.constraints.exclude_ip,
            exclude_email: self.constraints.exclude_email,
            exclude_uri: self.constraints.exclude_uri,
            signing: self.signing,
        }
    }
}

/// What an exclusion is where the configuration does not say: on.
pub fn yes() -> (r: bool)
    ensures
        r,
{
    true
}

/// The validity of a cross-certificate where the configuration does not say.
pub fn default_cross_days() -> (r: u32)
    ensures
        r == DEFAULT_CROSS_DAYS,
{
    DEFAULT_CROSS_DAYS
}

/// The validity of a local root where the configuration does not say.
pub fn default_root_days() -> (r: u32)
    ensures
        r == DEFAULT_ROOT_DAYS,
{
    DEFAULT_ROOT_DAYS
}

/// The path length where the configuration does not say.
pub fn default_path_len() -> (r: u32)
    ensures
        r == DEFAULT_PATH_LEN,
{
    DEFAULT_PATH_LEN
}

impl Default for Signing {
    fn default() -> (r: Self)
        ensures
            r == (Signing {
                cross_days: DEFAULT_CROSS_DAYS,
                root_days: DEFAULT_ROOT_DAYS,
                path_len: DEFAULT_PATH_LEN,
            }),
    {
        Self {
            cross_days: DEFAULT_CROSS_DAYS,
            root_days: DEFAULT_ROOT_DAYS,
            path_len: DEFAULT_PATH_LEN,
        }
    }
}

impl Constraints {
    /// The permitted names.
    pub open spec fn names(&self) -> Seq<Seq<char>> {
        texts(self.permitted_dns@)
    }

    /// The same constraints with other permitted names.
    pub fn with_permitted(&self, permitted_dns: Vec<String>) -> (r: Self)
        ensures
            r == (Constraints { permitted_dns, ..*self }),
    {
        Self {
            permitted_dns,
            exclude_ip: self.exclude_ip,
            exclude_email: self.exclude_email,
            exclude_uri: self.exclude_uri,
        }
    }
}

/// Whether `name` falls inside the subtree of `domain`, both in lower case: it is `domain`, or
/// it ends in a dot and `domain`.
pub open spec fn lower_in_subtree(name: Seq<char>, domain: Seq<char>) -> bool {
    name == domain || ends_with(name, seq!['.'] + domain)
}

/// Whether `name` falls inside the subtree of `domain`. Whether letters are in upper or lower
/// case makes no difference, as it makes none in DNS.
pub open spec fn in_subtree(name: Seq<char>, domain: Seq<char>) -> bool {
    lower_in_subtree(ascii_lowered(name), ascii_lowered(domain))
}

/// Whether `name` falls inside the subtree of one of `domains`.
pub open spec fn covered(domains: Seq<Seq<char>>, name: Seq<char>) -> bool {
    exists|i: int| 0 <= i < domains.len() && in_subtree(name, #[trigger] domains[i])
}

/// Whether a name falls inside a subtree.
pub fn falls_inside(name: &str, domain: &str) -> (r: bool)
    ensures
        r == in_subtree(name@, domain@),
{
    let name_chars = chars_of(lowered(name).as_str());
    let mut suffix: Vec<char> = Vec::new();
    suffix.push('.');
    let mut domain_chars = chars_of(lowered(domain).as_str());
    let same: bool = crate::text::same_chars(&name_chars, &domain_chars);
    suffix.append(&mut domain_chars);
    assert(suffix@ =~= seq!['.'] + ascii_lowered(domain@));
    same || has_suffix(&name_chars, &suffix)
}

/// Whether a name falls inside one of the subtrees.
pub fn covered_by(domains: &Vec<String>, name: &str) -> (r: bool)
    ensures
        r == covered(texts(domains@), name@),
{
    for i in 0..domains.len()
        invariant
            forall|j: int| 0 <= j < i ==> !in_subtree(name@, #[trigger] texts(domains@)[j]),
    {
        if falls_inside(name, domains[i].as_str()) {
            assert(texts(domains@)[i as int] == domains@[i as int]@);
            return true;
        }
        assert(texts(domains@)[i as int] == domains@[i as int]@);
    }
    false
}

/// One of the files a configuration can be read from.
#[derive(Debug, Clone, Copy, PartialEq, Eq, Structural)]
pub enum ConfigSource {
    /// `rucerts.toml`.
    Current,
    /// `certsru.toml`: the same format under an older name. It is saved under the current
    /// name and removed.
    Renamed,
    /// `cross.cnf`: an OpenSSL configuration. What it permits is saved under the current
    /// name; the file stays.
    Legacy,
}

/// The file a configuration is loaded from, given which files there are.
pub open spec fn chosen(has_current: bool, has_renamed: bool, has_legacy: bool) -> Option<
    ConfigSource,
> {
    if has_current {
        Some(ConfigSource::Current)
    } else if has_renamed {
        Some(ConfigSource::Renamed)
    } else if has_legacy {
        Some(ConfigSource::Legacy)
    } else {
        None
    }
}

impl ConfigSource {
    /// Whether what was read is saved as `rucerts.toml`.
    pub open spec fn migrates(self) -> bool {
        self != ConfigSource::Current
    }

    /// Whether the file is removed once its contents were saved.
    pub open spec fn goes(self) -> bool {
        self == ConfigSource::Renamed
    }

    /// The name of the file.
    pub open spec fn name(self) -> Seq<char> {
        match self {
            ConfigSource::Current => "rucerts.toml"@,
            ConfigSource::Renamed => "certsru.toml"@,
            ConfigSource::Legacy => "cross.cnf"@,
        }
    }

    /// The name of the file.
    pub fn file_name(self) -> (r: &'static str)
        ensures
            r@ == self.name(),
    {
        match self {
            ConfigSource::Current => "rucerts.toml",
            ConfigSource::Renamed => "certsru.toml",
            ConfigSource::Legacy => "cross.cnf",
        }
    }

    /// Whether what was read is saved as `rucerts.toml`.
    pub fn is_migrated(self) -> (r: bool)
        ensures
            r == self.migrates(),
    {
        match self {
            ConfigSource::Current => false,
            ConfigSource::Renamed => true,
            ConfigSource::Legacy => true,
        }
    }

    /// Whether the file is removed once its contents were saved.
    pub fn is_removed(self) -> (r: bool)
        ensures
            r == self.goes(),
    {
        match self {
            ConfigSource::Current => false,
            ConfigSource::Renamed => true,
            ConfigSource::Legacy => false,
        }
    }
}

impl Config {
    /// Creates a configuration with the given permitted domains and all defaults.
    pub fn new(permitted_dns: Vec<String>) -> (r: Self)
        ensures
            r == (Config {
                constraints: Constraints {
                    permitted_dns,
                    exclude_ip: true,
                    exclude_email: true,
                    exclude_uri: true,
                },
                signing: Signing {
                    cross_days: DEFAULT_CROSS_DAYS,
                    root_days: DEFAULT_ROOT_DAYS,
                    path_len: DEFAULT_PATH_LEN,
                },
            }),
    {
        Self {
            constraints: Constraints {
                permitted_dns,
                exclude_ip: true,
                exclude_email: true,
                exclude_uri: true,
            },
            signing: Signing::default(),
        }
    }

    /// The file a configuration is loaded from, given which files there are: the current
    /// format goes before the older ones. Without any of them there is no configuration.
    pub fn load(has_current: bool, has_renamed: bool, has_legacy: bool) -> (r: Option<ConfigSource>)
        ensures
            r == chosen(has_current, has_renamed, has_legacy),
    {
        if has_current {
            Some(ConfigSource::Current)
        } else if has_renamed {
            Some(ConfigSource::Renamed)
        } else if has_legacy {
            Some(ConfigSource::Legacy)
        } else {
            None
        }
    }

    /// The configuration a legacy `cross.cnf` stands for.
    pub fn from_cross_cnf(text: &str) -> (r: Self)
        ensures
            r@ == migrated(text@),
    {
        Self::new(parse_cross_cnf(text))
    }

    /// Returns true when `name` falls inside an already-permitted subtree.
    ///
    /// A permitted `psbank.ru` covers `www.psbank.ru`, matching RFC 5280 subtree semantics.
    pub fn covers(&self, name: &str) -> (r: bool)
        ensures
            r == covered(texts(self.constraints.permitted_dns@), name@),
    {
        covered_by(&self.constraints.permitted_dns, name)
    }
}

/// The name a line of a legacy `cross.cnf` permits: what stands behind the first `=` of a
/// line that starts with `permitted;DNS`, unless that is empty.
pub open spec fn cnf_name(line: Seq<char>) -> Option<Seq<char>> {
    let entry = trimmed(line);
    let rest = entry.skip("permitted;DNS"@.len() as int);
    let equals = first_index(rest, '=');
    let value = trimmed(rest.skip(equals + 1));
    if starts_with(entry, "permitted;DNS"@) && equals < rest.len() && value.len() > 0 {
        Some(value)
    } else {
        None
    }
}

/// The names that the lines of a legacy `cross.cnf` permit, in order.
pub open spec fn cnf_names(lines: Seq<Seq<char>>) -> Seq<Seq<char>>
    decreases lines.len(),
{
    if lines.len() == 0 {
        Seq::empty()
    } else {
        let before = cnf_names(lines.drop_last());
        match cnf_name(lines.last()) {
            Some(name) => before.push(name),
            None => before,
        }
    }
}

/// The name one line permits.
fn parse_cnf_line(line: &Vec<char>) -> (r: Option<String>)
    ensures
        r is Some == cnf_name(line@) is Some,
        r matches Some(name) ==> cnf_name(line@) == Some(name@),
{
    let entry = trim(line);
    match strip_prefix(&entry, "permitted;DNS") {
        None => None,
        Some(rest) => {
            assert(rest@.skip(0) =~= rest@);
            // Keys are `permitted;DNS.<n>`; the suffix only makes them unique.
            let equals: usize = find_from(&rest, '=', 0);
            if equals == rest.len() {
                return None;
            }
            let tail = slice_of(&rest, equals + 1, rest.len());
            assert(tail@ =~= rest@.skip(equals + 1));
            let value = trim(&tail);
            if value.len() == 0 {
                None
            } else {
                Some(string_of(&value))
            }
        },
    }
}

/// Extracts permitted DNS names from a legacy `cross.cnf`.
pub fn parse_cross_cnf(text: &str) -> (r: Vec<String>)
    ensures
        texts(r@) == cnf_names(lines(text@)),
{
    let all = split_lines(&chars_of(text));
    let ghost seen = char_lists(all@);
    let mut out: Vec<String> = Vec::new();
    assert(texts(out@) =~= cnf_names(seen.take(0)));
    for i in 0..all.len()
        invariant
            seen == char_lists(all@),
            texts(out@) == cnf_names(seen.take(i as int)),
    {
        assert(seen.take(i + 1).drop_last() =~= seen.take(i as int));
        assert(seen.take(i + 1).last() == all@[i as int]@);
        let ghost before = out@;
        match parse_cnf_line(&all[i]) {
            Some(name) => {
                out.push(name);
                assert(texts(out@) =~= texts(before).push(name@));
            },
            None => {},
        }
    }
    assert(seen.take(seen.len() as int) =~= seen);
    out
}

/// The configuration that a legacy `cross.cnf` stands for: all defaults, and the names it
/// permits.
pub open spec fn migrated(text: Seq<char>) -> ConfigModel {
    ConfigModel {
        permitted: cnf_names(lines(text)),
        exclude_ip: true,
        exclude_email: true,
        exclude_uri: true,
        signing: Signing {
            cross_days: DEFAULT_CROSS_DAYS,
            root_days: DEFAULT_ROOT_DAYS,
            path_len: DEFAULT_PATH_LEN,
        },
    }
}

/// What the files that a configuration can be read from hold. A file in the current format
/// is taken for the configuration it says: this crate neither writes nor parses that format.
#[verifier::ext_equal]
pub struct ConfigFiles {
    /// What `rucerts.toml` says, if there is such a file.
    pub current: Option<ConfigModel>,
    /// What `certsru.toml` says, if there is such a file.
    pub renamed: Option<ConfigModel>,
    /// What `cross.cnf` holds, if there is such a file.
    pub legacy: Option<Seq<char>>,
}

impl ConfigFiles {
    /// The file a configuration is loaded from.
    pub open spec fn source(self) -> Option<ConfigSource> {
        chosen(self.current is Some, self.renamed is Some, self.legacy is Some)
    }

    /// The configuration that is loaded.
    pub open spec fn loaded(self) -> Option<ConfigModel> {
        match self.source() {
            None => None,
            Some(ConfigSource::Current) => self.current,
            Some(ConfigSource::Renamed) => self.renamed,
            Some(ConfigSource::Legacy) => Some(migrated(self.legacy->0)),
        }
    }

    /// The files once a configuration was saved.
    pub open spec fn saved(self, config: ConfigModel) -> ConfigFiles {
        ConfigFiles { current: Some(config), ..self }
    }

    /// The files once the configuration was loaded: an older file is saved anew, and one that
    /// was renamed goes.
    pub open spec fn after_loading(self) -> ConfigFiles {
        match self.source() {
            None => self,
            Some(source) => {
                let kept = if source.migrates() {
                    self.saved(self.loaded()->0)
                } else {
                    self
                };
                if source.goes() {
                    ConfigFiles { renamed: None, ..kept }
                } else {
                    kept
                }
            },
        }
    }
}

/// What was saved is loaded, whatever older files there are, and loading it changes no file.
pub proof fn lemma_saved_is_loaded(files: ConfigFiles, config: ConfigModel)
    ensures
        files.saved(config).loaded() == Some(config),
        files.saved(config).after_loading() == files.saved(config),
{
}

/// An older file is migrated once: loading again gives the same configuration and changes
/// nothing more. A renamed file is gone then, a legacy file is left as it was.
pub proof fn lemma_migration_happens_once(files: ConfigFiles)
    requires
        files.loaded() is Some,
    ensures
        files.after_loading().current == files.loaded(),
        files.after_loading().loaded() == files.loaded(),
        files.after_loading().after_loading() == files.after_loading(),
        files.after_loading().legacy == files.legacy,
        files.current is None ==> files.after_loading().renamed is None,
{
}

/// Putting texts in lower case and together, in either order.
proof fn lemma_lowered_joined(a: Seq<char>, b: Seq<char>)
    ensures
        ascii_lowered(a + b) == ascii_lowered(a) + ascii_lowered(b),
{
    assert(ascii_lowered(a + b) =~= ascii_lowered(a) + ascii_lowered(b));
}

/// A subtree is closed under taking subdomains: what covers a name covers every name below
/// it.
pub proof fn lemma_subdomains_are_covered(domains: Seq<Seq<char>>, name: Seq<char>, label: Seq<char>)
    requires
        covered(domains, name),
    ensures
        covered(domains, label + seq!['.'] + name),
{
    let i = choose|i: int| 0 <= i < domains.len() && in_subtree(name, #[trigger] domains[i]);
    let below = label + seq!['.'] + name;
    let lower = ascii_lowered(name);
    let sub = ascii_lowered(below);
    let domain = ascii_lowered(domains[i]);
    lemma_lowered_joined(label + seq!['.'], name);
    lemma_lowered_joined(label, seq!['.']);
    assert(ascii_lowered(seq!['.']) =~= seq!['.']);
    assert(sub =~= ascii_lowered(label) + seq!['.'] + lower);
    let suffix = seq!['.'] + domain;
    if lower == domain {
        assert(sub.subrange(sub.len() - suffix.len(), sub.len() as int) =~= suffix);
    } else {
        assert(sub.subrange(sub.len() - suffix.len(), sub.len() as int) =~= lower.subrange(
            lower.len() - suffix.len(),
            lower.len() as int,
        ));
    }
    assert(in_subtree(below, domains[i]));
}

/// A subtree match is a match of whole labels: a longer name is covered only where a dot
/// stands before the domain.
pub proof fn lemma_subtree_is_no_substring(name: Seq<char>, domain: Seq<char>)
    requires
        in_subtree(name, domain),
        ascii_lowered(name) != ascii_lowered(domain),
    ensures
        name.len() > domain.len(),
        name[name.len() - domain.len() - 1] == '.',
        ascii_lowered(name.skip(name.len() - domain.len())) == ascii_lowered(domain),
{
    let lower = ascii_lowered(name);
    let suffix = seq!['.'] + ascii_lowered(domain);
    let tail = lower.subrange(lower.len() - suffix.len(), lower.len() as int);
    let at = name.len() - domain.len() - 1;
    assert(tail[0] == '.');
    assert(lower[at] == '.');
    assert(lower[at] == crate::text::ascii_lower(name[at]));
    assert(ascii_lowered(name.skip(at + 1)) =~= tail.skip(1));
    assert(suffix.skip(1) =~= ascii_lowered(domain));
}

/// Subtrees nest: what lies inside a subtree of a subtree lies inside the outer one.
pub proof fn lemma_subtrees_nest(name: Seq<char>, inner: Seq<char>, outer: Seq<char>)
    requires
        in_subtree(name, inner),
        in_subtree(inner, outer),
    ensures
        in_subtree(name, outer),
{
    let a = ascii_lowered(name);
    let b = ascii_lowered(inner);
    let c = ascii_lowered(outer);
    if a != b && b != c {
        let long = seq!['.'] + b;
        let short = seq!['.'] + c;
        let tail = a.subrange(a.len() - long.len(), a.len() as int);
        assert(tail.skip(1) =~= b);
        assert(a.subrange(a.len() - short.len(), a.len() as int) =~= tail.skip(1).subrange(
            b.len() - short.len(),
            b.len() as int,
        ));
    }
}

/// Upper and lower case make no difference to what a subtree covers.
pub proof fn lemma_case_makes_no_difference(
    name: Seq<char>,
    other: Seq<char>,
    domains: Seq<Seq<char>>,
)
    requires
        ascii_lowered(name) == ascii_lowered(other),
    ensures
        covered(domains, name) == covered(domains, other),
{
    if covered(domains, name) {
        let i = choose|i: int| 0 <= i < domains.len() && in_subtree(name, #[trigger] domains[i]);
        assert(in_subtree(other, domains[i]));
    }
    if covered(domains, other) {
        let i = choose|i: int| 0 <= i < domains.len() && in_subtree(other, #[trigger] domains[i]);
        assert(in_subtree(name, domains[i]));
    }
}

/// What lower case means: the letters from `A` to `Z` become those from `a` to `z`, and
/// nothing else changes.
pub proof fn lemma_lower_case_means(s: Seq<char>, i: int)
    requires
        0 <= i < s.len(),
    ensures
        ascii_lowered(s).len() == s.len(),
        'A' <= s[i] <= 'Z' ==> ascii_lowered(s)[i] as u32 == s[i] as u32 + 32,
        !('A' <= s[i] <= 'Z') ==> ascii_lowered(s)[i] == s[i],
{
}

/// What it means that a list covers a name: some entry of it, wherever it stands, is the name,
/// or the name ends in a dot and that entry. Whether letters are in upper or lower case makes
/// no difference.
pub proof fn lemma_covered_means(domains: Seq<Seq<char>>, name: Seq<char>)
    ensures
        covered(domains, name) <==> exists|i: int|
            0 <= i < domains.len() && {
                ||| ascii_lowered(name) == ascii_lowered(#[trigger] domains[i])
                ||| exists|label: Seq<char>|
                    ascii_lowered(name) == #[trigger] (label + seq!['.']) + ascii_lowered(
                        domains[i],
                    )
            },
{
    assert forall|i: int| 0 <= i < domains.len() implies in_subtree(name, #[trigger] domains[i])
        == {
        ||| ascii_lowered(name) == ascii_lowered(domains[i])
        ||| exists|label: Seq<char>|
            ascii_lowered(name) == #[trigger] (label + seq!['.']) + ascii_lowered(domains[i])
    } by {
        lemma_subtree_means(name, domains[i]);
    }
}

/// What it means that a name falls inside a subtree.
proof fn lemma_subtree_means(name: Seq<char>, domain: Seq<char>)
    ensures
        in_subtree(name, domain) == {
            ||| ascii_lowered(name) == ascii_lowered(domain)
            ||| exists|label: Seq<char>|
                ascii_lowered(name) == #[trigger] (label + seq!['.']) + ascii_lowered(domain)
        },
{
    let a = ascii_lowered(name);
    let b = ascii_lowered(domain);
    let suffix = seq!['.'] + b;
    if ends_with(a, suffix) {
        let label = a.take(a.len() - suffix.len());
        assert(a =~= label + a.subrange(a.len() - suffix.len(), a.len() as int));
        assert(a =~= (label + seq!['.']) + b);
    }
    if exists|label: Seq<char>| a == #[trigger] (label + seq!['.']) + b {
        let label = choose|label: Seq<char>| a == #[trigger] (label + seq!['.']) + b;
        assert(a.subrange(a.len() - suffix.len(), a.len() as int) =~= suffix);
    }
}

/// Every entry of the list, wherever it stands, covers itself and everything below it.
pub proof fn lemma_every_entry_covers(domains: Seq<Seq<char>>, i: int, label: Seq<char>)
    requires
        0 <= i < domains.len(),
    ensures
        covered(domains, domains[i]),
        covered(domains, label + seq!['.'] + domains[i]),
{
    assert(in_subtree(domains[i], domains[i]));
    lemma_subdomains_are_covered(domains, domains[i], label);
}

/// The files a configuration is read from, by their names, and the order in which they count.
pub proof fn lemma_where_a_configuration_comes_from(
    has_current: bool,
    has_renamed: bool,
    has_legacy: bool,
)
    ensures
        chosen(has_current, has_renamed, has_legacy) is None == (!has_current && !has_renamed
            && !has_legacy),
        chosen(has_current, has_renamed, has_legacy) matches Some(source) ==> {
            &&& source.name() == "rucerts.toml"@ || source.name() == "certsru.toml"@
                || source.name() == "cross.cnf"@
            &&& has_current ==> source.name() == "rucerts.toml"@ && !source.migrates()
                && !source.goes()
            &&& !has_current && has_renamed ==> source.name() == "certsru.toml"@
                && source.migrates() && source.goes()
            &&& !has_current && !has_renamed ==> source.name() == "cross.cnf"@ && source.migrates()
                && !source.goes()
        },
{
}

/// A line of a legacy file permits what stands behind its first `=`, without white space
/// around it, where it begins with `permitted;DNS`; nothing else permits anything.
pub proof fn lemma_cnf_line_means(line: Seq<char>, key: Seq<char>, value: Seq<char>)
    ensures
        trimmed(line) == "permitted;DNS"@ + key + seq!['='] + value && !key.contains('=')
            && trimmed(value).len() > 0 ==> cnf_name(line) == Some(trimmed(value)),
        trimmed(line) == "permitted;DNS"@ + key + seq!['='] + value && !key.contains('=')
            && trimmed(value).len() == 0 ==> cnf_name(line) is None,
        trimmed(line) == "permitted;DNS"@ + key && !key.contains('=') ==> cnf_name(line) is None,
        !starts_with(trimmed(line), "permitted;DNS"@) ==> cnf_name(line) is None,
{
    let prefix = "permitted;DNS"@;
    let entry = trimmed(line);
    let rest = entry.skip(prefix.len() as int);
    if entry == prefix + key + seq!['='] + value && !key.contains('=') {
        assert(rest =~= key + seq!['='] + value);
        assert(entry.subrange(0, prefix.len() as int) =~= prefix);
        assert(rest[key.len() as int] == '=');
        assert forall|j: int| 0 <= j < key.len() implies rest[j] != '=' by {
            assert(key.contains(key[j]));
        }
        crate::text::lemma_first_index_is(rest, '=', key.len() as int);
        assert(rest.skip(key.len() as int + 1) =~= value);
    }
    if entry == prefix + key && !key.contains('=') {
        assert(rest =~= key);
        crate::text::lemma_first_index(rest, '=');
        if first_index(rest, '=') < rest.len() {
            assert(key.contains(rest[first_index(rest, '=')]));
        }
    }
}

/// The names of a legacy file are those of its lines, one after the other.
pub proof fn lemma_cnf_lines_add_up(a: Seq<Seq<char>>, b: Seq<Seq<char>>, line: Seq<char>)
    ensures
        cnf_names(a + b) == cnf_names(a) + cnf_names(b),
        cnf_name(line) matches Some(name) ==> cnf_names(seq![line]) == seq![name],
        cnf_name(line) is None ==> cnf_names(seq![line]).len() == 0,
    decreases b.len(),
{
    let none = Seq::<Seq<char>>::empty();
    assert(seq![line].drop_last() =~= none);
    assert(cnf_names(none) =~= none);
    if let Some(name) = cnf_name(line) {
        assert(none.push(name) =~= seq![name]);
    }
    if b.len() == 0 {
        assert(a + b =~= a);
        assert(cnf_names(a) + none =~= cnf_names(a));
    } else {
        lemma_cnf_lines_add_up(a, b.drop_last(), line);
        assert((a + b).drop_last() =~= a + b.drop_last());
        assert((a + b).last() == b.last());
        assert(cnf_names(a + b) =~= cnf_names(a) + cnf_names(b));
    }
}

/// What is migrated permits what the legacy file permits, excludes everything else, and has
/// the default parameters.
pub proof fn lemma_migrated_configuration_means(text: Seq<char>)
    ensures
        migrated(text).permitted == cnf_names(lines(text)),
        migrated(text).exclude_ip && migrated(text).exclude_email && migrated(text).exclude_uri,
        migrated(text).signing.cross_days == 2000,
        migrated(text).signing.root_days == 3650,
        migrated(text).signing.path_len == 1,
{
}

} // verus!
