//! Changes to the list of permitted domains.
//!
//! A leaf fails unless *every* name it carries falls inside a permitted subtree, so adding
//! one name is not enough when its certificate also carries another.
use crate::config::{covered_by, Config};
use crate::path::after_last;
use crate::probe::dns_names;
use crate::text::{
    chars_of, copy_texts, find_from, find_text, list_contains, same_text, slice_of, string_of,
};
use crate::verify::base_of;
use crate::x509::Certificate;
use vstd::prelude::*;

verus! {

/// What stands behind the first `pattern` in `s`, if it stands anywhere.
pub open spec fn behind(s: Seq<char>, pattern: Seq<char>) -> Option<Seq<char>>
    decreases s.len(),
{
    if crate::text::starts_with(s, pattern) {
        Some(s.skip(pattern.len() as int))
    } else if s.len() == 0 {
        None
    } else {
        behind(s.skip(1), pattern)
    }
}

/// What stands behind the first place of a pattern.
proof fn lemma_behind(s: Seq<char>, pattern: Seq<char>, at: int)
    requires
        crate::text::stands_at(s, pattern, at),
        forall|j: int| 0 <= j < at ==> !crate::text::stands_at(s, pattern, j),
    ensures
        behind(s, pattern) == Some(s.skip(at + pattern.len())),
    decreases s.len(),
{
    if at > 0 {
        let rest = s.skip(1);
        assert(!crate::text::stands_at(s, pattern, 0));
        assert(rest.subrange(at - 1, at - 1 + pattern.len()) =~= s.subrange(
            at,
            at + pattern.len(),
        ));
        assert forall|j: int| 0 <= j < at - 1 implies !crate::text::stands_at(
            rest,
            pattern,
            j,
        ) by {
            if crate::text::stands_at(rest, pattern, j) {
                assert(rest.subrange(j, j + pattern.len()) =~= s.subrange(
                    j + 1,
                    j + 1 + pattern.len(),
                ));
                assert(crate::text::stands_at(s, pattern, j + 1));
            }
        }
        lemma_behind(rest, pattern, at - 1);
        assert(rest.skip(at - 1 + pattern.len()) =~= s.skip(at + pattern.len()));
    }
}

/// Nothing stands behind a pattern that stands nowhere.
proof fn lemma_nothing_behind(s: Seq<char>, pattern: Seq<char>)
    requires
        !crate::text::contains_text(s, pattern),
    ensures
        behind(s, pattern) is None,
    decreases s.len(),
{
    assert(!crate::text::stands_at(s, pattern, 0));
    if s.len() > 0 {
        let rest = s.skip(1);
        assert(!crate::text::contains_text(rest, pattern)) by {
            if crate::text::contains_text(rest, pattern) {
                let j = choose|j: int| crate::text::stands_at(rest, pattern, j);
                assert(rest.subrange(j, j + pattern.len()) =~= s.subrange(
                    j + 1,
                    j + 1 + pattern.len(),
                ));
                assert(crate::text::stands_at(s, pattern, j + 1));
            }
        }
        lemma_nothing_behind(rest, pattern);
    }
}

/// A pasted URL without its scheme.
pub open spec fn without_scheme(raw: Seq<char>) -> Seq<char> {
    match behind(raw, "://"@) {
        Some(rest) => rest,
        None => raw,
    }
}

/// `s` up to the first `c`, or all of it.
pub open spec fn up_to(s: Seq<char>, c: char) -> Seq<char> {
    s.take(crate::text::first_index(s, c))
}

/// What stands behind the scheme and before the path, the query or the fragment.
pub open spec fn authority(raw: Seq<char>) -> Seq<char> {
    up_to(up_to(up_to(without_scheme(raw), '/'), '?'), '#')
}

/// The authority of a URL without a user name before it: what stands behind its last `@`.
pub open spec fn without_user(s: Seq<char>) -> Seq<char> {
    s.skip(crate::path::last_index(s, '@') + 1)
}

/// What is left of a host and a port without the port. An address in brackets ends with
/// them, other hosts end before the first colon.
pub open spec fn without_port(s: Seq<char>) -> Seq<char> {
    if s.len() > 0 && s[0] == '[' {
        if crate::text::first_index(s, ']') < s.len() {
            s.take(crate::text::first_index(s, ']') + 1)
        } else {
            s
        }
    } else {
        up_to(s, ':')
    }
}

/// The host of a pasted URL: neither scheme nor user name, neither port nor path are part of
/// it.
pub open spec fn host(raw: Seq<char>) -> Seq<char> {
    without_port(without_user(authority(raw)))
}

/// The characters up to the first `c`.
fn cut_at(chars: &Vec<char>, c: char) -> (r: Vec<char>)
    ensures
        r@ == up_to(chars@, c),
{
    assert(chars@.skip(0) =~= chars@);
    let end: usize = find_from(chars, c, 0);
    let found = slice_of(chars, 0, end);
    assert(found@ =~= up_to(chars@, c));
    found
}

/// A pasted URL without its scheme.
fn strip_scheme(raw: &str) -> (r: Vec<char>)
    ensures
        r@ == without_scheme(raw@),
{
    let chars = chars_of(raw);
    let total: usize = chars.len();
    match find_text(&chars, "://") {
        Some(at) => {
            proof {
                reveal_strlit("://");
                lemma_behind(raw@, "://"@, at as int);
                assert(at + 3 <= total);
            }
            let rest = slice_of(&chars, at + 3, total);
            assert(rest@ =~= without_scheme(raw@));
            rest
        },
        None => {
            proof {
                lemma_nothing_behind(raw@, "://"@);
            }
            chars
        },
    }
}

/// Reduces a pasted URL to its host.
pub fn host_of(raw: &str) -> (r: String)
    ensures
        r@ == host(raw@),
{
    let behind_scheme = strip_scheme(raw);
    let found = cut_at(&cut_at(&cut_at(&behind_scheme, '/'), '?'), '#');
    assert(found@ == authority(raw@));
    assert(found@.take(found@.len() as int) =~= found@);
    let start: usize = after_last(&found, '@', found.len());
    let place = slice_of(&found, start, found.len());
    assert(place@ =~= without_user(found@));
    if place.len() > 0 && place[0] == '[' {
        assert(place@.skip(0) =~= place@);
        let close: usize = find_from(&place, ']', 0);
        if close < place.len() {
            let address = slice_of(&place, 0, close + 1);
            assert(address@ =~= host(raw@));
            string_of(&address)
        } else {
            string_of(&place)
        }
    } else {
        string_of(&cut_at(&place, ':'))
    }
}

/// What is cut off at a character does not hold it, nor anything that was not there.
proof fn lemma_up_to(s: Seq<char>, c: char)
    ensures
        !up_to(s, c).contains(c),
        forall|d: char| #[trigger] up_to(s, c).contains(d) ==> s.contains(d),
        !s.contains(c) ==> up_to(s, c) == s,
{
    let cut = up_to(s, c);
    crate::text::lemma_first_index(s, c);
    if cut.contains(c) {
        let i = choose|i: int| 0 <= i < cut.len() && cut[i] == c;
        assert(s[i] == c);
    }
    assert forall|d: char| #[trigger] cut.contains(d) implies s.contains(d) by {
        let i = choose|i: int| 0 <= i < cut.len() && cut[i] == d;
        assert(s[i] == d);
    }
    if !s.contains(c) {
        if crate::text::first_index(s, c) < s.len() {
            assert(s.contains(s[crate::text::first_index(s, c)]));
        }
        assert(cut =~= s);
    }
}

/// What stands behind the last `@` holds none, nor anything that was not there.
proof fn lemma_without_user(s: Seq<char>)
    ensures
        !without_user(s).contains('@'),
        forall|d: char| #[trigger] without_user(s).contains(d) ==> s.contains(d),
        !s.contains('@') ==> without_user(s) == s,
{
    let rest = without_user(s);
    let at = crate::path::last_index(s, '@');
    crate::path::lemma_last_index(s, '@');
    assert forall|d: char| #[trigger] rest.contains(d) implies s.contains(d) by {
        let i = choose|i: int| 0 <= i < rest.len() && rest[i] == d;
        assert(s[at + 1 + i] == d);
    }
    if rest.contains('@') {
        let i = choose|i: int| 0 <= i < rest.len() && rest[i] == '@';
        assert(s[at + 1 + i] == '@');
    }
    if !s.contains('@') {
        if at >= 0 {
            assert(s.contains(s[at]));
        }
        assert(rest =~= s);
    }
}

/// What is left without the port holds nothing that was not there, and has none.
proof fn lemma_without_port(s: Seq<char>)
    ensures
        forall|d: char| #[trigger] without_port(s).contains(d) ==> s.contains(d),
        without_port(without_port(s)) == without_port(s),
{
    let rest = without_port(s);
    assert forall|d: char| #[trigger] rest.contains(d) implies s.contains(d) by {
        let i = choose|i: int| 0 <= i < rest.len() && rest[i] == d;
        crate::text::lemma_first_index(s, ']');
        crate::text::lemma_first_index(s, ':');
        assert(s[i] == d);
    }
    if s.len() > 0 && s[0] == '[' {
        let close = crate::text::first_index(s, ']');
        crate::text::lemma_first_index(s, ']');
        if close < s.len() {
            assert(rest[0] == '[');
            crate::text::lemma_first_index_is(rest, ']', close);
            assert(rest.take(close + 1) =~= rest);
        }
    } else {
        lemma_up_to(s, ':');
        if rest.len() > 0 {
            crate::text::lemma_first_index(s, ':');
            assert(rest[0] == s[0]);
        }
        lemma_up_to(rest, ':');
    }
}

/// A host holds no slash, and reducing it again changes nothing.
pub proof fn lemma_host_is_reduced(raw: Seq<char>)
    ensures
        !host(raw).contains('/'),
        host(host(raw)) == host(raw),
{
    let name = host(raw);
    let rest = without_scheme(raw);
    let one = up_to(rest, '/');
    let two = up_to(one, '?');
    let three = up_to(two, '#');
    let four = without_user(three);
    lemma_up_to(rest, '/');
    lemma_up_to(one, '?');
    lemma_up_to(two, '#');
    lemma_without_user(three);
    lemma_without_port(four);
    assert(!name.contains('/') && !name.contains('?') && !name.contains('#') && !name.contains(
        '@',
    )) by {
        if name.contains('/') {
            assert(four.contains('/') && three.contains('/') && two.contains('/'));
        }
        if name.contains('?') {
            assert(four.contains('?') && three.contains('?'));
        }
        if name.contains('#') {
            assert(four.contains('#'));
        }
    }
    reveal_strlit("://");
    assert(!crate::text::contains_text(name, "://"@)) by {
        if crate::text::contains_text(name, "://"@) {
            let j = choose|j: int| crate::text::stands_at(name, "://"@, j);
            assert(name.subrange(j, j + 3)[1] == '/');
            assert(name[j + 1] == '/');
        }
    }
    lemma_nothing_behind(name, "://"@);
    lemma_up_to(name, '/');
    lemma_up_to(name, '?');
    lemma_up_to(name, '#');
    lemma_without_user(name);
}

/// Cutting goes on behind what lacks the character.
proof fn lemma_up_to_behind(core: Seq<char>, rest: Seq<char>, c: char)
    requires
        !core.contains(c),
    ensures
        up_to(core + rest, c) == core + up_to(rest, c),
{
    let all = core + rest;
    let at = crate::text::first_index(rest, c);
    crate::text::lemma_first_index(rest, c);
    assert forall|j: int| 0 <= j < core.len() + at implies all[j] != c by {
        if j < core.len() {
            assert(core.contains(core[j]));
        } else {
            assert(all[j] == rest[j - core.len()]);
        }
    }
    if at < rest.len() {
        assert(all[core.len() + at] == rest[at]);
    }
    crate::text::lemma_first_index_is(all, c, core.len() + at);
    assert(up_to(all, c) =~= core + up_to(rest, c));
}

/// What ends the authority of a URL is cut off, and nothing else.
proof fn lemma_authority_ends(core: Seq<char>, rest: Seq<char>)
    requires
        !core.contains('/') && !core.contains('?') && !core.contains('#'),
        rest.len() > 0 ==> rest[0] == '/' || rest[0] == '?' || rest[0] == '#',
    ensures
        up_to(up_to(up_to(core + rest, '/'), '?'), '#') == core,
{
    let one = up_to(rest, '/');
    let two = up_to(one, '?');
    let three = up_to(two, '#');
    lemma_up_to_behind(core, rest, '/');
    lemma_up_to_behind(core, one, '?');
    lemma_up_to_behind(core, two, '#');
    crate::text::lemma_first_index(rest, '/');
    crate::text::lemma_first_index(one, '?');
    crate::text::lemma_first_index(two, '#');
    if one.len() > 0 {
        assert(one[0] == rest[0]);
        if two.len() > 0 {
            assert(two[0] == rest[0]);
        }
    }
    assert(three.len() == 0);
    assert(core + three =~= core);
}

/// Of a URL with a scheme, a host, perhaps a port, and perhaps a path, a query or a fragment,
/// only the host is taken.
pub proof fn lemma_url_is_reduced_to_its_host(
    scheme: Seq<char>,
    name: Seq<char>,
    port: Seq<char>,
    rest: Seq<char>,
)
    requires
        !scheme.contains(':'),
        !name.contains('/') && !name.contains('?') && !name.contains('#') && !name.contains('@'),
        !name.contains(':'),
        name.len() > 0 && name[0] != '[',
        !port.contains('/') && !port.contains('?') && !port.contains('#') && !port.contains('@'),
        port.len() > 0 ==> port[0] == ':',
        rest.len() > 0 ==> rest[0] == '/' || rest[0] == '?' || rest[0] == '#',
    ensures
        host(scheme + "://"@ + (name + port + rest)) == name,
{
    reveal_strlit("://");
    let core = name + port;
    let raw = scheme + "://"@ + (name + port + rest);
    let at = scheme.len() as int;
    assert(raw.subrange(at, at + 3) =~= "://"@);
    assert forall|j: int| 0 <= j < at implies !crate::text::stands_at(raw, "://"@, j) by {
        if crate::text::stands_at(raw, "://"@, j) {
            assert(raw.subrange(j, j + 3)[0] == ':');
            assert(scheme.contains(scheme[j]));
        }
    }
    lemma_behind(raw, "://"@, at);
    assert(raw.skip(at + 3) =~= core + rest);
    assert forall|c: char| !name.contains(c) && !port.contains(c) implies !#[trigger] core.contains(
        c,
    ) by {
        if core.contains(c) {
            let i = choose|i: int| 0 <= i < core.len() && core[i] == c;
            if i < name.len() {
                assert(name[i] == c);
            } else {
                assert(port[i - name.len()] == c);
            }
        }
    }
    lemma_authority_ends(core, rest);
    lemma_without_user(core);
    assert(core[0] == name[0]);
    lemma_up_to_behind(name, port, ':');
    crate::text::lemma_first_index(port, ':');
    assert(up_to(port, ':').len() == 0);
    assert(name + up_to(port, ':') =~= name);
}

/// The host of each text of a list.
pub open spec fn hosts(raws: Seq<Seq<char>>) -> Seq<Seq<char>> {
    raws.map_values(|raw: Seq<char>| host(raw))
}

/// What was done with a host.
#[derive(Debug, Clone, Copy, PartialEq, Eq, Structural)]
pub enum HostOutcome {
    /// It was added.
    Added,
    /// It falls inside a permitted subtree already.
    AlreadyCovered,
    /// It was removed.
    Removed,
    /// There is no such exact entry.
    NotListed,
}

/// What is said of a host.
#[derive(Debug)]
pub struct HostNotice {
    /// The host.
    pub host: String,
    /// What was done with it.
    pub outcome: HostOutcome,
}

/// What each notice of a list says.
pub open spec fn noticed(notices: Seq<HostNotice>) -> Seq<(Seq<char>, HostOutcome)> {
    notices.map_values(|n: HostNotice| (n.host@, n.outcome))
}

/// A changed list of permitted domains.
#[derive(Debug)]
pub struct DomainUpdate {
    /// The configuration with the list as it is now.
    pub config: Config,
    /// What is said of each host, in the order they were given.
    pub notices: Vec<HostNotice>,
    /// The hosts, each once, in the order they were first given.
    pub hosts: Vec<String>,
    /// Whether the list changed.
    pub changed: bool,
}

/// The list after adding the hosts that are not covered yet, one by one.
pub open spec fn added(names: Seq<Seq<char>>, given: Seq<Seq<char>>) -> Seq<Seq<char>>
    decreases given.len(),
{
    if given.len() == 0 {
        names
    } else {
        let before = added(names, given.drop_last());
        if crate::config::covered(before, given.last()) {
            before
        } else {
            before.push(given.last())
        }
    }
}

/// What is said of the hosts while they are added.
pub open spec fn added_notices(names: Seq<Seq<char>>, given: Seq<Seq<char>>) -> Seq<
    (Seq<char>, HostOutcome),
> {
    given.map(
        |i: int, name: Seq<char>|
            (
                name,
                if crate::config::covered(added(names, given.take(i)), name) {
                    HostOutcome::AlreadyCovered
                } else {
                    HostOutcome::Added
                },
            ),
    )
}

/// Each text of a list once, in the order of their first places.
pub open spec fn distinct(list: Seq<Seq<char>>) -> Seq<Seq<char>>
    decreases list.len(),
{
    if list.len() == 0 {
        Seq::empty()
    } else {
        let before = distinct(list.drop_last());
        if before.contains(list.last()) {
            before
        } else {
            before.push(list.last())
        }
    }
}

/// Adding grows the list at its end only.
pub proof fn lemma_adding_keeps_the_list(names: Seq<Seq<char>>, given: Seq<Seq<char>>)
    ensures
        added(names, given).len() >= names.len(),
        added(names, given).take(names.len() as int) == names,
    decreases given.len(),
{
    if given.len() > 0 {
        lemma_adding_keeps_the_list(names, given.drop_last());
        let before = added(names, given.drop_last());
        let after = added(names, given);
        assert(after.take(names.len() as int) =~= before.take(names.len() as int));
    } else {
        assert(names.take(names.len() as int) =~= names);
    }
}

/// What is covered stays covered when the list grows.
proof fn lemma_cover_grows(before: Seq<Seq<char>>, more: Seq<char>, name: Seq<char>)
    requires
        crate::config::covered(before, name),
    ensures
        crate::config::covered(before.push(more), name),
{
    let i = choose|i: int|
        0 <= i < before.len() && crate::config::in_subtree(name, #[trigger] before[i]);
    assert(before.push(more)[i] == before[i]);
}

/// After adding a batch every host of it is covered, whatever order they were given in.
pub proof fn lemma_added_hosts_are_covered(
    names: Seq<Seq<char>>,
    given: Seq<Seq<char>>,
    i: int,
)
    requires
        0 <= i < given.len(),
    ensures
        crate::config::covered(added(names, given), given[i]),
    decreases given.len(),
{
    let before = added(names, given.drop_last());
    let after = added(names, given);
    if i < given.len() - 1 {
        lemma_added_hosts_are_covered(names, given.drop_last(), i);
        assert(given.drop_last()[i] == given[i]);
        if after != before {
            lemma_cover_grows(before, given.last(), given[i]);
        }
    } else if after != before {
        assert(after[after.len() - 1] == given[i]);
        assert(crate::config::in_subtree(given[i], after[after.len() - 1]));
    }
}

/// What was covered before a batch was added is covered afterwards.
pub proof fn lemma_adding_uncovers_nothing(
    names: Seq<Seq<char>>,
    given: Seq<Seq<char>>,
    name: Seq<char>,
)
    requires
        crate::config::covered(names, name),
    ensures
        crate::config::covered(added(names, given), name),
    decreases given.len(),
{
    if given.len() > 0 {
        lemma_adding_uncovers_nothing(names, given.drop_last(), name);
        let before = added(names, given.drop_last());
        if added(names, given) != before {
            lemma_cover_grows(before, given.last(), name);
        }
    }
}

/// Adding hosts that are covered already changes nothing.
proof fn lemma_adding_covered(names: Seq<Seq<char>>, given: Seq<Seq<char>>)
    requires
        forall|i: int|
            0 <= i < given.len() ==> crate::config::covered(names, #[trigger] given[i]),
    ensures
        added(names, given) == names,
    decreases given.len(),
{
    if given.len() > 0 {
        assert forall|i: int| 0 <= i < given.drop_last().len() implies crate::config::covered(
            names,
            #[trigger] given.drop_last()[i],
        ) by {
            assert(crate::config::covered(names, given[i]));
        }
        lemma_adding_covered(names, given.drop_last());
        assert(crate::config::covered(names, given[given.len() - 1]));
    }
}

/// Adding a batch a second time changes nothing.
pub proof fn lemma_adding_twice(names: Seq<Seq<char>>, given: Seq<Seq<char>>)
    ensures
        added(added(names, given), given) == added(names, given),
{
    assert forall|i: int| 0 <= i < given.len() implies crate::config::covered(
        added(names, given),
        #[trigger] given[i],
    ) by {
        lemma_added_hosts_are_covered(names, given, i);
    }
    lemma_adding_covered(added(names, given), given);
}

/// Adds domains to the permitted list.
///
/// A host that is covered already is passed over. The whole batch is in before anything is
/// said of sibling names: a name may be supplied later in the same batch.
pub fn add_domains(cfg: &Config, raws: &Vec<String>) -> (r: DomainUpdate)
    ensures
        ({
            let names = cfg.constraints.names();
            let given = hosts(crate::text::texts(raws@));
            &&& r.config.constraints.names() == added(names, given)
            &&& r.config == (Config {
                constraints: crate::config::Constraints {
                    permitted_dns: r.config.constraints.permitted_dns,
                    ..cfg.constraints
                },
                ..*cfg
            })
            &&& noticed(r.notices@) == added_notices(names, given)
            &&& crate::text::texts(r.hosts@) == distinct(given)
            &&& r.changed == (added(names, given) != names)
        }),
{
    let ghost names = cfg.constraints.names();
    let ghost given = hosts(crate::text::texts(raws@));
    let mut permitted = copy_texts(&cfg.constraints.permitted_dns);
    let mut notices: Vec<HostNotice> = Vec::new();
    let mut distinct_hosts: Vec<String> = Vec::new();
    let mut changed = false;
    proof {
        assert(given.take(0) =~= Seq::empty());
        assert(noticed(notices@) =~= added_notices(names, given).take(0));
        assert(crate::text::texts(distinct_hosts@) =~= Seq::empty());
    }
    for i in 0..raws.len()
        invariant
            names == cfg.constraints.names(),
            given == hosts(crate::text::texts(raws@)),
            crate::text::texts(permitted@) == added(names, given.take(i as int)),
            noticed(notices@) == added_notices(names, given).take(i as int),
            crate::text::texts(distinct_hosts@) == distinct(given.take(i as int)),
            changed == (crate::text::texts(permitted@).len() > names.len()),
    {
        let found = host_of(raws[i].as_str());
        let ghost before = crate::text::texts(permitted@);
        let ghost earlier = noticed(notices@);
        let ghost listed = crate::text::texts(distinct_hosts@);
        proof {
            assert(crate::text::texts(raws@)[i as int] == raws@[i as int]@);
            assert(given[i as int] == found@);
            assert(given.take(i + 1).drop_last() =~= given.take(i as int));
            assert(given.take(i + 1).last() == found@);
            lemma_adding_keeps_the_list(names, given.take(i as int));
        }
        let outcome = if covered_by(&permitted, found.as_str()) {
            HostOutcome::AlreadyCovered
        } else {
            permitted.push(found.clone());
            changed = true;
            assert(crate::text::texts(permitted@) =~= before.push(found@));
            HostOutcome::Added
        };
        notices.push(HostNotice { host: found.clone(), outcome });
        assert(noticed(notices@) =~= earlier.push((found@, outcome)));
        assert(added_notices(names, given).take(i + 1) =~= added_notices(names, given).take(
            i as int,
        ).push((found@, outcome)));
        if !list_contains(&distinct_hosts, found.as_str()) {
            distinct_hosts.push(found.clone());
            assert(crate::text::texts(distinct_hosts@) =~= listed.push(found@));
        }
    }
    proof {
        assert(given.take(given.len() as int) =~= given);
        assert(added_notices(names, given).take(given.len() as int) =~= added_notices(
            names,
            given,
        ));
        lemma_adding_keeps_the_list(names, given);
        let after = added(names, given);
        if after.len() == names.len() {
            assert(after =~= after.take(names.len() as int));
        }
    }
    let config = Config {
        constraints: cfg.constraints.with_permitted(permitted),
        signing: cfg.signing,
    };
    DomainUpdate { config, notices, hosts: distinct_hosts, changed }
}

/// The position of the first `item` in `list`, or the length of `list` where there is none.
pub open spec fn place_of(list: Seq<Seq<char>>, item: Seq<char>) -> int
    decreases list.len(),
{
    if list.len() == 0 || list[0] == item {
        0
    } else {
        1 + place_of(list.skip(1), item)
    }
}

/// What the first position of an item is.
proof fn lemma_place_of(list: Seq<Seq<char>>, item: Seq<char>)
    ensures
        0 <= place_of(list, item) <= list.len(),
        place_of(list, item) < list.len() ==> list[place_of(list, item)] == item,
        forall|j: int| 0 <= j < place_of(list, item) ==> list[j] != item,
        list.contains(item) <==> place_of(list, item) < list.len(),
    decreases list.len(),
{
    if list.len() > 0 && list[0] != item {
        lemma_place_of(list.skip(1), item);
        assert forall|j: int| 0 <= j < place_of(list, item) implies list[j] != item by {
            if j > 0 {
                assert(list.skip(1)[j - 1] == list[j]);
            }
        }
        if list.contains(item) {
            let i = choose|i: int| 0 <= i < list.len() && list[i] == item;
            assert(list.skip(1)[i - 1] == item);
        }
    }
}

/// Finds the first place of an item.
fn find_place(list: &Vec<String>, item: &str) -> (r: Option<usize>)
    ensures
        match r {
            Some(at) => at == place_of(crate::text::texts(list@), item@) && at < list@.len(),
            None => !crate::text::texts(list@).contains(item@),
        },
{
    let ghost all = crate::text::texts(list@);
    for i in 0..list.len()
        invariant
            all == crate::text::texts(list@),
            forall|j: int| 0 <= j < i ==> all[j] != item@,
    {
        assert(all[i as int] == list@[i as int]@);
        if same_text(list[i].as_str(), item) {
            proof {
                lemma_place_of(all, item@);
            }
            return Some(i);
        }
    }
    None
}

/// What a batch of removals comes to.
pub struct Removal {
    /// The list that is left.
    pub names: Seq<Seq<char>>,
    /// What is said of the hosts, up to one that is refused.
    pub notices: Seq<(Seq<char>, HostOutcome)>,
    /// Whether a host is refused: removing it would empty the list.
    pub refused: bool,
}

/// The list after removing the hosts that are listed, one by one, up to one that is refused:
/// a certificate that trusts nothing looks like a broken chain.
pub open spec fn removed(names: Seq<Seq<char>>, given: Seq<Seq<char>>) -> Removal
    decreases given.len(),
{
    if given.len() == 0 {
        Removal { names, notices: Seq::empty(), refused: false }
    } else {
        let name = given.last();
        let before = removed(names, given.drop_last());
        if before.refused {
            before
        } else if !before.names.contains(name) {
            Removal { notices: before.notices.push((name, HostOutcome::NotListed)), ..before }
        } else if before.names.len() <= 1 {
            Removal { refused: true, ..before }
        } else {
            Removal {
                names: before.names.remove(place_of(before.names, name)),
                notices: before.notices.push((name, HostOutcome::Removed)),
                refused: false,
            }
        }
    }
}

/// A batch that is refused early is refused whole, with nothing more said.
proof fn lemma_refused_whole(names: Seq<Seq<char>>, given: Seq<Seq<char>>, n: int)
    requires
        0 <= n <= given.len(),
        removed(names, given.take(n)).refused,
    ensures
        removed(names, given) == removed(names, given.take(n)),
    decreases given.len(),
{
    if n < given.len() {
        assert(given.drop_last().take(n) =~= given.take(n));
        lemma_refused_whole(names, given.drop_last(), n);
    } else {
        assert(given.take(n) =~= given);
    }
}

/// Removing never empties the list.
pub proof fn lemma_removing_never_empties(names: Seq<Seq<char>>, given: Seq<Seq<char>>)
    requires
        names.len() > 0,
    ensures
        removed(names, given).names.len() > 0,
    decreases given.len(),
{
    if given.len() > 0 {
        lemma_removing_never_empties(names, given.drop_last());
        lemma_place_of(removed(names, given.drop_last()).names, given.last());
    }
}

/// Removing takes exact entries only: an entry that was not given stays, and nothing new
/// comes in.
pub proof fn lemma_removing_is_exact(
    names: Seq<Seq<char>>,
    given: Seq<Seq<char>>,
    name: Seq<char>,
)
    ensures
        ({
            let left = removed(names, given).names;
            &&& names.contains(name) && !given.contains(name) ==> left.contains(name)
            &&& left.contains(name) ==> names.contains(name)
            &&& left.len() <= names.len()
        }),
    decreases given.len(),
{
    if given.len() > 0 {
        let init = given.drop_last();
        lemma_removing_is_exact(names, init, name);
        let before = removed(names, init);
        lemma_place_of(before.names, given.last());
        let at = place_of(before.names, given.last());
        assert(given[given.len() - 1] == given.last());
        if !given.contains(name) && init.contains(name) {
            let i = choose|i: int| 0 <= i < init.len() && init[i] == name;
            assert(given[i] == name);
        }
        if before.names.contains(given.last()) {
            let left = before.names.remove(at);
            if before.names.contains(name) && name != given.last() {
                let i = choose|i: int| 0 <= i < before.names.len() && before.names[i] == name;
                if i < at {
                    assert(left[i] == name);
                } else {
                    assert(left[i - 1] == name);
                }
            }
            if left.contains(name) {
                let i = choose|i: int| 0 <= i < left.len() && left[i] == name;
                if i < at {
                    assert(before.names[i] == name);
                } else {
                    assert(before.names[i + 1] == name);
                }
            }
        }
    }
}

/// Removes domains from the permitted list.
///
/// A host without an exact entry is passed over.
///
/// # Errors
/// Where the batch would empty the list, it is refused whole rather than applied in part.
/// What was said of the hosts before comes back.
pub fn remove_domains(cfg: &Config, raws: &Vec<String>) -> (r: Result<DomainUpdate, Vec<HostNotice>>)
    ensures
        ({
            let names = cfg.constraints.names();
            let given = hosts(crate::text::texts(raws@));
            let removal = removed(names, given);
            match r {
                Err(notices) => removal.refused && noticed(notices@) == removal.notices,
                Ok(update) => {
                    &&& !removal.refused
                    &&& update.config.constraints.names() == removal.names
                    &&& update.config == (Config {
                        constraints: crate::config::Constraints {
                            permitted_dns: update.config.constraints.permitted_dns,
                            ..cfg.constraints
                        },
                        ..*cfg
                    })
                    &&& noticed(update.notices@) == removal.notices
                    &&& crate::text::texts(update.hosts@) == distinct(given)
                    &&& update.changed == (removal.names != names)
                },
            }
        }),
{
    let ghost names = cfg.constraints.names();
    let ghost given = hosts(crate::text::texts(raws@));
    let mut permitted = copy_texts(&cfg.constraints.permitted_dns);
    let mut notices: Vec<HostNotice> = Vec::new();
    let mut distinct_hosts: Vec<String> = Vec::new();
    let mut changed = false;
    proof {
        assert(given.take(0) =~= Seq::empty());
        assert(noticed(notices@) =~= Seq::empty());
        assert(crate::text::texts(distinct_hosts@) =~= Seq::empty());
    }
    for i in 0..raws.len()
        invariant
            names == cfg.constraints.names(),
            given == hosts(crate::text::texts(raws@)),
            removed(names, given.take(i as int)) == (Removal {
                names: crate::text::texts(permitted@),
                notices: noticed(notices@),
                refused: false,
            }),
            crate::text::texts(distinct_hosts@) == distinct(given.take(i as int)),
            changed == (crate::text::texts(permitted@).len() < names.len()),
            crate::text::texts(permitted@).len() <= names.len(),
            !changed ==> crate::text::texts(permitted@) == names,
    {
        let found = host_of(raws[i].as_str());
        let ghost before = crate::text::texts(permitted@);
        let ghost earlier = noticed(notices@);
        let ghost listed = crate::text::texts(distinct_hosts@);
        proof {
            assert(crate::text::texts(raws@)[i as int] == raws@[i as int]@);
            assert(given[i as int] == found@);
            assert(given.take(i + 1).drop_last() =~= given.take(i as int));
            assert(given.take(i + 1).last() == found@);
            lemma_place_of(before, found@);
        }
        let outcome = match find_place(&permitted, found.as_str()) {
            None => HostOutcome::NotListed,
            Some(at) => {
                if permitted.len() <= 1 {
                    proof {
                        lemma_refused_whole(names, given, i + 1);
                    }
                    return Err(notices);
                }
                permitted.remove(at);
                changed = true;
                assert(crate::text::texts(permitted@) =~= before.remove(at as int));
                HostOutcome::Removed
            },
        };
        notices.push(HostNotice { host: found.clone(), outcome });
        assert(noticed(notices@) =~= earlier.push((found@, outcome)));
        if !list_contains(&distinct_hosts, found.as_str()) {
            distinct_hosts.push(found.clone());
            assert(crate::text::texts(distinct_hosts@) =~= listed.push(found@));
        }
    }
    assert(given.take(given.len() as int) =~= given);
    let config = Config {
        constraints: cfg.constraints.with_permitted(permitted),
        signing: cfg.signing,
    };
    Ok(DomainUpdate { config, notices, hosts: distinct_hosts, changed })
}

/// The names that no permitted subtree covers, a wildcard counting as the name it stands
/// under.
pub open spec fn uncovered(domains: Seq<Seq<char>>, names: Seq<Seq<char>>) -> Seq<Seq<char>>
    decreases names.len(),
{
    if names.len() == 0 {
        Seq::empty()
    } else {
        let before = uncovered(domains, names.drop_last());
        if crate::config::covered(domains, crate::verify::base_name(names.last())) {
            before
        } else {
            before.push(names.last())
        }
    }
}

/// The sibling names of a leaf that the permitted list does not cover.
///
/// A leaf fails unless *every* name falls inside a permitted subtree, so adding
/// `sberbank.ru` alone is not enough when its certificate also carries `sbrf.ru`.
pub fn uncovered_sans(cfg: &Config, leaf: &Certificate) -> (r: Vec<String>)
    ensures
        crate::text::texts(r@) == uncovered(
            cfg.constraints.names(),
            crate::probe::certificate_dns_names(leaf@),
        ),
{
    let names = dns_names(leaf);
    uncovered_names(cfg, &names)
}

/// The names that the permitted list does not cover.
pub fn uncovered_names(cfg: &Config, names: &Vec<String>) -> (r: Vec<String>)
    ensures
        crate::text::texts(r@) == uncovered(cfg.constraints.names(), crate::text::texts(names@)),
{
    let ghost domains = cfg.constraints.names();
    let ghost all = crate::text::texts(names@);
    let mut out: Vec<String> = Vec::new();
    assert(crate::text::texts(out@) =~= uncovered(domains, all.take(0)));
    for i in 0..names.len()
        invariant
            domains == cfg.constraints.names(),
            all == crate::text::texts(names@),
            crate::text::texts(out@) == uncovered(domains, all.take(i as int)),
    {
        assert(all.take(i + 1).drop_last() =~= all.take(i as int));
        assert(all.take(i + 1).last() == names@[i as int]@);
        if !cfg.covers(base_of(names[i].as_str()).as_str()) {
            let ghost before = crate::text::texts(out@);
            out.push(names[i].clone());
            assert(crate::text::texts(out@) =~= before.push(names@[i as int]@));
        }
    }
    assert(all.take(all.len() as int) =~= all);
    out
}

/// A leaf of whose names none is uncovered carries permitted names only.
pub proof fn lemma_nothing_uncovered(domains: Seq<Seq<char>>, names: Seq<Seq<char>>)
    ensures
        uncovered(domains, names).len() == 0 <==> forall|i: int|
            0 <= i < names.len() ==> crate::config::covered(
                domains,
                crate::verify::base_name(#[trigger] names[i]),
            ),
    decreases names.len(),
{
    if names.len() > 0 {
        let init = names.drop_last();
        lemma_nothing_uncovered(domains, init);
        if forall|i: int|
            0 <= i < names.len() ==> crate::config::covered(
                domains,
                crate::verify::base_name(#[trigger] names[i]),
            ) {
            assert forall|i: int| 0 <= i < init.len() implies crate::config::covered(
                domains,
                crate::verify::base_name(#[trigger] init[i]),
            ) by {
                assert(init[i] == names[i]);
            }
            assert(names[names.len() - 1] == names.last());
        }
        if uncovered(domains, names).len() == 0 {
            assert forall|i: int| 0 <= i < names.len() implies crate::config::covered(
                domains,
                crate::verify::base_name(#[trigger] names[i]),
            ) by {
                if i < init.len() {
                    assert(init[i] == names[i]);
                }
            }
        }
    }
}

/// Where the last host of a batch can be removed or passed over, the batch is one notice
/// longer.
proof fn lemma_removed_push(names: Seq<Seq<char>>, given: Seq<Seq<char>>, name: Seq<char>)
    ensures
        ({
            let before = removed(names, given);
            let after = removed(names, given.push(name));
            if before.refused {
                after == before
            } else if !before.names.contains(name) {
                after == (Removal {
                    notices: before.notices.push((name, HostOutcome::NotListed)),
                    ..before
                })
            } else if before.names.len() <= 1 {
                after == (Removal { refused: true, ..before })
            } else {
                after == (Removal {
                    names: before.names.remove(place_of(before.names, name)),
                    notices: before.notices.push((name, HostOutcome::Removed)),
                    refused: false,
                })
            }
        }),
{
    assert(given.push(name).drop_last() =~= given);
}

/// How often an item occurs once the first of it was taken out.
proof fn lemma_count_after_removing(list: Seq<Seq<char>>, item: Seq<char>, other: Seq<char>)
    requires
        list.contains(item),
    ensures
        list.remove(place_of(list, item)).to_multiset().count(other) == list.to_multiset().count(
            other,
        ) - if other == item {
            1int
        } else {
            0
        },
{
    lemma_place_of(list, item);
    let at = place_of(list, item);
    broadcast use vstd::seq_lib::group_to_multiset_ensures;

    assert(list.remove(at).to_multiset() =~= list.to_multiset().remove(list[at]));
}

/// A host is off the list as often as it was reported removed: for every name, how often it
/// is left and how often it was reported removed add up to how often it was there. What is
/// reported as not listed is not left either.
pub proof fn lemma_what_is_reported_removed_is_gone(
    names: Seq<Seq<char>>,
    given: Seq<Seq<char>>,
    name: Seq<char>,
)
    ensures
        removed(names, given).names.to_multiset().count(name) + removed(
            names,
            given,
        ).notices.to_multiset().count((name, HostOutcome::Removed)) == names.to_multiset().count(
            name,
        ),
        removed(names, given).notices.contains((name, HostOutcome::NotListed)) ==> !removed(
            names,
            given,
        ).names.contains(name),
    decreases given.len(),
{
    broadcast use vstd::seq_lib::group_to_multiset_ensures;

    if given.len() > 0 {
        let init = given.drop_last();
        let last = given.last();
        let before = removed(names, init);
        let after = removed(names, given);
        lemma_what_is_reported_removed_is_gone(names, init, name);
        lemma_place_of(before.names, last);
        if !before.refused && !before.names.contains(last) {
            assert(after.notices.to_multiset() =~= before.notices.to_multiset().insert(
                (last, HostOutcome::NotListed),
            ));
            if after.notices.contains((name, HostOutcome::NotListed)) && name != last {
                let i = choose|i: int|
                    0 <= i < after.notices.len() && after.notices[i] == (
                        name,
                        HostOutcome::NotListed,
                    );
                assert(before.notices[i] == after.notices[i]);
            }
        } else if !before.refused && before.names.len() > 1 {
            assert(after.notices.to_multiset() =~= before.notices.to_multiset().insert(
                (last, HostOutcome::Removed),
            ));
            lemma_count_after_removing(before.names, last, name);
            if after.notices.contains((name, HostOutcome::NotListed)) {
                let i = choose|i: int|
                    0 <= i < after.notices.len() && after.notices[i] == (
                        name,
                        HostOutcome::NotListed,
                    );
                assert(before.notices[i] == after.notices[i]);
                if after.names.contains(name) {
                    let at = place_of(before.names, last);
                    let k = choose|k: int| 0 <= k < after.names.len() && after.names[k] == name;
                    if k < at {
                        assert(before.names[k] == name);
                    } else {
                        assert(before.names[k + 1] == name);
                    }
                }
            }
        }
    } else {
        assert(removed(names, given).notices.to_multiset().count((name, HostOutcome::Removed))
            == 0);
    }
}

/// Each host of a batch that is not refused is reported, in order and once for each time it
/// was given: as removed or as not listed.
pub proof fn lemma_every_host_is_reported(names: Seq<Seq<char>>, given: Seq<Seq<char>>)
    requires
        !removed(names, given).refused,
    ensures
        removed(names, given).notices.len() == given.len(),
        forall|i: int|
            0 <= i < given.len() ==> {
                &&& (#[trigger] removed(names, given).notices[i]).0 == given[i]
                &&& removed(names, given).notices[i].1 == HostOutcome::Removed || removed(
                    names,
                    given,
                ).notices[i].1 == HostOutcome::NotListed
            },
    decreases given.len(),
{
    if given.len() > 0 {
        let init = given.drop_last();
        let before = removed(names, init);
        assert(!before.refused);
        lemma_every_host_is_reported(names, init);
        let after = removed(names, given);
        assert forall|i: int| 0 <= i < given.len() implies {
            &&& (#[trigger] after.notices[i]).0 == given[i]
            &&& after.notices[i].1 == HostOutcome::Removed || after.notices[i].1
                == HostOutcome::NotListed
        } by {
            if i < init.len() {
                assert(after.notices[i] == before.notices[i]);
                assert(init[i] == given[i]);
            }
        }
    }
}

/// Where a batch is not refused and no name is on the list twice, none of the given hosts is
/// on the list afterwards.
pub proof fn lemma_given_hosts_are_gone(names: Seq<Seq<char>>, given: Seq<Seq<char>>, i: int)
    requires
        !removed(names, given).refused,
        names.no_duplicates(),
        0 <= i < given.len(),
    ensures
        !removed(names, given).names.contains(given[i]),
{
    broadcast use vstd::seq_lib::group_to_multiset_ensures;

    let name = given[i];
    let left = removed(names, given);
    lemma_every_host_is_reported(names, given);
    lemma_what_is_reported_removed_is_gone(names, given, name);
    let notice = left.notices[i];
    assert(notice.0 == name);
    names.lemma_multiset_has_no_duplicates();
    if notice.1 == HostOutcome::Removed {
        assert(left.notices.contains((name, HostOutcome::Removed)));
        assert(left.notices.to_multiset().count((name, HostOutcome::Removed)) > 0);
        if left.names.contains(name) {
            assert(left.names.to_multiset().count(name) > 0);
            assert(names.to_multiset().contains(name));
            assert(names.to_multiset().count(name) <= 1);
        }
    } else {
        assert(left.notices.contains((name, HostOutcome::NotListed)));
    }
}

/// Removing two batches one after the other is removing both at once.
pub proof fn lemma_batches_add_up(
    names: Seq<Seq<char>>,
    first: Seq<Seq<char>>,
    second: Seq<Seq<char>>,
)
    requires
        !removed(names, first).refused,
    ensures
        removed(names, first + second).names == removed(removed(names, first).names, second).names,
        removed(names, first + second).refused == removed(
            removed(names, first).names,
            second,
        ).refused,
        removed(names, first + second).notices == removed(names, first).notices + removed(
            removed(names, first).names,
            second,
        ).notices,
    decreases second.len(),
{
    let middle = removed(names, first);
    if second.len() == 0 {
        assert(first + second =~= first);
        assert(middle.notices + Seq::<(Seq<char>, HostOutcome)>::empty() =~= middle.notices);
    } else {
        let init = second.drop_last();
        lemma_batches_add_up(names, first, init);
        assert((first + second).drop_last() =~= first + init);
        assert((first + second).last() == second.last());
        assert(removed(names, first + second).notices =~= middle.notices + removed(
            middle.names,
            second,
        ).notices);
    }
}

/// Removing one host takes out its first entry and leaves the others in their order. It is
/// refused exactly where that entry is the only one, and a host without an entry changes
/// nothing.
pub proof fn lemma_removing_one(before: Seq<Seq<char>>, name: Seq<char>, after: Seq<Seq<char>>)
    requires
        !before.contains(name),
    ensures
        removed(before + seq![name] + after, seq![name]).refused == (before.len() + after.len()
            == 0),
        removed(before + seq![name] + after, seq![name]).names == if before.len() + after.len() == 0 {
            seq![name]
        } else {
            before + after
        },
        !removed(before, seq![name]).refused,
        removed(before, seq![name]).names == before,
        removed(before, seq![name]).notices == seq![(name, HostOutcome::NotListed)],
{
    let none = Seq::<Seq<char>>::empty();
    let list = before + seq![name] + after;
    lemma_removed_push(list, none, name);
    lemma_removed_push(before, none, name);
    assert(none.push(name) =~= seq![name]);
    assert(list[before.len() as int] == name);
    assert(list.contains(name));
    lemma_place_of(list, name);
    assert(place_of(list, name) == before.len()) by {
        if place_of(list, name) < before.len() {
            assert(before[place_of(list, name)] == name);
        }
    }
    assert(list.remove(before.len() as int) =~= before + after);
    if before.len() + after.len() == 0 {
        assert(list =~= seq![name]);
    }
    assert(Seq::<(Seq<char>, HostOutcome)>::empty().push((name, HostOutcome::NotListed)) =~= seq![
        (name, HostOutcome::NotListed),
    ]);
}

/// A batch that leaves some name alone is never refused, however long it is.
pub proof fn lemma_batch_is_not_refused(
    names: Seq<Seq<char>>,
    given: Seq<Seq<char>>,
    kept: Seq<char>,
)
    requires
        names.contains(kept),
        !given.contains(kept),
    ensures
        !removed(names, given).refused,
        removed(names, given).names.contains(kept),
    decreases given.len(),
{
    if given.len() > 0 {
        let init = given.drop_last();
        if init.contains(kept) {
            let i = choose|i: int| 0 <= i < init.len() && init[i] == kept;
            assert(given[i] == kept);
        }
        lemma_batch_is_not_refused(names, init, kept);
        let before = removed(names, init);
        let last = given.last();
        assert(given[given.len() - 1] == last);
        lemma_place_of(before.names, last);
        if before.names.contains(last) {
            let a = choose|a: int| 0 <= a < before.names.len() && before.names[a] == kept;
            let at = place_of(before.names, last);
            assert(before.names[at] == last);
            assert(a != at);
            assert(before.names.len() > 1);
            let left = before.names.remove(at);
            if a < at {
                assert(left[a] == kept);
            } else {
                assert(left[a - 1] == kept);
            }
        }
    }
}

/// Adding one host puts it at the end, unless a permitted subtree covers it already, and two
/// batches one after the other are both at once. This fixes what adding does for every batch.
pub proof fn lemma_adding_one(names: Seq<Seq<char>>, name: Seq<char>)
    ensures
        added(names, Seq::empty()) == names,
        crate::config::covered(names, name) ==> added(names, seq![name]) == names,
        !crate::config::covered(names, name) ==> added(names, seq![name]) == names.push(name),
{
    assert(seq![name].drop_last() =~= Seq::<Seq<char>>::empty());
    assert(added(names, Seq::<Seq<char>>::empty()) == names);
}

/// Adding two batches one after the other is adding both at once.
pub proof fn lemma_additions_add_up(
    names: Seq<Seq<char>>,
    first: Seq<Seq<char>>,
    second: Seq<Seq<char>>,
)
    ensures
        added(names, first + second) == added(added(names, first), second),
    decreases second.len(),
{
    if second.len() == 0 {
        assert(first + second =~= first);
    } else {
        lemma_additions_add_up(names, first, second.drop_last());
        assert((first + second).drop_last() =~= first + second.drop_last());
        assert((first + second).last() == second.last());
    }
}

/// Nothing comes onto the list but what was there or was given.
pub proof fn lemma_only_given_hosts_are_added(
    names: Seq<Seq<char>>,
    given: Seq<Seq<char>>,
    name: Seq<char>,
)
    requires
        added(names, given).contains(name),
    ensures
        names.contains(name) || given.contains(name),
    decreases given.len(),
{
    if given.len() > 0 {
        let before = added(names, given.drop_last());
        let after = added(names, given);
        let i = choose|i: int| 0 <= i < after.len() && after[i] == name;
        if i < before.len() {
            assert(before[i] == name);
            lemma_only_given_hosts_are_added(names, given.drop_last(), name);
            if given.drop_last().contains(name) {
                let j = choose|j: int|
                    0 <= j < given.drop_last().len() && given.drop_last()[j] == name;
                assert(given[j] == name);
            }
        } else {
            assert(given[given.len() - 1] == name);
        }
    }
}

/// Each host is reported in order: as added exactly where what was there and what was given
/// before it do not cover it.
pub proof fn lemma_every_added_host_is_reported(
    names: Seq<Seq<char>>,
    given: Seq<Seq<char>>,
    i: int,
)
    requires
        0 <= i < given.len(),
    ensures
        added_notices(names, given).len() == given.len(),
        added_notices(names, given)[i].0 == given[i],
        crate::config::covered(added(names, given.take(i)), given[i]) ==> added_notices(
            names,
            given,
        )[i].1 == HostOutcome::AlreadyCovered,
        !crate::config::covered(added(names, given.take(i)), given[i]) ==> added_notices(
            names,
            given,
        )[i].1 == HostOutcome::Added,
{
}

/// The hosts that are asked for their certificates are those given, each once.
pub proof fn lemma_each_host_is_asked_once(given: Seq<Seq<char>>)
    ensures
        distinct(given).no_duplicates(),
        forall|name: Seq<char>| #[trigger] distinct(given).contains(name) <==> given.contains(name),
    decreases given.len(),
{
    if given.len() > 0 {
        let init = given.drop_last();
        lemma_each_host_is_asked_once(init);
        let before = distinct(init);
        let after = distinct(given);
        assert forall|name: Seq<char>| #[trigger] after.contains(name) <==> given.contains(
            name,
        ) by {
            if given.contains(name) {
                let i = choose|i: int| 0 <= i < given.len() && given[i] == name;
                if i < init.len() {
                    assert(init[i] == name);
                    assert(before.contains(name));
                    let k = choose|k: int| 0 <= k < before.len() && before[k] == name;
                    assert(after[k] == name);
                } else if !before.contains(given.last()) {
                    assert(after[after.len() - 1] == name);
                }
            }
            if after.contains(name) {
                let k = choose|k: int| 0 <= k < after.len() && after[k] == name;
                if k < before.len() {
                    assert(before[k] == name);
                    assert(before.contains(name));
                    let i = choose|i: int| 0 <= i < init.len() && init[i] == name;
                    assert(given[i] == name);
                } else {
                    assert(given[given.len() - 1] == name);
                }
            }
        }
        assert(after.no_duplicates()) by {
            assert forall|a: int, b: int|
                0 <= a < after.len() && 0 <= b < after.len() && a != b implies after[a]
                != after[b] by {
                if a < before.len() && b < before.len() {
                    assert(before[a] != before[b]);
                } else if a < before.len() {
                    assert(before.contains(before[a]));
                } else if b < before.len() {
                    assert(before.contains(before[b]));
                }
            }
        }
    }
}

/// The host of each text that was given is the one at its place.
pub proof fn lemma_hosts_stand_in_order(raws: Seq<Seq<char>>, i: int)
    requires
        0 <= i < raws.len(),
    ensures
        hosts(raws).len() == raws.len(),
        hosts(raws)[i] == host(raws[i]),
{
}

/// A host that was given without a scheme is taken as it is, without its port or path.
pub proof fn lemma_bare_host_is_kept(name: Seq<char>, port: Seq<char>, rest: Seq<char>)
    requires
        !name.contains('/') && !name.contains('?') && !name.contains('#') && !name.contains('@'),
        !name.contains(':'),
        name.len() > 0 && name[0] != '[',
        !port.contains('/') && !port.contains('?') && !port.contains('#') && !port.contains('@'),
        port.len() > 0 ==> port[0] == ':',
        rest.len() > 0 ==> rest[0] == '/' || rest[0] == '?' || rest[0] == '#',
        !crate::text::contains_text(name + port + rest, "://"@),
    ensures
        host(name + port + rest) == name,
{
    let core = name + port;
    lemma_nothing_behind(name + port + rest, "://"@);
    assert(name + port + rest =~= core + rest);
    assert forall|c: char| !name.contains(c) && !port.contains(c) implies !#[trigger] core.contains(
        c,
    ) by {
        if core.contains(c) {
            let i = choose|i: int| 0 <= i < core.len() && core[i] == c;
            if i < name.len() {
                assert(name[i] == c);
            } else {
                assert(port[i - name.len()] == c);
            }
        }
    }
    lemma_authority_ends(core, rest);
    lemma_without_user(core);
    assert(core[0] == name[0]);
    lemma_up_to_behind(name, port, ':');
    crate::text::lemma_first_index(port, ':');
    assert(up_to(port, ':').len() == 0);
    assert(name + up_to(port, ':') =~= name);
}

/// A warning is given for exactly the names of a leaf that no permitted subtree covers.
pub proof fn lemma_warned_of_exactly_the_uncovered(
    domains: Seq<Seq<char>>,
    names: Seq<Seq<char>>,
    name: Seq<char>,
)
    ensures
        uncovered(domains, names).contains(name) <==> names.contains(name)
            && !crate::config::covered(domains, crate::verify::base_name(name)),
    decreases names.len(),
{
    if names.len() > 0 {
        let init = names.drop_last();
        let before = uncovered(domains, init);
        let after = uncovered(domains, names);
        lemma_warned_of_exactly_the_uncovered(domains, init, name);
        if after.contains(name) {
            let i = choose|i: int| 0 <= i < after.len() && after[i] == name;
            if i < before.len() {
                assert(before[i] == name);
                let j = choose|j: int| 0 <= j < init.len() && init[j] == name;
                assert(names[j] == name);
            } else {
                assert(names[names.len() - 1] == name);
            }
        }
        if names.contains(name) && !crate::config::covered(
            domains,
            crate::verify::base_name(name),
        ) {
            let j = choose|j: int| 0 <= j < names.len() && names[j] == name;
            if j < init.len() {
                assert(init[j] == name);
                let i = choose|i: int| 0 <= i < before.len() && before[i] == name;
                assert(after[i] == name);
            } else {
                assert(after[after.len() - 1] == name);
            }
        }
    }
}

/// Warnings come in the order of the names, once for each time a name stands there.
pub proof fn lemma_warnings_come_in_order(
    domains: Seq<Seq<char>>,
    first: Seq<Seq<char>>,
    second: Seq<Seq<char>>,
)
    ensures
        uncovered(domains, first + second) == uncovered(domains, first) + uncovered(
            domains,
            second,
        ),
    decreases second.len(),
{
    let none = Seq::<Seq<char>>::empty();
    assert(uncovered(domains, none) =~= none);
    if second.len() == 0 {
        assert(first + second =~= first);
        assert(uncovered(domains, first) + uncovered(domains, second) =~= uncovered(
            domains,
            first,
        ));
    } else {
        lemma_warnings_come_in_order(domains, first, second.drop_last());
        assert((first + second).drop_last() =~= first + second.drop_last());
        assert((first + second).last() == second.last());
        assert(uncovered(domains, first + second) =~= uncovered(domains, first) + uncovered(
            domains,
            second,
        ));
    }
}

} // verus!
