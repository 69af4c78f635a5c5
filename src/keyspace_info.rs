use vstd::prelude::*;
use vstd::string::StrSliceExecFns;
use vstd::string::StringExecFns;
use crate::text::{find_char, first_index, parse_i64, parse_u64, split, split_on, str_to_i64, str_to_u64};

verus! {

/// Identifier of a namespace of the store (its database index).
#[derive(Debug, Clone, Copy, PartialEq, Eq, Hash, Structural)]
pub struct KeyspaceId(pub i64);

impl KeyspaceId {
    pub fn new(id: i64) -> (r: KeyspaceId)
        ensures
            r.0 == id,
    {
        KeyspaceId(id)
    }

    pub fn as_i64(&self) -> (r: i64)
        ensures
            r == self.0,
    {
        self.0
    }
}

/// What the store reports of one namespace.
#[derive(Debug, Clone, Copy, PartialEq, Eq, Structural)]
pub struct KeyspaceInfo {
    pub keys: u64,
    pub expires: u64,
    pub avg_ttl: u64,
}

/// What the store reports of each of its namespaces, in the order of its report.
#[derive(Debug, Clone)]
pub struct KeyspacesInfo {
    pub keyspaces: Vec<(KeyspaceId, KeyspaceInfo)>,
}

pub open spec fn keys_name() -> Seq<char> {
    seq!['k', 'e', 'y', 's']
}

pub open spec fn expires_name() -> Seq<char> {
    seq!['e', 'x', 'p', 'i', 'r', 'e', 's']
}

pub open spec fn avg_ttl_name() -> Seq<char> {
    seq!['a', 'v', 'g', '_', 't', 't', 'l']
}

/// The fields `keys`, `expires` and `avg_ttl` that the `name=value` parts
/// give, the last one of each name counting; `None` where a part has no `=`
/// or one of those fields is not a number.
pub open spec fn info_fields(parts: Seq<Seq<char>>) -> Option<(Option<u64>, Option<u64>, Option<u64>)>
    decreases parts.len(),
{
    if parts.len() == 0 {
        Some((None, None, None))
    } else {
        match info_fields(parts.drop_last()) {
            None => None,
            Some((k, e, a)) => {
                let p = parts.last();
                let j = first_index(p, '=');
                let name = p.take(j);
                let value = p.skip(j + 1);
                if j < 0 {
                    None
                } else if name == keys_name() {
                    match parse_u64(value) {
                        Some(x) => Some((Some(x), e, a)),
                        None => None,
                    }
                } else if name == expires_name() {
                    match parse_u64(value) {
                        Some(x) => Some((k, Some(x), a)),
                        None => None,
                    }
                } else if name == avg_ttl_name() {
                    match parse_u64(value) {
                        Some(x) => Some((k, e, Some(x))),
                        None => None,
                    }
                } else {
                    Some((k, e, a))
                }
            },
        }
    }
}

/// The namespace description that `s` writes as comma-separated `name=value`
/// parts, all three fields required.
pub open spec fn parse_info(s: Seq<char>) -> Option<KeyspaceInfo> {
    match info_fields(split(s, ',')) {
        Some((Some(keys), Some(expires), Some(avg_ttl))) => Some(
            KeyspaceInfo { keys, expires, avg_ttl },
        ),
        _ => None,
    }
}

/// `l` without one trailing carriage return.
pub open spec fn strip_cr(l: Seq<char>) -> Seq<char> {
    if l.len() > 0 && l.last() == '\r' {
        l.drop_last()
    } else {
        l
    }
}

/// The `n`-th line of the pieces `p` of a text split at line feeds: a
/// carriage return before a line feed is not part of the line.
pub open spec fn line_of(p: Seq<Seq<char>>, n: int) -> Seq<char> {
    if n < p.len() - 1 {
        strip_cr(p[n])
    } else {
        p[n]
    }
}

/// What one line of the report gives: `Some(None)` for an empty line or a
/// comment (a line starting with `#`), `Some(Some(entry))` for a line
/// `db<N>:<description>`, and `None` for anything else.
pub open spec fn parse_line(line: Seq<char>) -> Option<Option<(i64, KeyspaceInfo)>> {
    if line.len() == 0 || line[0] == '#' {
        Some(None)
    } else {
        let j = first_index(line, ':');
        let name = line.take(j);
        if j < 0 || name.len() < 2 || name.take(2) != seq!['d', 'b'] {
            None
        } else {
            match (parse_i64(name.skip(2)), parse_info(line.skip(j + 1))) {
                (Some(n), Some(info)) => Some(Some((n, info))),
                _ => None,
            }
        }
    }
}

/// The entries that the first `n` lines of the pieces `p` give, or `None` if
/// one of them is malformed.
pub open spec fn report_entries(p: Seq<Seq<char>>, n: int) -> Option<Seq<(i64, KeyspaceInfo)>>
    decreases n,
{
    if n <= 0 {
        Some(seq![])
    } else {
        match report_entries(p, n - 1) {
            None => None,
            Some(es) => match parse_line(line_of(p, n - 1)) {
                None => None,
                Some(None) => Some(es),
                Some(Some(e)) => Some(es.push(e)),
            },
        }
    }
}

/// The namespaces that the keyspace report `s` lists, in order.
pub open spec fn parse_report(s: Seq<char>) -> Option<Seq<(i64, KeyspaceInfo)>> {
    report_entries(split(s, '\n'), split(s, '\n').len() as int)
}

proof fn lemma_entries_fail(p: Seq<Seq<char>>, i: int, n: int)
    requires
        0 <= i <= n,
        report_entries(p, i).is_none(),
    ensures
        report_entries(p, n).is_none(),
    decreases n - i,
{
    if i < n {
        lemma_entries_fail(p, i + 1, n);
    }
}

proof fn lemma_fields_fail(parts: Seq<Seq<char>>, i: int)
    requires
        0 <= i <= parts.len(),
        info_fields(parts.take(i)).is_none(),
    ensures
        info_fields(parts).is_none(),
    decreases parts.len() - i,
{
    if i < parts.len() {
        assert(parts.take(i + 1).drop_last() =~= parts.take(i));
        lemma_fields_fail(parts, i + 1);
    } else {
        assert(parts.take(i) =~= parts);
    }
}

/// What one line of the report gives; see `parse_line`.
fn read_line(line: &str) -> (r: Option<Option<(KeyspaceId, KeyspaceInfo)>>)
    ensures
        match r {
            None => parse_line(line@).is_none(),
            Some(None) => parse_line(line@) == Some(None::<(i64, KeyspaceInfo)>),
            Some(Some((id, info))) => parse_line(line@) == Some(Some((id.0, info))),
        },
{
    let n = line.unicode_len();
    if n == 0 || line.get_char(0) == '#' {
        return Some(None);
    }
    let j = match find_char(line, ':') {
        Some(j) => j,
        None => {
            return None;
        },
    };
    if j < 2 || line.get_char(0) != 'd' || line.get_char(1) != 'b' {
        proof {
            if j >= 2 {
                assert(line@.take(j as int).take(2)[0] == line@[0]);
                assert(line@.take(j as int).take(2)[1] == line@[1]);
            }
        }
        return None;
    }
    proof {
        assert(line@.take(j as int).take(2) =~= seq!['d', 'b']);
    }
    let number = line.substring_char(2, j);
    let description = line.substring_char(j + 1, n);
    proof {
        assert(number@ =~= line@.take(j as int).skip(2));
        assert(description@ =~= line@.skip(j + 1));
    }
    match (str_to_i64(number), KeyspaceInfo::read_info(description)) {
        (Some(id), Some(info)) => Some(Some((KeyspaceId(id), info))),
        _ => None,
    }
}

/// The namespaces that `es` describe, a later entry for an id replacing an
/// earlier one.
pub open spec fn entries_map(es: Seq<(i64, KeyspaceInfo)>) -> Map<i64, KeyspaceInfo>
    decreases es.len(),
{
    if es.len() == 0 {
        Map::empty()
    } else {
        entries_map(es.drop_last()).insert(es.last().0, es.last().1)
    }
}

/// `ks` lists each namespace of `m` exactly once, with its description.
pub open spec fn lists_map(ks: Seq<(KeyspaceId, KeyspaceInfo)>, m: Map<i64, KeyspaceInfo>) -> bool {
    &&& forall|i: int, j: int|
        0 <= i < ks.len() && 0 <= j < ks.len() && i != j ==> (#[trigger] ks[i]).0.0 != (#[trigger] ks[j]).0.0
    &&& forall|i: int| 0 <= i < ks.len() ==> m.contains_key((#[trigger] ks[i]).0.0) && m[ks[i].0.0] == ks[i].1
    &&& forall|id: i64| #[trigger] m.contains_key(id) ==> exists|i: int| 0 <= i < ks.len() && ks[i].0.0 == id
}

/// Files `e` in `ks`, replacing the entry with the same id if there is one.
fn put_entry(
    ks: &mut Vec<(KeyspaceId, KeyspaceInfo)>,
    e: (KeyspaceId, KeyspaceInfo),
    Ghost(m): Ghost<Map<i64, KeyspaceInfo>>,
)
    requires
        lists_map(old(ks)@, m),
    ensures
        lists_map(final(ks)@, m.insert(e.0.0, e.1)),
{
    let ghost before = ks@;
    let mut j: usize = 0;
    while j < ks.len()
        invariant
            ks@ == before,
            lists_map(before, m),
            j <= ks@.len(),
            forall|k: int| 0 <= k < j ==> ks@[k].0.0 != e.0.0,
        decreases ks@.len() - j,
    {
        if ks[j].0.0 == e.0.0 {
            ks.set(j, e);
            proof {
                let m2 = m.insert(e.0.0, e.1);
                assert forall|id: i64| #[trigger] m2.contains_key(id) implies exists|i: int|
                    0 <= i < ks@.len() && ks@[i].0.0 == id by {
                    if id == e.0.0 {
                        assert(ks@[j as int].0.0 == id);
                    } else {
                        let i = choose|i: int| 0 <= i < before.len() && before[i].0.0 == id;
                        assert(ks@[i].0.0 == id);
                    }
                }
                assert forall|a: int, b: int|
                    0 <= a < ks@.len() && 0 <= b < ks@.len() && a != b implies (#[trigger] ks@[a]).0.0
                        != (#[trigger] ks@[b]).0.0 by {
                    assert(before[a].0.0 != before[b].0.0);
                }
            }
            return;
        }
        j = j + 1;
    }
    ks.push(e);
    proof {
        let m2 = m.insert(e.0.0, e.1);
        let n = before.len() as int;
        assert forall|id: i64| #[trigger] m2.contains_key(id) implies exists|i: int|
            0 <= i < ks@.len() && ks@[i].0.0 == id by {
            if id == e.0.0 {
                assert(ks@[n].0.0 == id);
            } else {
                let i = choose|i: int| 0 <= i < before.len() && before[i].0.0 == id;
                assert(ks@[i].0.0 == id);
            }
        }
        assert forall|a: int, b: int|
            0 <= a < ks@.len() && 0 <= b < ks@.len() && a != b implies (#[trigger] ks@[a]).0.0
                != (#[trigger] ks@[b]).0.0 by {
            if a < n && b < n {
                assert(before[a].0.0 != before[b].0.0);
            }
        }
        assert forall|i: int| 0 <= i < ks@.len() implies m2.contains_key((#[trigger] ks@[i]).0.0)
            && m2[ks@[i].0.0] == ks@[i].1 by {
            if i < n {
                assert(before[i] == ks@[i]);
            }
        }
    }
}

impl KeyspacesInfo {
    /// Reads the store's keyspace report, or `None` where a line is malformed.
    fn read_report(s: &str) -> (r: Option<KeyspacesInfo>)
        ensures
            r.is_some() <==> parse_report(s@).is_some(),
            r.is_some() ==> lists_map(r.unwrap().keyspaces@, entries_map(parse_report(s@).unwrap())),
    {
        let pieces = split_on(s, '\n');
        let ghost ps = split(s@, '\n');
        let mut keyspaces: Vec<(KeyspaceId, KeyspaceInfo)> = Vec::new();
        let mut i: usize = 0;
        while i < pieces.len()
            invariant
                ps == split(s@, '\n'),
                pieces@.len() == ps.len(),
                forall|j: int| 0 <= j < pieces@.len() ==> (#[trigger] pieces@[j])@ == ps[j],
                i <= pieces@.len(),
                report_entries(ps, i as int).is_some(),
                lists_map(keyspaces@, entries_map(report_entries(ps, i as int).unwrap())),
            decreases pieces@.len() - i,
        {
            let piece = pieces[i].as_str();
            let m = piece.unicode_len();
            let line = if i + 1 < pieces.len() && m > 0 && piece.get_char(m - 1) == '\r' {
                piece.substring_char(0, m - 1)
            } else {
                piece
            };
            proof {
                assert(line@ =~= line_of(ps, i as int));
            }
            let ghost es = report_entries(ps, i as int).unwrap();
            match read_line(line) {
                None => {
                    proof {
                        lemma_entries_fail(ps, i + 1, ps.len() as int);
                    }
                    return None;
                },
                Some(None) => {},
                Some(Some(entry)) => {
                    put_entry(&mut keyspaces, entry, Ghost(entries_map(es)));
                    proof {
                        let e2 = es.push((entry.0.0, entry.1));
                        assert(report_entries(ps, i + 1) == Some(e2));
                        assert(e2.drop_last() =~= es);
                    }
                },
            }
            i = i + 1;
        }
        Some(KeyspacesInfo { keyspaces })
    }

    /// Whether `s` is a well-formed keyspace report: each line empty, a
    /// comment starting with `#`, or `db<N>:<description>` with a well-formed
    /// description.
    pub fn is_well_formed(s: &str) -> (r: bool)
        ensures
            r == parse_report(s@).is_some(),
    {
        Self::read_report(s).is_some()
    }

    /// Reads the store's keyspace report: one `db<N>:<description>` line per
    /// namespace, empty lines and comments skipped. Each namespace is listed
    /// once, with the description of its last line.
    pub fn parse(s: &str) -> (r: KeyspacesInfo)
        requires
            parse_report(s@).is_some(),
        ensures
            lists_map(r.keyspaces@, entries_map(parse_report(s@).unwrap())),
    {
        match Self::read_report(s) {
            Some(r) => r,
            None => KeyspacesInfo { keyspaces: Vec::new() },
        }
    }
}

impl KeyspaceInfo {
    /// Whether `s` is a well-formed namespace description: every part has
    /// an `=`, the fields `keys`, `expires` and `avg_ttl` are all there, and
    /// each is a number.
    pub fn is_well_formed(s: &str) -> (r: bool)
        ensures
            r == parse_info(s@).is_some(),
    {
        Self::read_info(s).is_some()
    }

    /// Reads a well-formed namespace description such as
    /// `keys=3,expires=0,avg_ttl=0`; of a field given twice, the last counts.
    pub fn from_str(s: &str) -> (r: KeyspaceInfo)
        requires
            parse_info(s@).is_some(),
        ensures
            r == parse_info(s@).unwrap(),
    {
        match Self::read_info(s) {
            Some(r) => r,
            None => KeyspaceInfo { keys: 0, expires: 0, avg_ttl: 0 },
        }
    }

    /// Reads a namespace description, or `None` where a part has no `=`, a
    /// field is not a number, or a field is missing.
    fn read_info(s: &str) -> (r: Option<KeyspaceInfo>)
        ensures
            r == parse_info(s@),
    {
        let parts = split_on(s, ',');
        let ghost ps = split(s@, ',');
        let keys_s = String::from_str("keys");
        let expires_s = String::from_str("expires");
        let avg_ttl_s = String::from_str("avg_ttl");
        proof {
            reveal_strlit("keys");
            reveal_strlit("expires");
            reveal_strlit("avg_ttl");
            assert(keys_s@ =~= keys_name());
            assert(expires_s@ =~= expires_name());
            assert(avg_ttl_s@ =~= avg_ttl_name());
            assert(ps.take(0) =~= Seq::<Seq<char>>::empty());
        }
        let mut keys: Option<u64> = None;
        let mut expires: Option<u64> = None;
        let mut avg_ttl: Option<u64> = None;
        let mut i: usize = 0;
        while i < parts.len()
            invariant
                ps == split(s@, ','),
                parts@.len() == ps.len(),
                forall|j: int| 0 <= j < parts@.len() ==> (#[trigger] parts@[j])@ == ps[j],
                keys_s@ == keys_name(),
                expires_s@ == expires_name(),
                avg_ttl_s@ == avg_ttl_name(),
                i <= parts@.len(),
                info_fields(ps.take(i as int)) == Some((keys, expires, avg_ttl)),
            decreases parts@.len() - i,
        {
            let part = parts[i].as_str();
            proof {
                assert(ps.take(i + 1).drop_last() =~= ps.take(i as int));
                assert(ps.take(i + 1).last() == ps[i as int]);
            }
            proof {
                assert(part@ == ps[i as int]);
            }
            let j = match find_char(part, '=') {
                Some(j) => j,
                None => {
                    proof {
                        assert(info_fields(ps.take(i + 1)).is_none());
                        lemma_fields_fail(ps, i + 1);
                    }
                    return None;
                },
            };
            let n = part.unicode_len();
            let name = String::from_str(part.substring_char(0, j));
            let value = part.substring_char(j + 1, n);
            proof {
                assert(name@ =~= part@.take(j as int));
                assert(value@ =~= part@.skip(j + 1));
            }
            if name == keys_s {
                match str_to_u64(value) {
                    Some(x) => {
                        keys = Some(x);
                    },
                    None => {
                        proof {
                            lemma_fields_fail(ps, i + 1);
                        }
                        return None;
                    },
                }
            } else if name == expires_s {
                match str_to_u64(value) {
                    Some(x) => {
                        expires = Some(x);
                    },
                    None => {
                        proof {
                            lemma_fields_fail(ps, i + 1);
                        }
                        return None;
                    },
                }
            } else if name == avg_ttl_s {
                match str_to_u64(value) {
                    Some(x) => {
                        avg_ttl = Some(x);
                    },
                    None => {
                        proof {
                            lemma_fields_fail(ps, i + 1);
                        }
                        return None;
                    },
                }
            }
            i = i + 1;
        }
        proof {
            assert(ps.take(parts@.len() as int) =~= ps);
        }
        match (keys, expires, avg_ttl) {
            (Some(keys), Some(expires), Some(avg_ttl)) => Some(KeyspaceInfo { keys, expires, avg_ttl }),
            _ => None,
        }
    }
}

} // verus!
