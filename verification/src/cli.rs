use vstd::prelude::*;
use vstd::string::{StrSliceExecFns, StringExecFns};

use crate::errors::{Error, Result};
use crate::text::{
    contains, contains_seq, lowercased, parse_usize, decimal_usize, starts_with, str_eq,
    take_chars, to_lowercase, to_string, trim, trimmed,
};
use crate::vault::payload::{lemma_select_bounded, lemma_select_contains, select, Entry, EntryBody, EntryType, EntryUpdate};

verus! {

pub const BACKUP_FILENAME: &'static str = "passman-vault-backup.enc";

/// The kind of entry that a lower-case word names.
pub open spec fn type_named(l: Seq<char>) -> Result<EntryType> {
    if l == "login"@ || l == "log"@ {
        Ok(EntryType::Login)
    } else if l == "note"@ || l == "n"@ {
        Ok(EntryType::Note)
    } else {
        Err(Error::InvalidFormat("unknown entry type (login|note)"))
    }
}

/// The kind of entry that a word on the command line names, ignoring case.
pub fn decode_type(s: &str) -> (r: Result<EntryType>)
    ensures
        r == type_named(lowercased(s@)),
{
    let lower = to_lowercase(s);
    type_from_lowercase(lower.as_str())
}

/// The kind of entry that an already lower-cased word names: `login` or
/// `log`, `note` or `n`.
pub fn type_from_lowercase(l: &str) -> (r: Result<EntryType>)
    ensures
        r == type_named(l@),
{
    proof {
        reveal_strlit("login");
        reveal_strlit("log");
        reveal_strlit("note");
        reveal_strlit("n");
        assert("login"@.len() == 5 && "log"@.len() == 3 && "note"@.len() == 4 && "n"@.len() == 1);
    }
    if str_eq(l, "login") || str_eq(l, "log") {
        Ok(EntryType::Login)
    } else if str_eq(l, "note") || str_eq(l, "n") {
        Ok(EntryType::Note)
    } else {
        Err(Error::InvalidFormat("unknown entry type (login|note)"))
    }
}

/// The pieces of a text between commas; there is always at least one.
pub open spec fn split_commas(s: Seq<char>) -> Seq<Seq<char>>
    decreases s.len(),
{
    if s.len() == 0 {
        seq![Seq::empty()]
    } else {
        let r = split_commas(s.drop_last());
        if s.last() == ',' {
            r.push(Seq::empty())
        } else {
            r.update(r.len() - 1, r.last().push(s.last()))
        }
    }
}

/// The trimmed pieces that are not empty, in order.
pub open spec fn kept_tags(pieces: Seq<Seq<char>>) -> Seq<Seq<char>>
    decreases pieces.len(),
{
    if pieces.len() == 0 {
        Seq::empty()
    } else {
        let r = kept_tags(pieces.drop_last());
        let t = trimmed(pieces.last());
        if t.len() > 0 {
            r.push(t)
        } else {
            r
        }
    }
}

proof fn lemma_split_nonempty(s: Seq<char>)
    ensures
        split_commas(s).len() >= 1,
    decreases s.len(),
{
    if s.len() > 0 {
        lemma_split_nonempty(s.drop_last());
    }
}

/// The texts that are not empty, in order.
pub open spec fn nonempty_texts(ts: Seq<Seq<char>>) -> Seq<Seq<char>>
    decreases ts.len(),
{
    if ts.len() == 0 {
        Seq::empty()
    } else {
        let r = nonempty_texts(ts.drop_last());
        if ts.last().len() > 0 {
            r.push(ts.last())
        } else {
            r
        }
    }
}

proof fn lemma_kept_tags_trimmed(pieces: Seq<Seq<char>>)
    ensures
        kept_tags(pieces) == nonempty_texts(pieces.map_values(|x: Seq<char>| trimmed(x))),
    decreases pieces.len(),
{
    if pieces.len() > 0 {
        lemma_kept_tags_trimmed(pieces.drop_last());
        assert(pieces.drop_last().map_values(|x: Seq<char>| trimmed(x)) =~= pieces.map_values(
            |x: Seq<char>| trimmed(x),
        ).drop_last());
    }
}

/// The pieces of `s` between commas.
pub fn split_on_commas(s: &str) -> (r: Vec<String>)
    ensures
        r@.map_values(|t: String| t@) == split_commas(s@),
{
    let n = s.unicode_len();
    let mut out: Vec<String> = Vec::new();
    let mut cur = String::new();
    let mut k: usize = 0;
    proof { assert(s@.take(0) =~= Seq::<char>::empty()); }
    while k < n
        invariant
            n == s@.len(),
            k <= n,
            split_commas(s@.take(k as int)).len() >= 1,
            out@.map_values(|t: String| t@) == split_commas(s@.take(k as int)).drop_last(),
            cur@ == split_commas(s@.take(k as int)).last(),
        decreases n - k,
    {
        let c = s.get_char(k);
        let ghost sp = split_commas(s@.take(k as int));
        proof {
            assert(s@.take(k + 1).drop_last() =~= s@.take(k as int));
            assert(s@.take(k + 1).last() == c);
            lemma_split_nonempty(s@.take(k + 1));
        }
        if c == ',' {
            out.push(cur);
            proof {
                let sp1 = split_commas(s@.take(k + 1));
                assert(sp1 == sp.push(Seq::empty()));
                assert(sp1.drop_last() =~= sp);
                assert(sp.drop_last().push(sp.last()) =~= sp);
                assert(out@.map_values(|t: String| t@) =~= sp1.drop_last());
            }
            cur = String::new();
        } else {
            crate::text::push_char(&mut cur, c);
            proof {
                let sp1 = split_commas(s@.take(k + 1));
                assert(sp1.drop_last() =~= sp.drop_last());
            }
        }
        k += 1;
    }
    proof {
        assert(s@.take(n as int) =~= s@);
    }
    let ghost sp = split_commas(s@);
    out.push(cur);
    proof {
        assert(sp.drop_last().push(sp.last()) =~= sp);
        assert(out@.map_values(|t: String| t@) =~= sp);
    }
    out
}

/// The texts of `pieces` that are not empty, in order.
pub fn keep_nonempty(pieces: Vec<String>) -> (r: Vec<String>)
    ensures
        r@.map_values(|t: String| t@) == nonempty_texts(pieces@.map_values(|t: String| t@)),
{
    let ghost all = pieces@.map_values(|t: String| t@);
    let mut out: Vec<String> = Vec::new();
    let rest = pieces;
    let mut i: usize = 0;
    let n = rest.len();
    while i < n
        invariant
            n == all.len(),
            i <= n,
            rest@.len() == n,
            rest@.map_values(|t: String| t@) == all,
            out@.map_values(|t: String| t@) == nonempty_texts(all.take(i as int)),
        decreases n - i,
    {
        proof {
            assert(all.take(i + 1).drop_last() =~= all.take(i as int));
            assert(all.take(i + 1).last() == rest@[i as int]@);
        }
        if rest[i].as_str().unicode_len() > 0 {
            let t = to_string(rest[i].as_str());
            out.push(t);
            assert(out@.map_values(|t: String| t@) =~= nonempty_texts(all.take(i + 1)));
        }
        i += 1;
    }
    assert(all.take(n as int) =~= all);
    out
}

/// Comma-separated tags, each trimmed, empty ones left out.
pub fn parse_tags(s: Option<String>) -> (r: Vec<String>)
    ensures
        match s {
            None => r@.len() == 0,
            Some(v) => r@.map_values(|t: String| t@) == kept_tags(split_commas(v@)),
        },
{
    match s {
        None => Vec::new(),
        Some(v) => {
            let pieces = split_on_commas(v.as_str());
            let ghost pv = pieces@.map_values(|t: String| t@);
            let mut trimmed_pieces: Vec<String> = Vec::new();
            let mut i: usize = 0;
            while i < pieces.len()
                invariant
                    i <= pieces@.len(),
                    pv == pieces@.map_values(|t: String| t@),
                    trimmed_pieces@.map_values(|t: String| t@) == pv.take(i as int).map_values(
                        |x: Seq<char>| trimmed(x),
                    ),
                decreases pieces@.len() - i,
            {
                let t = to_string(trim(pieces[i].as_str()));
                assert(pv[i as int] == pieces@[i as int]@);
                assert(t@ == trimmed(pv[i as int]));
                let ghost before = trimmed_pieces@;
                trimmed_pieces.push(t);
                assert(trimmed_pieces@ == before.push(t));
                proof {
                    let lhs = trimmed_pieces@.map_values(|t: String| t@);
                    let rhs = pv.take(i + 1).map_values(|x: Seq<char>| trimmed(x));
                    let prev = pv.take(i as int).map_values(|x: Seq<char>| trimmed(x));
                    assert(before.map_values(|t: String| t@).len() == before.len());
                    assert(prev.len() == i);
                    assert(before.len() == i);
                    assert(pv.len() == pieces@.len());
                    assert(rhs.len() == i + 1);
                    assert(lhs.len() == rhs.len());
                    assert forall|k: int| 0 <= k < lhs.len() implies lhs[k] == rhs[k] by {
                        if k < i {
                            assert(lhs[k] == before[k]@);
                            assert(before.map_values(|t: String| t@)[k] == prev[k]);
                            assert(pv.take(i as int)[k] == pv.take(i + 1)[k]);
                        } else {
                            assert(lhs[k] == t@);
                            assert(pv.take(i + 1)[k] == pv[i as int]);
                        }
                    }
                    assert(lhs =~= rhs);
                }
                i += 1;
            }
            assert(pv.take(i as int) =~= pv);
            proof { lemma_kept_tags_trimmed(split_commas(v@)); }
            keep_nonempty(trimmed_pieces)
        },
    }
}

/// A text cut to `max` characters, the last three of them dots when cut.
pub open spec fn truncated(s: Seq<char>, max: nat) -> Seq<char> {
    if s.len() <= max {
        s
    } else {
        s.take(if max >= 3 { max - 3 } else { 0 }) + "..."@
    }
}

pub fn truncate(s: &str, max: usize) -> (r: String)
    ensures
        r@ == truncated(s@, max as nat),
{
    if s.unicode_len() <= max {
        to_string(s)
    } else {
        let keep = if max >= 3 { max - 3 } else { 0 };
        let mut cut = take_chars(s, keep);
        cut.append("...");
        cut
    }
}

/// The first eight characters of an identifier.
pub fn short_id(id: &str) -> (r: String)
    ensures
        r@ == id@.take(if id@.len() >= 8 { 8 } else { id@.len() as int }),
{
    take_chars(id, 8)
}

/// Whether the entry's title holds `needle`, ignoring case.
pub fn title_contains(entry: &Entry, needle: &str) -> (r: bool)
    ensures
        r == contains_seq(lowercased(entry.title@), lowercased(needle@)),
{
    let t = to_lowercase(entry.title.as_str());
    let n = to_lowercase(needle);
    contains(t.as_str(), n.as_str())
}

/// What tells an entry apart in a list of matches: the user name of a
/// login, the start of a note's body.
pub fn entry_label(entry: &Entry) -> (r: String)
    ensures
        match entry.body {
            EntryBody::Login(l) => r@ == if l.username@.len() == 0 {
                "(no username)"@
            } else {
                l.username@
            },
            EntryBody::Note(n) => r@ == truncated(trimmed(n.body@), 40),
        },
{
    match &entry.body {
        EntryBody::Login(l) => {
            if l.username.as_str().unicode_len() == 0 {
                to_string("(no username)")
            } else {
                l.username.clone()
            }
        },
        EntryBody::Note(n) => truncate(trim(n.body.as_str()), 40),
    }
}

/// The identifier is `target`.
pub open spec fn id_is(e: Entry, target: Seq<char>) -> bool {
    e.id@ == target
}

/// The identifier starts with `target` and is longer.
pub open spec fn id_extends(e: Entry, target: Seq<char>) -> bool {
    target.len() <= e.id@.len() && e.id@.subrange(0, target.len() as int) == target && e.id@ != target
}

/// The identifier is not `target` and the title holds it, ignoring case.
pub open spec fn title_names(e: Entry, target: Seq<char>) -> bool {
    e.id@ != target && contains_seq(lowercased(e.title@), lowercased(target))
}

/// The entries that `target` designates: those with that identifier; if
/// none, those whose identifier it begins; if none, those whose title holds
/// it.
pub open spec fn candidates(entries: Seq<Entry>, target: Seq<char>) -> Seq<usize> {
    let exact = select(entries, |e: Entry| id_is(e, target));
    let prefix = select(entries, |e: Entry| id_extends(e, target));
    let by_title = select(entries, |e: Entry| title_names(e, target));
    if exact.len() > 0 {
        exact
    } else if prefix.len() > 0 {
        prefix
    } else {
        by_title
    }
}

/// The positions of the entries that satisfy the test number `which`
/// (0: same identifier, 1: longer identifier, 2: title), in order.
fn select_exec(entries: &[Entry], target: &str, which: u8) -> (r: Vec<usize>)
    requires
        which <= 2,
    ensures
        which == 0 ==> r@ == select(entries@, |e: Entry| id_is(e, target@)),
        which == 1 ==> r@ == select(entries@, |e: Entry| id_extends(e, target@)),
        which == 2 ==> r@ == select(entries@, |e: Entry| title_names(e, target@)),
{
    let ghost p: spec_fn(Entry) -> bool = if which == 0 {
        |e: Entry| id_is(e, target@)
    } else if which == 1 {
        |e: Entry| id_extends(e, target@)
    } else {
        |e: Entry| title_names(e, target@)
    };
    let mut out: Vec<usize> = Vec::new();
    let mut i: usize = 0;
    while i < entries.len()
        invariant
            i <= entries@.len(),
            which <= 2,
            p == (if which == 0 {
                |e: Entry| id_is(e, target@)
            } else if which == 1 {
                |e: Entry| id_extends(e, target@)
            } else {
                |e: Entry| title_names(e, target@)
            }),
            out@ == select(entries@.take(i as int), p),
        decreases entries@.len() - i,
    {
        let e = &entries[i];
        let same = str_eq(e.id.as_str(), target);
        let hit = if which == 0 {
            same
        } else if which == 1 {
            starts_with(e.id.as_str(), target) && !same
        } else {
            !same && title_contains(e, target)
        };
        assert(entries@.take(i + 1).drop_last() =~= entries@.take(i as int));
        assert(entries@.take(i + 1).last() == *e);
        assert(hit == p(*e));
        if hit {
            out.push(i);
        }
        i += 1;
    }
    assert(entries@.take(i as int) =~= entries@);
    out
}

/// The positions of the entries that `target` designates.
pub fn resolve_candidates(entries: &[Entry], target: &str) -> (r: Vec<usize>)
    ensures
        r@ == candidates(entries@, target@),
        forall|i: int| 0 <= i < r@.len() ==> #[trigger] r@[i] < entries@.len(),
        (exists|j: int| 0 <= j < entries@.len() && (#[trigger] entries@[j]).id@ == target@) ==> forall|i: usize|
            i < entries@.len() ==> (#[trigger] r@.contains(i) <==> entries@[i as int].id@ == target@),
        !(exists|j: int| 0 <= j < entries@.len() && (#[trigger] entries@[j]).id@ == target@) && (exists|j: int|
            0 <= j < entries@.len() && target@.len() <= (#[trigger] entries@[j]).id@.len()
                && entries@[j].id@.subrange(0, target@.len() as int) == target@ && entries@[j].id@ != target@) ==> forall|i: usize|
            i < entries@.len() ==> (#[trigger] r@.contains(i) <==> (target@.len() <= entries@[i as int].id@.len()
                && entries@[i as int].id@.subrange(0, target@.len() as int) == target@ && entries@[i as int].id@
                != target@)),
        !(exists|j: int| 0 <= j < entries@.len() && (#[trigger] entries@[j]).id@ == target@) && !(exists|j: int|
            0 <= j < entries@.len() && target@.len() <= (#[trigger] entries@[j]).id@.len()
                && entries@[j].id@.subrange(0, target@.len() as int) == target@ && entries@[j].id@ != target@) ==> forall|i: usize|
            i < entries@.len() ==> (#[trigger] r@.contains(i) <==> entries@[i as int].id@ != target@ && contains_seq(
                lowercased(entries@[i as int].title@),
                lowercased(target@),
            )),
{
    let count = entries.len();
    proof {
        assert(entries@.len() == count);
        lemma_select_bounded(entries@, |e: Entry| id_is(e, target@));
        lemma_select_bounded(entries@, |e: Entry| id_extends(e, target@));
        lemma_select_bounded(entries@, |e: Entry| title_names(e, target@));
        lemma_select_contains(entries@, |e: Entry| id_is(e, target@));
        lemma_select_contains(entries@, |e: Entry| id_extends(e, target@));
        lemma_select_contains(entries@, |e: Entry| title_names(e, target@));
    }
    let exact = select_exec(entries, target, 0);
    if exact.len() > 0 {
        return exact;
    }
    let prefix = select_exec(entries, target, 1);
    if prefix.len() > 0 {
        return prefix;
    }
    select_exec(entries, target, 2)
}

/// What a target on the command line comes to.
pub enum Resolved {
    /// One entry, with this identifier.
    Found(String),
    /// Several entries, at these positions: the user must choose.
    Choose(Vec<usize>),
}

/// The entry that `target` designates, or the several it may mean.
pub fn resolve_id(entries: &[Entry], target: &str) -> (r: Result<Resolved>)
    ensures
        candidates(entries@, target@).len() == 0 ==> r == Err::<Resolved, Error>(Error::InvalidFormat("no matching entry")),
        candidates(entries@, target@).len() == 1 ==> (r matches Ok(Resolved::Found(id)) && id@
            == entries@[candidates(entries@, target@)[0] as int].id@),
        candidates(entries@, target@).len() > 1 ==> (r matches Ok(Resolved::Choose(m)) && m@ == candidates(
            entries@,
            target@,
        )),
{
    let matches = resolve_candidates(entries, target);
    if matches.len() == 0 {
        Err(Error::InvalidFormat("no matching entry"))
    } else if matches.len() == 1 {
        Ok(Resolved::Found(entries[matches[0]].id.clone()))
    } else {
        Ok(Resolved::Choose(matches))
    }
}

/// The identifiers of the chosen entries joined by a comma and a space.
pub open spec fn joined_ids(entries: Seq<Entry>, m: Seq<usize>) -> Seq<char>
    decreases m.len(),
{
    if m.len() == 0 {
        Seq::empty()
    } else if m.len() == 1 {
        entries[m[0] as int].id@
    } else {
        joined_ids(entries, m.drop_last()) + ", "@ + entries[m.last() as int].id@
    }
}

/// What the user's answer to the list of matches comes to: `q` aborts, a
/// number from 1 picks that entry, anything else is ambiguous.
pub fn choose_entry(entries: &[Entry], matches: &[usize], answer: &str) -> (r: Result<String>)
    requires
        forall|i: int| 0 <= i < matches@.len() ==> #[trigger] matches@[i] < entries@.len(),
    ensures
        trimmed(answer@) == "q"@ || trimmed(answer@) == "Q"@ ==> r == Err::<String, Error>(
            Error::InvalidFormat("aborted by user"),
        ),
        !(trimmed(answer@) == "q"@ || trimmed(answer@) == "Q"@) ==> match decimal_usize(trimmed(answer@)) {
            Some(n) if 1 <= n <= matches@.len() => r matches Ok(id) && id@ == entries@[matches@[n - 1] as int].id@,
            _ => r matches Err(Error::Ambiguous(ids)) && ids@ == joined_ids(entries@, matches@),
        },
{
    let line = trim(answer);
    let number = parse_usize(line);
    choice_from(entries, matches, line, number)
}

/// What a trimmed answer `line`, read as the decimal `number` where it is
/// one, comes to: `q` or `Q` aborts, a number from 1 to the count of
/// matches picks that entry, anything else is ambiguous and names the
/// identifiers of all matches.
pub fn choice_from(entries: &[Entry], matches: &[usize], line: &str, number: Option<usize>) -> (r: Result<String>)
    requires
        forall|i: int| 0 <= i < matches@.len() ==> #[trigger] matches@[i] < entries@.len(),
    ensures
        line@ == "q"@ || line@ == "Q"@ ==> r == Err::<String, Error>(Error::InvalidFormat("aborted by user")),
        !(line@ == "q"@ || line@ == "Q"@) ==> match number {
            Some(n) if 1 <= n <= matches@.len() => r matches Ok(id) && id@ == entries@[matches@[n - 1] as int].id@,
            _ => r matches Err(Error::Ambiguous(ids)) && ids@ == joined_ids(entries@, matches@),
        },
{
    if str_eq(line, "q") || str_eq(line, "Q") {
        return Err(Error::InvalidFormat("aborted by user"));
    }
    match number {
        Some(n) => {
            if n >= 1 && n <= matches.len() {
                return Ok(entries[matches[n - 1]].id.clone());
            }
        },
        None => {},
    }
    let mut ids = String::new();
    let mut i: usize = 0;
    while i < matches.len()
        invariant
            i <= matches@.len(),
            forall|j: int| 0 <= j < matches@.len() ==> #[trigger] matches@[j] < entries@.len(),
            ids@ == joined_ids(entries@, matches@.take(i as int)),
        decreases matches@.len() - i,
    {
        if i > 0 {
            ids.append(", ");
        }
        ids.append(entries[matches[i]].id.as_str());
        proof {
            let t = matches@.take(i + 1);
            assert(t.drop_last() =~= matches@.take(i as int));
            assert(t.last() == matches@[i as int]);
            if i == 0 {
                assert(ids@ =~= joined_ids(entries@, t));
            }
        }
        i += 1;
    }
    assert(matches@.take(i as int) =~= matches@);
    Err(Error::Ambiguous(ids))
}

/// Where a backup goes: into a directory (an existing one, or a path that
/// ends with `/`) under the backup file name, else to the path itself.
pub open spec fn backup_target(destination: Seq<char>, is_dir: bool) -> Seq<char> {
    if is_dir || (destination.len() > 0 && destination.last() == '/') {
        if destination.len() == 0 {
            BACKUP_FILENAME@
        } else if destination.last() == '/' {
            destination + BACKUP_FILENAME@
        } else {
            destination + "/"@ + BACKUP_FILENAME@
        }
    } else {
        destination
    }
}

/// The backup path for `destination`; `is_dir` says whether it names an
/// existing directory.
pub fn resolve_backup_target(destination: &str, is_dir: bool) -> (r: String)
    ensures
        r@ == backup_target(destination@, is_dir),
        !is_dir && (destination@.len() == 0 || destination@.last() != '/') ==> r@ == destination@,
        destination@.len() > 0 && destination@.last() == '/' ==> r@ == destination@ + BACKUP_FILENAME@,
        is_dir && destination@.len() > 0 && destination@.last() != '/' ==> r@ == destination@ + "/"@
            + BACKUP_FILENAME@,
        is_dir && destination@.len() == 0 ==> r@ == BACKUP_FILENAME@,
{
    let n = destination.unicode_len();
    let ends_with_sep = n > 0 && destination.get_char(n - 1) == '/';
    if is_dir || ends_with_sep {
        if n == 0 {
            to_string(BACKUP_FILENAME)
        } else if ends_with_sep {
            let mut s = to_string(destination);
            s.append(BACKUP_FILENAME);
            s
        } else {
            let mut s = to_string(destination);
            s.append("/");
            s.append(BACKUP_FILENAME);
            s
        }
    } else {
        to_string(destination)
    }
}


/// Where the vault lives when no path is given: under `$XDG_DATA_HOME`,
/// else under `$HOME/.local/share`, else in the working directory.
pub open spec fn default_path(xdg_data: Option<Seq<char>>, home: Option<Seq<char>>) -> Seq<char> {
    match xdg_data {
        Some(x) => join_path(join_path(x, CACHE_DIR@), "vault.enc"@),
        None => match home {
            Some(h) => join_path(
                join_path(join_path(join_path(h, ".local"@), "share"@), CACHE_DIR@),
                "vault.enc"@,
            ),
            None => "vault.enc"@,
        },
    }
}

/// A relative component appended to a path: with a `/` between them unless
/// the path is empty or already ends with one.
pub open spec fn join_path(base: Seq<char>, comp: Seq<char>) -> Seq<char> {
    if base.len() == 0 {
        comp
    } else if base.last() == '/' {
        base + comp
    } else {
        base + "/"@ + comp
    }
}

/// The directory under the data directory that holds the vault.
pub const CACHE_DIR: &'static str = "passman";

fn join(base: String, comp: &str) -> (r: String)
    ensures
        r@ == join_path(base@, comp@),
{
    let n = base.as_str().unicode_len();
    if n == 0 {
        to_string(comp)
    } else if base.as_str().get_char(n - 1) == '/' {
        let mut s = base;
        s.append(comp);
        s
    } else {
        let mut s = base;
        s.append("/");
        s.append(comp);
        s
    }
}

/// The default vault path for the given `XDG_DATA_HOME` and `HOME`.
pub fn default_vault_path(xdg_data: Option<&str>, home: Option<&str>) -> (r: String)
    ensures
        r@ == default_path(
            match xdg_data {
                Some(x) => Some(x@),
                None => None,
            },
            match home {
                Some(h) => Some(h@),
                None => None,
            },
        ),
{
    match xdg_data {
        Some(x) => join(join(to_string(x), CACHE_DIR), "vault.enc"),
        None => match home {
            Some(h) => join(join(join(join(to_string(h), ".local"), "share"), CACHE_DIR), "vault.enc"),
            None => to_string("vault.enc"),
        },
    }
}

/// A passphrase taken from the environment must not be empty.
pub fn passphrase_from_env(value: String) -> (r: Result<String>)
    ensures
        value@.len() == 0 ==> r == Err::<String, Error>(Error::InvalidFormat("PASSMAN_PASSPHRASE is empty")),
        value@.len() > 0 ==> r == Ok::<String, Error>(value),
{
    if value.as_str().unicode_len() == 0 {
        Err(Error::InvalidFormat("PASSMAN_PASSPHRASE is empty"))
    } else {
        Ok(value)
    }
}

/// The shortest master passphrase, in characters.
pub const MIN_PASSPHRASE_LEN: usize = 8;

/// A new master passphrase must have at least eight characters.
pub fn check_new_passphrase(passphrase: &str) -> (r: Result<()>)
    ensures
        passphrase@.len() < MIN_PASSPHRASE_LEN ==> r == Err::<(), Error>(
            Error::InvalidFormat("master password must be at least 8 characters"),
        ),
        passphrase@.len() >= MIN_PASSPHRASE_LEN ==> r == Ok::<(), Error>(()),
{
    if passphrase.unicode_len() < MIN_PASSPHRASE_LEN {
        Err(Error::InvalidFormat("master password must be at least 8 characters"))
    } else {
        Ok(())
    }
}

/// A secret typed twice must be typed the same both times.
pub fn check_confirmation(first: &[u8], second: &[u8]) -> (r: Result<()>)
    ensures
        first@ == second@ ==> r == Ok::<(), Error>(()),
        first@ != second@ ==> r == Err::<(), Error>(Error::InvalidFormat("passwords do not match")),
{
    if first.len() != second.len() {
        return Err(Error::InvalidFormat("passwords do not match"));
    }
    let mut i: usize = 0;
    while i < first.len()
        invariant
            first@.len() == second@.len(),
            i <= first@.len(),
            forall|j: int| 0 <= j < i ==> first@[j] == second@[j],
        decreases first@.len() - i,
    {
        if first[i] != second[i] {
            return Err(Error::InvalidFormat("passwords do not match"));
        }
        i += 1;
    }
    assert(first@ =~= second@);
    Ok(())
}

/// An entry needs a title that is not blank.
pub fn check_title(title: &str) -> (r: Result<()>)
    ensures
        trimmed(title@).len() == 0 ==> r == Err::<(), Error>(Error::InvalidFormat("title is required")),
        trimmed(title@).len() > 0 ==> r == Ok::<(), Error>(()),
{
    if trim(title).unicode_len() == 0 {
        Err(Error::InvalidFormat("title is required"))
    } else {
        Ok(())
    }
}

/// A new entry made at time `now`, its tags read from the comma-separated
/// `tags`.
pub fn new_entry(id: String, title: &str, tags: Option<String>, now: i64, body: EntryBody) -> (r: Entry)
    ensures
        r.id == id,
        r.title@ == title@,
        r.tags@.map_values(|t: String| t@) == match tags {
            None => Seq::<Seq<char>>::empty(),
            Some(v) => kept_tags(split_commas(v@)),
        },
        r.created_at == now,
        r.updated_at == now,
        r.body == body,
{
    let parsed = parse_tags(tags);
    proof {
        if tags is None {
            assert(parsed@.map_values(|t: String| t@) =~= Seq::<Seq<char>>::empty());
        }
    }
    Entry { id, title: to_string(title), tags: parsed, created_at: now, updated_at: now, body }
}

/// The changes that the options of `update` ask for; the tags are read
/// from the comma-separated text.
pub fn update_from_args(
    title: Option<String>,
    username: Option<String>,
    password: Option<String>,
    url: Option<String>,
    body: Option<String>,
    tags: Option<String>,
) -> (r: EntryUpdate)
    ensures
        r.title == title,
        r.username == username,
        r.password == password,
        r.url == url,
        r.body == body,
        tags is None ==> r.tags is None,
        tags matches Some(v) ==> (r.tags matches Some(ts) && ts@.map_values(|t: String| t@) == kept_tags(
            split_commas(v@),
        )),
{
    let parsed = match tags {
        None => None,
        Some(v) => Some(parse_tags(Some(v))),
    };
    EntryUpdate { title, username, password, url, body, tags: parsed }
}

/// A text padded with spaces on the right to `width` characters.
pub open spec fn padded(s: Seq<char>, width: nat) -> Seq<char> {
    if s.len() >= width {
        s
    } else {
        s + Seq::new((width - s.len()) as nat, |i: int| ' ')
    }
}

fn pad(s: &mut String, width: usize)
    ensures
        final(s)@ == padded(old(s)@, width as nat),
{
    let n = s.as_str().unicode_len();
    if n < width {
        let mut k: usize = n;
        while k < width
            invariant
                n <= k <= width,
                n == old(s)@.len(),
                s@ == old(s)@ + Seq::new((k - n) as nat, |i: int| ' '),
            decreases width - k,
        {
            crate::text::push_char(s, ' ');
            assert(s@ =~= old(s)@ + Seq::new((k + 1 - n) as nat, |i: int| ' '));
            k += 1;
        }
    }
}

/// Texts joined by `sep`.
pub open spec fn joined(parts: Seq<Seq<char>>, sep: Seq<char>) -> Seq<char>
    decreases parts.len(),
{
    if parts.len() == 0 {
        Seq::empty()
    } else if parts.len() == 1 {
        parts[0]
    } else {
        joined(parts.drop_last(), sep) + sep + parts.last()
    }
}

/// The tags of an entry joined by `sep`.
pub fn join_tags(tags: &Vec<String>, sep: &str) -> (r: String)
    ensures
        r@ == joined(tags@.map_values(|t: String| t@), sep@),
{
    let ghost all = tags@.map_values(|t: String| t@);
    let mut s = String::new();
    let mut i: usize = 0;
    while i < tags.len()
        invariant
            i <= tags@.len(),
            all == tags@.map_values(|t: String| t@),
            s@ == joined(all.take(i as int), sep@),
        decreases tags@.len() - i,
    {
        if i > 0 {
            s.append(sep);
        }
        s.append(tags[i].as_str());
        proof {
            let t = all.take(i + 1);
            assert(t.drop_last() =~= all.take(i as int));
            assert(t.last() == tags@[i as int]@);
            if i == 0 {
                assert(s@ =~= joined(t, sep@));
            }
        }
        i += 1;
    }
    assert(all.take(i as int) =~= all);
    s
}

/// The kind of an entry's body as the list shows it.
pub open spec fn kind_label(b: EntryBody) -> Seq<char> {
    match b {
        EntryBody::Login(_) => "login"@,
        EntryBody::Note(_) => "note"@,
    }
}

/// One line of the entry list: the short identifier in 16 columns, the
/// kind in 6, the title cut to 24 characters in 24, then the tags joined by
/// commas, the columns set apart by a space.
pub open spec fn list_line(e: Entry) -> Seq<char> {
    padded(e.id@.take(if e.id@.len() >= 8 { 8 } else { e.id@.len() as int }), 16) + " "@
        + padded(kind_label(e.body), 6) + " "@ + padded(truncated(e.title@, 24), 24) + " "@
        + joined(e.tags@.map_values(|t: String| t@), ","@)
}

/// The line that lists an entry.
pub fn list_row(e: &Entry) -> (r: String)
    ensures
        r@ == list_line(*e),
{
    let mut s = short_id(e.id.as_str());
    pad(&mut s, 16);
    s.append(" ");
    let mut kind = match &e.body {
        EntryBody::Login(_) => to_string("login"),
        EntryBody::Note(_) => to_string("note"),
    };
    proof {
        reveal_strlit("login");
        reveal_strlit("note");
    }
    pad(&mut kind, 6);
    s.append(kind.as_str());
    s.append(" ");
    let mut title = truncate(e.title.as_str(), 24);
    pad(&mut title, 24);
    s.append(title.as_str());
    s.append(" ");
    let tags = join_tags(&e.tags, ",");
    s.append(tags.as_str());
    s
}

/// No tag that `parse_tags` keeps is empty.
pub proof fn lemma_kept_tags_nonempty(pieces: Seq<Seq<char>>)
    ensures
        forall|i: int| 0 <= i < kept_tags(pieces).len() ==> (#[trigger] kept_tags(pieces)[i]).len() > 0,
    decreases pieces.len(),
{
    if pieces.len() > 0 {
        lemma_kept_tags_nonempty(pieces.drop_last());
        let r = kept_tags(pieces.drop_last());
        assert forall|i: int| 0 <= i < kept_tags(pieces).len() implies (#[trigger] kept_tags(pieces)[i]).len()
            > 0 by {
            if i < r.len() {
                assert(kept_tags(pieces)[i] == r[i]);
            }
        }
    }
}

/// A cut text is at most `max` characters long when `max` leaves room for
/// the dots, and a text that fits is left as it is.
pub proof fn lemma_truncated_fits(s: Seq<char>, max: nat)
    ensures
        s.len() <= max ==> truncated(s, max) == s,
        max >= 3 ==> truncated(s, max).len() <= max,
        s.len() > max ==> truncated(s, max).len() == (if max >= 3 { max } else { 3 }),
{
    reveal_strlit("...");
}
/// Where a backup goes: a path that is not an existing directory and does
/// not end with `/` is the backup file itself; otherwise the backup file
/// name is appended to it, with a `/` between them where it has none.
pub proof fn lemma_backup_target_cases(d: Seq<char>, is_dir: bool)
    ensures
        !is_dir && (d.len() == 0 || d.last() != '/') ==> backup_target(d, is_dir) == d,
        d.len() > 0 && d.last() == '/' ==> backup_target(d, is_dir) == d + BACKUP_FILENAME@,
        is_dir && d.len() > 0 && d.last() != '/' ==> backup_target(d, is_dir) == d + "/"@ + BACKUP_FILENAME@,
        is_dir && d.len() == 0 ==> backup_target(d, is_dir) == BACKUP_FILENAME@,
{
}

/// The entries that a target designates: those with that identifier; if
/// none, those whose identifier it begins; if none, those whose title
/// holds it, both lower-cased.
pub proof fn lemma_candidates_members(entries: Seq<Entry>, target: Seq<char>)
    requires
        entries.len() <= usize::MAX,
    ensures
        (exists|j: int| 0 <= j < entries.len() && (#[trigger] entries[j]).id@ == target) ==> forall|i: usize|
            i < entries.len() ==> (#[trigger] candidates(entries, target).contains(i) <==> entries[i as int].id@
                == target),
        !(exists|j: int| 0 <= j < entries.len() && (#[trigger] entries[j]).id@ == target) && (exists|j: int|
            0 <= j < entries.len() && target.len() <= (#[trigger] entries[j]).id@.len() && entries[j].id@.subrange(
                0,
                target.len() as int,
            ) == target && entries[j].id@ != target) ==> forall|i: usize|
            i < entries.len() ==> (#[trigger] candidates(entries, target).contains(i) <==> (target.len()
                <= entries[i as int].id@.len() && entries[i as int].id@.subrange(0, target.len() as int) == target
                && entries[i as int].id@ != target)),
        !(exists|j: int| 0 <= j < entries.len() && (#[trigger] entries[j]).id@ == target) && !(exists|j: int|
            0 <= j < entries.len() && target.len() <= (#[trigger] entries[j]).id@.len() && entries[j].id@.subrange(
                0,
                target.len() as int,
            ) == target && entries[j].id@ != target) ==> forall|i: usize|
            i < entries.len() ==> (#[trigger] candidates(entries, target).contains(i) <==> entries[i as int].id@
                != target && contains_seq(lowercased(entries[i as int].title@), lowercased(target))),
{
    lemma_select_contains(entries, |e: Entry| id_is(e, target));
    lemma_select_contains(entries, |e: Entry| id_extends(e, target));
    lemma_select_contains(entries, |e: Entry| title_names(e, target));
}

} // verus!
