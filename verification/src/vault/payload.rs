use vstd::prelude::*;

use crate::crypto::random::random_array;
use crate::errors::{Error, Result};
use crate::text::{contains, contains_seq, hex_byte, lowercased, push_char, push_hex_byte, str_eq, to_lowercase};

verus! {

pub const PAYLOAD_SPEC_VERSION: u16 = 1;
pub const MAX_TAGS: usize = 32;
pub const MAX_ENTRIES: usize = 10_000;

/// The kind of an entry.
#[derive(Clone, Copy, Debug, PartialEq, Eq, Structural)]
pub enum EntryType {
    Login,
    Note,
}

impl EntryType {
    /// The number that stands for the kind in the payload.
    pub open spec fn code(self) -> u8 {
        match self {
            EntryType::Login => 1,
            EntryType::Note => 2,
        }
    }

    pub fn from_u8(v: u8) -> (r: Result<Self>)
        ensures
            v == 1 ==> r == Ok::<EntryType, Error>(EntryType::Login),
            v == 2 ==> r == Ok::<EntryType, Error>(EntryType::Note),
            v != 1 && v != 2 ==> r == Err::<EntryType, Error>(Error::InvalidFormat("unknown entry type")),
    {
        match v {
            1 => Ok(EntryType::Login),
            2 => Ok(EntryType::Note),
            _ => Err(Error::InvalidFormat("unknown entry type")),
        }
    }

    pub fn to_u8(self) -> (r: u8)
        ensures
            r == self.code(),
    {
        match self {
            EntryType::Login => 1,
            EntryType::Note => 2,
        }
    }

    pub fn label(&self) -> (r: &'static str)
        ensures
            *self == EntryType::Login ==> r@ == "login"@,
            *self == EntryType::Note ==> r@ == "note"@,
    {
        match self {
            EntryType::Login => "login",
            EntryType::Note => "note",
        }
    }
}

#[derive(Clone, Debug)]
pub struct LoginData {
    pub username: String,
    pub password: String,
    pub url: String,
}

#[derive(Clone, Debug)]
pub struct NoteData {
    pub body: String,
}

#[derive(Clone, Debug)]
pub enum EntryBody {
    Login(LoginData),
    Note(NoteData),
}

#[derive(Clone, Debug)]
pub struct Entry {
    pub id: String,
    pub title: String,
    pub tags: Vec<String>,
    pub created_at: i64,
    pub updated_at: i64,
    pub body: EntryBody,
}

/// The decrypted content of a vault.
#[derive(Clone, Debug)]
pub struct Payload {
    pub spec_version: u16,
    pub entries: Vec<Entry>,
}

/// Seconds since the Unix epoch as the system clock gives them: `Ok` with
/// the seconds after the epoch, or `Err` with the seconds before it.
/// Calls `std::time::SystemTime::now` and `SystemTime::duration_since`; the
/// value rests on the clock, so nothing is stated of it.
#[verifier::external_body]
fn system_clock_seconds() -> core::result::Result<u64, u64> {
    match std::time::SystemTime::now().duration_since(std::time::UNIX_EPOCH) {
        Ok(d) => Ok(d.as_secs()),
        Err(e) => Err(e.duration().as_secs()),
    }
}

/// The Unix time of a clock reading: the seconds after the epoch, or the
/// seconds before it negated, each taken as an `i64` by truncation (the
/// most negative value stays as it is rather than overflowing).
pub open spec fn unix_time(reading: core::result::Result<u64, u64>) -> i64 {
    match reading {
        Ok(s) => s as i64,
        Err(s) => if s as i64 == i64::MIN {
            i64::MIN
        } else {
            (-(s as i64)) as i64
        },
    }
}

/// The Unix time of a clock reading, as `unix_time` says.
pub fn unix_seconds(reading: core::result::Result<u64, u64>) -> (r: i64)
    ensures
        r == unix_time(reading),
{
    match reading {
        Ok(s) => s as i64,
        Err(s) => {
            let v = s as i64;
            if v == i64::MIN {
                v
            } else {
                -v
            }
        },
    }
}

/// The current Unix time in seconds, negative before the epoch.
pub fn now_unix() -> (r: i64) {
    unix_seconds(system_clock_seconds())
}

impl Payload {
    pub fn new() -> (r: Self)
        ensures
            r.spec_version == PAYLOAD_SPEC_VERSION,
            r.entries@.len() == 0,
    {
        Payload { spec_version: PAYLOAD_SPEC_VERSION, entries: Vec::new() }
    }
}

impl Default for Payload {
    fn default() -> (r: Self)
        ensures
            r.spec_version == PAYLOAD_SPEC_VERSION,
            r.entries@.len() == 0,
    {
        Self::new()
    }
}

/// The checks that a decoded payload passes: its version is the one this
/// library writes, and it holds no more entries than the limit.
pub fn check_decoded(payload: Payload) -> (r: Result<Payload>)
    ensures
        payload.spec_version != PAYLOAD_SPEC_VERSION ==> r == Err::<Payload, Error>(
            Error::InvalidFormat("unsupported payload spec version"),
        ),
        payload.spec_version == PAYLOAD_SPEC_VERSION && payload.entries@.len() > MAX_ENTRIES ==> r
            == Err::<Payload, Error>(Error::InvalidFormat("too many entries")),
        payload.spec_version == PAYLOAD_SPEC_VERSION && payload.entries@.len() <= MAX_ENTRIES
            && !tags_within_limit(payload.entries@) ==> r == Err::<Payload, Error>(
            Error::InvalidFormat("too many tags"),
        ),
        payload.spec_version == PAYLOAD_SPEC_VERSION && payload.entries@.len() <= MAX_ENTRIES
            && tags_within_limit(payload.entries@) ==> r == Ok::<Payload, Error>(payload),
{
    if payload.spec_version != PAYLOAD_SPEC_VERSION {
        return Err(Error::InvalidFormat("unsupported payload spec version"));
    }
    if payload.entries.len() > MAX_ENTRIES {
        return Err(Error::InvalidFormat("too many entries"));
    }
    let mut i: usize = 0;
    while i < payload.entries.len()
        invariant
            i <= payload.entries@.len(),
            payload.spec_version == PAYLOAD_SPEC_VERSION,
            payload.entries@.len() <= MAX_ENTRIES,
            forall|j: int| 0 <= j < i ==> (#[trigger] payload.entries@[j]).tags@.len() <= MAX_TAGS,
        decreases payload.entries@.len() - i,
    {
        if payload.entries[i].tags.len() > MAX_TAGS {
            return Err(Error::InvalidFormat("too many tags"));
        }
        i += 1;
    }
    Ok(payload)
}

/// Every entry has at most `MAX_TAGS` tags.
pub open spec fn tags_within_limit(entries: Seq<Entry>) -> bool {
    forall|j: int| 0 <= j < entries.len() ==> (#[trigger] entries[j]).tags@.len() <= MAX_TAGS
}

/// Sets the version-4 and variant bits of a random identifier.
pub open spec fn v4_bits(b: Seq<u8>) -> Seq<u8> {
    b.update(6, (b[6] & 0x0F) | 0x40).update(8, (b[8] & 0x3F) | 0x80)
}

/// The text of a 16-byte identifier: lower-case hexadecimal in groups of
/// 8, 4, 4, 4 and 12 digits joined by dashes.
pub open spec fn id_text(b: Seq<u8>) -> Seq<char> {
    hex_byte(b[0]) + hex_byte(b[1]) + hex_byte(b[2]) + hex_byte(b[3]) + seq!['-'] + hex_byte(b[4])
        + hex_byte(b[5]) + seq!['-'] + hex_byte(b[6]) + hex_byte(b[7]) + seq!['-'] + hex_byte(b[8])
        + hex_byte(b[9]) + seq!['-'] + hex_byte(b[10]) + hex_byte(b[11]) + hex_byte(b[12])
        + hex_byte(b[13]) + hex_byte(b[14]) + hex_byte(b[15])
}

/// Formats 16 bytes as an identifier.
pub fn format_id(b: &[u8; 16]) -> (r: String)
    ensures
        r@ == id_text(b@),
{
    let mut s = String::new();
    let mut i: usize = 0;
    while i < 16
        invariant
            i <= 16,
            b@.len() == 16,
            s@ == id_prefix(b@, i as int),
        decreases 16 - i,
    {
        if i == 4 || i == 6 || i == 8 || i == 10 {
            push_char(&mut s, '-');
        }
        push_hex_byte(&mut s, b[i]);
        i += 1;
    }
    proof {
        reveal_with_fuel(id_prefix, 17);
        assert(id_prefix(b@, 16) =~= id_text(b@));
    }
    s
}

/// The text of the first `i` bytes of an identifier, with the dashes that
/// come before them.
spec fn id_prefix(b: Seq<u8>, i: int) -> Seq<char>
    decreases i,
{
    if i <= 0 {
        Seq::empty()
    } else {
        let dash = if i - 1 == 4 || i - 1 == 6 || i - 1 == 8 || i - 1 == 10 {
            seq!['-']
        } else {
            Seq::empty()
        };
        id_prefix(b, i - 1) + dash + hex_byte(b[i - 1])
    }
}

/// The identifier made from 16 random bytes: the version-4 and variant
/// bits set, then formatted.
pub fn id_from_bytes(b: [u8; 16]) -> (r: String)
    ensures
        r@ == id_text(v4_bits(b@)),
{
    let mut b = b;
    let ghost orig = b@;
    b[6] = (b[6] & 0x0F) | 0x40;
    b[8] = (b[8] & 0x3F) | 0x80;
    assert(b@ =~= v4_bits(orig));
    format_id(&b)
}

/// A fresh random identifier in the form of a version-4 UUID: the
/// identifier of 16 bytes drawn from the random source.
pub fn generate_id() -> (r: Result<String>)
    ensures
        r matches Err(e) ==> e == Error::Rng,
        r matches Ok(s) ==> exists|b: Seq<u8>| b.len() == 16 && s@ == id_text(v4_bits(b)),
{
    let b: [u8; 16] = random_array()?;
    Ok(id_from_bytes(b))
}

/// The position of the first entry with identifier `id`.
pub open spec fn first_with_id(entries: Seq<Entry>, id: Seq<char>) -> Option<int> {
    if exists|i: int| 0 <= i < entries.len() && (#[trigger] entries[i]).id@ == id {
        Some(
            choose|i: int|
                0 <= i < entries.len() && (#[trigger] entries[i]).id@ == id && forall|j: int|
                    0 <= j < i ==> (#[trigger] entries[j]).id@ != id,
        )
    } else {
        None
    }
}

/// The entries without those whose identifier is `id`, in order.
pub open spec fn without_id(entries: Seq<Entry>, id: Seq<char>) -> Seq<Entry>
    decreases entries.len(),
{
    if entries.len() == 0 {
        Seq::empty()
    } else {
        let rest = without_id(entries.drop_last(), id);
        if entries.last().id@ == id {
            rest
        } else {
            rest.push(entries.last())
        }
    }
}

/// The positions of the entries that satisfy `p`, in order.
pub open spec fn select(entries: Seq<Entry>, p: spec_fn(Entry) -> bool) -> Seq<usize>
    decreases entries.len(),
{
    if entries.len() == 0 {
        Seq::empty()
    } else {
        let r = select(entries.drop_last(), p);
        if p(entries.last()) {
            r.push((entries.len() - 1) as usize)
        } else {
            r
        }
    }
}

/// The positions that `select` gives are positions of the sequence.
pub(crate) proof fn lemma_select_bounded(entries: Seq<Entry>, p: spec_fn(Entry) -> bool)
    ensures
        forall|i: int| 0 <= i < select(entries, p).len() ==> #[trigger] select(entries, p)[i] < entries.len(),
        select(entries, p).len() <= entries.len(),
    decreases entries.len(),
{
    if entries.len() > 0 {
        lemma_select_bounded(entries.drop_last(), p);
    }
}


/// A position is among those that `select` gives exactly when the entry
/// there satisfies the test; some position is given exactly when some
/// entry satisfies it.
pub(crate) proof fn lemma_select_contains(entries: Seq<Entry>, p: spec_fn(Entry) -> bool)
    requires
        entries.len() <= usize::MAX,
    ensures
        forall|i: usize| i < entries.len() ==> (#[trigger] select(entries, p).contains(i) <==> p(entries[i as int])),
        forall|v: usize| #[trigger] select(entries, p).contains(v) ==> v < entries.len(),
        select(entries, p).len() > 0 <==> exists|j: int| 0 <= j < entries.len() && p(#[trigger] entries[j]),
    decreases entries.len(),
{
    lemma_select_bounded(entries, p);
    let s = select(entries, p);
    if entries.len() > 0 {
        let init = entries.drop_last();
        lemma_select_contains(init, p);
        lemma_select_bounded(init, p);
        let r = select(init, p);
        let last = (entries.len() - 1) as usize;
        if p(entries.last()) {
            assert(s == r.push(last));
        } else {
            assert(s == r);
        }
        assert forall|i: usize| i < entries.len() implies (#[trigger] s.contains(i) <==> p(entries[i as int])) by {
            if i < last {
                assert(init[i as int] == entries[i as int]);
                if s.contains(i) {
                    let k = choose|k: int| 0 <= k < s.len() && s[k] == i;
                    if k < r.len() {
                        assert(r[k] == i);
                        assert(r.contains(i));
                    }
                }
                if r.contains(i) {
                    let k = choose|k: int| 0 <= k < r.len() && r[k] == i;
                    assert(s[k] == i);
                }
            } else {
                assert(i == last);
                assert(entries[i as int] == entries.last());
                if p(entries.last()) {
                    assert(s[r.len() as int] == last);
                } else if s.contains(i) {
                    let k = choose|k: int| 0 <= k < s.len() && s[k] == i;
                    assert(r[k] < init.len());
                }
            }
        }
        if exists|j: int| 0 <= j < entries.len() && p(#[trigger] entries[j]) {
            let j = choose|j: int| 0 <= j < entries.len() && p(#[trigger] entries[j]);
            assert(s.contains(j as usize));
        }
    }
    assert forall|v: usize| #[trigger] s.contains(v) implies v < entries.len() by {
        let k = choose|k: int| 0 <= k < s.len() && s[k] == v;
    }
    if s.len() > 0 {
        let v = s[0];
        assert(s.contains(v));
        assert(p(entries[v as int]));
    }
}

/// The changes that an update asks for; `None` leaves a field as it is.
pub struct EntryUpdate {
    pub title: Option<String>,
    pub username: Option<String>,
    pub password: Option<String>,
    pub url: Option<String>,
    pub body: Option<String>,
    pub tags: Option<Vec<String>>,
}

/// The body after an update: of a login, each of the user name, the
/// password and the URL that is given replaces the old one; of a note, the
/// text if one is given.
pub open spec fn updated_body(b: EntryBody, u: EntryUpdate) -> EntryBody {
    match b {
        EntryBody::Login(l) => EntryBody::Login(
            LoginData {
                username: if u.username is Some {
                    u.username->0
                } else {
                    l.username
                },
                password: if u.password is Some {
                    u.password->0
                } else {
                    l.password
                },
                url: if u.url is Some {
                    u.url->0
                } else {
                    l.url
                },
            },
        ),
        EntryBody::Note(n) => {
            if u.body is Some {
                EntryBody::Note(NoteData { body: u.body->0 })
            } else {
                EntryBody::Note(n)
            }
        },
    }
}

/// The entry after an update made at time `now`: the title and the tags
/// are replaced where given, the body as `updated_body` says, and the time
/// of the last change is `now`.
pub open spec fn updated(e: Entry, u: EntryUpdate, now: i64) -> Entry {
    Entry {
        id: e.id,
        title: if u.title is Some {
            u.title->0
        } else {
            e.title
        },
        tags: if u.tags is Some {
            u.tags->0
        } else {
            e.tags
        },
        created_at: e.created_at,
        updated_at: now,
        body: updated_body(e.body, u),
    }
}

/// Applies `update` to `entry` at time `now`.
pub fn apply_update(entry: Entry, update: EntryUpdate, now: i64) -> (r: Entry)
    ensures
        r == updated(entry, update, now),
        r.id == entry.id,
        r.created_at == entry.created_at,
        r.updated_at == now,
        update.title matches Some(x) ==> r.title == x,
        update.title is None ==> r.title == entry.title,
        update.tags matches Some(x) ==> r.tags == x,
        update.tags is None ==> r.tags == entry.tags,
        entry.body matches EntryBody::Login(l) ==> (r.body matches EntryBody::Login(m) && m.username == (
            match update.username {
                Some(x) => x,
                None => l.username,
            }) && m.password == (
            match update.password {
                Some(x) => x,
                None => l.password,
            }) && m.url == (
            match update.url {
                Some(x) => x,
                None => l.url,
            })),
        entry.body matches EntryBody::Note(n) ==> (r.body matches EntryBody::Note(m) && m.body == (
            match update.body {
                Some(x) => x,
                None => n.body,
            })),
{
    let Entry { id, title, tags, created_at, updated_at: _, body } = entry;
    let EntryUpdate { title: new_title, username, password, url, body: new_body, tags: new_tags } = update;
    let title = match new_title {
        Some(t) => t,
        None => title,
    };
    let tags = match new_tags {
        Some(t) => t,
        None => tags,
    };
    let body = match body {
        EntryBody::Login(l) => {
            let LoginData { username: old_user, password: old_pass, url: old_url } = l;
            let username = match username {
                Some(u) => u,
                None => old_user,
            };
            let password = match password {
                Some(p) => p,
                None => old_pass,
            };
            let url = match url {
                Some(u) => u,
                None => old_url,
            };
            EntryBody::Login(LoginData { username, password, url })
        },
        EntryBody::Note(n) => match new_body {
            Some(b) => EntryBody::Note(NoteData { body: b }),
            None => EntryBody::Note(n),
        },
    };
    Entry { id, title, tags, created_at, updated_at: now, body }
}

/// Some tag holds `q`, ignoring case.
pub open spec fn tag_matches(tags: Seq<String>, q: Seq<char>) -> bool {
    exists|k: int| 0 <= k < tags.len() && contains_seq(lowercased((#[trigger] tags[k])@), lowercased(q))
}

/// The title or a tag holds `q`, ignoring case.
pub open spec fn matches_query(e: Entry, q: Seq<char>) -> bool {
    contains_seq(lowercased(e.title@), lowercased(q)) || tag_matches(e.tags@, q)
}

/// Whether some tag, lower-cased, holds `q`.
fn any_tag_contains(tags: &Vec<String>, q: &str) -> (r: bool)
    ensures
        r == exists|k: int| 0 <= k < tags@.len() && contains_seq(lowercased((#[trigger] tags@[k])@), q@),
{
    let mut k: usize = 0;
    while k < tags.len()
        invariant
            k <= tags@.len(),
            forall|j: int| 0 <= j < k ==> !contains_seq(lowercased((#[trigger] tags@[j])@), q@),
        decreases tags@.len() - k,
    {
        let t = to_lowercase(tags[k].as_str());
        if contains(t.as_str(), q) {
            return true;
        }
        k += 1;
    }
    false
}

impl Payload {
    /// The position of the first entry with identifier `id`, if any.
    pub fn find_entry(&self, id: &str) -> (r: Option<usize>)
        ensures
            match r {
                Some(i) => i < self.entries@.len() && self.entries@[i as int].id@ == id@ && forall|j: int|
                    0 <= j < i ==> (#[trigger] self.entries@[j]).id@ != id@,
                None => forall|j: int| 0 <= j < self.entries@.len() ==> (#[trigger] self.entries@[j]).id@ != id@,
            },
    {
        let mut i: usize = 0;
        while i < self.entries.len()
            invariant
                i <= self.entries@.len(),
                forall|j: int| 0 <= j < i ==> (#[trigger] self.entries@[j]).id@ != id@,
            decreases self.entries@.len() - i,
        {
            if str_eq(self.entries[i].id.as_str(), id) {
                return Some(i);
            }
            i += 1;
        }
        None
    }

    /// The first entry with identifier `id`, if any.
    pub fn get_entry(&self, id: &str) -> (r: Option<&Entry>)
        ensures
            match r {
                Some(e) => exists|i: int|
                    0 <= i < self.entries@.len() && self.entries@[i] == *e && e.id@ == id@ && forall|j: int|
                        0 <= j < i ==> (#[trigger] self.entries@[j]).id@ != id@,
                None => forall|j: int| 0 <= j < self.entries@.len() ==> (#[trigger] self.entries@[j]).id@ != id@,
            },
    {
        match self.find_entry(id) {
            Some(i) => Some(&self.entries[i]),
            None => None,
        }
    }

    /// Adds an entry at the end, within the limits on entries and tags.
    pub fn add_entry(&mut self, entry: Entry) -> (r: Result<()>)
        ensures
            old(self).entries@.len() >= MAX_ENTRIES ==> r == Err::<(), Error>(Error::InvalidFormat("too many entries"))
                && final(self).entries@ == old(self).entries@,
            old(self).entries@.len() < MAX_ENTRIES && entry.tags@.len() > MAX_TAGS ==> r == Err::<(), Error>(
                Error::InvalidFormat("too many tags"),
            ) && final(self).entries@ == old(self).entries@,
            old(self).entries@.len() < MAX_ENTRIES && entry.tags@.len() <= MAX_TAGS ==> r == Ok::<(), Error>(())
                && final(self).entries@ == old(self).entries@.push(entry),
            final(self).spec_version == old(self).spec_version,
    {
        if self.entries.len() >= MAX_ENTRIES {
            return Err(Error::InvalidFormat("too many entries"));
        }
        if entry.tags.len() > MAX_TAGS {
            return Err(Error::InvalidFormat("too many tags"));
        }
        self.entries.push(entry);
        Ok(())
    }

    /// Removes the entries with identifier `id`; says whether any was there.
    pub fn delete_entry(&mut self, id: &str) -> (r: bool)
        ensures
            final(self).entries@ == without_id(old(self).entries@, id@),
            r == exists|j: int| 0 <= j < old(self).entries@.len() && (#[trigger] old(self).entries@[j]).id@ == id@,
            final(self).spec_version == old(self).spec_version,
    {
        let ghost all = self.entries@;
        let mut removed = false;
        let mut i: usize = 0;
        let ghost mut k: int = 0;
        while i < self.entries.len()
            invariant
                0 <= k <= all.len(),
                i <= self.entries@.len(),
                self.entries@ == without_id(all.subrange(0, k), id@) + all.subrange(k, all.len() as int),
                i == without_id(all.subrange(0, k), id@).len(),
                removed == exists|j: int| 0 <= j < k && (#[trigger] all[j]).id@ == id@,
                self.spec_version == old(self).spec_version,
            decreases self.entries@.len() - i,
        {
            assert(self.entries@[i as int] == all[k]);
            assert(all.subrange(0, k + 1).drop_last() =~= all.subrange(0, k));
            assert(all.subrange(0, k + 1).last() == all[k]);
            if str_eq(self.entries[i].id.as_str(), id) {
                self.entries.remove(i);
                removed = true;
                proof {
                    assert(self.entries@ =~= without_id(all.subrange(0, k + 1), id@) + all.subrange(k + 1, all.len() as int));
                    k = k + 1;
                }
            } else {
                proof {
                    assert(self.entries@ =~= without_id(all.subrange(0, k + 1), id@) + all.subrange(k + 1, all.len() as int));
                    k = k + 1;
                }
                i += 1;
            }
        }
        assert(k == all.len()) by {
            assert(self.entries@.len() == i + all.len() - k);
        }
        assert(all.subrange(0, k) =~= all);
        assert(self.entries@ =~= without_id(all, id@));
        removed
    }

    /// Applies `update` at time `now` to the first entry with identifier
    /// `id`; fails when there is none.
    pub fn update_entry(&mut self, id: &str, update: EntryUpdate, now: i64) -> (r: Result<()>)
        ensures
            match first_with_id(old(self).entries@, id@) {
                None => r == Err::<(), Error>(Error::InvalidFormat("no matching entry")) && final(self).entries@
                    == old(self).entries@,
                Some(i) => r == Ok::<(), Error>(()) && final(self).entries@ == old(self).entries@.update(
                    i,
                    updated(old(self).entries@[i], update, now),
                ),
            },
            final(self).spec_version == old(self).spec_version,
    {
        match self.find_entry(id) {
            None => {
                proof { lemma_first_with_id_none(self.entries@, id@); }
                Err(Error::InvalidFormat("no matching entry"))
            },
            Some(i) => {
                proof { lemma_first_with_id_some(self.entries@, id@, i as int); }
                let ghost before = self.entries@;
                let e = self.entries.remove(i);
                let n = apply_update(e, update, now);
                self.entries.insert(i, n);
                assert(self.entries@ =~= before.update(i as int, updated(before[i as int], update, now)));
                Ok(())
            },
        }
    }

    /// The positions of the entries whose title or a tag holds `query`,
    /// ignoring case, in order.
    pub fn search(&self, query: &str) -> (r: Vec<usize>)
        ensures
            r@ == select(self.entries@, |e: Entry| matches_query(e, query@)),
            forall|i: usize|
                i < self.entries@.len() ==> (#[trigger] r@.contains(i) <==> (contains_seq(
                    lowercased(self.entries@[i as int].title@),
                    lowercased(query@),
                ) || exists|k: int|
                    0 <= k < self.entries@[i as int].tags@.len() && contains_seq(
                        lowercased((#[trigger] self.entries@[i as int].tags@[k])@),
                        lowercased(query@),
                    ))),
            forall|v: usize| #[trigger] r@.contains(v) ==> v < self.entries@.len(),
    {
        let q = to_lowercase(query);
        let ghost p = |e: Entry| matches_query(e, query@);
        let mut out: Vec<usize> = Vec::new();
        let mut i: usize = 0;
        while i < self.entries.len()
            invariant
                i <= self.entries@.len(),
                q@ == lowercased(query@),
                p == (|e: Entry| matches_query(e, query@)),
                out@ == select(self.entries@.take(i as int), p),
            decreases self.entries@.len() - i,
        {
            let e = &self.entries[i];
            let t = to_lowercase(e.title.as_str());
            let hit = contains(t.as_str(), q.as_str()) || any_tag_contains(&e.tags, q.as_str());
            assert(self.entries@.take(i + 1).drop_last() =~= self.entries@.take(i as int));
            assert(self.entries@.take(i + 1).last() == *e);
            assert(hit == p(*e));
            if hit {
                out.push(i);
            }
            i += 1;
        }
        assert(self.entries@.take(i as int) =~= self.entries@);
        proof { lemma_select_contains(self.entries@, p); }
        out
    }
}


proof fn lemma_first_with_id_none(entries: Seq<Entry>, id: Seq<char>)
    requires
        forall|j: int| 0 <= j < entries.len() ==> (#[trigger] entries[j]).id@ != id,
    ensures
        first_with_id(entries, id) == None::<int>,
{
}

proof fn lemma_first_with_id_some(entries: Seq<Entry>, id: Seq<char>, i: int)
    requires
        0 <= i < entries.len(),
        entries[i].id@ == id,
        forall|j: int| 0 <= j < i ==> (#[trigger] entries[j]).id@ != id,
    ensures
        first_with_id(entries, id) == Some(i),
{
    let c = choose|c: int|
        0 <= c < entries.len() && (#[trigger] entries[c]).id@ == id && forall|j: int|
            0 <= j < c ==> (#[trigger] entries[j]).id@ != id;
    assert(entries[i].id@ == id);
    if c < i {
        assert(entries[c].id@ != id);
    } else if c > i {
        assert(entries[i].id@ != id);
    }
}


/// After a delete no entry has the deleted identifier, and every entry with
/// another identifier is still there.
pub proof fn lemma_delete_removes_only_id(entries: Seq<Entry>, id: Seq<char>)
    ensures
        forall|j: int| 0 <= j < without_id(entries, id).len() ==> (#[trigger] without_id(entries, id)[j]).id@ != id,
        forall|j: int|
            0 <= j < entries.len() && (#[trigger] entries[j]).id@ != id ==> without_id(entries, id).contains(entries[j]),
    decreases entries.len(),
{
    if entries.len() > 0 {
        let init = entries.drop_last();
        lemma_delete_removes_only_id(init, id);
        let r = without_id(init, id);
        assert forall|j: int|
            0 <= j < entries.len() && (#[trigger] entries[j]).id@ != id implies without_id(entries, id).contains(
            entries[j],
        ) by {
            if j < entries.len() - 1 {
                assert(init[j] == entries[j]);
                let k = choose|k: int| 0 <= k < r.len() && r[k] == init[j];
                assert(without_id(entries, id)[k] == entries[j]);
            } else {
                assert(without_id(entries, id)[r.len() as int] == entries[j]);
            }
        }
    }
}

/// An entry added under an identifier that no entry has yet is the one
/// that a lookup of that identifier finds.
pub proof fn lemma_added_entry_found(entries: Seq<Entry>, e: Entry)
    requires
        forall|j: int| 0 <= j < entries.len() ==> (#[trigger] entries[j]).id@ != e.id@,
    ensures
        first_with_id(entries.push(e), e.id@) == Some(entries.len() as int),
{
    let s = entries.push(e);
    assert forall|j: int| 0 <= j < entries.len() implies (#[trigger] s[j]).id@ != e.id@ by {
        assert(s[j] == entries[j]);
    }
    lemma_first_with_id_some(s, e.id@, entries.len() as int);
}

/// An update keeps the entry's identifier and the time it was made.
pub proof fn lemma_update_keeps_identity(e: Entry, u: EntryUpdate, now: i64)
    ensures
        updated(e, u, now).id == e.id,
        updated(e, u, now).created_at == e.created_at,
        updated(e, u, now).updated_at == now,
{
}
/// What an update does to an entry: the identifier and the time it was
/// made stay, the time of the last change is `now`, the title and the tags
/// that are given replace the old ones whatever the kind of entry, and of
/// the body each given field of its kind replaces the old one.
pub proof fn lemma_update_replaces_given_fields(entry: Entry, update: EntryUpdate, now: i64)
    ensures
        ({
            let r = updated(entry, update, now);
            &&& r.id == entry.id
            &&& r.created_at == entry.created_at
            &&& r.updated_at == now
            &&& update.title matches Some(x) ==> r.title == x
            &&& update.title is None ==> r.title == entry.title
            &&& update.tags matches Some(x) ==> r.tags == x
            &&& update.tags is None ==> r.tags == entry.tags
            &&& entry.body matches EntryBody::Login(l) ==> (r.body matches EntryBody::Login(m) && m.username == (
                match update.username {
                    Some(x) => x,
                    None => l.username,
                }) && m.password == (
                match update.password {
                    Some(x) => x,
                    None => l.password,
                }) && m.url == (
                match update.url {
                    Some(x) => x,
                    None => l.url,
                }))
            &&& entry.body matches EntryBody::Note(n) ==> (r.body matches EntryBody::Note(m) && m.body == (
                match update.body {
                    Some(x) => x,
                    None => n.body,
                }))
        }),
{
}

/// The positions that a search for `q` gives.
pub open spec fn search_results(entries: Seq<Entry>, q: Seq<char>) -> Seq<usize> {
    select(entries, |e: Entry| matches_query(e, q))
}

/// Search ignores case: an entry is found exactly when its title, or one
/// of its tags, lower-cased, holds the lower-cased query.
pub proof fn lemma_search_members(entries: Seq<Entry>, q: Seq<char>)
    requires
        entries.len() <= usize::MAX,
    ensures
        forall|i: usize|
            i < entries.len() ==> (#[trigger] search_results(entries, q).contains(i) <==> (
            contains_seq(lowercased(entries[i as int].title@), lowercased(q)) || exists|k: int|
                0 <= k < entries[i as int].tags@.len() && contains_seq(
                    lowercased((#[trigger] entries[i as int].tags@[k])@),
                    lowercased(q),
                ))),
{
    lemma_select_contains(entries, |e: Entry| matches_query(e, q));
}

} // verus!
