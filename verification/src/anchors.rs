//! Anchors: user-defined nicknames for dates, and the resolution of a token
//! to a date.

use vstd::prelude::*;
use crate::calendar::{as_ymd, iso_date_parse, Date, Ymd};
use crate::span::{can_measure, can_span, is_span_between, span_between, span_model, Span};
use crate::text::{
    compare_text, lemma_text_lt_asymmetric, lemma_text_lt_irreflexive, lemma_text_lt_transitive,
    text_lt, trim, trim_text,
};

verus! {

/// Errors the store and the resolver can produce. Outside failures carry the
/// text their source gave.
#[derive(Debug)]
pub enum Error {
    /// Filesystem trouble reading or writing the anchors file.
    Io(String),
    /// The anchors file exists but is not valid JSON of the expected shape.
    Json(String),
    /// The platform gave no config directory to put anchors in.
    NoConfigDir,
    /// A token was neither an ISO date nor a known anchor nickname.
    UnknownToken(String),
}

pub open spec fn error_text(e: Error) -> Seq<char> {
    match e {
        Error::Io(m) => "anchors file i/o error: "@ + m@,
        Error::Json(m) => "anchors file is not valid JSON: "@ + m@,
        Error::NoConfigDir => "could not determine a config directory"@,
        Error::UnknownToken(t) => "unknown date or anchor: "@ + t@,
    }
}

impl Error {
    /// The human-readable message of the error.
    pub fn message(&self) -> (r: String)
        ensures
            r@ == error_text(*self),
    {
        match self {
            Error::Io(m) => {
                let mut s = String::from_str("anchors file i/o error: ");
                s.append(m.as_str());
                s
            },
            Error::Json(m) => {
                let mut s = String::from_str("anchors file is not valid JSON: ");
                s.append(m.as_str());
                s
            },
            Error::NoConfigDir => String::from_str("could not determine a config directory"),
            Error::UnknownToken(t) => {
                let mut s = String::from_str("unknown date or anchor: ");
                s.append(t.as_str());
                s
            },
        }
    }
}

/// What `str::to_lowercase` yields for a text (the Unicode `Lowercase`
/// mapping, applied character by character with its context rules).
pub uninterp spec fn unicode_lowercase(text: Seq<char>) -> Seq<char>;

/// Trusted: `str::to_lowercase`; its result is named by `unicode_lowercase`.
#[verifier::external_body]
fn to_lowercase(s: &str) -> (r: String)
    ensures
        r@ == unicode_lowercase(s@),
{
    s.to_lowercase()
}

/// The key a nickname is stored under: trimmed, then lowercased.
pub open spec fn nickname_key(name: Seq<char>) -> Seq<char> {
    unicode_lowercase(trim_text(name))
}

/// Normalizes a nickname so lookups are case-insensitive and
/// whitespace-tolerant: "  Covid " and "covid" are the same anchor.
pub fn normalize(name: &str) -> (r: String)
    ensures
        r@ == nickname_key(name@),
{
    to_lowercase(trim(name))
}

/// A flat nickname -> date map, kept in ascending nickname order.
#[derive(Debug)]
pub struct AnchorStore {
    entries: Vec<(String, Date)>,
}

/// Entries strictly ascending by nickname.
pub open spec fn is_strictly_sorted(listing: Seq<(Seq<char>, Ymd)>) -> bool {
    forall|i: int, j: int|
        0 <= i < j < listing.len() ==> text_lt(#[trigger] listing[i].0, #[trigger] listing[j].0)
}

/// `listing` holds exactly the anchors of `m`, in ascending nickname order.
pub open spec fn is_listing_of(listing: Seq<(Seq<char>, Ymd)>, m: Map<Seq<char>, Ymd>) -> bool {
    &&& is_strictly_sorted(listing)
    &&& forall|i: int|
        0 <= i < listing.len() ==> m.contains_key(#[trigger] listing[i].0) && m[listing[i].0]
            == listing[i].1
    &&& forall|k: Seq<char>|
        m.contains_key(k) ==> exists|i: int| 0 <= i < listing.len() && #[trigger] listing[i].0 == k
}

pub open spec fn entries_listing(entries: Seq<(String, Date)>) -> Seq<(Seq<char>, Ymd)> {
    entries.map_values(|e: (String, Date)| (e.0@, e.1@))
}

impl AnchorStore {
    #[verifier::type_invariant]
    spec fn sorted(self) -> bool {
        is_strictly_sorted(self.listing())
    }

    /// The anchors with their nicknames, in ascending nickname order.
    pub closed spec fn listing(&self) -> Seq<(Seq<char>, Ymd)> {
        entries_listing(self.entries@)
    }

    spec fn has_at(&self, k: Seq<char>, i: int) -> bool {
        0 <= i < self.listing().len() && self.listing()[i].0 == k
    }

    proof fn lemma_index_unique(&self, i: int, j: int)
        requires
            is_strictly_sorted(self.listing()),
            0 <= i < self.listing().len(),
            0 <= j < self.listing().len(),
            self.listing()[i].0 == self.listing()[j].0,
        ensures
            i == j,
    {
        if i < j {
            lemma_text_lt_irreflexive(self.listing()[i].0);
        } else if j < i {
            lemma_text_lt_irreflexive(self.listing()[i].0);
        }
    }

    proof fn lemma_view_at(&self, i: int)
        requires
            is_strictly_sorted(self.listing()),
            0 <= i < self.listing().len(),
        ensures
            self@.contains_key(self.listing()[i].0),
            self@[self.listing()[i].0] == self.listing()[i].1,
    {
        let k = self.listing()[i].0;
        assert(self.has_at(k, i));
        let j = choose|j: int| self.has_at(k, j);
        self.lemma_index_unique(i, j);
    }

    proof fn lemma_is_listing(&self)
        requires
            is_strictly_sorted(self.listing()),
        ensures
            is_listing_of(self.listing(), self@),
    {
        assert forall|i: int| 0 <= i < self.listing().len() implies self@.contains_key(
            #[trigger] self.listing()[i].0,
        ) && self@[self.listing()[i].0] == self.listing()[i].1 by {
            self.lemma_view_at(i);
        }
        assert forall|k: Seq<char>| self@.contains_key(k) implies exists|i: int|
            0 <= i < self.listing().len() && #[trigger] self.listing()[i].0 == k by {
            let i = choose|i: int| self.has_at(k, i);
            assert(self.listing()[i].0 == k);
        }
    }

    /// An empty store: a brand-new user has added nothing yet.
    pub fn new() -> (r: AnchorStore)
        ensures
            r@ == Map::<Seq<char>, Ymd>::empty(),
    {
        let r = AnchorStore { entries: Vec::new() };
        assert(r@ =~= Map::<Seq<char>, Ymd>::empty());
        r
    }

    /// Where `key` is, or where it would go: `(true, i)` when entry `i` holds
    /// it, `(false, i)` when every entry before `i` sorts before it and every
    /// entry from `i` on sorts after it.
    fn position(&self, key: &str) -> (r: (bool, usize))
        ensures
            r.1 <= self.listing().len(),
            r.0 ==> r.1 < self.listing().len() && self.listing()[r.1 as int].0 == key@,
            !r.0 ==> forall|i: int|
                0 <= i < self.listing().len() ==> (i < r.1 <==> text_lt(
                    #[trigger] self.listing()[i].0,
                    key@,
                )) && (i >= r.1 ==> text_lt(key@, self.listing()[i].0)),
    {
        proof { use_type_invariant(self); }
        let n = self.entries.len();
        let mut i: usize = 0;
        while i < n
            invariant
                n == self.entries@.len(),
                n == self.listing().len(),
                i <= n,
                is_strictly_sorted(self.listing()),
                forall|j: int| 0 <= j < i ==> text_lt(#[trigger] self.listing()[j].0, key@),
            decreases n - i,
        {
            let c = compare_text(self.entries[i].0.as_str(), key);
            assert(self.listing()[i as int].0 == self.entries@[i as int].0@);
            if c == 0 {
                return (true, i);
            }
            if c > 0 {
                proof {
                    assert forall|j: int| 0 <= j < n implies (j < i <==> text_lt(
                        #[trigger] self.listing()[j].0,
                        key@,
                    )) && (j >= i ==> text_lt(key@, self.listing()[j].0)) by {
                        if j > i {
                            lemma_text_lt_transitive(key@, self.listing()[i as int].0, self.listing()[j].0);
                        }
                        if j >= i {
                            lemma_text_lt_asymmetric(key@, self.listing()[j].0);
                        }
                    }
                }
                return (false, i);
            }
            i = i + 1;
        }
        (false, n)
    }

    /// Stores `date` under `key` exactly as given, replacing what was there.
    fn insert_exact(&mut self, key: String, date: Date)
        ensures
            final(self)@ == old(self)@.insert(key@, date@),
    {
        proof { use_type_invariant(&*self); }
        let ghost before = self.listing();
        let ghost k = key@;
        let (found, pos) = self.position(key.as_str());
        let mut entries: Vec<(String, Date)> = Vec::new();
        std::mem::swap(&mut entries, &mut self.entries);
        if found {
            entries.set(pos, (key, date));
            proof {
                assert(entries_listing(entries@) =~= before.update(pos as int, (k, date@)));
            }
        } else {
            proof {
                let after = before.insert(pos as int, (k, date@));
                assert forall|i: int, j: int| 0 <= i < j < after.len() implies text_lt(
                    #[trigger] after[i].0,
                    #[trigger] after[j].0,
                ) by {
                    if i < pos && j > pos {
                        lemma_text_lt_transitive(after[i].0, k, after[j].0);
                    }
                }
            }
            entries.insert(pos, (key, date));
            assert(entries_listing(entries@) =~= before.insert(pos as int, (k, date@)));
        }
        self.entries = entries;
        proof {
            let after = self.listing();
            assert forall|q: Seq<char>| #[trigger] self@.contains_key(q) == old(self)@.insert(
                k,
                date@,
            ).contains_key(q) && (self@.contains_key(q) ==> self@[q] == old(self)@.insert(
                k,
                date@,
            )[q]) by {
                if q == k {
                    self.lemma_view_at(pos as int);
                } else {
                    if old(self)@.contains_key(q) {
                        let i = choose|i: int| old(self).has_at(q, i);
                        old(self).lemma_view_at(i);
                        let i2 = if !found && i >= pos { i + 1 } else { i };
                        assert(after[i2].0 == q);
                        self.lemma_view_at(i2);
                    }
                    if self@.contains_key(q) {
                        let i = choose|i: int| self.has_at(q, i);
                        self.lemma_view_at(i);
                        let i0 = if !found && i > pos { i - 1 } else { i };
                        assert(before[i0].0 == q);
                        old(self).lemma_view_at(i0);
                    }
                }
            }
            assert(self@ =~= old(self)@.insert(k, date@));
        }
    }

    /// Adds (or overwrites) an anchor; the nickname is normalized first.
    pub fn add(&mut self, name: &str, date: Date)
        ensures
            final(self)@ == old(self)@.insert(nickname_key(name@), date@),
    {
        let key = normalize(name);
        self.insert_exact(key, date);
    }

    /// Removes an anchor by nickname; returns its date if one was removed.
    pub fn remove(&mut self, name: &str) -> (r: Option<Date>)
        ensures
            final(self)@ == old(self)@.remove(nickname_key(name@)),
            r is Some <==> old(self)@.contains_key(nickname_key(name@)),
            r matches Some(d) ==> d@ == old(self)@[nickname_key(name@)],
    {
        proof { use_type_invariant(&*self); }
        let key = normalize(name);
        let ghost k = key@;
        let ghost before = self.listing();
        let (found, pos) = self.position(key.as_str());
        if found {
            proof { old(self).lemma_view_at(pos as int); }
            let mut entries: Vec<(String, Date)> = Vec::new();
            std::mem::swap(&mut entries, &mut self.entries);
            let (_, date) = entries.remove(pos);
            assert(entries_listing(entries@) =~= before.remove(pos as int));
            self.entries = entries;
            proof {
                let after = self.listing();
                assert forall|q: Seq<char>| #[trigger] self@.contains_key(q)
                    == old(self)@.remove(k).contains_key(q) && (self@.contains_key(q)
                    ==> self@[q] == old(self)@[q]) by {
                    if self@.contains_key(q) {
                        let i = choose|i: int| self.has_at(q, i);
                        self.lemma_view_at(i);
                        let i0 = if i >= pos { i + 1 } else { i };
                        assert(before[i0].0 == q);
                        old(self).lemma_view_at(i0);
                        if q == k {
                            old(self).lemma_index_unique(i0, pos as int);
                        }
                    }
                    if q != k && old(self)@.contains_key(q) {
                        let i = choose|i: int| old(self).has_at(q, i);
                        old(self).lemma_view_at(i);
                        assert(i != pos);
                        let i2 = if i > pos { i - 1 } else { i };
                        assert(after[i2].0 == q);
                        self.lemma_view_at(i2);
                    }
                }
                assert(self@ =~= old(self)@.remove(k));
            }
            Some(date)
        } else {
            proof {
                if old(self)@.contains_key(k) {
                    let i = choose|i: int| old(self).has_at(k, i);
                    lemma_text_lt_irreflexive(k);
                }
                assert(self@ =~= old(self)@.remove(k));
            }
            None
        }
    }

    /// Looks up a nickname (normalized first).
    pub fn get(&self, name: &str) -> (r: Option<Date>)
        ensures
            r is Some <==> self@.contains_key(nickname_key(name@)),
            r matches Some(d) ==> d@ == self@[nickname_key(name@)],
    {
        proof { use_type_invariant(self); }
        let key = normalize(name);
        let (found, pos) = self.position(key.as_str());
        if found {
            proof { self.lemma_view_at(pos as int); }
            Some(self.entries[pos].1)
        } else {
            proof {
                if self@.contains_key(key@) {
                    let i = choose|i: int| self.has_at(key@, i);
                    lemma_text_lt_irreflexive(key@);
                }
            }
            None
        }
    }

    /// The full nickname -> date map, in ascending nickname order.
    pub fn list(&self) -> (r: &Vec<(String, Date)>)
        ensures
            entries_listing(r@) == self.listing(),
            is_listing_of(self.listing(), self@),
    {
        proof {
            use_type_invariant(self);
            self.lemma_is_listing();
        }
        &self.entries
    }

    /// Whether the store holds no anchor.
    pub fn is_empty(&self) -> (r: bool)
        ensures
            r == (self@ == Map::<Seq<char>, Ymd>::empty()),
    {
        proof {
            if self.entries.len() > 0 {
                use_type_invariant(self);
                self.lemma_view_at(0);
            }
            assert(self.entries.len() == 0 ==> self@ =~= Map::<Seq<char>, Ymd>::empty());
        }
        self.entries.len() == 0
    }
}

impl Clone for AnchorStore {
    fn clone(&self) -> (r: Self)
        ensures
            r@ == self@,
            r.listing() == self.listing(),
    {
        proof { use_type_invariant(self); }
        let mut entries: Vec<(String, Date)> = Vec::new();
        let mut i: usize = 0;
        while i < self.entries.len()
            invariant
                i <= self.entries.len(),
                is_strictly_sorted(self.listing()),
                entries_listing(entries@) == self.listing().take(i as int),
            decreases self.entries.len() - i,
        {
            let key = self.entries[i].0.clone();
            let date = self.entries[i].1;
            let ghost before = entries@;
            entries.push((key, date));
            proof {
                assert(entries_listing(entries@) =~= entries_listing(before).push((key@, date@)));
                assert(self.listing()[i as int] == (key@, date@));
                assert(self.listing().take(i + 1) =~= self.listing().take(i as int).push(
                    self.listing()[i as int],
                ));
            }
            i = i + 1;
        }
        assert(self.listing().take(self.entries.len() as int) =~= self.listing());
        let r = AnchorStore { entries };
        proof {
            assert(r.listing() == self.listing());
            assert forall|k: Seq<char>| #[trigger] r@.contains_key(k) == self@.contains_key(k) && (
            r@.contains_key(k) ==> r@[k] == self@[k]) by {
                if r@.contains_key(k) {
                    let i = choose|i: int| r.has_at(k, i);
                    r.lemma_view_at(i);
                    self.lemma_view_at(i);
                }
                if self@.contains_key(k) {
                    let i = choose|i: int| self.has_at(k, i);
                    r.lemma_view_at(i);
                    self.lemma_view_at(i);
                }
            }
            assert(r@ =~= self@);
        }
        r
    }
}

impl Default for AnchorStore {
    fn default() -> (r: Self)
        ensures
            r@ == Map::<Seq<char>, Ymd>::empty(),
    {
        AnchorStore::new()
    }
}

impl View for AnchorStore {
    type V = Map<Seq<char>, Ymd>;

    closed spec fn view(&self) -> Map<Seq<char>, Ymd> {
        Map::new(
            |k: Seq<char>| exists|i: int| self.has_at(k, i),
            |k: Seq<char>| self.listing()[choose|i: int| self.has_at(k, i)].1,
        )
    }
}


/// The anchor a token names: its trimmed text, normalized, looked up.
pub open spec fn anchor_date(store: Map<Seq<char>, Ymd>, token: Seq<char>) -> Option<Ymd> {
    let k = nickname_key(trim_text(token));
    if store.contains_key(k) {
        Some(store[k])
    } else {
        None
    }
}

/// What a token resolves to, given what reading its trimmed text as an ISO
/// date gave: the ISO date first, then the anchor.
pub open spec fn resolution(iso: Option<Ymd>, token: Seq<char>, store: Map<Seq<char>, Ymd>) -> Option<Ymd> {
    match iso {
        Some(d) => Some(d),
        None => anchor_date(store, token),
    }
}

/// The date, if any, that chrono reads from the trimmed token.
pub open spec fn iso_reading(token: Seq<char>) -> Option<Ymd> {
    match iso_date_parse(trim_text(token)) {
        Some(t) => Some(as_ymd(t)),
        None => None,
    }
}

/// What `resolve_token(token, store)` resolves to.
pub open spec fn token_date(token: Seq<char>, store: Map<Seq<char>, Ymd>) -> Option<Ymd> {
    resolution(iso_reading(token), token, store)
}

pub open spec fn date_view(d: Option<Date>) -> Option<Ymd> {
    match d {
        Some(x) => Some(x@),
        None => None,
    }
}

/// `r` is the outcome of resolving `token` to `expected`: that date, or an
/// unknown-token error that carries the token as given.
pub open spec fn is_resolution_of(r: Result<Date, Error>, expected: Option<Ymd>, token: Seq<char>) -> bool {
    match r {
        Ok(d) => expected == Some(d@),
        Err(e) => expected is None && (e matches Error::UnknownToken(t) && t@ == token),
    }
}

/// Finishes resolving a token once its trimmed text has been read as an
/// ISO date (`iso`): the ISO date wins, else the anchor, else an
/// unknown-token error.
pub fn resolve_parsed(token: &str, iso: Option<Date>, store: &AnchorStore) -> (r: Result<
    Date,
    Error,
>)
    ensures
        is_resolution_of(r, resolution(date_view(iso), token@, store@), token@),
{
    if let Some(date) = iso {
        return Ok(date);
    }
    let t = trim(token);
    if let Some(date) = store.get(t) {
        return Ok(date);
    }
    Err(Error::UnknownToken(String::from_str(token)))
}

/// Resolves a token to a concrete date: an ISO date (`YYYY-MM-DD`) first,
/// then an anchor nickname, then an unknown-token error. A literal date
/// always wins, even over an anchor named like it.
pub fn resolve_token(token: &str, store: &AnchorStore) -> (r: Result<Date, Error>)
    ensures
        is_resolution_of(r, token_date(token@, store@), token@),
{
    let t = trim(token);
    let iso = Date::parse_iso(t);
    resolve_parsed(token, iso, store)
}

/// `r` is the outcome of measuring `token` against `now`.
pub open spec fn is_measurement(
    r: Result<(Date, Span), Error>,
    token: Seq<char>,
    store: Map<Seq<char>, Ymd>,
    now: Ymd,
) -> bool {
    match r {
        Ok((d, s)) => token_date(token, store) == Some(d@) && is_span_between(d@, now, s) && s@
            == span_model(d@, now),
        Err(e) => token_date(token, store) is None && (e matches Error::UnknownToken(t) && t@
            == token),
    }
}

/// Whether measuring `token` against `now` stays within what can be measured.
pub open spec fn measurable(token: Seq<char>, store: Map<Seq<char>, Ymd>, now: Ymd) -> bool {
    token_date(token, store) matches Some(d) ==> can_span(d, now)
}

/// Resolves a token and measures it against `now` in one step; returns the
/// resolved date alongside its span.
pub fn measure(token: &str, store: &AnchorStore, now: Date) -> (r: Result<(Date, Span), Error>)
    requires
        measurable(token@, store@, now@),
    ensures
        is_measurement(r, token@, store@, now@),
{
    let date = resolve_token(token, store)?;
    Ok((date, span_between(date, now)))
}

/// Whether `token` resolves to a date that can be measured against `now`
/// (or to no date at all).
pub fn token_measurable(token: &str, store: &AnchorStore, now: Date) -> (r: bool)
    ensures
        r == measurable(token@, store@, now@),
{
    match resolve_token(token, store) {
        Ok(date) => can_measure(&date, &now),
        Err(_) => true,
    }
}

/// `measure`, or `None` when the resolved date cannot be measured against
/// `now` (its span would need the month after the last one supported).
pub fn try_measure(token: &str, store: &AnchorStore, now: Date) -> (r: Option<
    Result<(Date, Span), Error>,
>)
    ensures
        r is None <==> !measurable(token@, store@, now@),
        r matches Some(m) ==> is_measurement(m, token@, store@, now@),
{
    if token_measurable(token, store, now) {
        Some(measure(token, store, now))
    } else {
        None
    }
}


/// A listing of a map's anchors in ascending nickname order is unique: the
/// map determines the order and content of what `list` returns.
pub proof fn law_listing_unique(l1: Seq<(Seq<char>, Ymd)>, l2: Seq<(Seq<char>, Ymd)>, m: Map<Seq<char>, Ymd>)
    requires
        is_listing_of(l1, m),
        is_listing_of(l2, m),
    ensures
        l1 == l2,
    decreases l1.len(),
{
    if l1.len() == 0 {
        if l2.len() > 0 {
            assert(m.contains_key(l2[0].0));
        }
        assert(l1 =~= l2);
    } else {
        if l2.len() == 0 {
            assert(m.contains_key(l1[0].0));
        }
        let k = l1[0].0;
        assert(m.contains_key(k));
        let j = choose|j: int| 0 <= j < l2.len() && #[trigger] l2[j].0 == k;
        assert(m.contains_key(l2[0].0));
        let i = choose|i: int| 0 <= i < l1.len() && #[trigger] l1[i].0 == l2[0].0;
        if j > 0 {
            assert(text_lt(l2[0].0, l2[j].0));
            if i > 0 {
                assert(text_lt(l1[0].0, l1[i].0));
                lemma_text_lt_asymmetric(k, l2[0].0);
            } else {
                lemma_text_lt_irreflexive(k);
            }
        }
        assert(j == 0);
        let rest = m.remove(k);
        let t1 = l1.drop_first();
        let t2 = l2.drop_first();
        assert forall|a: int| 0 <= a < t1.len() implies rest.contains_key(#[trigger] t1[a].0)
            && rest[t1[a].0] == t1[a].1 by {
            assert(t1[a] == l1[a + 1]);
            assert(text_lt(l1[0].0, l1[a + 1].0));
            lemma_text_lt_irreflexive(k);
        }
        assert forall|a: int| 0 <= a < t2.len() implies rest.contains_key(#[trigger] t2[a].0)
            && rest[t2[a].0] == t2[a].1 by {
            assert(t2[a] == l2[a + 1]);
            assert(text_lt(l2[0].0, l2[a + 1].0));
            lemma_text_lt_irreflexive(k);
        }
        assert forall|q: Seq<char>| rest.contains_key(q) implies exists|a: int|
            0 <= a < t1.len() && #[trigger] t1[a].0 == q by {
            let a = choose|a: int| 0 <= a < l1.len() && #[trigger] l1[a].0 == q;
            assert(a > 0);
            assert(t1[a - 1].0 == q);
        }
        assert forall|q: Seq<char>| rest.contains_key(q) implies exists|a: int|
            0 <= a < t2.len() && #[trigger] t2[a].0 == q by {
            let a = choose|a: int| 0 <= a < l2.len() && #[trigger] l2[a].0 == q;
            assert(a > 0);
            assert(t2[a - 1].0 == q);
        }
        assert forall|a: int, b: int| 0 <= a < b < t1.len() implies text_lt(
            #[trigger] t1[a].0,
            #[trigger] t1[b].0,
        ) by {
            assert(t1[a] == l1[a + 1] && t1[b] == l1[b + 1]);
        }
        assert forall|a: int, b: int| 0 <= a < b < t2.len() implies text_lt(
            #[trigger] t2[a].0,
            #[trigger] t2[b].0,
        ) by {
            assert(t2[a] == l2[a + 1] && t2[b] == l2[b + 1]);
        }
        law_listing_unique(t1, t2, rest);
        assert(l1 =~= seq![l1[0]] + t1);
        assert(l2 =~= seq![l2[0]] + t2);
    }
}

/// A literal ISO date always wins: whatever the store holds, a token whose
/// trimmed text reads as a date resolves to that date.
pub proof fn law_iso_date_wins(token: Seq<char>, store: Map<Seq<char>, Ymd>, d: Ymd)
    requires
        iso_reading(token) == Some(d),
    ensures
        token_date(token, store) == Some(d),
{
}

/// Nicknames that differ only in case or surrounding whitespace name the
/// same anchor: after adding under one, looking up the other finds it.
pub proof fn law_added_anchor_found(m: Map<Seq<char>, Ymd>, added: Seq<char>, asked: Seq<char>, d: Ymd)
    requires
        nickname_key(added) == nickname_key(asked),
    ensures
        m.insert(nickname_key(added), d).contains_key(nickname_key(asked)),
        m.insert(nickname_key(added), d)[nickname_key(asked)] == d,
{
}

/// Adding an anchor leaves every other nickname as it was.
pub proof fn law_add_keeps_others(m: Map<Seq<char>, Ymd>, added: Seq<char>, other: Seq<char>, d: Ymd)
    requires
        nickname_key(added) != nickname_key(other),
    ensures
        m.insert(nickname_key(added), d).contains_key(nickname_key(other)) == m.contains_key(
            nickname_key(other),
        ),
        m.contains_key(nickname_key(other)) ==> m.insert(nickname_key(added), d)[nickname_key(
            other,
        )] == m[nickname_key(other)],
{
}

/// After removing a nickname, neither it nor any spelling of it that
/// normalizes alike is found any more.
pub proof fn law_removed_anchor_gone(m: Map<Seq<char>, Ymd>, removed: Seq<char>, asked: Seq<char>)
    requires
        nickname_key(removed) == nickname_key(asked),
    ensures
        !m.remove(nickname_key(removed)).contains_key(nickname_key(asked)),
{
}


/// One change to an anchor store, as `AnchorStore::add` and
/// `AnchorStore::remove` make it: a nickname as given, and for an addition
/// the date.
pub enum AnchorEdit {
    Add(Seq<char>, Ymd),
    Remove(Seq<char>),
}

/// The anchors of a store that starts empty (`AnchorStore::default()`) and
/// then goes through `edits` in order, by the contracts of `add` and `remove`.
pub open spec fn replay(edits: Seq<AnchorEdit>) -> Map<Seq<char>, Ymd>
    decreases edits.len(),
{
    if edits.len() == 0 {
        Map::empty()
    } else {
        let before = replay(edits.drop_last());
        match edits.last() {
            AnchorEdit::Add(name, date) => before.insert(nickname_key(name), date),
            AnchorEdit::Remove(name) => before.remove(nickname_key(name)),
        }
    }
}

/// `key` is what some nickname normalizes to.
pub open spec fn is_normalized_key(key: Seq<char>) -> bool {
    exists|name: Seq<char>| nickname_key(name) == key
}

proof fn lemma_replay_keys_normalized(edits: Seq<AnchorEdit>)
    ensures
        forall|k: Seq<char>| #[trigger] replay(edits).contains_key(k) ==> is_normalized_key(k),
    decreases edits.len(),
{
    if edits.len() > 0 {
        lemma_replay_keys_normalized(edits.drop_last());
        assert forall|k: Seq<char>| #[trigger] replay(edits).contains_key(k) implies is_normalized_key(
            k,
        ) by {
            match edits.last() {
                AnchorEdit::Add(name, date) => {
                    if k == nickname_key(name) {
                        assert(nickname_key(name) == k);
                    } else {
                        assert(replay(edits.drop_last()).contains_key(k));
                    }
                },
                AnchorEdit::Remove(name) => {
                    assert(replay(edits.drop_last()).contains_key(k));
                },
            }
        }
    }
}

/// A store reached from an empty one by any sequence of `add` and `remove`
/// lists its anchors in strictly ascending nickname order, and every listed
/// nickname is a normalized one: the trimmed, lowercased form of a name.
/// Where lowercasing a normalized nickname gives it back (std documents no
/// such idempotence, so it is a hypothesis of this clause), normalizing a
/// listed nickname gives it back unchanged.
pub proof fn law_listed_keys_normalized(edits: Seq<AnchorEdit>, listing: Seq<(Seq<char>, Ymd)>)
    requires
        is_listing_of(listing, replay(edits)),
    ensures
        is_strictly_sorted(listing),
        forall|i: int| 0 <= i < listing.len() ==> is_normalized_key(#[trigger] listing[i].0),
        (forall|name: Seq<char>| #[trigger] nickname_key(nickname_key(name)) == nickname_key(name))
            ==> forall|i: int|
            0 <= i < listing.len() ==> nickname_key(#[trigger] listing[i].0) == listing[i].0,
{
    lemma_replay_keys_normalized(edits);
    assert forall|i: int| 0 <= i < listing.len() implies is_normalized_key(
        #[trigger] listing[i].0,
    ) by {
        assert(replay(edits).contains_key(listing[i].0));
    }
    if forall|name: Seq<char>| #[trigger] nickname_key(nickname_key(name)) == nickname_key(name) {
        assert forall|i: int| 0 <= i < listing.len() implies nickname_key(
            #[trigger] listing[i].0,
        ) == listing[i].0 by {
            assert(is_normalized_key(listing[i].0));
            let name = choose|name: Seq<char>| nickname_key(name) == listing[i].0;
            assert(nickname_key(nickname_key(name)) == nickname_key(name));
        }
    }
}

} // verus!
