//! The daily request quota of the question command: the key under which a
//! user's count for a day is stored, the decision taken on a stored count,
//! and which stored keys are dropped as expired.

use vstd::prelude::*;
use crate::decimal::{
    decimal, decimal_reads_back, decimal_string, parse_reads_decimal, parse_usize, parsed_unsigned,
    push_decimal,
};
use crate::pattern::{DASH_CAPTURE, dash_tail, first_group, opt_view};
use crate::text::{push_str, same_text};

verus! {

/// Number of questions a user may ask per day.
pub const MAX_REQUESTS: usize = 5;

/// The key of a user's count for a day: the user id, `'-'`, the day's text.
pub open spec fn request_key_of(usr_id: nat, day: Seq<char>) -> Seq<char> {
    decimal(usr_id) + seq!['-'] + day
}

/// The key under which the count of `usr_id` on `day` is stored.
pub fn request_key(usr_id: u64, day: &str) -> (key: String)
    ensures
        key@ == request_key_of(usr_id as nat, day@),
{
    let mut key = String::new();
    push_decimal(&mut key, usr_id);
    key.push('-');
    push_str(&mut key, day);
    key
}

/// What to do with a request, given the stored count.
#[derive(Debug, PartialEq, Eq)]
pub enum QuotaDecision {
    /// Answer, store `record` as the new count, and report `remaining`.
    Grant { record: String, remaining: usize },
    /// The day's requests are used up: refuse and store nothing.
    Deny,
}

/// The count that a stored value stands for: zero when nothing is stored,
/// otherwise the value read as a `usize` (`None` when it does not read as one).
pub open spec fn stored_count(stored: Option<Seq<char>>) -> Option<nat> {
    match stored {
        None => Some(0),
        Some(s) => parsed_unsigned(s, usize::MAX as nat),
    }
}

/// The decision on a stored value, as a plain value: `None` for a value that
/// is not a count, `Some((Some((record, remaining))))` to grant, `Some(None)`
/// to deny.
pub open spec fn quota_decision(stored: Option<Seq<char>>) -> Option<Option<(Seq<char>, nat)>> {
    match stored_count(stored) {
        None => None,
        Some(c) => if c < MAX_REQUESTS {
            Some(Some((decimal(c + 1), (MAX_REQUESTS - (c + 1)) as nat)))
        } else {
            Some(None)
        },
    }
}

/// The view of a decision.
pub open spec fn decision_view(d: QuotaDecision) -> Option<(Seq<char>, nat)> {
    match d {
        QuotaDecision::Grant { record, remaining } => Some((record@, remaining as nat)),
        QuotaDecision::Deny => None,
    }
}

/// The view of an optional string slice.
pub open spec fn opt_str_view(s: Option<&str>) -> Option<Seq<char>> {
    match s {
        Some(t) => Some(t@),
        None => None,
    }
}

/// Decides on a request given the value stored under the user's key for the
/// day: with count `c` (zero when nothing is stored) below `MAX_REQUESTS`, grant,
/// store `c + 1` and report `MAX_REQUESTS - (c + 1)` remaining; otherwise
/// deny. `None` when the stored value is not a `usize` (where reading it
/// panics).
pub fn decide_quota(stored: Option<&str>) -> (out: Option<QuotaDecision>)
    ensures
        match out {
            None => quota_decision(opt_str_view(stored)) is None,
            Some(d) => quota_decision(opt_str_view(stored)) == Some(decision_view(d)),
        },
{
    let count: usize = match stored {
        None => 0,
        Some(s) => match parse_usize(s) {
            Some(c) => c,
            None => {
                return None;
            },
        },
    };
    if count < MAX_REQUESTS {
        let value = count + 1;
        let record = decimal_string(value as u64);
        Some(QuotaDecision::Grant { record, remaining: MAX_REQUESTS - value })
    } else {
        Some(QuotaDecision::Deny)
    }
}

/// The quota counts down: a granted request stores a count that, read back
/// by the next request on the same key, is granted with one request fewer
/// remaining, or denied when none remained.
pub proof fn quota_counts_down(stored: Option<Seq<char>>, record: Seq<char>, remaining: nat)
    requires
        quota_decision(stored) == Some(Some((record, remaining))),
    ensures
        remaining > 0 ==> quota_decision(Some(record)) == Some(
            Some((decimal((MAX_REQUESTS - remaining + 1) as nat), (remaining - 1) as nat)),
        ),
        remaining == 0 ==> quota_decision(Some(record)) == Some(None::<(Seq<char>, nat)>),
{
    let c = stored_count(stored)->0;
    parse_reads_decimal(c + 1, usize::MAX as nat);
}

/// An entry of the store: a key and its value.
pub open spec fn entry_view(e: (String, String)) -> (Seq<char>, Seq<char>) {
    (e.0@, e.1@)
}

/// No two entries have the same key.
pub open spec fn distinct_keys(e: Seq<(Seq<char>, Seq<char>)>) -> bool {
    forall|i: int, j: int| 0 <= i < j < e.len() ==> #[trigger] e[i].0 != #[trigger] e[j].0
}

/// The value stored under `key`.
pub open spec fn lookup(e: Seq<(Seq<char>, Seq<char>)>, key: Seq<char>) -> Option<Seq<char>>
    decreases e.len(),
{
    if e.len() == 0 {
        None
    } else if e.last().0 == key {
        Some(e.last().1)
    } else {
        lookup(e.drop_last(), key)
    }
}

/// The entries after storing `value` under `key`: an entry with that key
/// keeps its place and takes the new value; otherwise a new entry goes last.
pub open spec fn inserted(e: Seq<(Seq<char>, Seq<char>)>, key: Seq<char>, value: Seq<char>) -> Seq<(Seq<char>, Seq<char>)> {
    if exists|i: int| 0 <= i < e.len() && e[i].0 == key {
        let i = choose|i: int| 0 <= i < e.len() && e[i].0 == key;
        e.update(i, (key, value))
    } else {
        e.push((key, value))
    }
}

/// The entries that stay when the expired ones are dropped: those whose key's
/// part after its first `'-'` (up to a line feed, or none at all) is `day`,
/// in order.
pub open spec fn kept_entries(e: Seq<(Seq<char>, Seq<char>)>, day: Option<Seq<char>>) -> Seq<(Seq<char>, Seq<char>)>
    decreases e.len(),
{
    if e.len() == 0 {
        Seq::empty()
    } else {
        let r = kept_entries(e.drop_last(), day);
        if dash_tail(e.last().0) == day {
            r.push(e.last())
        } else {
            r
        }
    }
}

/// The file-backed store of request counts, as an ordered list of entries
/// with distinct keys (the order in which keys were first stored).
pub struct Store {
    entries: Vec<(String, String)>,
}

impl View for Store {
    type V = Seq<(Seq<char>, Seq<char>)>;

    closed spec fn view(&self) -> Seq<(Seq<char>, Seq<char>)> {
        self.entries@.map_values(|e: (String, String)| entry_view(e))
    }
}

proof fn lemma_kept_sub(e: Seq<(Seq<char>, Seq<char>)>, day: Option<Seq<char>>)
    requires
        distinct_keys(e),
    ensures
        distinct_keys(kept_entries(e, day)),
        forall|x: (Seq<char>, Seq<char>)| kept_entries(e, day).contains(x) ==> e.contains(x),
    decreases e.len(),
{
    if e.len() > 0 {
        let d = e.drop_last();
        assert(distinct_keys(d));
        lemma_kept_sub(d, day);
        let r = kept_entries(d, day);
        if dash_tail(e.last().0) == day {
            let k = r.push(e.last());
            assert forall|x: (Seq<char>, Seq<char>)| k.contains(x) implies e.contains(x) by {
                let i = choose|i: int| 0 <= i < k.len() && k[i] == x;
                if i < r.len() {
                    assert(k[i] == r[i]);
                    assert(r.contains(x));
                    assert(d.contains(x));
                    let j = choose|j: int| 0 <= j < d.len() && d[j] == x;
                    assert(d[j] == x);
                    assert(e[j] == d[j]);
                } else {
                    assert(e[e.len() - 1] == x);
                }
            }
            assert forall|i: int, j: int| 0 <= i < j < k.len() implies #[trigger] k[i].0 != #[trigger] k[j].0 by {
                if j == k.len() - 1 {
                    assert(k[i] == r[i]);
                    assert(r.contains(k[i]));
                    assert(d.contains(k[i]));
                    let m = choose|m: int| 0 <= m < d.len() && d[m] == k[i];
                    assert(e[m] == d[m]);
                    assert(e[e.len() - 1] == k[j]);
                } else {
                    assert(k[i] == r[i] && k[j] == r[j]);
                }
            }
        } else {
            assert forall|x: (Seq<char>, Seq<char>)| r.contains(x) implies e.contains(x) by {
                assert(d.contains(x));
                let j = choose|j: int| 0 <= j < d.len() && d[j] == x;
                assert(e[j] == x);
            }
        }
    }
}

impl Store {
    #[verifier::type_invariant]
    spec fn keys_distinct(&self) -> bool {
        distinct_keys(self@)
    }

    /// An empty store.
    pub fn new() -> (store: Store)
        ensures
            store@ == Seq::<(Seq<char>, Seq<char>)>::empty(),
            distinct_keys(store@),
    {
        let store = Store { entries: Vec::new() };
        assert(store@ =~= Seq::<(Seq<char>, Seq<char>)>::empty());
        store
    }

    /// The entries, in order.
    pub fn entries(&self) -> (out: Vec<(String, String)>)
        ensures
            out@.map_values(|e: (String, String)| entry_view(e)) == self@,
    {
        let n = self.entries.len();
        let mut out: Vec<(String, String)> = Vec::new();
        for i in 0..n
            invariant
                n == self.entries@.len(),
                out@.map_values(|e: (String, String)| entry_view(e)) == self@.take(i as int),
        {
            let e = &self.entries[i];
            out.push((e.0.clone(), e.1.clone()));
            assert(self@.take(i + 1) == self@.take(i as int).push(self@[i as int]));
            assert(out@.map_values(|e: (String, String)| entry_view(e)) =~= self@.take(i + 1));
        }
        assert(self@.take(n as int) == self@);
        out
    }

    /// The value stored under `key`, as `get_value_from_db` gives it.
    pub fn get(&self, key: &str) -> (out: Option<String>)
        ensures
            opt_view(out) == lookup(self@, key@),
    {
        let n = self.entries.len();
        let mut i = n;
        assert(self@.take(n as int) == self@);
        while i > 0
            invariant
                i <= n,
                n == self.entries@.len(),
                lookup(self@, key@) == lookup(self@.take(i as int), key@),
            decreases i,
        {
            let ghost t = self@.take(i as int);
            assert(t.drop_last() == self@.take(i - 1));
            assert(t.last() == entry_view(self.entries@[i - 1]));
            if same_text(self.entries[i - 1].0.as_str(), key) {
                assert(t.last().0 == key@);
                return Some(self.entries[i - 1].1.clone());
            }
            i = i - 1;
        }
        assert(self@.take(0) == Seq::<(Seq<char>, Seq<char>)>::empty());
        None
    }

    /// Stores `value` under `key`, as `insert_into_db` does to the map: an
    /// existing key keeps its place and takes the new value; a new key goes last.
    pub fn insert(&mut self, key: String, value: String)
        ensures
            final(self)@ == inserted(old(self)@, key@, value@),
            distinct_keys(old(self)@),
            distinct_keys(final(self)@),
    {
        proof {
            use_type_invariant(&*self);
        }
        let ghost e = self@;
        let n = self.entries.len();
        let mut i: usize = 0;
        while i < n
            invariant
                i <= n,
                n == self.entries@.len(),
                e == self@,
                e == old(self)@,
                distinct_keys(e),
                forall|j: int| 0 <= j < i ==> e[j].0 != key@,
            decreases n - i,
        {
            assert(e[i as int] == entry_view(self.entries@[i as int]));
            if same_text(self.entries[i].0.as_str(), key.as_str()) {
                proof {
                    assert(e[i as int].0 == key@);
                    let c = choose|c: int| 0 <= c < e.len() && e[c].0 == key@;
                    assert(c == i) by {
                        if c != i as int {
                            if c < i { } else { assert(e[i as int].0 != e[c].0); }
                        }
                    }
                }
                let mut entries: Vec<(String, String)> = Vec::new();
                std::mem::swap(&mut entries, &mut self.entries);
                entries.set(i, (key, value));
                proof {
                    let u = e.update(i as int, (key@, value@));
                    assert(entries@.map_values(|x: (String, String)| entry_view(x)) =~= u);
                    assert forall|a: int, b: int| 0 <= a < b < u.len() implies #[trigger] u[a].0 != #[trigger] u[b].0 by {
                        assert(u[a].0 == e[a].0 && u[b].0 == e[b].0);
                    }
                }
                self.entries = entries;
                assert(self@ =~= e.update(i as int, (key@, value@)));
                assert(inserted(e, key@, value@) == e.update(i as int, (key@, value@)));
                return;
            }
            i = i + 1;
        }
        let mut entries: Vec<(String, String)> = Vec::new();
        std::mem::swap(&mut entries, &mut self.entries);
        entries.push((key, value));
        proof {
            let u = e.push((key@, value@));
            assert(entries@.map_values(|x: (String, String)| entry_view(x)) =~= u);
            assert(!(exists|j: int| 0 <= j < e.len() && e[j].0 == key@));
            assert forall|a: int, b: int| 0 <= a < b < u.len() implies #[trigger] u[a].0 != #[trigger] u[b].0 by {
                if b == e.len() {
                    assert(u[a] == e[a]);
                } else {
                    assert(u[a] == e[a] && u[b] == e[b]);
                }
            }
        }
        self.entries = entries;
    }

    /// Drops the entries whose key's part after its first `'-'` differs from
    /// that of `id`, as `remove_expired_keys` does (keeping the others in order).
    pub fn remove_expired_keys(&mut self, id: &str)
        ensures
            final(self)@ == kept_entries(old(self)@, dash_tail(id@)),
            distinct_keys(old(self)@),
            distinct_keys(final(self)@),
    {
        proof {
            use_type_invariant(&*self);
        }
        let ghost e = self@;
        let day = first_group(DASH_CAPTURE, id);
        let n = self.entries.len();
        let mut kept: Vec<(String, String)> = Vec::new();
        for i in 0..n
            invariant
                n == self.entries@.len(),
                e == self@,
                opt_view(day) == dash_tail(id@),
                kept@.map_values(|x: (String, String)| entry_view(x)) == kept_entries(e.take(i as int), dash_tail(id@)),
        {
            let entry = &self.entries[i];
            let tail = first_group(DASH_CAPTURE, entry.0.as_str());
            let same = match (&tail, &day) {
                (Some(a), Some(b)) => *a == *b,
                (None, None) => true,
                _ => false,
            };
            assert(e.take(i + 1).drop_last() == e.take(i as int));
            assert(e.take(i + 1).last() == entry_view(self.entries@[i as int]));
            let ghost before = kept@;
            if same {
                kept.push((entry.0.clone(), entry.1.clone()));
                assert(kept@.map_values(|x: (String, String)| entry_view(x)) =~= before.map_values(
                    |x: (String, String)| entry_view(x),
                ).push(e[i as int]));
            }
        }
        assert(e.take(n as int) == e);
        proof {
            lemma_kept_sub(e, dash_tail(id@));
        }
        self.entries = kept;
    }
}

/// Counts a question of `usr_id` on `day` in the store and returns how many
/// the user has left, as the question command does with its two handles on
/// the store file: the value under the user's key is read from the store as
/// it was; then the expired entries are dropped (against `day` itself, which
/// has no `'-'` as a date); a granted request then saves the store as it was
/// read, with the new count, so the dropped entries come back; a denied one
/// leaves the store without them. `None` when the stored value is not a
/// count (where reading it panics, after the expired entries were dropped).
pub fn check_usr_limit(store: &mut Store, usr_id: u64, day: &str) -> (left: Option<usize>)
    ensures
        distinct_keys(old(store)@),
        distinct_keys(final(store)@),
        ({
            let key = request_key_of(usr_id as nat, day@);
            match quota_decision(lookup(old(store)@, key)) {
                Some(Some((record, remaining))) => left == Some(remaining as usize)
                    && final(store)@ == inserted(old(store)@, key, record),
                Some(None) => left == Some(0usize) && final(store)@ == kept_entries(old(store)@, dash_tail(day@)),
                None => left is None && final(store)@ == kept_entries(old(store)@, dash_tail(day@)),
            }
        }),
{
    proof {
        use_type_invariant(&*store);
    }
    let key = request_key(usr_id, day);
    let stored = store.get(key.as_str());
    let decision = match &stored {
        Some(v) => decide_quota(Some(v.as_str())),
        None => decide_quota(None),
    };
    match decision {
        Some(QuotaDecision::Grant { record, remaining }) => {
            store.insert(key, record);
            Some(remaining)
        },
        Some(QuotaDecision::Deny) => {
            store.remove_expired_keys(day);
            Some(0)
        },
        None => {
            store.remove_expired_keys(day);
            None
        },
    }
}

/// Dropping the expired entries twice leaves the same store as once.
pub proof fn expiry_is_idempotent(e: Seq<(Seq<char>, Seq<char>)>, day: Option<Seq<char>>)
    ensures
        kept_entries(kept_entries(e, day), day) == kept_entries(e, day),
    decreases e.len(),
{
    if e.len() > 0 {
        let r = kept_entries(e.drop_last(), day);
        expiry_is_idempotent(e.drop_last(), day);
        if dash_tail(e.last().0) == day {
            let k = r.push(e.last());
            assert(k.drop_last() == r);
            assert(k.last() == e.last());
        }
    }
}

proof fn lemma_lookup_kept(e: Seq<(Seq<char>, Seq<char>)>, day: Option<Seq<char>>, key: Seq<char>)
    ensures
        lookup(kept_entries(e, day), key) == if dash_tail(key) == day {
            lookup(e, key)
        } else {
            None
        },
    decreases e.len(),
{
    if e.len() > 0 {
        lemma_lookup_kept(e.drop_last(), day, key);
        let r = kept_entries(e.drop_last(), day);
        if dash_tail(e.last().0) == day {
            let k = r.push(e.last());
            assert(k.drop_last() == r);
            assert(k.last() == e.last());
        }
    }
}

/// After a request on `day` (a date without `'-'`) is denied, the expiry has
/// dropped the user's count for that day, so the next request of the user on
/// that day is granted again with `MAX_REQUESTS - 1` left.
pub proof fn denial_restarts_the_day(e: Seq<(Seq<char>, Seq<char>)>, usr_id: nat, day: Seq<char>)
    requires
        !day.contains('-'),
        quota_decision(lookup(e, request_key_of(usr_id, day))) == Some(None::<(Seq<char>, nat)>),
    ensures
        quota_decision(lookup(kept_entries(e, dash_tail(day)), request_key_of(usr_id, day)))
            == Some(Some((decimal(1), (MAX_REQUESTS - 1) as nat))),
{
    let key = request_key_of(usr_id, day);
    lemma_dash_tail_none(day);
    decimal_reads_back(usr_id);
    assert(key.contains('-')) by {
        assert(key[decimal(usr_id).len() as int] == '-');
    }
    lemma_dash_tail_none(key);
    lemma_lookup_kept(e, dash_tail(day), key);
}

proof fn lemma_lookup_inserted(e: Seq<(Seq<char>, Seq<char>)>, key: Seq<char>, value: Seq<char>, other: Seq<char>)
    requires
        distinct_keys(e),
    ensures
        lookup(inserted(e, key, value), other) == if other == key {
            Some(value)
        } else {
            lookup(e, other)
        },
{
    lemma_lookup_index(e, other);
    let n = inserted(e, key, value);
    if exists|i: int| 0 <= i < e.len() && e[i].0 == key {
        let i = choose|i: int| 0 <= i < e.len() && e[i].0 == key;
        assert(distinct_keys(n)) by {
            assert forall|a: int, b: int| 0 <= a < b < n.len() implies #[trigger] n[a].0 != #[trigger] n[b].0 by {
                assert(n[a].0 == e[a].0 && n[b].0 == e[b].0);
            }
        }
        lemma_lookup_index(n, other);
        if other == key {
            assert(n[i].0 == key);
        } else if lookup(e, other) is Some {
            let j = choose|j: int| 0 <= j < e.len() && e[j].0 == other;
            assert(n[j] == e[j]);
        } else {
            assert forall|j: int| 0 <= j < n.len() implies n[j].0 != other by {
                assert(n[j].0 == e[j].0);
            }
        }
    } else {
        assert(distinct_keys(n)) by {
            assert forall|a: int, b: int| 0 <= a < b < n.len() implies #[trigger] n[a].0 != #[trigger] n[b].0 by {
                if b == e.len() {
                    assert(n[a] == e[a]);
                } else {
                    assert(n[a] == e[a] && n[b] == e[b]);
                }
            }
        }
        lemma_lookup_index(n, other);
        if other == key {
            assert(n[e.len() as int].0 == key);
        } else if lookup(e, other) is Some {
            let j = choose|j: int| 0 <= j < e.len() && e[j].0 == other;
            assert(n[j] == e[j]);
        } else {
            assert forall|j: int| 0 <= j < n.len() implies n[j].0 != other by {
                if j < e.len() {
                    assert(n[j] == e[j]);
                }
            }
        }
    }
}

proof fn lemma_lookup_index(e: Seq<(Seq<char>, Seq<char>)>, key: Seq<char>)
    requires
        distinct_keys(e),
    ensures
        lookup(e, key) is Some <==> exists|i: int| 0 <= i < e.len() && e[i].0 == key,
        forall|i: int| 0 <= i < e.len() && e[i].0 == key ==> lookup(e, key) == Some(e[i].1),
    decreases e.len(),
{
    if e.len() > 0 {
        let d = e.drop_last();
        assert(distinct_keys(d));
        lemma_lookup_index(d, key);
        if exists|i: int| 0 <= i < d.len() && d[i].0 == key {
            let i = choose|i: int| 0 <= i < d.len() && d[i].0 == key;
            assert(e[i] == d[i]);
        }
        assert forall|i: int| 0 <= i < e.len() && e[i].0 == key implies lookup(e, key) == Some(e[i].1) by {
            if i < e.len() - 1 {
                assert(e[i] == d[i]);
                assert(e.last().0 != key);
            }
        }
    }
}

/// A granted request's count is what the next request on the same key reads,
/// and the store's other entries are unchanged; with `quota_counts_down`
/// this makes the count go down one request at a time while the entry stays.
pub proof fn granted_count_is_read_next(e: Seq<(Seq<char>, Seq<char>)>, key: Seq<char>, record: Seq<char>, other: Seq<char>)
    requires
        distinct_keys(e),
    ensures
        lookup(inserted(e, key, record), key) == Some(record),
        other != key ==> lookup(inserted(e, key, record), other) == lookup(e, other),
{
    lemma_lookup_inserted(e, key, record, key);
    lemma_lookup_inserted(e, key, record, other);
}

proof fn lemma_dash_tail_none(s: Seq<char>)
    ensures
        dash_tail(s) is None <==> !s.contains('-'),
    decreases s.len(),
{
    if s.len() > 0 {
        lemma_dash_tail_none(s.drop_first());
        if s[0] != '-' {
            if s.contains('-') {
                let k = choose|k: int| 0 <= k < s.len() && s[k] == '-';
                assert(s.drop_first()[k - 1] == '-');
            }
            if s.drop_first().contains('-') {
                let k = choose|k: int| 0 <= k < s.drop_first().len() && s.drop_first()[k] == '-';
                assert(s[k + 1] == '-');
            }
        } else {
            assert(s[0] == '-');
        }
    }
}

/// Expiry against a text without `'-'` (such as a bare date) drops exactly
/// the entries whose key contains a `'-'`, keeping the others in order.
pub proof fn dashless_id_expires_dashed_keys(e: Seq<(Seq<char>, Seq<char>)>, id: Seq<char>)
    requires
        !id.contains('-'),
    ensures
        kept_entries(e, dash_tail(id)) == e.filter(|x: (Seq<char>, Seq<char>)| !x.0.contains('-')),
    decreases e.len(),
{
    lemma_dash_tail_none(id);
    if e.len() > 0 {
        dashless_id_expires_dashed_keys(e.drop_last(), id);
        lemma_dash_tail_none(e.last().0);
        reveal_with_fuel(Seq::<_>::filter, 1);
        assert(e.drop_last().push(e.last()) == e);
    } else {
        reveal_with_fuel(Seq::<_>::filter, 1);
    }
}

} // verus!
