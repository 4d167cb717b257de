//! A simple string key/value store backed by the ordered map.
//!
//! The store keeps `key\tvalue` records; durable storage appends one record
//! per line to a log and replays it at startup. Nothing here touches a file:
//! the store works on lines handed to it, so a caller owns the reading and
//! writing while the replay and lookup rules stay verified.

use vstd::prelude::*;

use crate::order::lemma_lex_asym;
use crate::order::lemma_lex_tied;
use crate::order::OrderedKey;
use crate::skip::has_key;
use crate::skip::model_insert;
use crate::skip::seek;
use crate::skip::sorted_pairs;
use crate::skip::spec_get;
use crate::skip::SkipList;
use crate::laws::lemma_get_characterization;
use crate::laws::lemma_insert_get;

verus! {

/// What can go wrong when replaying records: a non-empty line with no tab
/// separator.
#[derive(Debug, PartialEq, Eq, Structural, Clone, Copy)]
pub enum Error {
    InvalidFormat,
}

/// The store: an ordered map from key strings to value strings.
pub struct DB {
    kv: SkipList<String, String>,
}

/// The contents of a sorted pair sequence, read as a map over the character
/// sequences of its keys.
pub open spec fn pairs_map(s: Seq<(String, String)>) -> Map<Seq<char>, Seq<char>> {
    Map::new(
        |k: Seq<char>| exists|i: int| 0 <= i < s.len() && (#[trigger] s[i]).0@ == k,
        |k: Seq<char>| s[choose|i: int| 0 <= i < s.len() && (#[trigger] s[i]).0@ == k].1@,
    )
}

/// In a sorted pair sequence, key character sequences are unique.
pub proof fn lemma_unique_view(s: Seq<(String, String)>, i: int, j: int)
    requires
        sorted_pairs(s),
        0 <= i < s.len(),
        0 <= j < s.len(),
        s[i].0@ == s[j].0@,
    ensures
        i == j,
{
    if i < j {
        assert(s[i].0.below(s[j].0));
        lemma_lex_asym(s[i].0@, s[j].0@);
    }
    if j < i {
        assert(s[j].0.below(s[i].0));
        lemma_lex_asym(s[j].0@, s[i].0@);
    }
}

/// Two strings are tied in the key order exactly when their characters are
/// equal.
pub proof fn lemma_tied_is_view_eq(a: String, b: String)
    ensures
        (!a.below(b) && !b.below(a)) <==> a@ == b@,
{
    if !a.below(b) && !b.below(a) {
        lemma_lex_tied(a@, b@);
    }
    if a@ == b@ {
        if a.below(b) {
            lemma_lex_asym(a@, b@);
        }
    }
}

/// Inserting a pair into a sorted sequence inserts its character sequences
/// into the map reading.
pub proof fn lemma_pairs_map_insert(s: Seq<(String, String)>, k: String, v: String)
    requires
        sorted_pairs(s),
    ensures
        pairs_map(model_insert(s, k, v)) == pairs_map(s).insert(k@, v@),
{
    let s1 = model_insert(s, k, v);
    let i = seek(s, k);
    crate::skip::lemma_seek_props(s, k);
    lemma_insert_get(s, k, v);
    let m1 = pairs_map(s1);
    let m2 = pairs_map(s).insert(k@, v@);
    assert(s1[i].0 == k && s1[i].1 == v) by {
        if !has_key(s, k) {
            s.insert_ensures(i, (k, v));
        }
    }
    assert forall|kc: Seq<char>| m1.dom().contains(kc) <==> m2.dom().contains(kc) by {
        if kc == k@ {
            assert(s1[i].0@ == kc);
        } else {
            if m1.dom().contains(kc) {
                let w = choose|j: int| 0 <= j < s1.len() && (#[trigger] s1[j]).0@ == kc;
                assert(w != i);
                let w0 = if has_key(s, k) || w < i {
                    w
                } else {
                    w - 1
                };
                assert(s[w0].0@ == kc) by {
                    if !has_key(s, k) {
                        s.insert_ensures(i, (k, v));
                    }
                }
            }
            if m2.dom().contains(kc) {
                let w = choose|j: int| 0 <= j < s.len() && (#[trigger] s[j]).0@ == kc;
                if has_key(s, k) {
                    assert(w != i) by {
                        if w == i {
                            lemma_tied_is_view_eq(s[i].0, k);
                        }
                    }
                    assert(s1[w].0@ == kc);
                } else {
                    s.insert_ensures(i, (k, v));
                    let w1 = if w < i {
                        w
                    } else {
                        w + 1
                    };
                    assert(s1[w1].0@ == kc);
                }
            }
        }
    }
    assert forall|kc: Seq<char>| m1.dom().contains(kc) implies m1[kc] == m2[kc] by {
        let w = choose|j: int| 0 <= j < s1.len() && (#[trigger] s1[j]).0@ == kc;
        if kc == k@ {
            lemma_unique_view(s1, w, i);
            assert(m1[kc] == v@);
        } else {
            assert(w != i);
            let w0 = if has_key(s, k) || w < i {
                w
            } else {
                w - 1
            };
            assert(s[w0].0@ == kc && s[w0].1 == s1[w].1) by {
                if !has_key(s, k) {
                    s.insert_ensures(i, (k, v));
                }
            }
            let w2 = choose|j: int| 0 <= j < s.len() && (#[trigger] s[j]).0@ == kc;
            lemma_unique_view(s, w2, w0);
        }
    }
    assert(m1 =~= m2);
}

/// A lookup in the sorted sequence agrees with the map reading.
pub proof fn lemma_pairs_map_get(s: Seq<(String, String)>, k: String)
    requires
        sorted_pairs(s),
    ensures
        match spec_get(s, k) {
            Some(v) => pairs_map(s).dom().contains(k@) && pairs_map(s)[k@] == v@,
            None => !pairs_map(s).dom().contains(k@),
        },
{
    lemma_get_characterization(s, k);
    match spec_get(s, k) {
        Some(v) => {
            let i = seek(s, k);
            crate::skip::lemma_seek_props(s, k);
            lemma_tied_is_view_eq(s[i].0, k);
            assert(s[i].0@ == k@);
            let w = choose|j: int| 0 <= j < s.len() && (#[trigger] s[j]).0@ == k@;
            lemma_unique_view(s, w, i);
        },
        None => {
            if pairs_map(s).dom().contains(k@) {
                let w = choose|j: int| 0 <= j < s.len() && (#[trigger] s[j]).0@ == k@;
                lemma_tied_is_view_eq(s[w].0, k);
                assert(!s[w].0.below(k) && !k.below(s[w].0));
            }
        },
    }
}

impl View for DB {
    type V = Map<Seq<char>, Seq<char>>;

    /// The store's contents: each stored key's characters mapped to its
    /// value's characters.
    closed spec fn view(&self) -> Map<Seq<char>, Seq<char>> {
        pairs_map(self.kv@)
    }
}

impl DB {
    pub closed spec fn wf(&self) -> bool {
        self.kv.wf()
    }

    /// An empty store.
    pub fn new() -> (db: DB)
        ensures
            db.wf(),
            db@ == Map::<Seq<char>, Seq<char>>::empty(),
    {
        let db = DB { kv: SkipList::new() };
        proof {
            assert(db@ =~= Map::<Seq<char>, Seq<char>>::empty());
        }
        db
    }

    /// Look a key up, handing back a copy of the stored value.
    pub fn get(&self, key: &str) -> (r: Option<String>)
        requires
            self.wf(),
        ensures
            match r {
                Some(v) => self@.dom().contains(key@) && v@ == self@[key@],
                None => !self@.dom().contains(key@),
            },
    {
        let k = key.to_owned();
        proof {
            self.kv.lemma_view_sorted();
            lemma_pairs_map_get(self.kv@, k);
        }
        match self.kv.get(&k) {
            Some(v) => Some(v.clone()),
            None => None,
        }
    }

    /// Store a value under a key, replacing any previous one.
    pub fn set(&mut self, key: &str, value: &str)
        requires
            old(self).wf(),
        ensures
            final(self).wf(),
            final(self)@ == old(self)@.insert(key@, value@),
    {
        let k = key.to_owned();
        let v = value.to_owned();
        proof {
            self.kv.lemma_view_sorted();
            lemma_pairs_map_insert(self.kv@, k, v);
        }
        let _ = self.kv.insert(k, v);
    }
}


/// The whitespace trimmed off record lines.
pub open spec fn is_space(c: char) -> bool {
    c == ' ' || c == '\t' || c == '\r' || c == '\n'
}

/// Decide `is_space`.
fn space_char(c: char) -> (b: bool)
    ensures
        b == is_space(c),
{
    c == ' ' || c == '\t' || c == '\r' || c == '\n'
}

pub open spec fn trim_front(s: Seq<char>) -> Seq<char>
    decreases s.len(),
{
    if s.len() > 0 && is_space(s[0]) {
        trim_front(s.subrange(1, s.len() as int))
    } else {
        s
    }
}

pub open spec fn trim_back(s: Seq<char>) -> Seq<char>
    decreases s.len(),
{
    if s.len() > 0 && is_space(s[s.len() - 1]) {
        trim_back(s.drop_last())
    } else {
        s
    }
}

/// A line with its surrounding whitespace dropped.
pub open spec fn trim_of(s: Seq<char>) -> Seq<char> {
    trim_back(trim_front(s))
}

proof fn lemma_trim_front_is(s: Seq<char>, i: int)
    requires
        0 <= i <= s.len(),
        forall|j: int| 0 <= j < i ==> is_space(#[trigger] s[j]),
        i < s.len() ==> !is_space(s[i]),
    ensures
        trim_front(s) == s.subrange(i, s.len() as int),
    decreases i,
{
    if i == 0 {
        assert(s.subrange(0, s.len() as int) =~= s);
    } else {
        let s1 = s.subrange(1, s.len() as int);
        lemma_trim_front_is(s1, i - 1);
        assert(s1.subrange(i - 1, s1.len() as int) =~= s.subrange(i, s.len() as int));
    }
}

proof fn lemma_trim_back_is(s: Seq<char>, e: int)
    requires
        0 <= e <= s.len(),
        forall|j: int| e <= j < s.len() ==> is_space(#[trigger] s[j]),
        e > 0 ==> !is_space(s[e - 1]),
    ensures
        trim_back(s) == s.subrange(0, e),
    decreases s.len(),
{
    if s.len() > 0 && is_space(s[s.len() - 1]) {
        assert(e < s.len());
        lemma_trim_back_is(s.drop_last(), e);
        assert(s.drop_last().subrange(0, e) =~= s.subrange(0, e));
    } else {
        assert(e == s.len());
        assert(s.subrange(0, e) =~= s);
    }
}

/// The position of the first tab, or the length if there is none.
pub open spec fn first_tab(t: Seq<char>) -> int
    decreases t.len(),
{
    if t.len() == 0 {
        0
    } else if t[0] == '\t' {
        0
    } else {
        1 + first_tab(t.subrange(1, t.len() as int))
    }
}

proof fn lemma_first_tab_is(t: Seq<char>, i: int)
    requires
        0 <= i <= t.len(),
        forall|j: int| 0 <= j < i ==> #[trigger] t[j] != '\t',
        i < t.len() ==> t[i] == '\t',
    ensures
        first_tab(t) == i,
    decreases i,
{
    if t.len() == 0 {
    } else if i == 0 {
    } else {
        let t1 = t.subrange(1, t.len() as int);
        lemma_first_tab_is(t1, i - 1);
    }
}

/// What one log line means: nothing for a blank line, a key/value record
/// split at the first tab, or a format error when a non-blank line has no
/// tab.
pub open spec fn line_record(l: Seq<char>) -> Result<Option<(Seq<char>, Seq<char>)>, Error> {
    let t = trim_of(l);
    if t.len() == 0 {
        Ok(None)
    } else if first_tab(t) == t.len() {
        Err(Error::InvalidFormat)
    } else {
        Ok(Some((t.subrange(0, first_tab(t)), t.subrange(first_tab(t) + 1, t.len() as int))))
    }
}

/// Parse one log line into its record: `Ok(None)` for a blank line,
/// the key and value split at the first tab otherwise.
pub fn parse_record(line: &str) -> (r: Result<Option<(String, String)>, Error>)
    ensures
        match r {
            Ok(None) => line_record(line@) == Ok::<Option<(Seq<char>, Seq<char>)>, Error>(None),
            Ok(Some(kv)) => line_record(line@) == Ok::<Option<(Seq<char>, Seq<char>)>, Error>(
                Some((kv.0@, kv.1@)),
            ),
            Err(e) => line_record(line@) == Err::<Option<(Seq<char>, Seq<char>)>, Error>(e),
        },
{
    let n = line.unicode_len();
    let mut start: usize = 0;
    while start < n && space_char(line.get_char(start))
        invariant
            start <= n,
            n == line@.len(),
            forall|j: int| 0 <= j < start ==> is_space(#[trigger] line@[j]),
        decreases n - start,
    {
        start += 1;
    }
    if start == n {
        proof {
            lemma_trim_front_is(line@, n as int);
            assert(trim_front(line@).len() == 0);
            assert(trim_of(line@).len() == 0);
        }
        return Ok(None);
    }
    let mut end: usize = n;
    while end > start && space_char(line.get_char(end - 1))
        invariant
            start < n == line@.len(),
            start <= end <= n,
            !is_space(line@[start as int]),
            forall|j: int| end <= j < n ==> is_space(#[trigger] line@[j]),
            start < end,
        decreases end,
    {
        proof {
            if end - 1 == start {
                assert(false);
            }
        }
        end -= 1;
    }
    let ghost t = line@.subrange(start as int, end as int);
    proof {
        lemma_trim_front_is(line@, start as int);
        let tf = line@.subrange(start as int, n as int);
        lemma_trim_back_is(tf, end - start);
        assert(tf.subrange(0, end - start) =~= t);
        assert(trim_of(line@) == t);
        assert(t.len() > 0);
    }
    let mut ti = start;
    while ti < end && line.get_char(ti) != '\t'
        invariant
            n == line@.len(),
            start <= ti <= end <= n,
            forall|j: int| start <= j < ti ==> #[trigger] line@[j] != '\t',
        decreases end - ti,
    {
        ti += 1;
    }
    proof {
        assert forall|j: int| 0 <= j < ti - start implies #[trigger] t[j] != '\t' by {
            assert(t[j] == line@[start + j]);
        }
    }
    if ti == end {
        proof {
            lemma_first_tab_is(t, t.len() as int);
        }
        return Err(Error::InvalidFormat);
    }
    proof {
        assert(t[ti - start] == line@[ti as int]);
        lemma_first_tab_is(t, ti - start);
    }
    let key = line.substring_char(start, ti).to_owned();
    let value = line.substring_char(ti + 1, end).to_owned();
    proof {
        assert(key@ =~= t.subrange(0, first_tab(t)));
        assert(value@ =~= t.subrange(first_tab(t) + 1, t.len() as int));
    }
    Ok(Some((key, value)))
}

/// The character sequences of a sequence of strings.
pub open spec fn views_of(ls: Seq<String>) -> Seq<Seq<char>> {
    Seq::new(ls.len(), |i: int| ls[i]@)
}

/// Replaying log lines onto a map: each record overwrites its key, blank
/// lines do nothing, and the replay stops at the first malformed line.
pub open spec fn replay(
    m: Map<Seq<char>, Seq<char>>,
    lines: Seq<Seq<char>>,
) -> Map<Seq<char>, Seq<char>>
    decreases lines.len(),
{
    if lines.len() == 0 {
        m
    } else {
        match line_record(lines[0]) {
            Ok(Some(kv)) => replay(m.insert(kv.0, kv.1), lines.subrange(1, lines.len() as int)),
            Ok(None) => replay(m, lines.subrange(1, lines.len() as int)),
            Err(_) => m,
        }
    }
}

impl DB {
    /// Replay the log's lines into the store, stopping at the first
    /// malformed line with its error.
    pub fn init(&mut self, lines: &Vec<String>) -> (r: Result<(), Error>)
        requires
            old(self).wf(),
        ensures
            final(self).wf(),
            final(self)@ == replay(old(self)@, views_of(lines@)),
            r is Ok <==> forall|i: int|
                0 <= i < lines@.len() ==> (#[trigger] line_record(lines@[i]@)) is Ok,
    {
        let ghost all = views_of(lines@);
        proof {
            assert(all.subrange(0, all.len() as int) =~= all);
        }
        let mut i: usize = 0;
        while i < lines.len()
            invariant
                self.wf(),
                i <= lines@.len(),
                all == views_of(lines@),
                replay(old(self)@, all) == replay(self@, all.subrange(i as int, all.len() as int)),
                forall|j: int| 0 <= j < i ==> (#[trigger] line_record(lines@[j]@)) is Ok,
            decreases lines@.len() - i,
        {
            let ghost rest = all.subrange(i as int, all.len() as int);
            proof {
                assert(rest[0] == lines@[i as int]@);
                assert(rest.subrange(1, rest.len() as int) =~= all.subrange(
                    i + 1,
                    all.len() as int,
                ));
            }
            match parse_record(lines[i].as_str()) {
                Ok(Some((k, v))) => {
                    self.set(k.as_str(), v.as_str());
                },
                Ok(None) => {},
                Err(e) => {
                    return Err(e);
                },
            }
            i += 1;
        }
        proof {
            assert(all.subrange(lines@.len() as int, all.len() as int) =~= Seq::<
                Seq<char>,
            >::empty());
        }
        Ok(())
    }
}

/// Look a key up in a store.
pub fn get(db: &DB, key: &str) -> (r: Option<String>)
    requires
        db.wf(),
    ensures
        match r {
            Some(v) => db@.dom().contains(key@) && v@ == db@[key@],
            None => !db@.dom().contains(key@),
        },
{
    db.get(key)
}

/// Store a value under a key.
pub fn set(db: &mut DB, key: &str, value: &str)
    requires
        old(db).wf(),
    ensures
        final(db).wf(),
        final(db)@ == old(db)@.insert(key@, value@),
{
    db.set(key, value)
}

/// Fill a store from the log's lines.
pub fn init(db: &mut DB, lines: &Vec<String>) -> (r: Result<(), Error>)
    requires
        old(db).wf(),
    ensures
        final(db).wf(),
        final(db)@ == replay(old(db)@, views_of(lines@)),
        r is Ok <==> forall|i: int|
            0 <= i < lines@.len() ==> (#[trigger] line_record(lines@[i]@)) is Ok,
{
    db.init(lines)
}

} // verus!
