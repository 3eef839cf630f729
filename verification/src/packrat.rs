use vstd::prelude::*;
use std::collections::HashSet;
use crate::stream::{lemma_next_visible_bounds, lemma_offset_grows, next_visible, offset, readable, Stream};
use vstd::std_specs::iter::IteratorSpec;

verus! {

/// The key of a memo entry: a position, a mode, and the name of a rule.
pub type MemoKey = (usize, bool, Seq<char>);

/// The key under which an entry is filed.
pub open spec fn key_of<R>(e: (usize, bool, String, usize, R)) -> MemoKey {
    (e.0, e.1, e.2@)
}

/// What the last entry filed under `key` records: the end position and the
/// result.
pub open spec fn lookup<R>(es: Seq<(usize, bool, String, usize, R)>, key: MemoKey) -> Option<(usize, R)>
    decreases es.len(),
{
    if es.len() == 0 {
        None
    } else if key_of(es.last()) == key {
        Some((es.last().3, es.last().4))
    } else {
        lookup(es.drop_last(), key)
    }
}

/// The results of the rules already tried, by position, mode and rule.
pub struct Memo<R> {
    body: Vec<(usize, bool, String, usize, R)>,
}

impl<R: Clone> Memo<R> {
    /// The entries, in the order they were filed.
    pub closed spec fn entries(self) -> Seq<(usize, bool, String, usize, R)> {
        self.body@
    }

    /// What the memo records under `key`.
    pub open spec fn find(self, key: MemoKey) -> Option<(usize, R)> {
        lookup(self.entries(), key)
    }

    /// No key is filed twice.
    pub closed spec fn wf(self) -> bool {
        forall|i: int, j: int| 0 <= i < j < self.entries().len() ==> key_of(#[trigger] self.entries()[i]) != key_of(#[trigger] self.entries()[j])
    }

    /// A memo that records nothing.
    pub fn new() -> (m: Self)
        ensures
            m.wf(),
            forall|key: MemoKey| m.find(key) is None,
    {
        Memo { body: Vec::new() }
    }

    /// Forgets every entry.
    pub fn clear(&mut self)
        ensures
            final(self).wf(),
            forall|key: MemoKey| final(self).find(key) is None,
    {
        self.body.clear();
    }

    /// The end position and a clone of the result recorded for rule `sig`
    /// at position `p` in mode `m`.
    pub fn get(&self, p: usize, m: bool, sig: &'static str) -> (r: Option<(usize, R)>)
        requires
            self.wf(),
        ensures
            match (r, self.find((p, m, sig@))) {
                (Some(got), Some(kept)) => got.0 == kept.0 && cloned(kept.1, got.1),
                (None, None) => true,
                _ => false,
            },
    {
        let key = sig.to_owned();
        let mut i: usize = 0;
        while i < self.body.len()
            invariant
                i <= self.entries().len(),
                key@ == sig@,
                self.wf(),
                forall|q: int| 0 <= q < i ==> key_of(#[trigger] self.entries()[q]) != (p, m, sig@),
            decreases self.entries().len() - i,
        {
            let e = &self.body[i];
            if e.0 == p && e.1 == m && e.2 == key {
                proof {
                    lemma_lookup_unique(self.entries(), i as int);
                }
                return Some((e.3, e.4.clone()));
            }
            i = i + 1;
        }
        proof {
            lemma_lookup_absent(self.entries(), (p, m, sig@));
        }
        None
    }

    /// Records end position `e` and result `res` for rule `sig` at position
    /// `p` in mode `m`, in place of what was recorded there.
    pub fn insert(&mut self, p: usize, m: bool, sig: &'static str, e: usize, res: R)
        requires
            old(self).wf(),
        ensures
            final(self).wf(),
            final(self).find((p, m, sig@)) == Some((e, res)),
            forall|key: MemoKey| key != (p, m, sig@) ==> final(self).find(key) == old(self).find(key),
    {
        let key = sig.to_owned();
        let mut i: usize = 0;
        while i < self.body.len()
            invariant
                i <= self.entries().len(),
                key@ == sig@,
                self == old(self),
                old(self).wf(),
                forall|q: int| 0 <= q < i ==> key_of(#[trigger] self.entries()[q]) != (p, m, sig@),
            decreases self.entries().len() - i,
        {
            if self.body[i].0 == p && self.body[i].1 == m && self.body[i].2 == key {
                let ghost before = self.entries();
                self.body.set(i, (p, m, key, e, res));
                proof {
                    lemma_lookup_set(before, i as int, (p, m, sig@));
                    assert(self.entries() == before.update(i as int, (p, m, key, e, res)));
                }
                return;
            }
            i = i + 1;
        }
        let ghost before = self.entries();
        self.body.push((p, m, key, e, res));
        proof {
            lemma_lookup_push(before, (p, m, sig@));
            assert(self.entries() == before.push((p, m, key, e, res)));
        }
    }
}

/// With keys filed once, the entry at `i` is what its key finds.
proof fn lemma_lookup_unique<R>(es: Seq<(usize, bool, String, usize, R)>, i: int)
    requires
        0 <= i < es.len(),
        forall|a: int, b: int| 0 <= a < b < es.len() ==> key_of(#[trigger] es[a]) != key_of(#[trigger] es[b]),
    ensures
        lookup(es, key_of(es[i])) == Some((es[i].3, es[i].4)),
    decreases es.len(),
{
    if i < es.len() - 1 {
        assert(key_of(es[i]) != key_of(es[es.len() - 1]));
        assert(es.drop_last()[i] == es[i]);
        lemma_lookup_unique(es.drop_last(), i);
    }
}

/// A key that no entry carries finds nothing.
proof fn lemma_lookup_absent<R>(es: Seq<(usize, bool, String, usize, R)>, key: MemoKey)
    requires
        forall|q: int| 0 <= q < es.len() ==> key_of(#[trigger] es[q]) != key,
    ensures
        lookup(es, key) is None,
    decreases es.len(),
{
    if es.len() > 0 {
        assert(key_of(es[es.len() - 1]) != key);
        assert forall|q: int| 0 <= q < es.len() - 1 implies key_of(#[trigger] es.drop_last()[q]) != key by {
            assert(es.drop_last()[q] == es[q]);
        }
        lemma_lookup_absent(es.drop_last(), key);
    }
}

/// Overwriting the unique entry of a key with the same key.
proof fn lemma_lookup_set<R>(es: Seq<(usize, bool, String, usize, R)>, i: int, key: MemoKey)
    requires
        0 <= i < es.len(),
        key_of(es[i]) == key,
        forall|a: int, b: int| 0 <= a < b < es.len() ==> key_of(#[trigger] es[a]) != key_of(#[trigger] es[b]),
    ensures
        forall|n: (usize, bool, String, usize, R)| key_of(n) == key ==> {
            let es2 = #[trigger] es.update(i, n);
            &&& forall|a: int, b: int| 0 <= a < b < es2.len() ==> key_of(#[trigger] es2[a]) != key_of(#[trigger] es2[b])
            &&& lookup(es2, key) == Some((n.3, n.4))
            &&& forall|k: MemoKey| k != key ==> lookup(es2, k) == lookup(es, k)
        },
{
    assert forall|n: (usize, bool, String, usize, R)| key_of(n) == key implies {
        let es2 = #[trigger] es.update(i, n);
        &&& forall|a: int, b: int| 0 <= a < b < es2.len() ==> key_of(#[trigger] es2[a]) != key_of(#[trigger] es2[b])
        &&& lookup(es2, key) == Some((n.3, n.4))
        &&& forall|k: MemoKey| k != key ==> lookup(es2, k) == lookup(es, k)
    } by {
        let es2 = es.update(i, n);
        assert forall|a: int, b: int| 0 <= a < b < es2.len() implies key_of(#[trigger] es2[a]) != key_of(#[trigger] es2[b]) by {
            if a != i && b != i {
                assert(key_of(es[a]) != key_of(es[b]));
            } else if a == i {
                assert(key_of(es[a]) != key_of(es[b]));
            } else {
                assert(key_of(es[a]) != key_of(es[b]));
            }
        }
        lemma_lookup_unique(es2, i);
        assert forall|k: MemoKey| k != key implies lookup(es2, k) == lookup(es, k) by {
            lemma_lookup_other(es, i, n, k);
        }
    }
}

/// Replacing an entry of another key does not change what `k` finds.
proof fn lemma_lookup_other<R>(es: Seq<(usize, bool, String, usize, R)>, i: int, n: (usize, bool, String, usize, R), k: MemoKey)
    requires
        0 <= i < es.len(),
        key_of(es[i]) != k,
        key_of(n) != k,
    ensures
        lookup(es.update(i, n), k) == lookup(es, k),
    decreases es.len(),
{
    let es2 = es.update(i, n);
    if i == es.len() - 1 {
        assert(es2.drop_last() =~= es.drop_last());
    } else {
        assert(es2.drop_last() =~= es.drop_last().update(i, n));
        lemma_lookup_other(es.drop_last(), i, n, k);
    }
}

/// Filing a key not yet present.
proof fn lemma_lookup_push<R>(es: Seq<(usize, bool, String, usize, R)>, key: MemoKey)
    requires
        forall|q: int| 0 <= q < es.len() ==> key_of(#[trigger] es[q]) != key,
        forall|a: int, b: int| 0 <= a < b < es.len() ==> key_of(#[trigger] es[a]) != key_of(#[trigger] es[b]),
    ensures
        forall|n: (usize, bool, String, usize, R)| key_of(n) == key ==> {
            let es2 = #[trigger] es.push(n);
            &&& forall|a: int, b: int| 0 <= a < b < es2.len() ==> key_of(#[trigger] es2[a]) != key_of(#[trigger] es2[b])
            &&& lookup(es2, key) == Some((n.3, n.4))
            &&& forall|k: MemoKey| k != key ==> lookup(es2, k) == lookup(es, k)
        },
{
    assert forall|n: (usize, bool, String, usize, R)| key_of(n) == key implies {
        let es2 = #[trigger] es.push(n);
        &&& forall|a: int, b: int| 0 <= a < b < es2.len() ==> key_of(#[trigger] es2[a]) != key_of(#[trigger] es2[b])
        &&& lookup(es2, key) == Some((n.3, n.4))
        &&& forall|k: MemoKey| k != key ==> lookup(es2, k) == lookup(es, k)
    } by {
        let es2 = es.push(n);
        assert(es2.drop_last() =~= es);
        assert forall|a: int, b: int| 0 <= a < b < es2.len() implies key_of(#[trigger] es2[a]) != key_of(#[trigger] es2[b]) by {
            if b == es.len() {
                assert(es2[a] == es[a]);
            } else {
                assert(es2[a] == es[a] && es2[b] == es[b]);
            }
        }
    }
}

/// A packrat parser: the memo of rules already tried, the keywords of the
/// language, the text with its cursor, and the error reported last, with
/// the byte position where it was raised.
pub struct Parser<R> {
    pub memo: Memo<R>,
    pub keywords: HashSet<&'static str>,
    pub stream: Stream,
    pub error: Option<(usize, &'static str)>,
}

impl<R: Clone> Parser<R> {
    /// A parser at the start of `code`, outside strict mode, with nothing
    /// memoized and no error.
    pub fn new(code: String, keywords: HashSet<&'static str>) -> (p: Self)
        ensures
            p.memo.wf(),
            forall|key: MemoKey| p.memo.find(key) is None,
            p.stream.body@ == code@,
            !p.stream.strict,
            p.stream.cursor == 0,
            p.error is None,
            p.keywords == keywords,
    {
        Parser { memo: Memo::new(), keywords, stream: Stream { body: code, strict: false, cursor: 0 }, error: None }
    }

    /// Tries `f` unless an error is pending: `Some(None)` when one is. The
    /// mode is restored afterwards, and the cursor too when `f` fails, which
    /// gives `None`; when `f` succeeds the error is cleared.
    pub fn alter<T, F: Fn(&mut Parser<R>) -> Option<T>>(&mut self, f: F) -> (r: Option<Option<T>>)
        requires
            forall|p: &mut Parser<R>| #[trigger] f.requires((p,)),
        ensures
            old(self).error is Some ==> r == Some(None::<T>) && *final(self) == *old(self),
            old(self).error is None ==> {
                &&& final(self).stream.strict == old(self).stream.strict
                &&& match r {
                    None => final(self).stream.cursor == old(self).stream.cursor,
                    Some(Some(_)) => final(self).error is None,
                    Some(None) => false,
                }
                &&& exists|p: &mut Parser<R>, v: Option<T>|
                    *p == *old(self) && f.ensures((p,), v) && (v is None <==> r is None) && (v matches Some(t) ==> r == Some(Some(t)))
                    && (v is Some ==> final(self).stream.cursor == final(p).stream.cursor)
            },
    {
        if self.error.is_some() {
            return Some(None);
        }
        let mode = self.stream.strict;
        let pos = self.stream.cursor;
        let result = f(self);
        self.stream.strict = mode;
        if result.is_none() {
            self.stream.cursor = pos;
        }
        if result.is_some() {
            self.error = None;
            Some(result)
        } else {
            None
        }
    }
    /// Raises `msg` at the cursor; gives the parser back for chaining.
    pub fn err(&mut self, msg: &'static str) -> (r: &mut Self)
        ensures
            r.error == Some((old(self).stream.cursor, msg)),
            r.stream == old(self).stream,
            r.memo == old(self).memo,
            r.keywords == old(self).keywords,
            *final(self) == *final(r),
    {
        self.error = Some((self.stream.cursor, msg));
        self
    }

    /// Unless an error is pending, reads the characters of `s` one after
    /// the other in strict mode, after the white space the current mode
    /// skips. On success the cursor stays after them and `s` comes back;
    /// otherwise the cursor is restored. The mode is restored either way.
    pub fn expect(&mut self, s: &'static str) -> (r: Option<&'static str>)
        requires
            readable(old(self).stream.body@, old(self).stream.cursor as int),
        ensures
            final(self).stream.body == old(self).stream.body,
            final(self).stream.strict == old(self).stream.strict,
            final(self).error == old(self).error,
            final(self).memo == old(self).memo,
            old(self).error is Some ==> r is None && final(self).stream.cursor == old(self).stream.cursor,
            old(self).error is None ==> forall|k: int|
                0 <= k <= old(self).stream.body@.len() && offset(old(self).stream.body@, k) == old(self).stream.cursor ==> {
                    let t = old(self).stream.body@;
                    let k1 = if old(self).stream.strict { k } else { next_visible(t, k, false) };
                    let hit = k1 + s@.len() <= t.len() && t.subrange(k1, k1 + s@.len()) == s@;
                    &&& hit ==> r == Some(s) && final(self).stream.cursor == offset(t, k1 + s@.len())
                    &&& !hit ==> r is None && final(self).stream.cursor == old(self).stream.cursor
                },
    {
        if self.error.is_some() {
            return None;
        }
        let ghost t = self.stream.body@;
        let ghost k = choose|k: int| 0 <= k <= t.len() && offset(t, k) == self.stream.cursor;
        proof {
            lemma_unique_offset(t, k);
            lemma_next_visible_bounds(t, k, false);
        }
        let ghost k1 = if self.stream.strict { k } else { next_visible(t, k, false) };
        let mode = self.stream.strict;
        let pos = self.stream.cursor;
        self.stream.trim();
        self.stream.strict = true;
        let mut it = s.chars();
        let ghost mut m: int = 0;
        let mut ok = true;
        assert(t.subrange(k1, k1) =~= s@.take(0));
        loop
            invariant_except_break
                ok,
                it.remaining() == s@.skip(m),
                self.stream.cursor == offset(t, k1 + m),
            invariant
                self.stream.body@ == t,
                self.stream.body == old(self).stream.body,
                self.stream.strict,
                self.error == old(self).error,
                self.memo == old(self).memo,
                offset(t, t.len() as int) <= usize::MAX,
                0 <= k1 <= t.len(),
                0 <= m <= s@.len(),
                k1 + m <= t.len(),
                t.subrange(k1, k1 + m) == s@.take(m),
            ensures
                ok ==> m == s@.len() && k1 + m <= t.len() && t.subrange(k1, k1 + m) == s@.take(m) && self.stream.cursor == offset(t, k1 + m),
                !ok ==> !(k1 + s@.len() <= t.len() && t.subrange(k1, k1 + s@.len()) == s@),
            decreases s@.len() - m,
        {
            let ghost before = it.remaining();
            match it.next() {
                None => {
                    assert(before.len() == 0);
                    break;
                },
                Some(c) => {
                    assert(c == s@[m]);
                    let ghost at = self.stream.cursor;
                    proof {
                        lemma_unique_offset(t, k1 + m);
                        lemma_next_visible_bounds(t, k1 + m, true);
                    }
                    let got = self.stream.next();
                    let same = match got {
                        Some(g) => g == c,
                        None => false,
                    };
                    if !same {
                        proof {
                            if k1 + s@.len() <= t.len() && t.subrange(k1, k1 + s@.len()) == s@ {
                                assert(t.subrange(k1, k1 + s@.len())[m] == t[k1 + m]);
                            }
                        }
                        ok = false;
                        break;
                    }
                    proof {
                        assert(t.subrange(k1, k1 + m + 1) =~= s@.take(m + 1));
                        m = m + 1;
                    }
                    assert(it.remaining() =~= s@.skip(m));
                },
            }
        }
        self.stream.strict = mode;
        if ok {
            assert(s@.take(m) =~= s@);
            Some(s)
        } else {
            self.stream.cursor = pos;
            None
        }
    }

    /// Reads the next character the current mode sees and keeps it when
    /// `filter` accepts it; a refused character is put back. At the end of
    /// the text the cursor is left at the end.
    pub fn scan<F: Fn(char) -> bool>(&mut self, filter: F) -> (r: Option<char>)
        requires
            readable(old(self).stream.body@, old(self).stream.cursor as int),
            forall|c: char| filter.requires((c,)),
        ensures
            final(self).stream.body == old(self).stream.body,
            final(self).stream.strict == old(self).stream.strict,
            final(self).error == old(self).error,
            final(self).memo == old(self).memo,
            forall|k: int|
                0 <= k <= old(self).stream.body@.len() && offset(old(self).stream.body@, k) == old(self).stream.cursor ==> {
                    let t = old(self).stream.body@;
                    let j = next_visible(t, k, old(self).stream.strict);
                    &&& j == t.len() ==> r is None && final(self).stream.cursor == offset(t, j)
                    &&& j < t.len() ==> match r {
                        Some(c) => c == t[j] && filter.ensures((c,), true) && final(self).stream.cursor == offset(t, j + 1),
                        None => filter.ensures((t[j],), false) && final(self).stream.cursor == old(self).stream.cursor,
                    }
                },
    {
        let pos = self.stream.cursor;
        let saw = match self.stream.next() {
            Some(c) => c,
            None => return None,
        };
        if filter(saw) {
            Some(saw)
        } else {
            self.stream.cursor = pos;
            None
        }
    }

    /// Whether `filter` accepts the next character the current mode sees
    /// (`'\0'` at the end of the text), without moving the cursor.
    pub fn lookahead<F: Fn(char) -> bool>(&mut self, filter: F) -> (r: Option<char>)
        requires
            readable(old(self).stream.body@, old(self).stream.cursor as int),
            forall|c: char| filter.requires((c,)),
        ensures
            *final(self) == *old(self),
            forall|k: int|
                0 <= k <= old(self).stream.body@.len() && offset(old(self).stream.body@, k) == old(self).stream.cursor ==> {
                    let t = old(self).stream.body@;
                    let j = next_visible(t, k, old(self).stream.strict);
                    let seen = if j < t.len() { t[j] } else { '\0' };
                    match r {
                        Some(c) => c == seen && filter.ensures((c,), true),
                        None => filter.ensures((seen,), false),
                    }
                },
    {
        let pos = self.stream.cursor;
        proof {
            let t = self.stream.body@;
            assert forall|k: int| 0 <= k <= t.len() implies next_visible(t, k, self.stream.strict) <= t.len() by {
                lemma_next_visible_bounds(t, k, self.stream.strict);
            }
        }
        let saw = match self.stream.next() {
            Some(c) => c,
            None => '\0',
        };
        self.stream.cursor = pos;
        if filter(saw) {
            Some(saw)
        } else {
            None
        }
    }
}

/// The character index of a byte offset is unique.
proof fn lemma_unique_offset(t: Seq<char>, k: int)
    requires
        0 <= k <= t.len(),
    ensures
        forall|k2: int| 0 <= k2 <= t.len() && offset(t, k2) == offset(t, k) ==> k2 == k,
{
    assert forall|k2: int| 0 <= k2 <= t.len() && offset(t, k2) == offset(t, k) implies k2 == k by {
        if k2 < k {
            lemma_offset_grows(t, k2, k);
        } else if k2 > k {
            lemma_offset_grows(t, k, k2);
        }
    }
}

} // verus!
