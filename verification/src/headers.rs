//! Codec for the composite `headers` field of a trigger: an ordered
//! key/value mapping persisted as a single delimited string, one
//! `key=value,` group per entry. The encoding cannot represent `=` or `,`
//! inside a key or a value; under that documented constraint it round-trips
//! losslessly.

use vstd::prelude::*;
use vstd::string::StrSliceExecFns;
use vstd::string::StringExecFns;
use crate::order::KeyOrder;
use crate::order::lemma_lex_transitive;
use crate::order::lemma_lex_trichotomy;
use crate::order::lex_lt;
use crate::order::str_compare;

verus! {

/// One decoded header entry: key and value, as character sequences.
pub type HeaderPair = (Seq<char>, Seq<char>);

/// A malformed persisted value: fatal when met while loading the store,
/// a plain rejection when met on a write path.
#[derive(Clone, Copy, Debug, PartialEq, Eq, Structural)]
pub enum DecodeError {
    /// A segment of a delimited header string does not hold exactly one `=`.
    MalformedHeaderSegment,
}

/// Index of the first occurrence of `c` in `s`, or `s.len()` when absent.
pub open spec fn first_occur(s: Seq<char>, c: char) -> int
    decreases s.len(),
{
    if s.len() == 0 {
        0
    } else if s[0] == c {
        0
    } else {
        1 + first_occur(s.drop_first(), c)
    }
}

pub proof fn lemma_first_occur(s: Seq<char>, c: char)
    ensures
        0 <= first_occur(s, c) <= s.len(),
        first_occur(s, c) < s.len() ==> s[first_occur(s, c)] == c,
        forall|j: int| 0 <= j < first_occur(s, c) ==> s[j] != c,
    decreases s.len(),
{
    if s.len() > 0 && s[0] != c {
        lemma_first_occur(s.drop_first(), c);
        let f = first_occur(s, c);
        assert forall|j: int| 0 <= j < f implies s[j] != c by {
            if j > 0 {
                assert(s[j] == s.drop_first()[j - 1]);
            }
        }
        if f < s.len() {
            assert(s[f] == s.drop_first()[f - 1]);
        }
    }
}

pub proof fn lemma_first_occur_is(s: Seq<char>, c: char, i: int)
    requires
        0 <= i <= s.len(),
        forall|j: int| 0 <= j < i ==> s[j] != c,
        i < s.len() ==> s[i] == c,
    ensures
        first_occur(s, c) == i,
    decreases s.len(),
{
    if s.len() > 0 && s[0] != c {
        assert forall|j: int| 0 <= j < i - 1 implies s.drop_first()[j] != c by {
            assert(s.drop_first()[j] == s[j + 1]);
        }
        if i - 1 < s.drop_first().len() {
            assert(s.drop_first()[i - 1] == s[i]);
        }
        lemma_first_occur_is(s.drop_first(), c, i - 1);
    }
}

/// Split a raw header string on `,`, with a trailing `,` producing no
/// empty final segment, as the persisted form is written with one.
pub open spec fn split_commas(s: Seq<char>) -> Seq<Seq<char>>
    decreases s.len(),
    via split_commas_decreases
{
    if s.len() == 0 {
        Seq::empty()
    } else {
        let i = first_occur(s, ',');
        if i == s.len() {
            seq![s]
        } else {
            seq![s.take(i)] + split_commas(s.skip(i + 1))
        }
    }
}

#[via_fn]
proof fn split_commas_decreases(s: Seq<char>) {
    lemma_first_occur(s, ',');
}

pub open spec fn has_char(s: Seq<char>, c: char) -> bool {
    exists|j: int| 0 <= j < s.len() && s[j] == c
}

/// Split one segment at its sole `=`; `None` when the segment does not
/// hold exactly one `=`.
pub open spec fn split_eq(seg: Seq<char>) -> Option<HeaderPair> {
    let i = first_occur(seg, '=');
    if i == seg.len() {
        None
    } else if has_char(seg.skip(i + 1), '=') {
        None
    } else {
        Some((seg.take(i), seg.skip(i + 1)))
    }
}

/// Decode every segment, in order; `None` when any segment is malformed.
pub open spec fn decode_pairs(segs: Seq<Seq<char>>) -> Option<Seq<HeaderPair>>
    decreases segs.len(),
{
    if segs.len() == 0 {
        Some(Seq::empty())
    } else {
        match (split_eq(segs[0]), decode_pairs(segs.drop_first())) {
            (Some(p), Some(rest)) => Some(seq![p] + rest),
            _ => None,
        }
    }
}

/// Insert one pair into a key-sorted pair sequence, replacing the held
/// value when the key is already present.
pub open spec fn insert_pair(m: Seq<HeaderPair>, p: HeaderPair) -> Seq<HeaderPair>
    decreases m.len(),
{
    if m.len() == 0 {
        seq![p]
    } else if lex_lt(p.0, m[0].0) {
        seq![p] + m
    } else if p.0 == m[0].0 {
        seq![p] + m.drop_first()
    } else {
        seq![m[0]] + insert_pair(m.drop_first(), p)
    }
}

/// Fold a pair sequence, in order, into a sorted mapping; a later entry
/// with the same key replaces the earlier one.
pub open spec fn sort_pairs(ps: Seq<HeaderPair>) -> Seq<HeaderPair>
    decreases ps.len(),
{
    if ps.len() == 0 {
        Seq::empty()
    } else {
        insert_pair(sort_pairs(ps.drop_last()), ps.last())
    }
}

/// What a raw header string decodes to: the sorted mapping of its
/// segments, or `None` on a malformed segment.
pub open spec fn decode_headers_spec(raw: Seq<char>) -> Option<Seq<HeaderPair>> {
    match decode_pairs(split_commas(raw)) {
        Some(ps) => Some(sort_pairs(ps)),
        None => None,
    }
}

/// The delimited encoding of a header mapping: `key=value,` per entry,
/// in the mapping's own order.
pub open spec fn encode_headers_spec(h: Seq<HeaderPair>) -> Seq<char>
    decreases h.len(),
{
    if h.len() == 0 {
        Seq::empty()
    } else {
        h[0].0 + seq!['='] + h[0].1 + seq![','] + encode_headers_spec(h.drop_first())
    }
}

/// Keys strictly sorted, hence unique.
pub open spec fn headers_wf(s: Seq<HeaderPair>) -> bool {
    forall|i: int, j: int| 0 <= i < j < s.len() ==> lex_lt(s[i].0, s[j].0)
}

/// Free of the two characters the delimited encoding reserves.
pub open spec fn clean(s: Seq<char>) -> bool {
    forall|j: int| 0 <= j < s.len() ==> s[j] != '=' && s[j] != ','
}

/// First position whose key is not below `key`, or `m.len()` when all are.
pub open spec fn find_pos(m: Seq<HeaderPair>, key: Seq<char>) -> int
    decreases m.len(),
{
    if m.len() == 0 {
        0
    } else if !lex_lt(m[0].0, key) {
        0
    } else {
        1 + find_pos(m.drop_first(), key)
    }
}

pub proof fn lemma_find_pos(m: Seq<HeaderPair>, key: Seq<char>)
    ensures
        0 <= find_pos(m, key) <= m.len(),
        find_pos(m, key) < m.len() ==> !lex_lt(m[find_pos(m, key)].0, key),
        forall|j: int| 0 <= j < find_pos(m, key) ==> lex_lt(m[j].0, key),
    decreases m.len(),
{
    if m.len() > 0 && lex_lt(m[0].0, key) {
        lemma_find_pos(m.drop_first(), key);
        let f = find_pos(m, key);
        assert forall|j: int| 0 <= j < f implies lex_lt(m[j].0, key) by {
            if j > 0 {
                assert(m[j] == m.drop_first()[j - 1]);
            }
        }
        if f < m.len() {
            assert(m[f] == m.drop_first()[f - 1]);
        }
    }
}

pub proof fn lemma_find_pos_is(m: Seq<HeaderPair>, key: Seq<char>, i: int)
    requires
        0 <= i <= m.len(),
        forall|j: int| 0 <= j < i ==> lex_lt(m[j].0, key),
        i < m.len() ==> !lex_lt(m[i].0, key),
    ensures
        find_pos(m, key) == i,
    decreases m.len(),
{
    if m.len() > 0 && lex_lt(m[0].0, key) {
        assert forall|j: int| 0 <= j < i - 1 implies lex_lt(m.drop_first()[j].0, key) by {
            assert(m.drop_first()[j] == m[j + 1]);
        }
        if i - 1 < m.drop_first().len() {
            assert(m.drop_first()[i - 1] == m[i]);
        }
        lemma_find_pos_is(m.drop_first(), key, i - 1);
    }
}

/// The explicit shape of `insert_pair` at the insertion position `j`.
pub proof fn lemma_insert_pair_mid(m: Seq<HeaderPair>, p: HeaderPair, j: int)
    requires
        0 <= j <= m.len(),
        forall|i: int| 0 <= i < j ==> lex_lt(m[i].0, p.0),
    ensures
        j < m.len() && p.0 == m[j].0 ==> insert_pair(m, p) == m.update(j, p),
        j < m.len() && lex_lt(p.0, m[j].0) ==> insert_pair(m, p) == m.take(j) + seq![p] + m.skip(j),
        j == m.len() ==> insert_pair(m, p) == m + seq![p],
    decreases m.len(),
{
    if m.len() == 0 {
        assert(insert_pair(m, p) =~= m + seq![p]);
    } else if j == 0 {
        lemma_lex_trichotomy(p.0, m[0].0);
        if p.0 == m[0].0 {
            assert(seq![p] + m.drop_first() =~= m.update(0, p));
        } else if lex_lt(p.0, m[0].0) {
            assert(seq![p] + m =~= m.take(0) + seq![p] + m.skip(0));
        }
    } else {
        lemma_lex_trichotomy(p.0, m[0].0);
        let d = m.drop_first();
        assert forall|i: int| 0 <= i < j - 1 implies lex_lt(d[i].0, p.0) by {
            assert(d[i] == m[i + 1]);
        }
        lemma_insert_pair_mid(d, p, j - 1);
        assert(insert_pair(m, p) == seq![m[0]] + insert_pair(d, p));
        if j < m.len() && p.0 == m[j].0 {
            assert(d[j - 1] == m[j]);
            assert(seq![m[0]] + d.update(j - 1, p) =~= m.update(j, p));
        } else if j < m.len() && lex_lt(p.0, m[j].0) {
            assert(d[j - 1] == m[j]);
            assert(seq![m[0]] + (d.take(j - 1) + seq![p] + d.skip(j - 1)) =~= m.take(j) + seq![p]
                + m.skip(j));
        } else if j == m.len() {
            assert(seq![m[0]] + (d + seq![p]) =~= m + seq![p]);
        }
    }
}

/// Inserting into a well-formed mapping keeps it well-formed.
pub proof fn lemma_insert_pair_wf(m: Seq<HeaderPair>, p: HeaderPair)
    requires
        headers_wf(m),
    ensures
        headers_wf(insert_pair(m, p)),
{
    let j = find_pos(m, p.0);
    lemma_find_pos(m, p.0);
    lemma_insert_pair_mid(m, p, j);
    if j < m.len() {
        lemma_lex_trichotomy(p.0, m[j].0);
        if p.0 == m[j].0 {
            let r = m.update(j, p);
            assert forall|x: int, y: int| 0 <= x < y < r.len() implies lex_lt(r[x].0, r[y].0) by {
                assert(lex_lt(m[x].0, m[y].0));
            }
        } else {
            let r = m.take(j) + seq![p] + m.skip(j);
            assert forall|x: int, y: int| 0 <= x < y < r.len() implies lex_lt(r[x].0, r[y].0) by {
                if x < j {
                    assert(r[x] == m[x]);
                }
                if y < j {
                    assert(r[y] == m[y]);
                }
                if x > j {
                    assert(r[x] == m[x - 1]);
                }
                if y > j {
                    assert(r[y] == m[y - 1]);
                }
                if x == j {
                    assert(r[x] == p);
                }
                if y == j {
                    assert(r[y] == p);
                }
                if y == j {
                    // r[x] is m[x] with x < j: below the key
                    assert(lex_lt(m[x].0, p.0));
                } else if x == j {
                    // r[y] is m[y - 1] with y - 1 >= j: at or above m[j]
                    if y - 1 == j {
                        assert(lex_lt(p.0, m[j].0));
                    } else {
                        assert(lex_lt(m[j].0, m[y - 1].0));
                        lemma_lex_transitive(p.0, m[j].0, m[y - 1].0);
                    }
                }
            }
        }
    }
}

/// Sorting a mapping that is already sorted leaves it as it stands.
pub proof fn lemma_sort_pairs_sorted(h: Seq<HeaderPair>)
    requires
        headers_wf(h),
    ensures
        sort_pairs(h) == h,
    decreases h.len(),
{
    if h.len() > 0 {
        let d = h.drop_last();
        assert(headers_wf(d));
        lemma_sort_pairs_sorted(d);
        assert forall|i: int| 0 <= i < d.len() implies lex_lt(d[i].0, h.last().0) by {
            assert(d[i] == h[i]);
        }
        lemma_insert_pair_mid(d, h.last(), d.len() as int);
        assert(d + seq![h.last()] =~= h);
    }
}

/// Encoding distributes over concatenation of mappings.
pub proof fn lemma_encode_concat(a: Seq<HeaderPair>, b: Seq<HeaderPair>)
    ensures
        encode_headers_spec(a + b) == encode_headers_spec(a) + encode_headers_spec(b),
    decreases a.len(),
{
    if a.len() == 0 {
        assert(a + b =~= b);
        assert(encode_headers_spec(a) + encode_headers_spec(b) =~= encode_headers_spec(b));
    } else {
        assert((a + b).drop_first() =~= a.drop_first() + b);
        lemma_encode_concat(a.drop_first(), b);
        assert((a + b)[0] == a[0]);
        assert(encode_headers_spec(a + b) =~= encode_headers_spec(a) + encode_headers_spec(b));
    }
}

/// Decoding the encoding recovers the pairs, in order, before sorting.
proof fn lemma_decode_of_encode(h: Seq<HeaderPair>)
    requires
        forall|i: int| 0 <= i < h.len() ==> clean(#[trigger] h[i].0) && clean(h[i].1),
    ensures
        decode_pairs(split_commas(encode_headers_spec(h))) == Some(h),
    decreases h.len(),
{
    if h.len() == 0 {
        assert(split_commas(encode_headers_spec(h)) =~= Seq::<Seq<char>>::empty());
        assert(decode_pairs(split_commas(encode_headers_spec(h))) == Some(Seq::<HeaderPair>::empty()));
        assert(h =~= Seq::<HeaderPair>::empty());
    } else {
        let k = h[0].0;
        let v = h[0].1;
        let rest = encode_headers_spec(h.drop_first());
        let e = encode_headers_spec(h);
        assert(e == k + seq!['='] + v + seq![','] + rest);
        let i1 = k.len() + 1 + v.len();
        assert forall|j: int| 0 <= j < i1 implies e[j] != ',' by {
            if j < k.len() {
                assert(e[j] == k[j]);
            } else if j == k.len() {
                assert(e[j] == '=');
            } else {
                assert(e[j] == v[j - k.len() - 1]);
            }
        }
        assert(e[i1 as int] == ',');
        lemma_first_occur_is(e, ',', i1 as int);
        assert(i1 < e.len());
        let seg0 = e.take(i1 as int);
        assert(seg0 =~= k + seq!['='] + v);
        assert(e.skip(i1 + 1 as int) =~= rest);
        assert(split_commas(e) == seq![seg0] + split_commas(rest));

        // The single segment splits back into the key and the value.
        assert forall|j: int| 0 <= j < k.len() implies seg0[j] != '=' by {
            assert(seg0[j] == k[j]);
        }
        assert(seg0[k.len() as int] == '=');
        lemma_first_occur_is(seg0, '=', k.len() as int);
        assert(seg0.skip(k.len() + 1 as int) =~= v);
        assert(!has_char(v, '='));
        assert(seg0.take(k.len() as int) =~= k);
        assert(split_eq(seg0) == Some((k, v)));

        assert forall|i: int| 0 <= i < h.drop_first().len() implies clean(
            #[trigger] h.drop_first()[i].0,
        ) && clean(h.drop_first()[i].1) by {
            assert(h.drop_first()[i] == h[i + 1]);
        }
        lemma_decode_of_encode(h.drop_first());

        let segs = seq![seg0] + split_commas(rest);
        assert(segs[0] == seg0);
        assert(segs.drop_first() =~= split_commas(rest));
        assert((k, v) == h[0]);
        assert(seq![h[0]] + h.drop_first() =~= h);
    }
}

/// The views of an executable pair list.
pub open spec fn pairs_view(v: Seq<(String, String)>) -> Seq<HeaderPair> {
    Seq::new(v.len(), |i: int| (v[i].0@, v[i].1@))
}

/// An ordered header mapping: key/value pairs held with their keys
/// strictly sorted, so that the persisted encoding is canonical.
#[derive(Debug, Clone, PartialEq)]
pub struct Headers {
    pairs: Vec<(String, String)>,
}

impl View for Headers {
    type V = Seq<HeaderPair>;

    closed spec fn view(&self) -> Seq<HeaderPair> {
        pairs_view(self.pairs@)
    }
}

impl Headers {
    /// Keys strictly sorted.
    pub open spec fn wf(&self) -> bool {
        headers_wf(self@)
    }

    pub fn new() -> (r: Headers)
        ensures
            r@ == Seq::<HeaderPair>::empty(),
            r.wf(),
    {
        let r = Headers { pairs: Vec::new() };
        proof {
            assert(r@ =~= Seq::<HeaderPair>::empty());
        }
        r
    }

    pub fn len(&self) -> (n: usize)
        ensures
            n == self@.len(),
    {
        self.pairs.len()
    }

    /// The entries in their sorted order.
    pub fn entries(&self) -> (r: &Vec<(String, String)>)
        ensures
            pairs_view(r@) == self@,
    {
        &self.pairs
    }

    /// Put one entry into the mapping, replacing the held value when the
    /// key is already present.
    pub fn insert(&mut self, key: String, value: String)
        requires
            old(self).wf(),
        ensures
            final(self).wf(),
            final(self)@ == insert_pair(old(self)@, (key@, value@)),
    {
        let ghost m = self@;
        let ghost p = (key@, value@);
        let mut j: usize = 0;
        while j < self.pairs.len()
            invariant_except_break
                *self == *old(self),
                j <= self@.len(),
                forall|i: int| 0 <= i < j ==> lex_lt(self@[i].0, key@),
            ensures
                *self == *old(self),
                j <= self@.len(),
                forall|i: int| 0 <= i < j ==> lex_lt(self@[i].0, key@),
                j < self@.len() ==> !lex_lt(self@[j as int].0, key@),
            decreases self@.len() - j,
        {
            let c = str_compare(self.pairs[j].0.as_str(), key.as_str());
            proof {
                assert(self.pairs@[j as int].0@ == self@[j as int].0);
            }
            if c == KeyOrder::Less {
                j = j + 1;
            } else {
                break;
            }
        }
        proof {
            lemma_find_pos_is(m, p.0, j as int);
            lemma_insert_pair_mid(m, p, j as int);
            lemma_insert_pair_wf(m, p);
        }
        if j < self.pairs.len() {
            let c2 = str_compare(self.pairs[j].0.as_str(), key.as_str());
            proof {
                assert(self.pairs@[j as int].0@ == self@[j as int].0);
            }
            if c2 == KeyOrder::Equal {
                let ghost old_pairs = self.pairs@;
                self.pairs.remove(j);
                self.pairs.insert(j, (key, value));
                proof {
                    assert(self.pairs@ =~= old_pairs.update(j as int, self.pairs@[j as int]));
                    assert(self@ =~= m.update(j as int, p));
                }
            } else {
                self.pairs.insert(j, (key, value));
                proof {
                    assert(self@ =~= m.take(j as int) + seq![p] + m.skip(j as int));
                }
            }
        } else {
            self.pairs.push((key, value));
            proof {
                assert(self@ =~= m + seq![p]);
            }
        }
    }
}

/// Index of the first occurrence of `c` in `s`, or the length when absent.
fn find_first(s: &str, c: char) -> (r: usize)
    ensures
        r == first_occur(s@, c),
{
    let n = s.unicode_len();
    let mut i: usize = 0;
    while i < n
        invariant
            i <= n,
            n == s@.len(),
            forall|j: int| 0 <= j < i ==> s@[j] != c,
        decreases n - i,
    {
        if s.get_char(i) == c {
            proof {
                lemma_first_occur_is(s@, c, i as int);
            }
            return i;
        }
        i = i + 1;
    }
    proof {
        lemma_first_occur_is(s@, c, n as int);
    }
    n
}

/// Split one `key=value` segment at its sole `=`.
fn parse_segment(seg: &str) -> (r: Result<(String, String), DecodeError>)
    ensures
        match r {
            Ok(p) => split_eq(seg@) == Some((p.0@, p.1@)),
            Err(_) => split_eq(seg@) is None,
        },
{
    let n = seg.unicode_len();
    let i = find_first(seg, '=');
    proof {
        lemma_first_occur(seg@, '=');
    }
    if i == n {
        return Err(DecodeError::MalformedHeaderSegment);
    }
    let key = seg.substring_char(0, i);
    let rest = seg.substring_char(i + 1, n);
    proof {
        assert(rest@ =~= seg@.skip(i + 1 as int));
        assert(key@ =~= seg@.take(i as int));
    }
    let j = find_first(rest, '=');
    proof {
        lemma_first_occur(rest@, '=');
    }
    if j < rest.unicode_len() {
        proof {
            assert(rest@[j as int] == '=');
            assert(has_char(rest@, '='));
        }
        return Err(DecodeError::MalformedHeaderSegment);
    }
    proof {
        assert(!has_char(rest@, '='));
    }
    Ok((key.to_owned(), rest.to_owned()))
}

/// Split a raw header string into its decoded `key=value` pairs, in order.
fn split_segments(raw: &str) -> (r: Result<Vec<(String, String)>, DecodeError>)
    ensures
        match r {
            Ok(ps) => decode_pairs(split_commas(raw@)) == Some(pairs_view(ps@)),
            Err(_) => decode_pairs(split_commas(raw@)) is None,
        },
    decreases raw@.len(),
{
    if raw.is_empty() {
        let ps: Vec<(String, String)> = Vec::new();
        proof {
            assert(split_commas(raw@) =~= Seq::<Seq<char>>::empty());
            assert(pairs_view(ps@) =~= Seq::<HeaderPair>::empty());
        }
        return Ok(ps);
    }
    let n = raw.unicode_len();
    let i = find_first(raw, ',');
    proof {
        lemma_first_occur(raw@, ',');
    }
    if i == n {
        proof {
            assert(split_commas(raw@) == seq![raw@]);
            assert(seq![raw@].drop_first() =~= Seq::<Seq<char>>::empty());
        }
        match parse_segment(raw) {
            Ok(p) => {
                let mut ps: Vec<(String, String)> = Vec::new();
                let ghost pv = (p.0@, p.1@);
                ps.push(p);
                proof {
                    assert(pairs_view(ps@) =~= seq![pv] + Seq::<HeaderPair>::empty());
                    let segs = seq![raw@];
                    assert(decode_pairs(Seq::<Seq<char>>::empty()) == Some(
                        Seq::<HeaderPair>::empty(),
                    ));
                    assert(decode_pairs(segs.drop_first()) == Some(Seq::<HeaderPair>::empty()));
                    assert(split_eq(segs[0]) == Some(pv));
                    assert(decode_pairs(segs) == Some(seq![pv] + Seq::<HeaderPair>::empty()));
                }
                Ok(ps)
            },
            Err(e) => Err(e),
        }
    } else {
        let seg = raw.substring_char(0, i);
        let rest = raw.substring_char(i + 1, n);
        proof {
            assert(seg@ =~= raw@.take(i as int));
            assert(rest@ =~= raw@.skip(i + 1 as int));
            assert(split_commas(raw@) == seq![seg@] + split_commas(rest@));
            assert((seq![seg@] + split_commas(rest@))[0] == seg@);
            assert((seq![seg@] + split_commas(rest@)).drop_first() =~= split_commas(rest@));
        }
        let p = match parse_segment(seg) {
            Ok(p) => p,
            Err(e) => {
                return Err(e);
            },
        };
        let mut ps = match split_segments(rest) {
            Ok(ps) => ps,
            Err(e) => {
                return Err(e);
            },
        };
        let ghost pv = (p.0@, p.1@);
        let ghost tail = pairs_view(ps@);
        ps.insert(0, p);
        proof {
            assert(pairs_view(ps@) =~= seq![pv] + tail);
            let segs = split_commas(raw@);
            assert(segs == seq![seg@] + split_commas(rest@));
            assert(split_eq(segs[0]) == Some(pv));
            assert(decode_pairs(segs.drop_first()) == Some(tail));
            assert(decode_pairs(segs) == Some(seq![pv] + tail));
        }
        Ok(ps)
    }
}

/// Decode a persisted delimited header string into its ordered mapping.
/// Splits on `,`, then splits each segment on its sole `=`; a segment
/// without exactly one `=` is a malformed-data error. An empty string and
/// a trailing `,` decode cleanly.
pub fn build_headers(raw: &str) -> (r: Result<Headers, DecodeError>)
    ensures
        match r {
            Ok(h) => decode_headers_spec(raw@) == Some(h@) && h.wf(),
            Err(_) => decode_headers_spec(raw@) is None,
        },
{
    let mut ps = match split_segments(raw) {
        Ok(ps) => ps,
        Err(e) => {
            return Err(e);
        },
    };
    let ghost all = pairs_view(ps@);
    let mut h = Headers::new();
    let ghost mut k: int = 0;
    proof {
        assert(all.take(0) =~= Seq::<HeaderPair>::empty());
    }
    proof {
        assert(pairs_view(ps@) =~= all.skip(0));
    }
    while ps.len() > 0
        invariant
            h.wf(),
            0 <= k <= all.len(),
            pairs_view(ps@) == all.skip(k),
            h@ == sort_pairs(all.take(k)),
        decreases ps@.len(),
    {
        proof {
            assert(pairs_view(ps@).len() == ps@.len());
            assert(all.skip(k).len() == all.len() - k);
        }
        let ghost old_ps = ps@;
        let p = ps.remove(0);
        let ghost pv = (p.0@, p.1@);
        proof {
            assert(pairs_view(old_ps)[0] == pv);
            assert(all.skip(k)[0] == all[k]);
            let t = all.take(k + 1);
            assert(t.drop_last() =~= all.take(k));
            assert(t.last() == all[k]);
            assert(sort_pairs(t) == insert_pair(sort_pairs(all.take(k)), all[k]));
        }
        h.insert(p.0, p.1);
        proof {
            k = k + 1;
            assert forall|i: int| 0 <= i < ps@.len() implies pairs_view(ps@)[i] == all.skip(k)[i]
                by {
                assert(ps@[i] == old_ps[i + 1]);
                assert(pairs_view(old_ps)[i + 1] == all.skip(k - 1)[i + 1]);
            }
            assert(pairs_view(ps@) =~= all.skip(k));
        }
    }
    proof {
        assert(all.take(k) =~= all);
    }
    Ok(h)
}

/// Encode an ordered header mapping as its persisted delimited string:
/// `key=value,` per entry, in the mapping's own (sorted) order.
pub fn unbuild_headers(headers: &Headers) -> (r: String)
    ensures
        r@ == encode_headers_spec(headers@),
{
    let mut out = String::new();
    let n = headers.pairs.len();
    let mut i: usize = 0;
    proof {
        assert(headers@.take(0) =~= Seq::<HeaderPair>::empty());
    }
    while i < n
        invariant
            i <= n,
            n == headers@.len(),
            n == headers.pairs@.len(),
            out@ == encode_headers_spec(headers@.take(i as int)),
        decreases n - i,
    {
        proof {
            reveal_strlit("=");
            reveal_strlit(",");
        }
        out.append(headers.pairs[i].0.as_str());
        out.append("=");
        out.append(headers.pairs[i].1.as_str());
        out.append(",");
        proof {
            let hv = headers@;
            assert(headers.pairs@[i as int].0@ == hv[i as int].0);
            assert(headers.pairs@[i as int].1@ == hv[i as int].1);
            lemma_encode_concat(hv.take(i as int), seq![hv[i as int]]);
            assert(hv.take(i as int) + seq![hv[i as int]] =~= hv.take(i + 1 as int));
            assert(seq![hv[i as int]].drop_first() =~= Seq::<HeaderPair>::empty());
            assert(encode_headers_spec(Seq::<HeaderPair>::empty()) == Seq::<char>::empty());
            assert(encode_headers_spec(seq![hv[i as int]]) =~= hv[i as int].0 + seq!['=']
                + hv[i as int].1 + seq![',']);
            assert(out@ =~= encode_headers_spec(hv.take(i + 1 as int)));
        }
        i = i + 1;
    }
    proof {
        assert(headers@.take(n as int) =~= headers@);
    }
    out
}

/// Round-trip law: a well-formed header mapping whose keys and values
/// avoid `=` and `,` is recovered exactly by decoding its encoding.
pub proof fn lemma_headers_round_trip(h: Seq<HeaderPair>)
    requires
        headers_wf(h),
        forall|i: int| 0 <= i < h.len() ==> clean(#[trigger] h[i].0) && clean(h[i].1),
    ensures
        decode_headers_spec(encode_headers_spec(h)) == Some(h),
{
    lemma_decode_of_encode(h);
    lemma_sort_pairs_sorted(h);
}

} // verus!
