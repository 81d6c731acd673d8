//! Looking up parameters in a raw query string, and decimal numbers in them.

use vstd::prelude::*;

verus! {

/// Index of the last `&` in `q`, or -1 where there is none.
pub open spec fn last_amp(q: Seq<u8>) -> int
    decreases q.len(),
{
    if q.len() == 0 {
        -1
    } else if q.last() == 0x26u8 {
        q.len() - 1
    } else {
        last_amp(q.drop_last())
    }
}

/// Index of the first occurrence of `b` in `s`, or the length of `s` where there is none.
pub open spec fn index_of_byte(s: Seq<u8>, b: u8) -> int
    decreases s.len(),
{
    if s.len() == 0 {
        0
    } else if s[0] == b {
        0
    } else {
        1 + index_of_byte(s.drop_first(), b)
    }
}

/// Index of the first `=` in a `key=value` pair, or its length where there is none.
pub open spec fn eq_index(pair: Seq<u8>) -> int {
    index_of_byte(pair, 0x3du8)
}

/// The key of a pair: what stands before its first `=`.
pub open spec fn pair_key(pair: Seq<u8>) -> Seq<u8> {
    pair.subrange(0, eq_index(pair))
}

/// The value of a pair: what stands after its first `=`, empty where there is no `=`.
pub open spec fn pair_value(pair: Seq<u8>) -> Seq<u8> {
    if eq_index(pair) < pair.len() {
        pair.subrange(eq_index(pair) + 1, pair.len() as int)
    } else {
        Seq::<u8>::empty()
    }
}

pub proof fn lemma_last_amp_bounds(q: Seq<u8>)
    ensures
        -1 <= last_amp(q) < q.len(),
        last_amp(q) >= 0 ==> q[last_amp(q)] == 0x26u8,
    decreases q.len(),
{
    if q.len() > 0 && q.last() != 0x26u8 {
        lemma_last_amp_bounds(q.drop_last());
    }
}

/// The raw value of `key` in a query string `a=1&b=2&...`: pairs are separated by
/// `&`, and where a key occurs more than once its last occurrence counts.
/// Nothing is percent-decoded.
pub open spec fn query_lookup(q: Seq<u8>, key: Seq<u8>) -> Option<Seq<u8>>
    decreases q.len(),
{
    let j = last_amp(q);
    let pair = q.subrange(j + 1, q.len() as int);
    if pair_key(pair) == key {
        Some(pair_value(pair))
    } else if j < 0 {
        None
    } else {
        proof {
            lemma_last_amp_bounds(q);
        }
        query_lookup(q.subrange(0, j), key)
    }
}

proof fn lemma_last_amp_at(q: Seq<u8>, start: int)
    requires
        0 <= start <= q.len(),
        start > 0 ==> q[start - 1] == 0x26u8,
        forall|k: int| start <= k < q.len() ==> q[k] != 0x26u8,
    ensures
        last_amp(q) == start - 1,
    decreases q.len(),
{
    if q.len() > start {
        assert(q.last() != 0x26u8);
        lemma_last_amp_at(q.drop_last(), start);
    }
}

pub proof fn lemma_index_of_byte_at(s: Seq<u8>, b: u8, k: int)
    requires
        0 <= k <= s.len(),
        k < s.len() ==> s[k] == b,
        forall|m: int| 0 <= m < k ==> s[m] != b,
    ensures
        index_of_byte(s, b) == k,
    decreases s.len(),
{
    if k > 0 {
        assert(s[0] != b);
        lemma_index_of_byte_at(s.drop_first(), b, k - 1);
    }
}

/// Byte-string equality.
pub fn bytes_equal(a: &[u8], b: &[u8]) -> (r: bool)
    ensures
        r == (a@ == b@),
{
    if a.len() != b.len() {
        return false;
    }
    let n = a.len();
    for i in 0..n
        invariant
            n == a@.len(),
            n == b@.len(),
            forall|k: int| 0 <= k < i ==> a@[k] == b@[k],
    {
        if a[i] != b[i] {
            return false;
        }
    }
    assert(a@ =~= b@);
    true
}

/// The raw value of `key` in the query string `query` (see [`query_lookup`]).
pub fn query_value<'a>(query: &'a [u8], key: &[u8]) -> (r: Option<&'a [u8]>)
    ensures
        match query_lookup(query@, key@) {
            Some(v) => r matches Some(x) && x@ == v,
            None => r is None,
        },
{
    let n = query.len();
    let mut found: Option<&'a [u8]> = None;
    let mut start: usize = 0;
    loop
        invariant
            n == query@.len(),
            start <= n,
            start > 0 ==> query@[start - 1] == 0x26u8,
            start == 0 ==> found is None,
            start > 0 ==> match query_lookup(query@.subrange(0, start - 1), key@) {
                Some(v) => found matches Some(x) && x@ == v,
                None => found is None,
            },
        decreases n - start,
    {
        // The pair runs from `start` to the next `&` or the end.
        let mut end: usize = start;
        let mut eq: usize = n;
        while end < n && query[end] != 0x26u8
            invariant
                start <= end <= n,
                n == query@.len(),
                forall|k: int| start <= k < end ==> query@[k] != 0x26u8,
                eq == n ==> forall|k: int| start <= k < end ==> query@[k] != 0x3du8,
                eq != n ==> start <= eq < end && query@[eq as int] == 0x3du8 && forall|k: int|
                    start <= k < eq ==> query@[k] != 0x3du8,
            decreases n - end,
        {
            if eq == n && query[end] == 0x3du8 {
                eq = end;
            }
            end = end + 1;
        }
        let ghost prefix = query@.subrange(0, end as int);
        let ghost pair = query@.subrange(start as int, end as int);
        let key_end: usize = if eq == n { end } else { eq };
        proof {
            lemma_last_amp_at(prefix, start as int);
            assert(prefix.subrange(start as int, end as int) =~= pair);
            lemma_index_of_byte_at(pair, 0x3du8, key_end - start);
            if start > 0 {
                assert(prefix.subrange(0, start - 1) =~= query@.subrange(0, start - 1));
            }
        }
        let candidate_key = vstd::slice::slice_subrange(query, start, key_end);
        assert(candidate_key@ =~= pair_key(pair));
        if bytes_equal(candidate_key, key) {
            let value = if eq == n {
                vstd::slice::slice_subrange(query, end, end)
            } else {
                vstd::slice::slice_subrange(query, eq + 1, end)
            };
            assert(value@ =~= pair_value(pair));
            found = Some(value);
        }
        if end == n {
            assert(prefix =~= query@);
            return found;
        }
        start = end + 1;
    }
}

/// The value of a string of ASCII decimal digits, read most significant first.
pub open spec fn digits_value(s: Seq<u8>) -> nat
    decreases s.len(),
{
    if s.len() == 0 {
        0
    } else {
        digits_value(s.drop_last()) * 10 + (s.last() - 0x30) as nat
    }
}

/// Every byte of `s` is an ASCII decimal digit.
pub open spec fn all_digits(s: Seq<u8>) -> bool {
    forall|k: int| 0 <= k < s.len() ==> 0x30u8 <= #[trigger] s[k] && s[k] <= 0x39u8
}

/// How a string becomes an unsigned integer of at most `max`: an optional `+`, then one
/// or more decimal digits and nothing else, whose value does not exceed `max`.
pub open spec fn spec_parse_unsigned(s: Seq<u8>, max: nat) -> Option<nat> {
    let digits = if s.len() > 0 && s[0] == 0x2bu8 {
        s.drop_first()
    } else {
        s
    };
    if digits.len() > 0 && all_digits(digits) && digits_value(digits) <= max {
        Some(digits_value(digits))
    } else {
        None
    }
}

proof fn lemma_digits_value_monotone(s: Seq<u8>, k: int)
    requires
        0 <= k <= s.len(),
        all_digits(s),
    ensures
        digits_value(s.subrange(0, k)) <= digits_value(s),
    decreases s.len() - k,
{
    if k < s.len() {
        let t = s.subrange(0, k + 1);
        assert(t.drop_last() =~= s.subrange(0, k));
        assert(all_digits(t));
        lemma_digits_value_monotone(s, k + 1);
    } else {
        assert(s.subrange(0, k) =~= s);
    }
}

/// Parses an unsigned decimal number of at most `max`, as `str::parse` does for
/// the unsigned integer types.
pub fn parse_unsigned(s: &[u8], max: u64) -> (r: Option<u64>)
    ensures
        match spec_parse_unsigned(s@, max as nat) {
            Some(v) => r == Some(v as u64),
            None => r is None,
        },
{
    let n = s.len();
    let first: usize = if n > 0 && s[0] == 0x2bu8 { 1 } else { 0 };
    let ghost digits = s@.subrange(first as int, n as int);
    assert(digits =~= (if s@.len() > 0 && s@[0] == 0x2bu8 { s@.drop_first() } else { s@ }));
    if first == n {
        return None;
    }
    let mut acc: u64 = 0;
    let mut i: usize = first;
    while i < n
        invariant
            first <= i <= n,
            n == s@.len(),
            digits == s@.subrange(first as int, n as int),
            digits == (if s@.len() > 0 && s@[0] == 0x2bu8 { s@.drop_first() } else { s@ }),
            all_digits(s@.subrange(first as int, i as int)),
            acc as nat == digits_value(s@.subrange(first as int, i as int)),
            acc <= max,
        decreases n - i,
    {
        let c = s[i];
        let ghost before = s@.subrange(first as int, i as int);
        let ghost after = s@.subrange(first as int, i + 1);
        assert(after.drop_last() =~= before);
        if c < 0x30u8 || c > 0x39u8 {
            assert(digits[i - first] == c);
            assert(!all_digits(digits));
            return None;
        }
        assert(all_digits(after));
        let next: u128 = (acc as u128) * 10 + ((c - 0x30u8) as u128);
        if next > max as u128 {
            proof {
                if all_digits(digits) {
                    assert(digits.subrange(0, i + 1 - first) =~= after);
                    lemma_digits_value_monotone(digits, i + 1 - first);
                }
            }
            return None;
        }
        acc = next as u64;
        i = i + 1;
    }
    assert(s@.subrange(first as int, n as int) =~= digits);
    Some(acc)
}

/// Whether `s` can stand as a key: it holds neither `&` nor `=`.
pub open spec fn is_plain_key(s: Seq<u8>) -> bool {
    forall|i: int| 0 <= i < s.len() ==> #[trigger] s[i] != 0x26u8 && s[i] != 0x3du8
}

/// Whether `s` can stand as a value: it holds no `&`.
pub open spec fn is_plain_value(s: Seq<u8>) -> bool {
    forall|i: int| 0 <= i < s.len() ==> #[trigger] s[i] != 0x26u8
}

/// The pair `key=value`.
pub open spec fn pair_bytes(key: Seq<u8>, value: Seq<u8>) -> Seq<u8> {
    key + seq![0x3du8] + value
}

proof fn lemma_pair_parts(key: Seq<u8>, value: Seq<u8>)
    requires
        is_plain_key(key),
        is_plain_value(value),
    ensures
        pair_key(pair_bytes(key, value)) == key,
        pair_value(pair_bytes(key, value)) == value,
        is_plain_value(pair_bytes(key, value)),
{
    let p = pair_bytes(key, value);
    assert forall|m: int| 0 <= m < key.len() implies p[m] != 0x3du8 by {
        assert(p[m] == key[m]);
    }
    lemma_index_of_byte_at(p, 0x3du8, key.len() as int);
    assert(p.subrange(0, key.len() as int) =~= key);
    assert(p.subrange(key.len() + 1int, p.len() as int) =~= value);
    assert forall|i: int| 0 <= i < p.len() implies #[trigger] p[i] != 0x26u8 by {
        if i < key.len() {
            assert(p[i] == key[i]);
        } else if i > key.len() {
            assert(p[i] == value[i - key.len() - 1]);
        }
    }
}

/// A query made of one pair gives that pair's value for its key.
pub proof fn lemma_lookup_single_pair(key: Seq<u8>, value: Seq<u8>)
    requires
        is_plain_key(key),
        is_plain_value(value),
    ensures
        query_lookup(pair_bytes(key, value), key) == Some(value),
{
    let p = pair_bytes(key, value);
    lemma_pair_parts(key, value);
    lemma_last_amp_at(p, 0);
    assert(p.subrange(0, p.len() as int) =~= p);
}

/// A query made of one pair has no value for any other key.
pub proof fn lemma_lookup_single_other_pair(other: Seq<u8>, value: Seq<u8>, key: Seq<u8>)
    requires
        is_plain_key(other),
        is_plain_value(value),
        other != key,
    ensures
        query_lookup(pair_bytes(other, value), key) is None,
{
    let p = pair_bytes(other, value);
    lemma_pair_parts(other, value);
    lemma_last_amp_at(p, 0);
    assert(p.subrange(0, p.len() as int) =~= p);
}

/// Appending `&key=value` to any query makes `key` read `value`: the last
/// occurrence of a key counts.
pub proof fn lemma_lookup_last_pair_wins(q: Seq<u8>, key: Seq<u8>, value: Seq<u8>)
    requires
        is_plain_key(key),
        is_plain_value(value),
    ensures
        query_lookup(q + seq![0x26u8] + pair_bytes(key, value), key) == Some(value),
{
    let p = pair_bytes(key, value);
    let full = q + seq![0x26u8] + p;
    lemma_pair_parts(key, value);
    assert forall|k: int| q.len() + 1 <= k < full.len() implies full[k] != 0x26u8 by {
        assert(full[k] == p[k - q.len() - 1]);
    }
    lemma_last_amp_at(full, q.len() + 1int);
    assert(full.subrange(q.len() + 1int, full.len() as int) =~= p);
}

/// Appending `&other=value` for a different key leaves the value of `key`
/// as it was.
pub proof fn lemma_lookup_other_pair(q: Seq<u8>, key: Seq<u8>, other: Seq<u8>, value: Seq<u8>)
    requires
        is_plain_key(other),
        is_plain_value(value),
        other != key,
    ensures
        query_lookup(q + seq![0x26u8] + pair_bytes(other, value), key) == query_lookup(q, key),
{
    let p = pair_bytes(other, value);
    let full = q + seq![0x26u8] + p;
    lemma_pair_parts(other, value);
    assert forall|k: int| q.len() + 1 <= k < full.len() implies full[k] != 0x26u8 by {
        assert(full[k] == p[k - q.len() - 1]);
    }
    lemma_last_amp_at(full, q.len() + 1int);
    assert(full.subrange(q.len() + 1int, full.len() as int) =~= p);
    assert(full.subrange(0, q.len() as int) =~= q);
}

} // verus!
