//! Segment file names: segment `N` lives in the file `N.log`, with `N` in
//! decimal, without leading zeros, from 1 up.
use vstd::prelude::*;
use vstd::string::StrSliceExecFns;

verus! {

/// `c` is a decimal digit.
pub open spec fn is_digit(c: char) -> bool {
    '0' <= c && c <= '9'
}

/// The number that a string of decimal digits writes.
pub open spec fn decimal_value(s: Seq<char>) -> int
    decreases s.len(),
{
    if s.len() == 0 {
        0
    } else {
        decimal_value(s.drop_last()) * 10 + (s.last() as int - '0' as int)
    }
}

/// The segment id that a file name gives, if it names a segment.
pub open spec fn segment_name_id(name: Seq<char>) -> Option<u64> {
    let n = name.len();
    if n >= 5 && name[n - 4] == '.' && name[n - 3] == 'l' && name[n - 2] == 'o' && name[n - 1] == 'g' {
        let stem = name.take(n - 4);
        if (forall|i: int| 0 <= i < stem.len() ==> is_digit(#[trigger] stem[i])) && stem[0] != '0'
            && decimal_value(stem) <= u64::MAX {
            Some(decimal_value(stem) as u64)
        } else {
            None
        }
    } else {
        None
    }
}

/// A string of digits writes no less than any of its prefixes.
proof fn lemma_decimal_grows(s: Seq<char>, j: int)
    requires
        0 <= j <= s.len(),
        forall|i: int| 0 <= i < s.len() ==> is_digit(#[trigger] s[i]),
    ensures
        decimal_value(s.take(j)) <= decimal_value(s),
        decimal_value(s) >= 0,
    decreases s.len(),
{
    if s.len() > 0 {
        let d = s.drop_last();
        assert forall|i: int| 0 <= i < d.len() implies is_digit(#[trigger] d[i]) by {
            assert(d[i] == s[i]);
        }
        assert(is_digit(s[s.len() - 1]));
        if j == s.len() {
            assert(s.take(j) =~= s);
            lemma_decimal_grows(d, 0);
        } else {
            lemma_decimal_grows(d, j);
            assert(d.take(j) =~= s.take(j));
        }
    } else {
        assert(s.take(j) =~= s);
    }
}

/// The segment id that a file name gives, if it names a segment.
pub fn segment_id(name: &str) -> (r: Option<u64>)
    ensures
        r == segment_name_id(name@),
{
    let n = name.unicode_len();
    if n < 5 {
        return None;
    }
    if name.get_char(n - 4) != '.' || name.get_char(n - 3) != 'l' || name.get_char(n - 2) != 'o'
        || name.get_char(n - 1) != 'g' {
        return None;
    }
    let stem_len = n - 4;
    let ghost stem = name@.take(stem_len as int);
    if name.get_char(0) == '0' {
        return None;
    }
    let mut v: u64 = 0;
    let mut i: usize = 0;
    assert(stem.take(0) =~= Seq::<char>::empty());
    while i < stem_len
        invariant
            0 <= i <= stem_len,
            stem_len + 4 == n,
            n == name@.len(),
            stem == name@.take(stem_len as int),
            forall|j: int| 0 <= j < i ==> is_digit(#[trigger] stem[j]),
            v == decimal_value(stem.take(i as int)),
        decreases stem_len - i,
    {
        let c = name.get_char(i);
        if !('0' <= c && c <= '9') {
            assert(!is_digit(stem[i as int]));
            return None;
        }
        let d = (c as u32 - '0' as u32) as u64;
        assert(stem.take(i + 1).drop_last() =~= stem.take(i as int));
        if v > (u64::MAX - d) / 10 {
            proof {
                assert(decimal_value(stem.take(i + 1)) > u64::MAX) by (nonlinear_arith)
                    requires
                        v > (u64::MAX - d) / 10,
                        decimal_value(stem.take(i + 1)) == v * 10 + d,
                        0 <= d <= 9,
                ;
                if forall|j: int| 0 <= j < stem.len() ==> is_digit(#[trigger] stem[j]) {
                    lemma_decimal_grows(stem, i + 1);
                }
            }
            return None;
        }
        assert(v * 10 + d <= u64::MAX) by (nonlinear_arith)
            requires
                v <= (u64::MAX - d) / 10,
                0 <= d <= 9,
        ;
        v = v * 10 + d;
        i += 1;
    }
    assert(stem.take(stem_len as int) =~= stem);
    Some(v)
}

/// The ids of the segments among file names, ascending, each once.
pub fn segment_ids(names: &Vec<String>) -> (r: Vec<u64>)
    ensures
        forall|i: int, j: int| 0 <= i < j < r@.len() ==> r@[i] < r@[j],
        forall|id: u64|
            r@.contains(id) <==> exists|j: int|
                0 <= j < names@.len() && segment_name_id(#[trigger] names@[j]@) == Some(id),
{
    let mut r: Vec<u64> = Vec::new();
    let mut i: usize = 0;
    while i < names.len()
        invariant
            0 <= i <= names@.len(),
            forall|a: int, b: int| 0 <= a < b < r@.len() ==> r@[a] < r@[b],
            forall|id: u64|
                r@.contains(id) <==> exists|j: int|
                    0 <= j < i && segment_name_id(#[trigger] names@[j]@) == Some(id),
        decreases names@.len() - i,
    {
        let ghost before = r@;
        if let Some(id) = segment_id(names[i].as_str()) {
            let mut p: usize = 0;
            while p < r.len() && r[p] < id
                invariant
                    0 <= p <= r@.len(),
                    forall|a: int| 0 <= a < p ==> r@[a] < id,
                decreases r@.len() - p,
            {
                p += 1;
            }
            if p == r.len() || r[p] != id {
                r.insert(p, id);
                assert forall|a: int, b: int| 0 <= a < b < r@.len() implies r@[a] < r@[b] by {
                    if b < p {
                    } else if b == p {
                    } else if a < p {
                        assert(before[b - 1] >= id);
                    } else if a == p {
                        assert(before[b - 1] >= id);
                        assert(before[b - 1] != id || b - 1 > p);
                        if b - 1 > p {
                            assert(before[p as int] < before[b - 1]);
                        }
                    } else {
                        assert(before[a - 1] < before[b - 1]);
                    }
                }
                assert forall|x: u64| r@.contains(x) <==> (before.contains(x) || x == id) by {
                    if r@.contains(x) {
                        let a = choose|a: int| 0 <= a < r@.len() && r@[a] == x;
                        if a < p {
                            assert(before[a] == x);
                        } else if a > p {
                            assert(before[a - 1] == x);
                        }
                    }
                    if before.contains(x) {
                        let a = choose|a: int| 0 <= a < before.len() && before[a] == x;
                        if a < p {
                            assert(r@[a] == x);
                        } else {
                            assert(r@[a + 1] == x);
                        }
                    }
                    if x == id {
                        assert(r@[p as int] == x);
                    }
                }
            } else {
                assert(r@[p as int] == id);
            }
            assert forall|x: u64| r@.contains(x) <==> exists|j: int|
                0 <= j < i + 1 && segment_name_id(#[trigger] names@[j]@) == Some(x) by {
                if exists|j: int| 0 <= j < i + 1 && segment_name_id(#[trigger] names@[j]@) == Some(x) {
                    let j = choose|j: int| 0 <= j < i + 1 && segment_name_id(#[trigger] names@[j]@) == Some(x);
                    if j < i {
                        assert(before.contains(x));
                    }
                }
                if before.contains(x) {
                    let j = choose|j: int| 0 <= j < i && segment_name_id(#[trigger] names@[j]@) == Some(x);
                }
            }
        } else {
            assert forall|x: u64| r@.contains(x) <==> exists|j: int|
                0 <= j < i + 1 && segment_name_id(#[trigger] names@[j]@) == Some(x) by {
                if exists|j: int| 0 <= j < i + 1 && segment_name_id(#[trigger] names@[j]@) == Some(x) {
                    let j = choose|j: int| 0 <= j < i + 1 && segment_name_id(#[trigger] names@[j]@) == Some(x);
                    assert(j < i);
                }
            }
        }
        i += 1;
    }
    r
}

} // verus!
