use vstd::prelude::*;
use vstd::slice::slice_subrange;

verus! {

/// Why a data line is not of the form `<first>[..<last>] ; <name>`.
#[derive(Clone, Copy, Debug, PartialEq, Eq, Structural)]
pub enum EntryError {
    MissingSeparator,
    BadCodepoint,
}

/// `sep` occurs in `s` at offset `i`.
pub open spec fn occurs_at(s: Seq<u8>, sep: Seq<u8>, i: int) -> bool {
    0 <= i && i + sep.len() <= s.len() && s.subrange(i, i + sep.len()) == sep
}

/// `sep` first occurs in `s` at offset `i`.
pub open spec fn first_occurrence(s: Seq<u8>, sep: Seq<u8>, i: int) -> bool {
    occurs_at(s, sep, i) && forall|j: int| 0 <= j < i ==> !occurs_at(s, sep, j)
}

/// Splits `s` around the first occurrence of `sep`.
pub fn split2<'a>(s: &'a [u8], sep: &[u8]) -> (r: Option<(&'a [u8], &'a [u8])>)
    ensures
        r is None <==> forall|i: int| !occurs_at(s@, sep@, i),
        r matches Some((a, b)) ==> exists|i: int|
            #[trigger] first_occurrence(s@, sep@, i) && a@ == s@.subrange(0, i) && b@
                == s@.subrange(i + sep@.len(), s@.len() as int),
{
    let n = s.len();
    let m = sep.len();
    if m > n {
        return None;
    }
    let mut i: usize = 0;
    while i <= n - m
        invariant
            n == s@.len(),
            m == sep@.len(),
            m <= n,
            i <= n - m + 1,
            forall|j: int| 0 <= j < i ==> !occurs_at(s@, sep@, j),
        decreases n - m + 1 - i,
    {
        let mut k: usize = 0;
        let mut same = true;
        while k < m
            invariant
                n == s@.len(),
                m == sep@.len(),
                i + m <= n,
                k <= m,
                same == forall|x: int| 0 <= x < k ==> s@[i + x] == sep@[x],
            decreases m - k,
        {
            if s[i + k] != sep[k] {
                same = false;
            }
            k = k + 1;
        }
        if same {
            assert(s@.subrange(i as int, i + m) =~= sep@);
            let a = slice_subrange(s, 0, i);
            let b = slice_subrange(s, i + m, n);
            assert(first_occurrence(s@, sep@, i as int));
            return Some((a, b));
        }
        assert(!occurs_at(s@, sep@, i as int)) by {
            if occurs_at(s@, sep@, i as int) {
                assert forall|x: int| 0 <= x < m implies s@[i + x] == sep@[x] by {
                    assert(s@.subrange(i as int, i + m)[x] == s@[i + x]);
                }
            }
        }
        i = i + 1;
    }
    None
}

/// The parts of `s` before and after the first occurrence of `sep`.
pub open spec fn split_spec(s: Seq<u8>, sep: Seq<u8>) -> Option<(Seq<u8>, Seq<u8>)> {
    if exists|i: int| first_occurrence(s, sep, i) {
        let i = choose|i: int| first_occurrence(s, sep, i);
        Some((s.subrange(0, i), s.subrange(i + sep.len(), s.len() as int)))
    } else {
        None
    }
}

proof fn lemma_split_spec(s: Seq<u8>, sep: Seq<u8>, r: Option<(Seq<u8>, Seq<u8>)>)
    requires
        r is None <==> forall|i: int| !occurs_at(s, sep, i),
        r matches Some((a, b)) ==> exists|i: int|
            #[trigger] first_occurrence(s, sep, i) && a == s.subrange(0, i) && b == s.subrange(
                i + sep.len(),
                s.len() as int,
            ),
    ensures
        r == split_spec(s, sep),
{
    if let Some((a, b)) = r {
        let i = choose|i: int|
            #[trigger] first_occurrence(s, sep, i) && a == s.subrange(0, i) && b == s.subrange(
                i + sep.len(),
                s.len() as int,
            );
        let j = choose|j: int| first_occurrence(s, sep, j);
        assert(i == j) by {
            if i < j {
                assert(!occurs_at(s, sep, i));
            } else if j < i {
                assert(!occurs_at(s, sep, j));
            }
        }
    } else {
        if exists|i: int| first_occurrence(s, sep, i) {
            let i = choose|i: int| first_occurrence(s, sep, i);
            assert(occurs_at(s, sep, i));
        }
    }
}

/// White space as data files use it: space, and tab to carriage return.
pub open spec fn is_space(b: u8) -> bool {
    b == 0x20 || (0x09 <= b <= 0x0D)
}

/// `lo` and `hi` bound `s` without its leading and trailing white space.
pub open spec fn trim_bounds(s: Seq<u8>, lo: int, hi: int) -> bool {
    &&& 0 <= lo <= hi <= s.len()
    &&& forall|x: int| 0 <= x < lo ==> is_space(s[x])
    &&& forall|x: int| hi <= x < s.len() ==> is_space(s[x])
    &&& lo < hi ==> !is_space(s[lo]) && !is_space(s[hi - 1])
}

/// `s` without its leading and trailing white space.
pub open spec fn trim_spec(s: Seq<u8>) -> Seq<u8> {
    let (lo, hi) = choose|lo: int, hi: int| trim_bounds(s, lo, hi);
    s.subrange(lo, hi)
}

/// Strips leading and trailing white space.
pub fn trim(s: &[u8]) -> (r: &[u8])
    ensures
        r@ == trim_spec(s@),
{
    let n = s.len();
    let mut lo: usize = 0;
    while lo < n && (s[lo] == 0x20 || (0x09 <= s[lo] && s[lo] <= 0x0D))
        invariant
            n == s@.len(),
            lo <= n,
            forall|x: int| 0 <= x < lo ==> is_space(s@[x]),
        decreases n - lo,
    {
        lo = lo + 1;
    }
    let mut hi: usize = n;
    while hi > lo && (s[hi - 1] == 0x20 || (0x09 <= s[hi - 1] && s[hi - 1] <= 0x0D))
        invariant
            n == s@.len(),
            lo <= hi <= n,
            forall|x: int| hi <= x < n ==> is_space(s@[x]),
        decreases hi,
    {
        hi = hi - 1;
    }
    proof {
        assert(trim_bounds(s@, lo as int, hi as int));
        let (lo2, hi2) = choose|lo2: int, hi2: int| trim_bounds(s@, lo2, hi2);
        assert(trim_bounds(s@, lo2, hi2));
        if lo < hi {
            assert(lo2 == lo) by {
                if lo2 < lo {
                    assert(is_space(s@[lo2]));
                    if lo2 < hi2 {
                    } else {
                        assert(!is_space(s@[lo as int]));
                    }
                } else if lo < lo2 {
                    assert(!is_space(s@[lo as int]));
                }
            }
            assert(hi2 == hi) by {
                if hi2 < hi {
                    assert(!is_space(s@[hi - 1]));
                } else if hi < hi2 {
                    assert(is_space(s@[hi2 - 1]));
                }
            }
        } else {
            if lo2 < hi2 {
                assert(!is_space(s@[lo2]));
                if lo2 < lo {
                } else {
                    assert(hi2 <= n);
                    assert(is_space(s@[lo2]));
                }
            }
        }
        assert(s@.subrange(lo as int, hi as int) =~= s@.subrange(lo2, hi2));
    }
    slice_subrange(s, lo, hi)
}

pub open spec fn hex_digit_value(b: u8) -> int {
    if 0x30 <= b <= 0x39 {
        b - 0x30
    } else if 0x41 <= b <= 0x46 {
        b - 0x41 + 10
    } else if 0x61 <= b <= 0x66 {
        b - 0x61 + 10
    } else {
        -1
    }
}

/// The number that hexadecimal digits write, most significant first.
pub open spec fn hex_value(s: Seq<u8>) -> int
    decreases s.len(),
{
    if s.len() == 0 {
        0
    } else {
        16 * hex_value(s.drop_last()) + hex_digit_value(s.last())
    }
}

/// The digits of a number: what follows an optional `+`.
pub open spec fn hex_digits(s: Seq<u8>) -> Seq<u8> {
    if s.len() > 0 && s[0] == 0x2B {
        s.drop_first()
    } else {
        s
    }
}

pub open spec fn all_hex(t: Seq<u8>) -> bool {
    forall|x: int| 0 <= x < t.len() ==> hex_digit_value(#[trigger] t[x]) >= 0
}

/// A `u32` written in hexadecimal, with an optional `+`: one digit at least,
/// digits only, and no more than fits.
pub open spec fn hex_spec(s: Seq<u8>) -> Option<u32> {
    let t = hex_digits(s);
    if t.len() > 0 && all_hex(t) && hex_value(t) <= u32::MAX {
        Some(hex_value(t) as u32)
    } else {
        None
    }
}

proof fn lemma_hex_grows(t: Seq<u8>, i: int)
    requires
        0 <= i <= t.len(),
        forall|x: int| 0 <= x < t.len() ==> hex_digit_value(#[trigger] t[x]) >= 0,
    ensures
        hex_value(t.take(i)) <= hex_value(t),
        hex_value(t.take(i)) >= 0,
    decreases t.len() - i,
{
    if i < t.len() {
        lemma_hex_grows(t, i + 1);
        assert(t.take(i + 1).drop_last() =~= t.take(i));
        assert(t.take(i + 1).last() == t[i]);
    } else {
        assert(t.take(i) =~= t);
    }
    if i > 0 {
        assert(t.take(i).drop_last() =~= t.drop_last().take(i - 1));
        lemma_hex_nonneg(t.take(i));
    }
}

proof fn lemma_hex_nonneg(t: Seq<u8>)
    requires
        forall|x: int| 0 <= x < t.len() ==> hex_digit_value(#[trigger] t[x]) >= 0,
    ensures
        hex_value(t) >= 0,
    decreases t.len(),
{
    if t.len() > 0 {
        lemma_hex_nonneg(t.drop_last());
    }
}

/// Parses a `u32` written in hexadecimal.
pub fn parse_hex(s: &[u8]) -> (r: Option<u32>)
    ensures
        r == hex_spec(s@),
{
    let n = s.len();
    let mut i: usize = 0;
    if n > 0 && s[0] == 0x2B {
        i = 1;
    }
    let ghost t = hex_digits(s@);
    if i == n {
        return None;
    }
    let start = i;
    let mut v: u64 = 0;
    while i < n
        invariant
            n == s@.len(),
            start <= i <= n,
            start < n,
            t == hex_digits(s@),
            t == s@.subrange(start as int, n as int),
            forall|x: int| 0 <= x < i - start ==> hex_digit_value(#[trigger] t[x]) >= 0,
            v == hex_value(t.take(i - start)),
            v <= u32::MAX,
        decreases n - i,
    {
        let b = s[i];
        let d: u64 = if 0x30 <= b && b <= 0x39 {
            (b - 0x30) as u64
        } else if 0x41 <= b && b <= 0x46 {
            (b - 0x41 + 10) as u64
        } else if 0x61 <= b && b <= 0x66 {
            (b - 0x61 + 10) as u64
        } else {
            proof {
                assert(t[i - start] == b);
                assert(hex_digit_value(t[i - start]) < 0);
                assert(!all_hex(t));
            }
            return None;
        };
        proof {
            assert(t[i - start] == b);
            assert(t.take(i - start + 1).drop_last() =~= t.take(i - start));
            assert(t.take(i - start + 1).last() == b);
        }
        v = 16 * v + d;
        i = i + 1;
        assert(v == hex_value(t.take(i - start)));
        if v > 0xFFFF_FFFF {
            proof {
                if all_hex(t) {
                    lemma_hex_grows(t, i - start);
                }
            }
            return None;
        }
    }
    assert(t.take(n - start) =~= t);
    Some(v as u32)
}

/// A data line: the range of codepoints it covers and the name of the
/// property value it gives them; `None` for a line with no data.
pub open spec fn entry_spec(line: Seq<u8>) -> Result<Option<(u32, u32, Seq<u8>)>, EntryError> {
    let uncommented = match split_spec(line, seq![0x23u8]) {
        Some((a, b)) => a,
        None => line,
    };
    let data = trim_spec(uncommented);
    if data.len() == 0 {
        Ok(None)
    } else {
        match split_spec(data, seq![0x3Bu8]) {
            None => Err(EntryError::MissingSeparator),
            Some((range, name)) => {
                let range = trim_spec(range);
                let (first, last) = match split_spec(range, seq![0x2Eu8, 0x2Eu8]) {
                    Some((a, b)) => (a, b),
                    None => (range, range),
                };
                match (hex_spec(first), hex_spec(last)) {
                    (Some(x), Some(y)) => Ok(Some((x, y, trim_spec(name)))),
                    _ => Err(EntryError::BadCodepoint),
                }
            },
        }
    }
}

/// Parses a line of a Unicode data file, `<first>[..<last>] ; <name>`,
/// with an optional comment after `#`.
pub fn parse_entry(line: &[u8]) -> (r: Result<Option<(u32, u32, &[u8])>, EntryError>)
    ensures
        match (r, entry_spec(line@)) {
            (Ok(None), Ok(None)) => true,
            (Ok(Some((x, y, name))), Ok(Some((x2, y2, name2)))) => x == x2 && y == y2 && name@ == name2,
            (Err(e), Err(e2)) => e == e2,
            _ => false,
        },
{
    let hash: Vec<u8> = vec![0x23];
    let semicolon: Vec<u8> = vec![0x3B];
    let dots: Vec<u8> = vec![0x2E, 0x2E];
    assert(hash@ =~= seq![0x23u8]);
    assert(semicolon@ =~= seq![0x3Bu8]);
    assert(dots@ =~= seq![0x2Eu8, 0x2Eu8]);
    let c = split2(line, hash.as_slice());
    proof {
        lemma_split_spec(line@, hash@, match c { Some((a, b)) => Some((a@, b@)), None => None });
    }
    let uncommented = match c {
        Some((a, _)) => a,
        None => line,
    };
    let data = trim(uncommented);
    if data.len() == 0 {
        return Ok(None);
    }
    let parts = split2(data, semicolon.as_slice());
    proof {
        lemma_split_spec(data@, semicolon@, match parts { Some((a, b)) => Some((a@, b@)), None => None });
    }
    match parts {
        None => Err(EntryError::MissingSeparator),
        Some((range, name)) => {
            let range = trim(range);
            let bounds = split2(range, dots.as_slice());
            proof {
                lemma_split_spec(range@, dots@, match bounds { Some((a, b)) => Some((a@, b@)), None => None });
            }
            let (first, last) = match bounds {
                Some((a, b)) => (a, b),
                None => (range, range),
            };
            match (parse_hex(first), parse_hex(last)) {
                (Some(x), Some(y)) => Ok(Some((x, y, trim(name)))),
                _ => Err(EntryError::BadCodepoint),
            }
        },
    }
}

} // verus!
