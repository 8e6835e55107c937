//! Character-level helpers for reading the graph text: white space, trimming, splitting
//! at `|`, reading unsigned decimal numbers and writing them.
use vstd::prelude::*;

verus! {

broadcast use vstd::string::group_string_axioms;

/// The characters with the Unicode `White_Space` property (what `char::is_whitespace`
/// and `str::trim` go by).
pub open spec fn is_white_space(c: char) -> bool {
    let u = c as u32;
    (9 <= u <= 13) || u == 32 || u == 0x85 || u == 0xA0 || u == 0x1680 || (0x2000 <= u <= 0x200A)
        || u == 0x2028 || u == 0x2029 || u == 0x202F || u == 0x205F || u == 0x3000
}

/// Whether `c` is white space.
pub fn is_white_space_char(c: char) -> (r: bool)
    ensures
        r == is_white_space(c),
{
    let u = c as u32;
    (9 <= u && u <= 13) || u == 32 || u == 0x85 || u == 0xA0 || u == 0x1680 || (0x2000 <= u && u
        <= 0x200A) || u == 0x2028 || u == 0x2029 || u == 0x202F || u == 0x205F || u == 0x3000
}

/// `s` without its leading white space.
pub open spec fn trim_start(s: Seq<char>) -> Seq<char>
    decreases s.len(),
{
    if s.len() > 0 && is_white_space(s[0]) {
        trim_start(s.drop_first())
    } else {
        s
    }
}

/// `s` without its trailing white space.
pub open spec fn trim_end(s: Seq<char>) -> Seq<char>
    decreases s.len(),
{
    if s.len() > 0 && is_white_space(s.last()) {
        trim_end(s.drop_last())
    } else {
        s
    }
}

/// `s` without leading and trailing white space (`str::trim`).
pub open spec fn trim(s: Seq<char>) -> Seq<char> {
    trim_end(trim_start(s))
}

/// `trim_start` removes exactly the leading white space: it keeps a suffix of `s` that
/// starts with a character that is not white space (or is empty), after only white space.
proof fn lemma_trim_start_cut(s: Seq<char>) -> (i: int)
    ensures
        0 <= i <= s.len(),
        trim_start(s) == s.subrange(i, s.len() as int),
        forall|k: int| 0 <= k < i ==> is_white_space(#[trigger] s[k]),
        i < s.len() ==> !is_white_space(s[i]),
    decreases s.len(),
{
    if s.len() > 0 && is_white_space(s[0]) {
        let i1 = lemma_trim_start_cut(s.drop_first());
        assert(s.drop_first().subrange(i1, s.len() - 1) =~= s.subrange(i1 + 1, s.len() as int));
        assert forall|k: int| 0 <= k < i1 + 1 implies is_white_space(#[trigger] s[k]) by {
            if k > 0 {
                assert(s[k] == s.drop_first()[k - 1]);
            }
        }
        if i1 + 1 < s.len() {
            assert(s[i1 + 1] == s.drop_first()[i1]);
        }
        i1 + 1
    } else {
        assert(s.subrange(0, s.len() as int) =~= s);
        0
    }
}

/// `trim_end` removes exactly the trailing white space: it keeps a prefix of `s` that
/// ends with a character that is not white space (or is empty), before only white space.
proof fn lemma_trim_end_cut(s: Seq<char>) -> (j: int)
    ensures
        0 <= j <= s.len(),
        trim_end(s) == s.subrange(0, j),
        forall|k: int| j <= k < s.len() ==> is_white_space(#[trigger] s[k]),
        j > 0 ==> !is_white_space(s[j - 1]),
    decreases s.len(),
{
    if s.len() > 0 && is_white_space(s.last()) {
        let j1 = lemma_trim_end_cut(s.drop_last());
        assert(s.drop_last().subrange(0, j1) =~= s.subrange(0, j1));
        assert forall|k: int| j1 <= k < s.len() implies is_white_space(#[trigger] s[k]) by {
            if k < s.len() - 1 {
                assert(s[k] == s.drop_last()[k]);
            }
        }
        if j1 > 0 {
            assert(s[j1 - 1] == s.drop_last()[j1 - 1]);
        }
        j1
    } else {
        assert(s.subrange(0, s.len() as int) =~= s);
        s.len() as int
    }
}

/// Trimming, as `str::trim` does, removes all white space at both ends and nothing
/// else: `trim(s)` is the part of `s` between a run of leading and a run of trailing
/// white space, and it neither starts nor ends with white space.
pub proof fn lemma_trim_removes_all_white_space(s: Seq<char>)
    ensures
        exists|i: int, j: int|
            0 <= i <= j <= s.len() && trim(s) == s.subrange(i, j) && (forall|k: int|
                0 <= k < i ==> is_white_space(#[trigger] s[k])) && (forall|k: int|
                j <= k < s.len() ==> is_white_space(#[trigger] s[k])),
        trim(s).len() > 0 ==> !is_white_space(trim(s)[0]) && !is_white_space(trim(s).last()),
{
    let i = lemma_trim_start_cut(s);
    let t = trim_start(s);
    let j = lemma_trim_end_cut(t);
    assert(trim(s) == t.subrange(0, j));
    assert(t.subrange(0, j) =~= s.subrange(i, i + j));
    assert forall|k: int| i + j <= k < s.len() implies is_white_space(#[trigger] s[k]) by {
        assert(s[k] == t[k - i]);
    }
    if trim(s).len() > 0 {
        assert(trim(s)[0] == s[i]);
        assert(trim(s).last() == t[j - 1]);
    }
    assert(0 <= i <= i + j <= s.len() && trim(s) == s.subrange(i, i + j));
}

/// The characters of `s`.
pub fn chars_of(s: &str) -> (v: Vec<char>)
    ensures
        v@ == s@,
{
    let mut v: Vec<char> = Vec::new();
    for c in it: s.chars()
        invariant
            it.seq() == s@,
            v@ == it.seq().take(it.index() as int),
        ensures
            v@ == s@,
    {
        proof {
            assert(it.seq().take(it.index() as int).push(c) =~= it.seq().take(it.index() + 1));
        }
        v.push(c);
    }
    v
}

/// The bounds of `trim(chars[lo..hi])` within `chars`.
pub fn trim_bounds(chars: &Vec<char>, lo: usize, hi: usize) -> (r: (usize, usize))
    requires
        lo <= hi <= chars@.len(),
    ensures
        lo <= r.0 <= r.1 <= hi,
        chars@.subrange(r.0 as int, r.1 as int) == trim(chars@.subrange(lo as int, hi as int)),
        forall|k: int| lo <= k < r.0 ==> is_white_space(#[trigger] chars@[k]),
        forall|k: int| r.1 <= k < hi ==> is_white_space(#[trigger] chars@[k]),
        r.0 < r.1 ==> !is_white_space(chars@[r.0 as int]) && !is_white_space(chars@[r.1 - 1]),
{
    let mut i = lo;
    while i < hi && is_white_space_char(chars[i])
        invariant
            lo <= i <= hi,
            hi <= chars@.len(),
            trim_start(chars@.subrange(lo as int, hi as int)) == trim_start(chars@.subrange(i as int, hi as int)),
            forall|k: int| lo <= k < i ==> is_white_space(#[trigger] chars@[k]),
        decreases hi - i,
    {
        proof {
            assert(chars@.subrange(i as int, hi as int).drop_first() =~= chars@.subrange(i + 1, hi as int));
        }
        i += 1;
    }
    let mut j = hi;
    while j > i && is_white_space_char(chars[j - 1])
        invariant
            lo <= i <= j <= hi,
            hi <= chars@.len(),
            trim_start(chars@.subrange(lo as int, hi as int)) == chars@.subrange(i as int, hi as int),
            trim_end(chars@.subrange(i as int, hi as int)) == trim_end(chars@.subrange(i as int, j as int)),
            forall|k: int| lo <= k < i ==> is_white_space(#[trigger] chars@[k]),
            forall|k: int| j <= k < hi ==> is_white_space(#[trigger] chars@[k]),
            i < hi ==> !is_white_space(chars@[i as int]),
        decreases j - i,
    {
        proof {
            assert(chars@.subrange(i as int, j as int).drop_last() =~= chars@.subrange(i as int, j - 1));
        }
        j -= 1;
    }
    proof {
        if i < j {
            assert(!is_white_space(chars@[j - 1]));
        }
    }
    (i, j)
}

/// Positions of the `|` characters of `s`.
pub open spec fn bar_positions(s: Seq<char>) -> Seq<int>
    decreases s.len(),
{
    if s.len() == 0 {
        Seq::empty()
    } else if s.last() == '|' {
        bar_positions(s.drop_last()).push(s.len() - 1)
    } else {
        bar_positions(s.drop_last())
    }
}

pub proof fn lemma_bar_positions_bound(s: Seq<char>)
    ensures
        forall|k: int| 0 <= k < bar_positions(s).len() ==> 0 <= #[trigger] bar_positions(s)[k] < s.len(),
        forall|k: int| 0 <= k < bar_positions(s).len() ==> s[#[trigger] bar_positions(s)[k]] == '|',
        forall|k: int, m: int|
            0 <= k < m < bar_positions(s).len() ==> #[trigger] bar_positions(s)[k] < #[trigger] bar_positions(
                s,
            )[m],
    decreases s.len(),
{
    if s.len() > 0 {
        let t = s.drop_last();
        lemma_bar_positions_bound(t);
        let bt = bar_positions(t);
        let bs = bar_positions(s);
        assert forall|k: int| 0 <= k < bt.len() implies s[bt[k]] == '|' by {
            assert(s[bt[k]] == t[bt[k]]);
        }
        if s.last() == '|' {
            assert(bs == bt.push(s.len() - 1));
        } else {
            assert(bs == bt);
        }
    }
}

/// The positions (within `chars`) of the `|` characters of `chars[lo..hi]`, at most
/// three of them.
pub fn find_bars(chars: &Vec<char>, lo: usize, hi: usize) -> (r: Vec<usize>)
    requires
        lo <= hi <= chars@.len(),
    ensures
        r@.len() == if bar_positions(chars@.subrange(lo as int, hi as int)).len() < 3 {
            bar_positions(chars@.subrange(lo as int, hi as int)).len()
        } else {
            3
        },
        forall|k: int|
            0 <= k < r@.len() ==> r@[k] == lo + bar_positions(chars@.subrange(lo as int, hi as int))[k],
{
    let mut r: Vec<usize> = Vec::new();
    let mut i = lo;
    while i < hi
        invariant
            lo <= i <= hi,
            hi <= chars@.len(),
            r@.len() == if bar_positions(chars@.subrange(lo as int, i as int)).len() < 3 {
                bar_positions(chars@.subrange(lo as int, i as int)).len()
            } else {
                3
            },
            forall|k: int|
                0 <= k < r@.len() ==> r@[k] == lo + bar_positions(chars@.subrange(lo as int, i as int))[k],
        decreases hi - i,
    {
        let ghost before = chars@.subrange(lo as int, i as int);
        proof {
            assert(chars@.subrange(lo as int, i + 1).drop_last() =~= before);
            lemma_bar_positions_bound(before);
        }
        if chars[i] == '|' && r.len() < 3 {
            r.push(i);
        }
        i += 1;
    }
    r
}

/// Whether `c` is an ASCII digit.
pub open spec fn is_digit(c: char) -> bool {
    48 <= (c as u32) <= 57
}

/// The number that the digits `s` spell in decimal.
pub open spec fn digits_value(s: Seq<char>) -> int
    decreases s.len(),
{
    if s.len() == 0 {
        0
    } else {
        digits_value(s.drop_last()) * 10 + ((s.last() as u32) - 48)
    }
}

/// The digits of `s`, after an optional leading `+`.
pub open spec fn unsigned_digits(s: Seq<char>) -> Seq<char> {
    if s.len() > 0 && s[0] == '+' {
        s.drop_first()
    } else {
        s
    }
}

/// `s` read as a `u32` the way `str::parse::<u32>` reads it: an optional `+`, then at
/// least one decimal digit and nothing else, the value fitting in a `u32`.
pub open spec fn parse_u32(s: Seq<char>) -> Option<u32> {
    let d = unsigned_digits(s);
    if d.len() > 0 && (forall|i: int| 0 <= i < d.len() ==> is_digit(#[trigger] d[i])) && digits_value(d)
        <= u32::MAX {
        Some(digits_value(d) as u32)
    } else {
        None
    }
}

proof fn lemma_digits_value_monotone(s: Seq<char>, k: int)
    requires
        0 <= k <= s.len(),
        forall|i: int| 0 <= i < s.len() ==> is_digit(#[trigger] s[i]),
    ensures
        digits_value(s.subrange(0, k)) <= digits_value(s),
        digits_value(s) >= 0,
    decreases s.len(),
{
    if s.len() > 0 {
        if k == s.len() {
            assert(s.subrange(0, k) =~= s);
        }
        let t = s.drop_last();
        assert forall|i: int| 0 <= i < t.len() implies is_digit(#[trigger] t[i]) by {
            assert(t[i] == s[i]);
        }
        if k < s.len() {
            assert(s.subrange(0, k) =~= t.subrange(0, k));
            lemma_digits_value_monotone(t, k);
        } else {
            lemma_digits_value_monotone(t, 0);
        }
    } else {
        assert(s.subrange(0, k) =~= s);
    }
}

/// `chars[lo..hi]` read as a `u32` (see `parse_u32`).
pub fn parse_u32_in(chars: &Vec<char>, lo: usize, hi: usize) -> (r: Option<u32>)
    requires
        lo <= hi <= chars@.len(),
    ensures
        r == parse_u32(chars@.subrange(lo as int, hi as int)),
{
    let ghost s = chars@.subrange(lo as int, hi as int);
    let mut i = lo;
    if i < hi && chars[i] == '+' {
        i += 1;
    }
    let ghost d = unsigned_digits(s);
    proof {
        if lo < hi && chars@[lo as int] == '+' {
            assert(d =~= chars@.subrange(lo + 1, hi as int));
        } else {
            assert(d =~= chars@.subrange(lo as int, hi as int));
        }
    }
    if i == hi {
        return None;
    }
    let start = i;
    let mut value: u64 = 0;
    while i < hi
        invariant
            lo <= start <= i <= hi,
            start < hi,
            hi <= chars@.len(),
            d == chars@.subrange(start as int, hi as int),
            d == unsigned_digits(chars@.subrange(lo as int, hi as int)),
            forall|k: int| start <= k < i ==> is_digit(#[trigger] chars@[k]),
            value == digits_value(chars@.subrange(start as int, i as int)),
            value <= u32::MAX,
        decreases hi - i,
    {
        let c = chars[i];
        let cu = c as u32;
        if !(48 <= cu && cu <= 57) {
            proof {
                assert(d[i - start] == c);
                assert(!is_digit(d[i - start]));
            }
            return None;
        }
        proof {
            assert(chars@.subrange(start as int, i + 1).drop_last() =~= chars@.subrange(start as int, i as int));
        }
        value = value * 10 + (cu - 48) as u64;
        i += 1;
        if value > u32::MAX as u64 {
            proof {
                if forall|k: int| 0 <= k < d.len() ==> is_digit(#[trigger] d[k]) {
                    lemma_digits_value_monotone(d, i - start);
                    assert(d.subrange(0, i - start) =~= chars@.subrange(start as int, i as int));
                }
            }
            return None;
        }
    }
    proof {
        assert(chars@.subrange(start as int, i as int) =~= d);
        assert forall|k: int| 0 <= k < d.len() implies is_digit(#[trigger] d[k]) by {
            assert(d[k] == chars@[start + k]);
        }
    }
    Some(value as u32)
}

/// Whether `chars[lo..hi]` equals `w`.
pub fn chars_eq(chars: &Vec<char>, lo: usize, hi: usize, w: &Vec<char>) -> (r: bool)
    requires
        lo <= hi <= chars@.len(),
    ensures
        r == (chars@.subrange(lo as int, hi as int) == w@),
{
    if hi - lo != w.len() {
        return false;
    }
    let mut k: usize = 0;
    while k < w.len()
        invariant
            lo <= hi <= chars@.len(),
            hi - lo == w@.len(),
            k <= w@.len(),
            forall|q: int| 0 <= q < k ==> chars@[lo + q] == w@[q],
        decreases w@.len() - k,
    {
        if chars[lo + k] != w[k] {
            proof {
                assert(chars@.subrange(lo as int, hi as int)[k as int] != w@[k as int]);
            }
            return false;
        }
        k += 1;
    }
    proof {
        assert(chars@.subrange(lo as int, hi as int) =~= w@);
    }
    true
}

/// The text of a decimal digit.
pub open spec fn digit_text(d: int) -> Seq<char> {
    if d == 0 {
        "0"@
    } else if d == 1 {
        "1"@
    } else if d == 2 {
        "2"@
    } else if d == 3 {
        "3"@
    } else if d == 4 {
        "4"@
    } else if d == 5 {
        "5"@
    } else if d == 6 {
        "6"@
    } else if d == 7 {
        "7"@
    } else if d == 8 {
        "8"@
    } else {
        "9"@
    }
}

/// `n` written in decimal.
pub open spec fn decimal(n: nat) -> Seq<char>
    decreases n,
{
    if n < 10 {
        digit_text(n as int)
    } else {
        decimal(n / 10) + digit_text((n % 10) as int)
    }
}

fn digit_str(d: usize) -> (r: &'static str)
    requires
        d < 10,
    ensures
        r@ == digit_text(d as int),
{
    if d == 0 {
        "0"
    } else if d == 1 {
        "1"
    } else if d == 2 {
        "2"
    } else if d == 3 {
        "3"
    } else if d == 4 {
        "4"
    } else if d == 5 {
        "5"
    } else if d == 6 {
        "6"
    } else if d == 7 {
        "7"
    } else if d == 8 {
        "8"
    } else {
        "9"
    }
}

/// Appends `n` in decimal to `s`.
pub fn push_decimal(s: &mut String, n: usize)
    ensures
        final(s)@ == old(s)@ + decimal(n as nat),
    decreases n,
{
    if n >= 10 {
        push_decimal(s, n / 10);
    }
    s.append(digit_str(n % 10));
}


/// A digit's text is that single digit character.
proof fn lemma_digit_text(d: int)
    requires
        0 <= d < 10,
    ensures
        digit_text(d).len() == 1,
        is_digit(digit_text(d)[0]),
        (digit_text(d)[0] as u32) - 48 == d,
{
    reveal_strlit("0");
    reveal_strlit("1");
    reveal_strlit("2");
    reveal_strlit("3");
    reveal_strlit("4");
    reveal_strlit("5");
    reveal_strlit("6");
    reveal_strlit("7");
    reveal_strlit("8");
    reveal_strlit("9");
}

/// The decimal text of `n` is a non-empty run of digits whose value is `n`.
proof fn lemma_decimal_digits(n: nat)
    ensures
        decimal(n).len() > 0,
        forall|i: int| 0 <= i < decimal(n).len() ==> is_digit(#[trigger] decimal(n)[i]),
        digits_value(decimal(n)) == n,
    decreases n,
{
    if n < 10 {
        lemma_digit_text(n as int);
        let t = decimal(n);
        assert(t.drop_last() =~= Seq::<char>::empty());
        assert(digits_value(t.drop_last()) == 0);
        assert(t.last() == t[0]);
        assert(digits_value(t) == digits_value(t.drop_last()) * 10 + ((t.last() as u32) - 48));
    } else {
        lemma_decimal_digits(n / 10);
        lemma_digit_text((n % 10) as int);
        let a = decimal(n / 10);
        let b = digit_text((n % 10) as int);
        let t = decimal(n);
        assert(t == a + b);
        assert(t.drop_last() =~= a);
        assert(t.last() == b[0]);
        assert forall|i: int| 0 <= i < t.len() implies is_digit(#[trigger] t[i]) by {
            if i < a.len() {
                assert(t[i] == a[i]);
            } else {
                assert(t[i] == b[0]);
            }
        }
        assert(digits_value(t) == digits_value(a) * 10 + ((b[0] as u32) - 48));
        assert(n == (n / 10) * 10 + n % 10);
    }
}

/// Reading numbers agrees with decimal notation: the decimal text of every `u32` reads
/// back as that number, as `str::parse::<u32>` reads it.
pub proof fn lemma_parse_decimal(n: u32)
    ensures
        parse_u32(decimal(n as nat)) == Some(n),
{
    lemma_decimal_digits(n as nat);
    let t = decimal(n as nat);
    assert(is_digit(t[0]));
    assert(t[0] != '+');
    assert(unsigned_digits(t) == t);
}

} // verus!
