use vstd::prelude::*;

verus! {

/// Whether `c` has the Unicode property White_Space, which `char::is_whitespace`
/// and `str::trim` go by.
pub open spec fn is_white_space(c: char) -> bool {
    let u = c as u32;
    ||| 0x9 <= u <= 0xd
    ||| u == 0x20
    ||| u == 0x85
    ||| u == 0xa0
    ||| u == 0x1680
    ||| 0x2000 <= u <= 0x200a
    ||| u == 0x2028
    ||| u == 0x2029
    ||| u == 0x202f
    ||| u == 0x205f
    ||| u == 0x3000
}

/// `s` without its leading white space.
pub open spec fn trim_start(s: Seq<char>) -> Seq<char>
    decreases s.len(),
{
    if s.len() > 0 && is_white_space(s[0]) {
        trim_start(s.drop_first())
    } else {
        s
    }
}

/// `s` without its trailing white space.
pub open spec fn trim_end(s: Seq<char>) -> Seq<char>
    decreases s.len(),
{
    if s.len() > 0 && is_white_space(s.last()) {
        trim_end(s.drop_last())
    } else {
        s
    }
}

/// `s` without its leading and trailing white space, as `str::trim` gives it.
pub open spec fn trimmed(s: Seq<char>) -> Seq<char> {
    trim_end(trim_start(s))
}

/// What `str::to_lowercase` makes of `s`: its Unicode lowercase mapping.
pub uninterp spec fn lowercased(s: Seq<char>) -> Seq<char>;

/// Whether `c` is one of the ASCII digits `0` to `9`.
pub open spec fn is_ascii_digit(c: char) -> bool {
    '0' <= c <= '9'
}

/// Whether `c` has the Unicode property White_Space.
pub fn white_space(c: char) -> (b: bool)
    ensures
        b == is_white_space(c),
{
    let u = c as u32;
    (0x9 <= u && u <= 0xd) || u == 0x20 || u == 0x85 || u == 0xa0 || u == 0x1680 || (0x2000 <= u
        && u <= 0x200a) || u == 0x2028 || u == 0x2029 || u == 0x202f || u == 0x205f || u == 0x3000
}

proof fn lemma_trim_start_head(s: Seq<char>)
    ensures
        trim_start(s).len() == 0 || !is_white_space(trim_start(s)[0]),
    decreases s.len(),
{
    if s.len() > 0 && is_white_space(s[0]) {
        lemma_trim_start_head(s.drop_first());
    }
}

proof fn lemma_trim_end_ends(s: Seq<char>)
    requires
        s.len() == 0 || !is_white_space(s[0]),
    ensures
        ({
            let r = trim_end(s);
            r.len() == 0 || (!is_white_space(r[0]) && !is_white_space(r.last()))
        }),
    decreases s.len(),
{
    if s.len() > 0 && is_white_space(s.last()) {
        let d = s.drop_last();
        if d.len() > 0 {
            assert(d[0] == s[0]);
        }
        lemma_trim_end_ends(d);
    }
}

/// Trimming twice is trimming once.
pub proof fn lemma_trim_idempotent(s: Seq<char>)
    ensures
        trimmed(trimmed(s)) == trimmed(s),
{
    let r = trimmed(s);
    lemma_trim_start_head(s);
    lemma_trim_end_ends(trim_start(s));
    assert(trim_start(r) == r);
    assert(trim_end(r) == r);
}

/// `s` without its leading and trailing Unicode white space, as `str::trim`
/// returns it.
pub fn trim(s: &str) -> (r: &str)
    ensures
        r@ == trimmed(s@),
{
    let n = s.unicode_len();
    let ghost t = s@;
    let mut i: usize = 0;
    assert(t.subrange(0, n as int) =~= t);
    while i < n && white_space(s.get_char(i))
        invariant
            n == t.len(),
            t == s@,
            0 <= i <= n,
            trim_start(t) == trim_start(t.subrange(i as int, n as int)),
        decreases n - i,
    {
        assert(t.subrange(i as int, n as int).drop_first() =~= t.subrange(i + 1, n as int));
        i = i + 1;
    }
    assert(trim_start(t) == t.subrange(i as int, n as int));
    let mut j: usize = n;
    while j > i && white_space(s.get_char(j - 1))
        invariant
            n == t.len(),
            t == s@,
            0 <= i <= j <= n,
            trim_end(t.subrange(i as int, n as int)) == trim_end(t.subrange(i as int, j as int)),
        decreases j,
    {
        assert(t.subrange(i as int, j as int).drop_last() =~= t.subrange(i as int, j - 1));
        j = j - 1;
    }
    assert(trim_end(t.subrange(i as int, j as int)) == t.subrange(i as int, j as int));
    s.substring_char(i, j)
}

/// Calls `str::to_lowercase`; the result is named `lowercased(s@)`. Every
/// character lowercases to one or more characters, as `char::to_lowercase`
/// documents, so the result is empty exactly when `s` is.
#[verifier::external_body]
pub fn to_lowercase(s: &str) -> (r: String)
    ensures
        r@ == lowercased(s@),
        r@.len() == 0 <==> s@.len() == 0,
{
    s.to_lowercase()
}

/// `pat` occurs in `s` at `i`.
pub open spec fn occurs_at(s: Seq<char>, pat: Seq<char>, i: int) -> bool {
    0 <= i && i + pat.len() <= s.len() && s.subrange(i, i + pat.len()) == pat
}

/// `i` is the first place where `pat` occurs in `s`.
pub open spec fn first_occurrence(s: Seq<char>, pat: Seq<char>, i: int) -> bool {
    &&& occurs_at(s, pat, i)
    &&& forall|j: int| 0 <= j < i ==> !#[trigger] occurs_at(s, pat, j)
}

/// `s` split around the first occurrence of `pat`, as `str::split_once` does.
pub open spec fn split_once(s: Seq<char>, pat: Seq<char>) -> Option<(Seq<char>, Seq<char>)> {
    if exists|i: int| first_occurrence(s, pat, i) {
        let i = choose|i: int| first_occurrence(s, pat, i);
        Some((s.take(i), s.skip(i + pat.len())))
    } else {
        None
    }
}

/// `pat` occurs somewhere in `s`.
pub open spec fn contains(s: Seq<char>, pat: Seq<char>) -> bool {
    exists|i: int| occurs_at(s, pat, i)
}

/// Whether `pat` occurs in `s` at character position `i`.
fn matches_at(s: &str, n: usize, pat: &str, m: usize, i: usize) -> (b: bool)
    requires
        n == s@.len(),
        m == pat@.len(),
        i + m <= n,
    ensures
        b == occurs_at(s@, pat@, i as int),
{
    let mut k: usize = 0;
    while k < m
        invariant
            n == s@.len(),
            m == pat@.len(),
            i + m <= n,
            0 <= k <= m,
            forall|j: int| 0 <= j < k ==> s@[i + j] == pat@[j],
        decreases m - k,
    {
        if s.get_char(i + k) != pat.get_char(k) {
            assert(s@.subrange(i as int, i + m)[k as int] != pat@[k as int]);
            return false;
        }
        k = k + 1;
    }
    assert(s@.subrange(i as int, i + m) =~= pat@);
    true
}

pub proof fn lemma_first_occurrence_unique(s: Seq<char>, pat: Seq<char>, i: int, k: int)
    requires
        first_occurrence(s, pat, i),
        first_occurrence(s, pat, k),
    ensures
        i == k,
{
    if i < k {
        assert(!occurs_at(s, pat, i));
    } else if k < i {
        assert(!occurs_at(s, pat, k));
    }
}

/// The character position of the first occurrence of `pat` in `s`.
pub fn find(s: &str, pat: &str) -> (r: Option<usize>)
    ensures
        match r {
            Some(i) => first_occurrence(s@, pat@, i as int),
            None => !contains(s@, pat@),
        },
{
    let n = s.unicode_len();
    let m = pat.unicode_len();
    if m > n {
        return None;
    }
    if m == 0 {
        assert(s@.subrange(0, 0) =~= pat@);
        return Some(0);
    }
    let mut i: usize = 0;
    while i <= n - m
        invariant
            n == s@.len(),
            m == pat@.len(),
            1 <= m <= n,
            0 <= i <= n - m + 1,
            forall|j: int| 0 <= j < i ==> !#[trigger] occurs_at(s@, pat@, j),
        decreases n - i,
    {
        if matches_at(s, n, pat, m, i) {
            return Some(i);
        }
        i = i + 1;
    }
    None
}

/// `s` split around the first occurrence of `pat`.
pub fn split_once_str<'a>(s: &'a str, pat: &str) -> (r: Option<(&'a str, &'a str)>)
    ensures
        match r {
            Some((a, b)) => split_once(s@, pat@) == Some((a@, b@)),
            None => split_once(s@, pat@) is None,
        },
{
    match find(s, pat) {
        Some(i) => {
            let n = s.unicode_len();
            let m = pat.unicode_len();
            let before = s.substring_char(0, i);
            let after = s.substring_char(i + m, n);
            proof {
                let c = choose|k: int| first_occurrence(s@, pat@, k);
                lemma_first_occurrence_unique(s@, pat@, c, i as int);
                assert(before@ =~= s@.take(i as int));
                assert(after@ =~= s@.skip(i + m));
            }
            Some((before, after))
        },
        None => {
            proof {
                if exists|k: int| first_occurrence(s@, pat@, k) {
                    let c = choose|k: int| first_occurrence(s@, pat@, k);
                    assert(occurs_at(s@, pat@, c));
                }
            }
            None
        },
    }
}

/// Whether `pat` occurs in `s`.
pub fn contains_str(s: &str, pat: &str) -> (b: bool)
    ensures
        b == contains(s@, pat@),
{
    match find(s, pat) {
        Some(i) => true,
        None => false,
    }
}

/// Whether `a` and `b` hold the same characters.
pub fn str_eq(a: &str, b: &str) -> (r: bool)
    ensures
        r == (a@ == b@),
{
    let n = a.unicode_len();
    if n != b.unicode_len() {
        return false;
    }
    if n == 0 {
        assert(a@ =~= b@);
        return true;
    }
    let r = matches_at(a, n, b, n, 0);
    assert(a@.subrange(0, n as int) =~= a@);
    r
}

/// Whether `s` is one or more ASCII digits.
pub fn all_ascii_digits(s: &str) -> (b: bool)
    ensures
        b == (s@.len() > 0 && forall|k: int| 0 <= k < s@.len() ==> #[trigger] is_ascii_digit(s@[k])),
{
    let n = s.unicode_len();
    if n == 0 {
        return false;
    }
    let mut k: usize = 0;
    while k < n
        invariant
            n == s@.len(),
            0 <= k <= n,
            forall|j: int| 0 <= j < k ==> #[trigger] is_ascii_digit(s@[j]),
        decreases n - k,
    {
        let c = s.get_char(k);
        if !('0' <= c && c <= '9') {
            assert(!is_ascii_digit(s@[k as int]));
            return false;
        }
        k = k + 1;
    }
    true
}

/// Each character of `s` followed by `rep`.
pub open spec fn after_each(s: Seq<char>, rep: Seq<char>) -> Seq<char>
    decreases s.len(),
{
    if s.len() == 0 {
        Seq::empty()
    } else {
        seq![s[0]] + rep + after_each(s.drop_first(), rep)
    }
}

/// `s` with every occurrence of `pat` replaced by `rep`, scanning left to
/// right without overlaps, as `str::replace` does; an empty `pat` occurs
/// before every character and at the end.
pub open spec fn replace_all(s: Seq<char>, pat: Seq<char>, rep: Seq<char>) -> Seq<char>
    decreases s.len(),
{
    if pat.len() == 0 {
        rep + after_each(s, rep)
    } else if exists|i: int| first_occurrence(s, pat, i) {
        let i = choose|i: int| first_occurrence(s, pat, i);
        s.take(i) + rep + replace_all(s.skip(i + pat.len()), pat, rep)
    } else {
        s
    }
}

/// `s` with `rep` before every character and at the end.
fn replace_empty(s: &str, rep: &str) -> (r: String)
    ensures
        r@ == rep@ + after_each(s@, rep@),
{
    let n = s.unicode_len();
    let mut out = String::from_str(rep);
    let mut i: usize = 0;
    assert(s@.skip(0) =~= s@);
    while i < n
        invariant
            n == s@.len(),
            0 <= i <= n,
            out@ + after_each(s@.skip(i as int), rep@) == rep@ + after_each(s@, rep@),
        decreases n - i,
    {
        let c = s.substring_char(i, i + 1);
        proof {
            let t = s@.skip(i as int);
            assert(t.drop_first() =~= s@.skip(i + 1));
            assert(c@ =~= seq![t[0]]);
            assert(out@ + c@ + rep@ + after_each(s@.skip(i + 1), rep@) =~= out@ + after_each(t, rep@));
        }
        out.append(c);
        out.append(rep);
        i = i + 1;
    }
    assert(s@.skip(n as int) =~= Seq::<char>::empty());
    assert(out@ + Seq::<char>::empty() =~= out@);
    out
}

/// `s` with every occurrence of `pat` replaced by `rep`.
pub fn replace(s: &str, pat: &str, rep: &str) -> (r: String)
    ensures
        r@ == replace_all(s@, pat@, rep@),
{
    let m = pat.unicode_len();
    if m == 0 {
        return replace_empty(s, rep);
    }
    let mut out = String::new();
    let mut rest: &str = s;
    loop
        invariant
            m == pat@.len(),
            m > 0,
            out@ + replace_all(rest@, pat@, rep@) == replace_all(s@, pat@, rep@),
        decreases rest@.len(),
    {
        match find(rest, pat) {
            Some(i) => {
                let n = rest.unicode_len();
                let before = rest.substring_char(0, i);
                let after = rest.substring_char(i + m, n);
                proof {
                    let c = choose|k: int| first_occurrence(rest@, pat@, k);
                    lemma_first_occurrence_unique(rest@, pat@, c, i as int);
                    assert(before@ =~= rest@.take(i as int));
                    assert(after@ =~= rest@.skip(i + m));
                    assert(out@ + before@ + rep@ + replace_all(after@, pat@, rep@)
                        =~= out@ + replace_all(rest@, pat@, rep@));
                }
                out.append(before);
                out.append(rep);
                rest = after;
            },
            None => {
                proof {
                    if exists|k: int| first_occurrence(rest@, pat@, k) {
                        let c = choose|k: int| first_occurrence(rest@, pat@, k);
                        assert(occurs_at(rest@, pat@, c));
                    }
                }
                out.append(rest);
                return out;
            },
        }
    }
}

/// The decimal digit for `d`.
pub open spec fn digit_char(d: int) -> char {
    if d == 0 { '0' }
    else if d == 1 { '1' }
    else if d == 2 { '2' }
    else if d == 3 { '3' }
    else if d == 4 { '4' }
    else if d == 5 { '5' }
    else if d == 6 { '6' }
    else if d == 7 { '7' }
    else if d == 8 { '8' }
    else { '9' }
}

/// The decimal notation of `n`, without leading zeros.
pub open spec fn decimal(n: nat) -> Seq<char>
    decreases n,
{
    if n < 10 {
        seq![digit_char(n as int)]
    } else {
        decimal(n / 10).push(digit_char((n % 10) as int))
    }
}

/// The text of the decimal digit `d`.
fn digit_str(d: u8) -> (s: &'static str)
    requires
        d < 10,
    ensures
        s@ == seq![digit_char(d as int)],
{
    proof {
        reveal_strlit("0");
        reveal_strlit("1");
        reveal_strlit("2");
        reveal_strlit("3");
        reveal_strlit("4");
        reveal_strlit("5");
        reveal_strlit("6");
        reveal_strlit("7");
        reveal_strlit("8");
        reveal_strlit("9");
    }
    if d == 0 { "0" }
    else if d == 1 { "1" }
    else if d == 2 { "2" }
    else if d == 3 { "3" }
    else if d == 4 { "4" }
    else if d == 5 { "5" }
    else if d == 6 { "6" }
    else if d == 7 { "7" }
    else if d == 8 { "8" }
    else { "9" }
}

/// The decimal notation of `n`, as `u8`'s `to_string` writes it.
pub fn u8_to_decimal(n: u8) -> (s: String)
    ensures
        s@ == decimal(n as nat),
{
    let mut s = String::new();
    if n >= 100 {
        s.append(digit_str(n / 100));
        s.append(digit_str((n / 10) % 10));
        s.append(digit_str(n % 10));
        assert(decimal((n / 100) as nat) == seq![digit_char((n / 100) as int)]);
        assert(decimal((n / 10) as nat) =~= seq![digit_char((n / 100) as int), digit_char(((n / 10) % 10) as int)]);
        assert(s@ =~= decimal(n as nat));
    } else if n >= 10 {
        s.append(digit_str(n / 10));
        s.append(digit_str(n % 10));
        assert(decimal((n / 10) as nat) == seq![digit_char((n / 10) as int)]);
        assert(s@ =~= decimal(n as nat));
    } else {
        s.append(digit_str(n));
        assert(s@ =~= decimal(n as nat));
    }
    s
}

} // verus!
