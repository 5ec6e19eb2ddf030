//! Character-level text utilities over `Seq<char>` views: whitespace, trimming,
//! splitting, integer parsing and conversion back to `String`.
use vstd::prelude::*;
use vstd::string::StrSliceExecFns;

verus! {

/// The Unicode `White_Space` property, which `char::is_whitespace` tests.
pub open spec fn is_ws(c: char) -> bool {
    ||| c == '\t' || c == '\n' || c == '\u{0B}' || c == '\u{0C}' || c == '\r' || c == ' '
    ||| c == '\u{85}' || c == '\u{A0}' || c == '\u{1680}'
    ||| ('\u{2000}' as u32) <= (c as u32) <= ('\u{200A}' as u32)
    ||| c == '\u{2028}' || c == '\u{2029}' || c == '\u{202F}' || c == '\u{205F}' || c == '\u{3000}'
}

/// Whether `c` is white space in the Unicode sense.
pub fn is_whitespace(c: char) -> (r: bool)
    ensures
        r == is_ws(c),
{
    let u = c as u32;
    c == '\t' || c == '\n' || c == '\u{0B}' || c == '\u{0C}' || c == '\r' || c == ' ' || c
        == '\u{85}' || c == '\u{A0}' || c == '\u{1680}' || (0x2000u32 <= u && u <= 0x200Au32)
        || c == '\u{2028}' || c == '\u{2029}' || c == '\u{202F}' || c == '\u{205F}' || c
        == '\u{3000}'
}

/// The characters of a string slice, in order.
pub fn chars_of(s: &str) -> (v: Vec<char>)
    ensures
        v@ == s@,
{
    let n = s.unicode_len();
    let mut v: Vec<char> = Vec::new();
    let mut i: usize = 0;
    while i < n
        invariant
            n == s@.len(),
            i <= n,
            v@ == s@.subrange(0, i as int),
        decreases n - i,
    {
        let c = s.get_char(i);
        v.push(c);
        i = i + 1;
        assert(v@ =~= s@.subrange(0, i as int));
    }
    assert(v@ =~= s@);
    v
}

/// Appends one character to a `String` (`String::push`).
/// Trusted: the new contents are the old contents followed by `c`.
#[verifier::external_body]
fn string_push(s: &mut String, c: char)
    ensures
        final(s)@ == old(s)@.push(c),
{
    s.push(c);
}

/// A `String` holding exactly the given characters.
pub fn string_from_chars(v: &Vec<char>) -> (s: String)
    ensures
        s@ == v@,
{
    let mut s = String::new();
    let mut i: usize = 0;
    while i < v.len()
        invariant
            i <= v.len(),
            s@ == v@.subrange(0, i as int),
        decreases v.len() - i,
    {
        string_push(&mut s, v[i]);
        i = i + 1;
        assert(s@ =~= v@.subrange(0, i as int));
    }
    assert(s@ =~= v@);
    s
}

/// `s` without leading white space (`str::trim_start`).
pub open spec fn trim_start(s: Seq<char>) -> Seq<char>
    decreases s.len(),
{
    if s.len() > 0 && is_ws(s[0]) {
        trim_start(s.drop_first())
    } else {
        s
    }
}

/// `s` without trailing white space (`str::trim_end`).
pub open spec fn trim_end(s: Seq<char>) -> Seq<char>
    decreases s.len(),
{
    if s.len() > 0 && is_ws(s.last()) {
        trim_end(s.drop_last())
    } else {
        s
    }
}

/// `s` without leading and trailing white space (`str::trim`).
pub open spec fn trim(s: Seq<char>) -> Seq<char> {
    trim_end(trim_start(s))
}

proof fn lemma_trim_start_skip(s: Seq<char>, i: int)
    requires
        0 <= i <= s.len(),
        forall|k: int| 0 <= k < i ==> is_ws(#[trigger] s[k]),
    ensures
        trim_start(s) == trim_start(s.subrange(i, s.len() as int)),
    decreases i,
{
    if i > 0 {
        assert(s.drop_first().subrange(i - 1, s.drop_first().len() as int) =~= s.subrange(
            i,
            s.len() as int,
        ));
        lemma_trim_start_skip(s.drop_first(), i - 1);
    } else {
        assert(s.subrange(0, s.len() as int) =~= s);
    }
}

proof fn lemma_trim_end_cut(s: Seq<char>, j: int)
    requires
        0 <= j <= s.len(),
        forall|k: int| j <= k < s.len() ==> is_ws(#[trigger] s[k]),
    ensures
        trim_end(s) == trim_end(s.subrange(0, j)),
    decreases s.len() - j,
{
    if j < s.len() {
        assert(s.drop_last().subrange(0, j) =~= s.subrange(0, j));
        lemma_trim_end_cut(s.drop_last(), j);
    } else {
        assert(s.subrange(0, j) =~= s);
    }
}

/// The characters of `v` from `lo` (inclusive) to `hi` (exclusive).
pub fn slice_chars(v: &Vec<char>, lo: usize, hi: usize) -> (r: Vec<char>)
    requires
        lo <= hi <= v.len(),
    ensures
        r@ == v@.subrange(lo as int, hi as int),
{
    let mut r: Vec<char> = Vec::new();
    let mut i = lo;
    while i < hi
        invariant
            lo <= i <= hi <= v.len(),
            r@ == v@.subrange(lo as int, i as int),
        decreases hi - i,
    {
        r.push(v[i]);
        i = i + 1;
        assert(r@ =~= v@.subrange(lo as int, i as int));
    }
    r
}

/// `v` without leading and trailing white space.
pub fn trim_chars(v: &Vec<char>) -> (r: Vec<char>)
    ensures
        r@ == trim(v@),
{
    let n = v.len();
    let mut i: usize = 0;
    while i < n && is_whitespace(v[i])
        invariant
            i <= n == v.len(),
            forall|k: int| 0 <= k < i ==> is_ws(#[trigger] v@[k]),
        decreases n - i,
    {
        i = i + 1;
    }
    proof {
        lemma_trim_start_skip(v@, i as int);
    }
    let ghost rest = v@.subrange(i as int, n as int);
    assert(trim_start(rest) == rest);
    let mut j: usize = n;
    while j > i && is_whitespace(v[j - 1])
        invariant
            i <= j <= n == v.len(),
            forall|k: int| j <= k < n ==> is_ws(#[trigger] v@[k]),
        decreases j,
    {
        j = j - 1;
    }
    proof {
        assert forall|k: int| (j - i) <= k < rest.len() implies is_ws(#[trigger] rest[k]) by {
            assert(rest[k] == v@[k + i]);
        }
        lemma_trim_end_cut(rest, (j - i) as int);
        assert(rest.subrange(0, (j - i) as int) =~= v@.subrange(i as int, j as int));
        let t = v@.subrange(i as int, j as int);
        if t.len() > 0 {
            assert(t.last() == v@[j - 1]);
        }
    }
    slice_chars(v, i, j)
}


/// The deep view of a vector of characters is its view.
pub proof fn lemma_chars_deep_view(v: Vec<char>)
    ensures
        v.deep_view() == v@,
{
    assert(v.deep_view() =~= v@);
}

/// Splitting state after reading `s`: the finished pieces and the piece in progress.
pub open spec fn split_state(s: Seq<char>, d: char) -> (Seq<Seq<char>>, Seq<char>)
    decreases s.len(),
{
    if s.len() == 0 {
        (Seq::empty(), Seq::empty())
    } else {
        let st = split_state(s.drop_last(), d);
        if s.last() == d {
            (st.0.push(st.1), Seq::empty())
        } else {
            (st.0, st.1.push(s.last()))
        }
    }
}

/// The pieces of `s` between occurrences of `d`, empty pieces included (`str::split(d)`).
pub open spec fn split_on(s: Seq<char>, d: char) -> Seq<Seq<char>> {
    split_state(s, d).0.push(split_state(s, d).1)
}

/// Splits `v` at every occurrence of `d`.
pub fn split_chars(v: &Vec<char>, d: char) -> (r: Vec<Vec<char>>)
    ensures
        r.deep_view() == split_on(v@, d),
{
    let mut done: Vec<Vec<char>> = Vec::new();
    let mut cur: Vec<char> = Vec::new();
    let mut i: usize = 0;
    while i < v.len()
        invariant
            i <= v.len(),
            (done.deep_view(), cur@) == split_state(v@.subrange(0, i as int), d),
        decreases v.len() - i,
    {
        let ghost pre = v@.subrange(0, i as int);
        assert(v@.subrange(0, i + 1).drop_last() =~= pre);
        let c = v[i];
        if c == d {
            let piece = cur;
            proof { lemma_chars_deep_view(piece); }
            done.push(piece);
            cur = Vec::new();
            assert(done.deep_view() =~= split_state(pre, d).0.push(split_state(pre, d).1));
        } else {
            cur.push(c);
        }
        i = i + 1;
        assert((done.deep_view(), cur@) == split_state(v@.subrange(0, i as int), d));
    }
    assert(v@.subrange(0, v.len() as int) =~= v@);
    let ghost st = split_state(v@, d);
    assert(done.deep_view() == st.0 && cur@ == st.1);
    let ghost old_dv = done.deep_view();
    let last = cur;
    proof { lemma_chars_deep_view(last); }
    done.push(last);
    assert(done.deep_view() =~= old_dv.push(st.1));
    done
}

/// Tokenising state after reading `s`: finished words and the word in progress.
pub open spec fn words_state(s: Seq<char>) -> (Seq<Seq<char>>, Seq<char>)
    decreases s.len(),
{
    if s.len() == 0 {
        (Seq::empty(), Seq::empty())
    } else {
        let st = words_state(s.drop_last());
        if is_ws(s.last()) {
            if st.1.len() > 0 {
                (st.0.push(st.1), Seq::empty())
            } else {
                (st.0, Seq::empty())
            }
        } else {
            (st.0, st.1.push(s.last()))
        }
    }
}

/// The non-empty runs of non-white-space characters of `s` (`str::split_whitespace`).
pub open spec fn words(s: Seq<char>) -> Seq<Seq<char>> {
    if words_state(s).1.len() > 0 {
        words_state(s).0.push(words_state(s).1)
    } else {
        words_state(s).0
    }
}

/// Splits `v` into white-space separated words.
pub fn split_words(v: &Vec<char>) -> (r: Vec<Vec<char>>)
    ensures
        r.deep_view() == words(v@),
{
    let mut done: Vec<Vec<char>> = Vec::new();
    let mut cur: Vec<char> = Vec::new();
    let mut i: usize = 0;
    while i < v.len()
        invariant
            i <= v.len(),
            (done.deep_view(), cur@) == words_state(v@.subrange(0, i as int)),
        decreases v.len() - i,
    {
        let ghost pre = v@.subrange(0, i as int);
        assert(v@.subrange(0, i + 1).drop_last() =~= pre);
        let c = v[i];
        if is_whitespace(c) {
            if cur.len() > 0 {
                let ghost old_dv = done.deep_view();
                let ghost old_cur = cur@;
                let piece = cur;
                proof { lemma_chars_deep_view(piece); }
                done.push(piece);
                assert(done.deep_view() =~= old_dv.push(old_cur));
            }
            cur = Vec::new();
        } else {
            cur.push(c);
        }
        i = i + 1;
        assert((done.deep_view(), cur@) == words_state(v@.subrange(0, i as int)));
    }
    assert(v@.subrange(0, v.len() as int) =~= v@);
    let ghost st = words_state(v@);
    assert(done.deep_view() == st.0 && cur@ == st.1);
    if cur.len() > 0 {
        let ghost old_dv = done.deep_view();
        let last = cur;
        proof { lemma_chars_deep_view(last); }
        done.push(last);
        assert(done.deep_view() =~= old_dv.push(st.1));
    }
    done
}

/// Whether `c` occurs in `v`.
pub fn has_char(v: &Vec<char>, c: char) -> (r: bool)
    ensures
        r == v@.contains(c),
{
    let mut i: usize = 0;
    while i < v.len()
        invariant
            i <= v.len(),
            forall|k: int| 0 <= k < i ==> v@[k] != c,
        decreases v.len() - i,
    {
        if v[i] == c {
            return true;
        }
        i = i + 1;
    }
    false
}

/// Whether two character sequences are equal.
pub fn chars_eq(a: &Vec<char>, b: &Vec<char>) -> (r: bool)
    ensures
        r == (a@ == b@),
{
    if a.len() != b.len() {
        return false;
    }
    let mut i: usize = 0;
    while i < a.len()
        invariant
            i <= a.len() == b.len(),
            forall|k: int| 0 <= k < i ==> a@[k] == b@[k],
        decreases a.len() - i,
    {
        if a[i] != b[i] {
            return false;
        }
        i = i + 1;
    }
    assert(a@ =~= b@);
    true
}

/// Whether `c` is an ASCII decimal digit.
pub open spec fn is_digit(c: char) -> bool {
    '0' <= c <= '9'
}

/// The value of a run of ASCII digits.
pub open spec fn digits_value(s: Seq<char>) -> int
    decreases s.len(),
{
    if s.len() == 0 {
        0
    } else {
        10 * digits_value(s.drop_last()) + (s.last() as int - '0' as int)
    }
}

/// Whether every character of `s` is an ASCII digit.
pub open spec fn all_digits(s: Seq<char>) -> bool {
    forall|k: int| 0 <= k < s.len() ==> is_digit(#[trigger] s[k])
}

/// The integer that `s` denotes in the syntax that `i32::from_str` accepts:
/// an optional `+` or `-` followed by at least one ASCII digit.
pub open spec fn int_syntax(s: Seq<char>) -> Option<int> {
    if s.len() > 0 && (s[0] == '+' || s[0] == '-') {
        let body = s.drop_first();
        if body.len() > 0 && all_digits(body) {
            if s[0] == '-' {
                Some(-digits_value(body))
            } else {
                Some(digits_value(body))
            }
        } else {
            None
        }
    } else if s.len() > 0 && all_digits(s) {
        Some(digits_value(s))
    } else {
        None
    }
}

/// What `s.parse::<i32>().ok()` returns.
pub open spec fn parse_i32_spec(s: Seq<char>) -> Option<i32> {
    match int_syntax(s) {
        Some(v) => if i32::MIN <= v <= i32::MAX {
            Some(v as i32)
        } else {
            None
        },
        None => None,
    }
}

pub proof fn lemma_digits_value_nonneg(s: Seq<char>)
    requires
        all_digits(s),
    ensures
        digits_value(s) >= 0,
    decreases s.len(),
{
    if s.len() > 0 {
        assert(is_digit(s[s.len() - 1]));
        lemma_digits_value_nonneg(s.drop_last());
    }
}

/// Parses a decimal `i32` as `str::parse::<i32>` does; `None` on bad syntax or overflow.
pub fn parse_i32(v: &Vec<char>) -> (r: Option<i32>)
    ensures
        r == parse_i32_spec(v@),
{
    let n = v.len();
    if n == 0 {
        return None;
    }
    let neg = v[0] == '-';
    let start: usize = if v[0] == '+' || v[0] == '-' { 1 } else { 0 };
    if start == n {
        return None;
    }
    let ghost body = v@.subrange(start as int, n as int);
    let mut acc: i64 = 0;
    let mut big = false;
    let mut i = start;
    while i < n
        invariant
            start <= i <= n == v.len(),
            start == 0 || start == 1,
            start == 1 <==> (v@[0] == '+' || v@[0] == '-'),
            neg == (v@[0] == '-'),
            body == v@.subrange(start as int, n as int),
            all_digits(v@.subrange(start as int, i as int)),
            !big ==> acc == digits_value(v@.subrange(start as int, i as int)),
            !big ==> 0 <= acc <= 2147483648,
            big ==> digits_value(v@.subrange(start as int, i as int)) > 2147483648,
        decreases n - i,
    {
        let c = v[i];
        if !('0' <= c && c <= '9') {
            assert(body[i - start] == c);
            assert(!all_digits(body));
            proof {
                if start == 0 {
                    assert(!(v@[0] == '+' || v@[0] == '-'));
                    assert(body =~= v@);
                } else {
                    assert(body =~= v@.drop_first());
                }
            }
            return None;
        }
        let ghost pre = v@.subrange(start as int, i as int);
        let ghost nxt = v@.subrange(start as int, i + 1);
        assert(nxt.drop_last() =~= pre);
        assert(all_digits(nxt));
        proof {
            lemma_digits_value_nonneg(pre);
        }
        let d = (c as u32 - '0' as u32) as i64;
        if !big {
            let nv = acc * 10 + d;
            if nv > 2147483648 {
                big = true;
            } else {
                acc = nv;
            }
        }
        i = i + 1;
    }
    assert(v@.subrange(start as int, n as int) == body);
    proof {
        if start == 0 {
            assert(!(v@[0] == '+' || v@[0] == '-'));
            assert(body =~= v@);
        } else {
            assert(body =~= v@.drop_first());
        }
    }
    if big {
        return None;
    }
    if neg {
        Some((0 - acc) as i32)
    } else if acc > 2147483647 {
        None
    } else {
        Some(acc as i32)
    }
}


/// Characters of `s` with every non-overlapping occurrence of `pat`, scanned from the
/// left, replaced by `rep` (`str::replace`).
pub open spec fn replace_all(s: Seq<char>, pat: Seq<char>, rep: Seq<char>) -> Seq<char>
    decreases s.len(),
{
    if s.len() == 0 {
        Seq::empty()
    } else if pat.len() > 0 && s.len() >= pat.len() && s.subrange(0, pat.len() as int) == pat {
        rep + replace_all(s.subrange(pat.len() as int, s.len() as int), pat, rep)
    } else {
        seq![s[0]] + replace_all(s.drop_first(), pat, rep)
    }
}

/// Whether `pat` occurs in `v` at position `i`.
pub fn occurs_at(v: &Vec<char>, pat: &Vec<char>, i: usize) -> (r: bool)
    requires
        i <= v.len(),
    ensures
        r == (v.len() - i >= pat.len() && v@.subrange(i as int, i + pat.len()) == pat@),
{
    if v.len() - i < pat.len() {
        return false;
    }
    let mut k: usize = 0;
    while k < pat.len()
        invariant
            k <= pat.len(),
            v.len() - i >= pat.len(),
            forall|j: int| 0 <= j < k ==> v@[i + j] == pat@[j],
        decreases pat.len() - k,
    {
        if v[i + k] != pat[k] {
            assert(v@.subrange(i as int, i + pat.len())[k as int] != pat@[k as int]);
            return false;
        }
        k = k + 1;
    }
    assert(v@.subrange(i as int, i + pat.len()) =~= pat@);
    true
}


/// Whether `pat` occurs in `s` starting at position `i`.
pub open spec fn occurs(s: Seq<char>, pat: Seq<char>, i: int) -> bool {
    0 <= i && i + pat.len() <= s.len() && s.subrange(i, i + pat.len()) == pat
}

/// Whether `pat` occurs somewhere in `s` (`str::contains`).
pub open spec fn contains_seq(s: Seq<char>, pat: Seq<char>) -> bool {
    exists|i: int| occurs(s, pat, i)
}

/// Position of the first occurrence of `pat` in `v` (`str::find`, counted in characters).
pub fn find_sub(v: &Vec<char>, pat: &Vec<char>) -> (r: Option<usize>)
    ensures
        match r {
            Some(i) => occurs(v@, pat@, i as int) && forall|j: int| 0 <= j < i ==> !#[trigger] occurs(v@, pat@, j),
            None => !contains_seq(v@, pat@),
        },
{
    let mut i: usize = 0;
    while i < v.len()
        invariant
            i <= v.len(),
            forall|j: int| 0 <= j < i ==> !#[trigger] occurs(v@, pat@, j),
        decreases v.len() - i,
    {
        if occurs_at(v, pat, i) {
            return Some(i);
        }
        i = i + 1;
    }
    if occurs_at(v, pat, i) {
        return Some(i);
    }
    assert forall|j: int| !occurs(v@, pat@, j) by {
        if 0 <= j <= i {
        } else if j > i {
            assert(j > v.len());
        }
    }
    None
}

/// Whether `pat` occurs in `v`.
pub fn contains_sub(v: &Vec<char>, pat: &Vec<char>) -> (r: bool)
    ensures
        r == contains_seq(v@, pat@),
{
    find_sub(v, pat).is_some()
}

/// Replaces every occurrence of `pat` in `v` by `rep`, as `str::replace` does.
pub fn replace_chars(v: &Vec<char>, pat: &Vec<char>, rep: &Vec<char>) -> (r: Vec<char>)
    ensures
        r@ == replace_all(v@, pat@, rep@),
{
    let mut out: Vec<char> = Vec::new();
    let mut i: usize = 0;
    assert(v@.subrange(0, v.len() as int) =~= v@);
    assert(out@ + replace_all(v@, pat@, rep@) =~= replace_all(v@, pat@, rep@));
    while i < v.len()
        invariant
            i <= v.len(),
            out@ + replace_all(v@.subrange(i as int, v.len() as int), pat@, rep@) == replace_all(
                v@,
                pat@,
                rep@,
            ),
        decreases v.len() - i,
    {
        let ghost rest = v@.subrange(i as int, v.len() as int);
        if pat.len() > 0 && occurs_at(v, pat, i) {
            assert(rest.subrange(0, pat.len() as int) =~= v@.subrange(i as int, i + pat.len()));
            assert(rest.subrange(pat.len() as int, rest.len() as int) =~= v@.subrange(
                i + pat.len(),
                v.len() as int,
            ));
            let mut k: usize = 0;
            let ghost out0 = out@;
            while k < rep.len()
                invariant
                    k <= rep.len(),
                    out@ == out0 + rep@.subrange(0, k as int),
                decreases rep.len() - k,
            {
                out.push(rep[k]);
                k = k + 1;
                assert(out@ =~= out0 + rep@.subrange(0, k as int));
            }
            assert(rep@.subrange(0, rep.len() as int) =~= rep@);
            assert(out0 + replace_all(rest, pat@, rep@) =~= out@ + replace_all(
                v@.subrange(i + pat.len(), v.len() as int),
                pat@,
                rep@,
            ));
            i = i + pat.len();
        } else {
            assert(rest.drop_first() =~= v@.subrange(i + 1, v.len() as int));
            proof {
                if pat@.len() > 0 && rest.len() >= pat@.len() {
                    assert(rest.subrange(0, pat@.len() as int) =~= v@.subrange(
                        i as int,
                        i + pat@.len(),
                    ));
                }
            }
            let ghost out0 = out@;
            out.push(v[i]);
            assert(out0 + replace_all(rest, pat@, rep@) =~= out@ + replace_all(
                v@.subrange(i + 1, v.len() as int),
                pat@,
                rep@,
            ));
            i = i + 1;
        }
    }
    assert(v@.subrange(v.len() as int, v.len() as int) =~= Seq::<char>::empty());
    assert(out@ =~= out@ + Seq::<char>::empty());
    out
}

/// Number of bytes of the UTF-8 encoding of `c` (`char::len_utf8`).
pub open spec fn char_utf8_len(c: char) -> nat {
    if (c as u32) < 0x80 {
        1
    } else if (c as u32) < 0x800 {
        2
    } else if (c as u32) < 0x10000 {
        3
    } else {
        4
    }
}

/// Number of bytes of the UTF-8 encoding of `s` (`str::len`).
pub open spec fn utf8_len(s: Seq<char>) -> nat
    decreases s.len(),
{
    if s.len() == 0 {
        0
    } else {
        utf8_len(s.drop_last()) + char_utf8_len(s.last())
    }
}

/// Byte length of the UTF-8 encoding of `v`, saturated at `usize::MAX`.
pub fn utf8_byte_len(v: &Vec<char>) -> (r: usize)
    ensures
        r == if utf8_len(v@) <= usize::MAX { utf8_len(v@) } else { usize::MAX as nat },
{
    let mut total: usize = 0;
    let mut sat = false;
    let mut i: usize = 0;
    while i < v.len()
        invariant
            i <= v.len(),
            !sat ==> total == utf8_len(v@.subrange(0, i as int)),
            sat ==> total == usize::MAX && utf8_len(v@.subrange(0, i as int)) > usize::MAX,
        decreases v.len() - i,
    {
        assert(v@.subrange(0, i + 1).drop_last() =~= v@.subrange(0, i as int));
        let u = v[i] as u32;
        let w: usize = if u < 0x80 { 1 } else if u < 0x800 { 2 } else if u < 0x10000 { 3 } else { 4 };
        if !sat {
            if total > usize::MAX - w {
                sat = true;
                total = usize::MAX;
            } else {
                total = total + w;
            }
        }
        i = i + 1;
    }
    assert(v@.subrange(0, v.len() as int) =~= v@);
    total
}

/// What `str::to_uppercase` returns, as characters (Unicode upper-case mapping).
pub uninterp spec fn upper_of(s: Seq<char>) -> Seq<char>;

/// What `str::to_lowercase` returns, as characters (Unicode lower-case mapping).
pub uninterp spec fn lower_of(s: Seq<char>) -> Seq<char>;

/// Whether every character of `s` is ASCII.
pub open spec fn ascii_only(s: Seq<char>) -> bool {
    forall|i: int| 0 <= i < s.len() ==> (#[trigger] s[i] as u32) < 128
}

/// The ASCII upper case of `c`: `a`..`z` become `A`..`Z`, other characters stay.
pub open spec fn ascii_upper_char(c: char) -> char {
    if 'a' <= c && c <= 'z' {
        ((c as u32) - 32) as char
    } else {
        c
    }
}

/// The ASCII lower case of `c`: `A`..`Z` become `a`..`z`, other characters stay.
pub open spec fn ascii_lower_char(c: char) -> char {
    if 'A' <= c && c <= 'Z' {
        ((c as u32) + 32) as char
    } else {
        c
    }
}

/// Upper-cases `v` with `str::to_uppercase`.
/// Trusted: the result is the named Unicode upper-case mapping of the input; on ASCII
/// text that mapping (from the Unicode case tables) turns `a`..`z` into `A`..`Z` and
/// leaves every other character as it is.
#[verifier::external_body]
pub(crate) fn to_upper(v: &Vec<char>) -> (r: Vec<char>)
    ensures
        r@ == upper_of(v@),
        ascii_only(v@) ==> r@ == v@.map_values(|c: char| ascii_upper_char(c)),
{
    let s: String = v.iter().collect();
    s.to_uppercase().chars().collect()
}

/// Lower-cases `v` with `str::to_lowercase`.
/// Trusted: the result is the named Unicode lower-case mapping of the input; on ASCII
/// text that mapping (from the Unicode case tables) turns `A`..`Z` into `a`..`z` and
/// leaves every other character as it is.
#[verifier::external_body]
pub(crate) fn to_lower(v: &Vec<char>) -> (r: Vec<char>)
    ensures
        r@ == lower_of(v@),
        ascii_only(v@) ==> r@ == v@.map_values(|c: char| ascii_lower_char(c)),
{
    let s: String = v.iter().collect();
    s.to_lowercase().chars().collect()
}

/// Whether `c` has the Unicode `Alphabetic` property (`char::is_alphabetic`).
pub uninterp spec fn alphabetic(c: char) -> bool;

/// Whether `c` is alphabetic or numeric in the Unicode sense (`char::is_alphanumeric`).
pub uninterp spec fn alphanumeric(c: char) -> bool;

/// `char::is_alphabetic`. Trusted: the result is the named Unicode property.
#[verifier::external_body]
pub(crate) fn is_alphabetic(c: char) -> (r: bool)
    ensures
        r == alphabetic(c),
{
    c.is_alphabetic()
}

/// `char::is_alphanumeric`. Trusted: the result is the named Unicode property.
#[verifier::external_body]
pub(crate) fn is_alphanumeric(c: char) -> (r: bool)
    ensures
        r == alphanumeric(c),
{
    c.is_alphanumeric()
}

/// Index of the first of `toks[i..]` that contains `c`.
pub open spec fn find_from(toks: Seq<Seq<char>>, c: char, i: int) -> Option<int>
    decreases toks.len() - i,
{
    if i < 0 || i >= toks.len() {
        None
    } else if toks[i].contains(c) {
        Some(i)
    } else {
        find_from(toks, c, i + 1)
    }
}

/// A found token index lies in range and the token contains the character.
pub proof fn lemma_find_from(toks: Seq<Seq<char>>, c: char, i: int)
    ensures
        match find_from(toks, c, i) {
            Some(j) => i <= j < toks.len() && toks[j].contains(c),
            None => true,
        },
    decreases toks.len() - i,
{
    if 0 <= i < toks.len() && !toks[i].contains(c) {
        lemma_find_from(toks, c, i + 1);
    }
}

/// Index of the first occurrence of `c` in `s[i..]`.
pub open spec fn first_index(s: Seq<char>, c: char, i: int) -> Option<int>
    decreases s.len() - i,
{
    if i < 0 || i >= s.len() {
        None
    } else if s[i] == c {
        Some(i)
    } else {
        first_index(s, c, i + 1)
    }
}

/// The first occurrence found lies in range and holds the character.
pub proof fn lemma_first_index(s: Seq<char>, c: char, i: int)
    requires
        0 <= i,
    ensures
        match first_index(s, c, i) {
            Some(j) => i <= j < s.len() && s[j] == c,
            None => forall|k: int| i <= k < s.len() ==> s[k] != c,
        },
    decreases s.len() - i,
{
    if 0 <= i < s.len() && s[i] != c {
        lemma_first_index(s, c, i + 1);
    }
}

/// Position of the first occurrence of `c` in `v`.
pub fn position_of(v: &Vec<char>, c: char) -> (r: Option<usize>)
    ensures
        match r {
            Some(i) => first_index(v@, c, 0) == Some(i as int),
            None => first_index(v@, c, 0) is None,
        },
{
    let mut i: usize = 0;
    while i < v.len()
        invariant
            i <= v.len(),
            first_index(v@, c, 0) == first_index(v@, c, i as int),
        decreases v.len() - i,
    {
        if v[i] == c {
            return Some(i);
        }
        i = i + 1;
    }
    None
}

/// Index of the first token that contains `c`.
pub fn find_token_with(toks: &Vec<Vec<char>>, c: char) -> (r: Option<usize>)
    ensures
        match r {
            Some(i) => find_from(toks.deep_view(), c, 0) == Some(i as int),
            None => find_from(toks.deep_view(), c, 0) is None,
        },
{
    let mut i: usize = 0;
    while i < toks.len()
        invariant
            i <= toks.len(),
            find_from(toks.deep_view(), c, 0) == find_from(toks.deep_view(), c, i as int),
        decreases toks.len() - i,
    {
        proof {
            lemma_chars_deep_view(toks@[i as int]);
        }
        if has_char(&toks[i], c) {
            return Some(i);
        }
        i = i + 1;
    }
    None
}

/// The tokens joined with `sep` between consecutive ones (`slice::join`).
pub open spec fn join_sep(toks: Seq<Seq<char>>, sep: char) -> Seq<char>
    decreases toks.len(),
{
    if toks.len() == 0 {
        Seq::empty()
    } else if toks.len() == 1 {
        toks[0]
    } else {
        join_sep(toks.drop_last(), sep) + seq![sep] + toks.last()
    }
}

/// Appends the characters of `b` to `a`.
pub fn append_chars(a: &mut Vec<char>, b: &Vec<char>)
    ensures
        final(a)@ == old(a)@ + b@,
{
    let mut k: usize = 0;
    while k < b.len()
        invariant
            k <= b.len(),
            a@ == old(a)@ + b@.subrange(0, k as int),
        decreases b.len() - k,
    {
        a.push(b[k]);
        k = k + 1;
        assert(a@ =~= old(a)@ + b@.subrange(0, k as int));
    }
    assert(b@.subrange(0, b.len() as int) =~= b@);
}

/// Joins `toks[lo..hi]` with `sep`.
pub fn join_tokens(toks: &Vec<Vec<char>>, lo: usize, hi: usize, sep: char) -> (r: Vec<char>)
    requires
        lo <= hi <= toks.len(),
    ensures
        r@ == join_sep(toks.deep_view().subrange(lo as int, hi as int), sep),
{
    let mut out: Vec<char> = Vec::new();
    let mut i = lo;
    while i < hi
        invariant
            lo <= i <= hi <= toks.len(),
            out@ == join_sep(toks.deep_view().subrange(lo as int, i as int), sep),
        decreases hi - i,
    {
        let ghost pre = toks.deep_view().subrange(lo as int, i as int);
        let ghost nxt = toks.deep_view().subrange(lo as int, i + 1);
        assert(nxt.drop_last() =~= pre);
        proof {
            lemma_chars_deep_view(toks@[i as int]);
        }
        if i > lo {
            out.push(sep);
        }
        append_chars(&mut out, &toks[i]);
        proof {
            if i == lo {
                assert(pre =~= Seq::<Seq<char>>::empty());
                assert(out@ =~= nxt[0]);
            } else {
                assert(out@ =~= join_sep(pre, sep) + seq![sep] + nxt.last());
            }
        }
        i = i + 1;
    }
    out
}

/// A vector of the characters of a string literal or slice.
pub fn lit(s: &str) -> (v: Vec<char>)
    ensures
        v@ == s@,
{
    chars_of(s)
}

} // verus!
