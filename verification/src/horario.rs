//! Parsing of timetable strings such as `"LU MA 08:30-10:00"` into minutes of the
//! day and (day, start, end) slots.
use vstd::prelude::*;
use crate::text::{
    find_from, find_token_with, first_index, join_sep, join_tokens, lemma_find_from,
    lemma_first_index, position_of, split_words, string_from_chars, to_upper as upper_chars,
    words,
    chars_of, has_char, lemma_chars_deep_view, lit, parse_i32, parse_i32_spec, replace_all,
    replace_chars, slice_chars, split_chars, split_on, to_upper, trim, trim_chars, upper_of,
    utf8_byte_len, utf8_len, alphabetic, is_alphabetic,
};
use crate::text::{all_digits, digits_value, int_syntax, is_digit, is_ws, lemma_digits_value_nonneg, split_state, trim_end, trim_start};
use crate::datafiles::{decimal, digit_char};

verus! {

/// An hour and a minute read from a time token, before conversion to minutes.
pub type HourMinute = Option<(i32, i32)>;

/// Reads the hour and minute of two `:`-separated pieces; `trim_parts` says whether each
/// piece is trimmed before it is parsed.
pub open spec fn pair_hm(p: Seq<Seq<char>>, trim_parts: bool) -> HourMinute {
    if p.len() == 2 {
        let a = if trim_parts { trim(p[0]) } else { p[0] };
        let b = if trim_parts { trim(p[1]) } else { p[1] };
        match (parse_i32_spec(a), parse_i32_spec(b)) {
            (Some(h), Some(m)) => Some((h, m)),
            _ => None,
        }
    } else {
        None
    }
}

/// Whether `h * 60` and `h * 60 + m` stay within `i32`.
pub open spec fn hm_fits(hm: HourMinute) -> bool {
    match hm {
        Some((h, m)) => i32::MIN <= h * 60 <= i32::MAX && i32::MIN <= h * 60 + m <= i32::MAX,
        None => true,
    }
}

/// Minutes since midnight of an hour and minute.
pub open spec fn hm_minutes(hm: HourMinute) -> Option<i32> {
    match hm {
        Some((h, m)) => Some((h * 60 + m) as i32),
        None => None,
    }
}

/// `"HH:MM"` read after trimming the whole token and each side of the `:`.
pub open spec fn hora_hm(s: Seq<char>) -> HourMinute {
    pair_hm(split_on(trim(s), ':'), true)
}

/// `"HH:MM"` read by splitting at `:` and trimming each side.
pub open spec fn time_hm(s: Seq<char>) -> HourMinute {
    pair_hm(split_on(s, ':'), true)
}

/// `"HH:MM"` read after trimming the whole token; the sides are parsed as they are.
pub open spec fn hora_min_hm(s: Seq<char>) -> HourMinute {
    pair_hm(split_on(trim(s), ':'), false)
}

/// The token that a flexible time reader parses: trimmed, upper-cased, `.` read as `:`,
/// `AM`/`PM` dropped, and a leading `0` added to a four-byte token without `:`.
pub open spec fn flex_token(t: Seq<char>) -> Seq<char> {
    let a = replace_all(upper_of(trim(t)), seq!['.'], seq![':']);
    let b = trim(replace_all(replace_all(a, seq!['A', 'M'], Seq::empty()), seq!['P', 'M'], Seq::empty()));
    if utf8_len(b) == 4 && !b.contains(':') {
        seq!['0'] + b
    } else {
        b
    }
}

/// Hour and minute of a flexible time token such as `"8.30"` or `"08:30PM"`.
pub open spec fn flex_hm(t: Seq<char>) -> HourMinute {
    pair_hm(split_on(flex_token(t), ':'), false)
}

/// `flex_token` of a token already in upper case: trimmed, `.` read as `:`, `AM`/`PM`
/// dropped, and a leading `0` added to a four-byte token without `:`.
pub open spec fn flex_token_upper(u: Seq<char>) -> Seq<char> {
    let a = replace_all(trim(u), seq!['.'], seq![':']);
    let b = trim(replace_all(replace_all(a, seq!['A', 'M'], Seq::empty()), seq!['P', 'M'], Seq::empty()));
    if utf8_len(b) == 4 && !b.contains(':') {
        seq!['0'] + b
    } else {
        b
    }
}

/// Hour and minute of a time token already in upper case, such as `"08:30PM"`.
pub open spec fn flex_hm_upper(u: Seq<char>) -> HourMinute {
    pair_hm(split_on(flex_token_upper(u), ':'), false)
}

/// Reads hour and minute from `:`-separated pieces.
fn pair_hm_exec(p: &Vec<Vec<char>>, trim_parts: bool) -> (r: HourMinute)
    ensures
        r == pair_hm(p.deep_view(), trim_parts),
{
    if p.len() != 2 {
        return None;
    }
    proof {
        lemma_chars_deep_view(p@[0]);
        lemma_chars_deep_view(p@[1]);
    }
    let a = if trim_parts { trim_chars(&p[0]) } else { slice_chars(&p[0], 0, p[0].len()) };
    let b = if trim_parts { trim_chars(&p[1]) } else { slice_chars(&p[1], 0, p[1].len()) };
    assert(p@[0]@.subrange(0, p@[0]@.len() as int) =~= p@[0]@);
    assert(p@[1]@.subrange(0, p@[1]@.len() as int) =~= p@[1]@);
    let h = parse_i32(&a);
    match h {
        None => None,
        Some(hv) => {
            let m = parse_i32(&b);
            match m {
                None => None,
                Some(mv) => Some((hv, mv)),
            }
        },
    }
}

/// Minutes since midnight of an hour and minute.
fn minutes_exec(hm: HourMinute) -> (r: Option<i32>)
    requires
        hm_fits(hm),
    ensures
        r == hm_minutes(hm),
{
    match hm {
        Some((h, m)) => Some(h * 60 + m),
        None => None,
    }
}

/// Minutes since midnight of `"HH:MM"`, trimming the token and both sides of `:`.
pub fn parse_hora(s: &Vec<char>) -> (r: Option<i32>)
    requires
        hm_fits(hora_hm(s@)),
    ensures
        r == hm_minutes(hora_hm(s@)),
{
    let t = trim_chars(s);
    let parts = split_chars(&t, ':');
    minutes_exec(pair_hm_exec(&parts, true))
}

/// Minutes since midnight of `"HH:MM"`, trimming both sides of `:`.
pub fn parse_time_to_minutes(s: &Vec<char>) -> (r: Option<i32>)
    requires
        hm_fits(time_hm(s@)),
    ensures
        r == hm_minutes(time_hm(s@)),
{
    let parts = split_chars(s, ':');
    minutes_exec(pair_hm_exec(&parts, true))
}

/// Minutes since midnight of `"HH:MM"`, trimming only the whole token.
pub fn parse_hora_minutos(s: &Vec<char>) -> (r: Option<i32>)
    requires
        hm_fits(hora_min_hm(s@)),
    ensures
        r == hm_minutes(hora_min_hm(s@)),
{
    let t = trim_chars(s);
    let parts = split_chars(&t, ':');
    minutes_exec(pair_hm_exec(&parts, false))
}

/// Converts `"HH:MM"` to minutes since 00:00.
pub fn hora_a_minutos(s: &str) -> (r: Option<i32>)
    requires
        hm_fits(hora_min_hm(s@)),
    ensures
        r == hm_minutes(hora_min_hm(s@)),
{
    parse_hora_minutos(&chars_of(s))
}

/// The token that `to_min_opt` parses.
fn flex_token_exec(t: &Vec<char>) -> (r: Vec<char>)
    ensures
        r@ == flex_token(t@),
{
    let a0 = to_upper(&trim_chars(t));
    let a = replace_chars(&a0, &lit("."), &lit(":"));
    let empty: Vec<char> = Vec::new();
    assert(empty@ =~= Seq::<char>::empty());
    let b0 = replace_chars(&a, &lit("AM"), &empty);
    let b1 = replace_chars(&b0, &lit("PM"), &empty);
    let b = trim_chars(&b1);
    proof {
        reveal_strlit(".");
        reveal_strlit(":");
        reveal_strlit("AM");
        reveal_strlit("PM");
        assert("."@ =~= seq!['.']);
        assert(":"@ =~= seq![':']);
        assert("AM"@ =~= seq!['A', 'M']);
        assert("PM"@ =~= seq!['P', 'M']);
    }
    if utf8_byte_len(&b) == 4 && !has_char(&b, ':') {
        let mut z = lit("0");
        proof {
            reveal_strlit("0");
        }
        let mut k: usize = 0;
        let ghost z0 = z@;
        while k < b.len()
            invariant
                k <= b.len(),
                z@ == z0 + b@.subrange(0, k as int),
            decreases b.len() - k,
        {
            z.push(b[k]);
            k = k + 1;
            assert(z@ =~= z0 + b@.subrange(0, k as int));
        }
        assert(b@.subrange(0, b.len() as int) =~= b@);
        assert(z@ =~= seq!['0'] + b@);
        z
    } else {
        b
    }
}

/// Minutes of a flexible time token such as `"8.30"` or `"08:30PM"` (`AM`/`PM` ignored).
pub fn to_min_opt(t: &Vec<char>) -> (r: Option<i32>)
    requires
        hm_fits(flex_hm(t@)),
    ensures
        r == hm_minutes(flex_hm(t@)),
{
    let tok = flex_token_exec(t);
    let parts = split_chars(&tok, ':');
    minutes_exec(pair_hm_exec(&parts, false))
}

/// The token that `to_min_upper` parses.
fn flex_token_upper_exec(u: &Vec<char>) -> (r: Vec<char>)
    ensures
        r@ == flex_token_upper(u@),
{
    let a0 = trim_chars(u);
    let a = replace_chars(&a0, &lit("."), &lit(":"));
    let empty: Vec<char> = Vec::new();
    assert(empty@ =~= Seq::<char>::empty());
    let b0 = replace_chars(&a, &lit("AM"), &empty);
    let b1 = replace_chars(&b0, &lit("PM"), &empty);
    let b = trim_chars(&b1);
    proof {
        reveal_strlit(".");
        reveal_strlit(":");
        reveal_strlit("AM");
        reveal_strlit("PM");
        assert("."@ =~= seq!['.']);
        assert(":"@ =~= seq![':']);
        assert("AM"@ =~= seq!['A', 'M']);
        assert("PM"@ =~= seq!['P', 'M']);
    }
    if utf8_byte_len(&b) == 4 && !has_char(&b, ':') {
        let mut z = lit("0");
        proof {
            reveal_strlit("0");
        }
        let mut k: usize = 0;
        let ghost z0 = z@;
        while k < b.len()
            invariant
                k <= b.len(),
                z@ == z0 + b@.subrange(0, k as int),
            decreases b.len() - k,
        {
            z.push(b[k]);
            k = k + 1;
            assert(z@ =~= z0 + b@.subrange(0, k as int));
        }
        assert(b@.subrange(0, b.len() as int) =~= b@);
        assert(z@ =~= seq!['0'] + b@);
        z
    } else {
        b
    }
}

/// Minutes of a time token already in upper case, such as `"08:30"` or `"8.30PM"`
/// (`AM`/`PM` ignored).
pub fn to_min_upper(u: &Vec<char>) -> (r: Option<i32>)
    requires
        hm_fits(flex_hm_upper(u@)),
    ensures
        r == hm_minutes(flex_hm_upper(u@)),
{
    let tok = flex_token_upper_exec(u);
    let parts = split_chars(&tok, ':');
    minutes_exec(pair_hm_exec(&parts, false))
}


/// The two `-`-separated pieces of a range such as `"08:30 - 09:50"` (an en dash counts as `-`).
pub open spec fn rango_parts(s: Seq<char>) -> Seq<Seq<char>> {
    split_on(replace_all(s, seq!['–'], seq!['-']), '-')
}

/// Whether reading the range `s` stays within `i32` arithmetic.
pub open spec fn rango_fits(s: Seq<char>) -> bool {
    let p = rango_parts(s);
    p.len() == 2 ==> {
        &&& hm_fits(hora_min_hm(trim(p[0])))
        &&& hm_minutes(hora_min_hm(trim(p[0]))) is Some ==> hm_fits(hora_min_hm(trim(p[1])))
    }
}

/// Start and end minutes of a range `"HH:MM - HH:MM"`.
pub open spec fn rango(s: Seq<char>) -> Option<(i32, i32)> {
    let p = rango_parts(s);
    if p.len() != 2 {
        None
    } else {
        match (hm_minutes(hora_min_hm(trim(p[0]))), hm_minutes(hora_min_hm(trim(p[1])))) {
            (Some(a), Some(b)) => Some((a, b)),
            _ => None,
        }
    }
}

/// Reads a range `"HH:MM - HH:MM"` (spaces around the dash allowed).
pub fn parse_rango(s: &Vec<char>) -> (r: Option<(i32, i32)>)
    requires
        rango_fits(s@),
    ensures
        r == rango(s@),
{
    let mut dash: Vec<char> = Vec::new();
    dash.push('–');
    let mut minus: Vec<char> = Vec::new();
    minus.push('-');
    assert(dash@ =~= seq!['–']);
    assert(minus@ =~= seq!['-']);
    let s2 = replace_chars(s, &dash, &minus);
    let parts = split_chars(&s2, '-');
    if parts.len() != 2 {
        return None;
    }
    proof {
        lemma_chars_deep_view(parts@[0]);
        lemma_chars_deep_view(parts@[1]);
    }
    let a = parse_hora_minutos(&trim_chars(&parts[0]));
    match a {
        None => None,
        Some(av) => {
            let b = parse_hora_minutos(&trim_chars(&parts[1]));
            match b {
                None => None,
                Some(bv) => Some((av, bv)),
            }
        },
    }
}

/// Whether expanding `entry` stays within `i32` arithmetic.
pub open spec fn expand_fits(entry: Seq<char>) -> bool {
    let toks = words(entry);
    match find_from(toks, ':', 0) {
        Some(ti) => rango_fits(join_sep(toks.subrange(ti, toks.len() as int), ' ')),
        None => true,
    }
}

/// The (day, start, end) slots of an entry such as `"LU JU 14:30 - 15:50"`: the words
/// before the first word holding `:` are days (upper-cased), the rest is the range.
pub open spec fn expand_entry(entry: Seq<char>) -> Seq<(Seq<char>, i32, i32)> {
    let toks = words(entry);
    match find_from(toks, ':', 0) {
        None => Seq::empty(),
        Some(ti) => match rango(join_sep(toks.subrange(ti, toks.len() as int), ' ')) {
            Some((a, b)) => toks.subrange(0, ti).map_values(|d: Seq<char>| (upper_of(d), a, b)),
            None => Seq::empty(),
        },
    }
}

/// Expands an entry such as `"LU JU 14:30 - 15:50"` into (day, start, end) slots.
pub fn expand_horario_entry(entry: &Vec<char>) -> (r: Vec<(String, i32, i32)>)
    requires
        expand_fits(entry@),
    ensures
        r.deep_view() == expand_entry(entry@),
{
    let toks = split_words(entry);
    let ti = match find_token_with(&toks, ':') {
        None => {
            let e: Vec<(String, i32, i32)> = Vec::new();
            assert(e.deep_view() =~= Seq::<(Seq<char>, i32, i32)>::empty());
            return e;
        },
        Some(i) => i,
    };
    proof {
        lemma_find_from(toks.deep_view(), ':', 0);
    }
    let time_part = join_tokens(&toks, ti, toks.len(), ' ');
    match parse_rango(&time_part) {
        None => {
            let e: Vec<(String, i32, i32)> = Vec::new();
            assert(e.deep_view() =~= Seq::<(Seq<char>, i32, i32)>::empty());
            e
        },
        Some((a, b)) => {
            let mut out: Vec<(String, i32, i32)> = Vec::new();
            let ghost days = toks.deep_view().subrange(0, ti as int);
            let mut k: usize = 0;
            while k < ti
                invariant
                    k <= ti < toks.len(),
                    days == toks.deep_view().subrange(0, ti as int),
                    out.deep_view() == days.subrange(0, k as int).map_values(
                        |d: Seq<char>| (upper_of(d), a, b),
                    ),
                decreases ti - k,
            {
                proof {
                    lemma_chars_deep_view(toks@[k as int]);
                }
                let up = upper_chars(&toks[k]);
                let d = string_from_chars(&up);
                let ghost old_dv = out.deep_view();
                out.push((d, a, b));
                assert(out.deep_view() =~= old_dv.push((upper_of(days[k as int]), a, b)));
                assert(days.subrange(0, k + 1) =~= days.subrange(0, k as int).push(days[k as int]));
                k = k + 1;
                assert(out.deep_view() =~= days.subrange(0, k as int).map_values(
                    |d: Seq<char>| (upper_of(d), a, b),
                ));
            }
            assert(days.subrange(0, ti as int) =~= days);
            out
        },
    }
}

/// The first three characters of `t`.
pub open spec fn take3(t: Seq<char>) -> Seq<char> {
    if t.len() <= 3 {
        t
    } else {
        t.subrange(0, 3)
    }
}

/// Canonical two-letter day code of a day word: `LUN`/`LU` is `LU`, `MAR`/`MA` is `MA`, and
/// so on; other words keep their first three characters.
pub open spec fn day_code(d: Seq<char>) -> Seq<char> {
    let t = take3(trim(d));
    if t == seq!['L', 'U', 'N'] || t == seq!['L', 'U'] {
        seq!['L', 'U']
    } else if t == seq!['M', 'A', 'R'] || t == seq!['M', 'A'] {
        seq!['M', 'A']
    } else if t == seq!['M', 'I', 'E'] || t == seq!['M', 'I'] {
        seq!['M', 'I']
    } else if t == seq!['J', 'U', 'E'] || t == seq!['J', ' ', 'U'] || t == seq!['J', 'U'] {
        seq!['J', 'U']
    } else if t == seq!['V', 'I', 'E'] || t == seq!['V', 'I'] {
        seq!['V', 'I']
    } else if t == seq!['S', 'A', 'B'] || t == seq!['S', 'A'] {
        seq!['S', 'A']
    } else if t == seq!['D', 'O', 'M'] || t == seq!['D', 'O'] {
        seq!['D', 'O']
    } else {
        t
    }
}

/// The three-letter Spanish weekday abbreviations, Monday to Sunday.
pub open spec fn weekday_abbrevs() -> Seq<Seq<char>> {
    seq![
        seq!['L', 'U', 'N'],
        seq!['M', 'A', 'R'],
        seq!['M', 'I', 'E'],
        seq!['J', 'U', 'E'],
        seq!['V', 'I', 'E'],
        seq!['S', 'A', 'B'],
        seq!['D', 'O', 'M'],
    ]
}

/// A day word whose trimmed text starts with a weekday abbreviation (`"VIE"`,
/// `"viernes"` upper-cased as `"VIERNES"`, ...; also `"J U"` for Thursday), or is the
/// two-letter code itself, has as day code the first two letters of the abbreviation.
pub proof fn lemma_day_code_weekday(d: Seq<char>, k: int)
    requires
        0 <= k < 7,
        (trim(d).len() >= 3 && trim(d).subrange(0, 3) == weekday_abbrevs()[k])
            || trim(d) == weekday_abbrevs()[k].subrange(0, 2)
            || (k == 3 && trim(d).len() >= 3 && trim(d).subrange(0, 3) == seq!['J', ' ', 'U']),
    ensures
        day_code(d) == weekday_abbrevs()[k].subrange(0, 2),
        day_code(d).len() == 2,
{
    let w = weekday_abbrevs()[k];
    let t = take3(trim(d));
    if trim(d).len() >= 3 && trim(d).subrange(0, 3) == w {
        if trim(d).len() == 3 {
            assert(trim(d) =~= trim(d).subrange(0, 3));
        }
        assert(t == w);
    } else if k == 3 && trim(d).len() >= 3 && trim(d).subrange(0, 3) == seq!['J', ' ', 'U'] {
        if trim(d).len() == 3 {
            assert(trim(d) =~= trim(d).subrange(0, 3));
        }
        assert(t == seq!['J', ' ', 'U']);
    } else {
        assert(t == trim(d));
    }
    assert(w.subrange(0, 2) =~= seq![w[0], w[1]]);
}

/// The day code of any word is either the two-letter code of a weekday or the first
/// three characters of the trimmed word.
pub proof fn lemma_day_code_shape(d: Seq<char>)
    ensures
        day_code(d) == take3(trim(d)) || exists|k: int| 0 <= k < 7 && day_code(d) == (#[trigger] weekday_abbrevs()[k]).subrange(0, 2),
{
    let w = weekday_abbrevs();
    assert(w[0].subrange(0, 2) =~= seq!['L', 'U']);
    assert(w[1].subrange(0, 2) =~= seq!['M', 'A']);
    assert(w[2].subrange(0, 2) =~= seq!['M', 'I']);
    assert(w[3].subrange(0, 2) =~= seq!['J', 'U']);
    assert(w[4].subrange(0, 2) =~= seq!['V', 'I']);
    assert(w[5].subrange(0, 2) =~= seq!['S', 'A']);
    assert(w[6].subrange(0, 2) =~= seq!['D', 'O']);
}

/// Whether `t` equals the two- or three-letter code `a b [c]`.
fn is_code(t: &Vec<char>, a: char, b: char, c: Option<char>) -> (r: bool)
    ensures
        r == match c {
            Some(cc) => t@ == seq![a, b, cc],
            None => t@ == seq![a, b],
        },
{
    match c {
        Some(cc) => {
            let r = t.len() == 3 && t[0] == a && t[1] == b && t[2] == cc;
            proof {
                if t.len() == 3 && t@[0] == a && t@[1] == b && t@[2] == cc {
                    assert(t@ =~= seq![a, b, cc]);
                }
            }
            r
        },
        None => {
            let r = t.len() == 2 && t[0] == a && t[1] == b;
            proof {
                if t.len() == 2 && t@[0] == a && t@[1] == b {
                    assert(t@ =~= seq![a, b]);
                }
            }
            r
        },
    }
}

/// Two-character sequence `a b`.
fn pair_chars(a: char, b: char) -> (r: Vec<char>)
    ensures
        r@ == seq![a, b],
{
    let mut r: Vec<char> = Vec::new();
    r.push(a);
    r.push(b);
    assert(r@ =~= seq![a, b]);
    r
}

/// Canonical day code of a day word.
pub fn day_code_exec(d: &Vec<char>) -> (r: Vec<char>)
    ensures
        r@ == day_code(d@),
{
    let tt = trim_chars(d);
    let t = if tt.len() <= 3 { tt } else { slice_chars(&tt, 0, 3) };
    if is_code(&t, 'L', 'U', Some('N')) || is_code(&t, 'L', 'U', None) {
        pair_chars('L', 'U')
    } else if is_code(&t, 'M', 'A', Some('R')) || is_code(&t, 'M', 'A', None) {
        pair_chars('M', 'A')
    } else if is_code(&t, 'M', 'I', Some('E')) || is_code(&t, 'M', 'I', None) {
        pair_chars('M', 'I')
    } else if is_code(&t, 'J', 'U', Some('E')) || is_code(&t, 'J', ' ', Some('U')) || is_code(
        &t,
        'J',
        'U',
        None,
    ) {
        pair_chars('J', 'U')
    } else if is_code(&t, 'V', 'I', Some('E')) || is_code(&t, 'V', 'I', None) {
        pair_chars('V', 'I')
    } else if is_code(&t, 'S', 'A', Some('B')) || is_code(&t, 'S', 'A', None) {
        pair_chars('S', 'A')
    } else if is_code(&t, 'D', 'O', Some('M')) || is_code(&t, 'D', 'O', None) {
        pair_chars('D', 'O')
    } else {
        t
    }
}

/// The text that slot parsing works on: trimmed, `.` read as `:`, upper-cased.
pub open spec fn slot_text(h: Seq<char>) -> Seq<char> {
    upper_of(replace_all(trim(h), seq!['.'], seq![':']))
}

/// Whether `c` is a letter: an ASCII letter, or a non-ASCII alphabetic character.
pub open spec fn day_letter(c: char) -> bool {
    ('A' <= c && c <= 'Z') || ('a' <= c && c <= 'z') || (c as u32 > 127 && alphabetic(c))
}

/// Whether a token looks like a day: two or three letters.
pub open spec fn day_like(t: Seq<char>) -> bool {
    2 <= t.len() <= 3 && forall|i: int| 0 <= i < t.len() ==> day_letter(#[trigger] t[i])
}

/// Whether `t` looks like a day (see `day_like`).
fn day_like_exec(t: &Vec<char>) -> (r: bool)
    ensures
        r == day_like(t@),
{
    if t.len() < 2 || t.len() > 3 {
        return false;
    }
    let mut i: usize = 0;
    while i < t.len()
        invariant
            i <= t.len(),
            forall|j: int| 0 <= j < i ==> day_letter(#[trigger] t@[j]),
        decreases t.len() - i,
    {
        let c = t[i];
        let ok = ('A' <= c && c <= 'Z') || ('a' <= c && c <= 'z') || (c as u32 > 127 && is_alphabetic(c));
        if !ok {
            return false;
        }
        i = i + 1;
    }
    true
}

/// The days and the two time tokens of a timetable entry, when it has the shape that
/// slot parsing accepts: the first word holding `-` carries the range; a leading word
/// such as `"LU:08:30-10:00"` carries a day before its first `:` when that text looks
/// like a day (two or three letters).
pub open spec fn slot_frame(h: Seq<char>) -> Option<(Seq<Seq<char>>, Seq<char>, Seq<char>)> {
    slot_frame_text(slot_text(h))
}

/// `slot_frame` of a text already trimmed, with `.` read as `:` and in upper case.
pub open spec fn slot_frame_text(u: Seq<char>) -> Option<(Seq<Seq<char>>, Seq<char>, Seq<char>)> {
    let parts = words(u);
    match find_from(parts, '-', 0) {
        None => None,
        Some(ti) => {
            let tok = parts[ti];
            let pos = match first_index(tok, ':', 0) {
                Some(p) => p,
                None => 0,
            };
            let compact = ti == 0 && tok.contains(':') && day_like(trim(tok.subrange(0, pos)));
            let actual = if compact {
                tok.subrange(pos + 1, tok.len() as int)
            } else {
                tok
            };
            let prefix = if compact {
                seq![trim(tok.subrange(0, pos))]
            } else {
                Seq::empty()
            };
            let times = split_on(actual, '-');
            if times.len() != 2 {
                None
            } else {
                Some(
                    (
                        prefix + parts.subrange(0, ti).map_values(|d: Seq<char>| day_code(d)),
                        times[0],
                        times[1],
                    ),
                )
            }
        },
    }
}

/// Start minute of a slot: the first time token, or 0 when it does not parse.
pub open spec fn slot_start(t0: Seq<char>) -> i32 {
    match hm_minutes(flex_hm_upper(t0)) {
        Some(v) => v,
        None => 0,
    }
}

/// Whether parsing the slots of `h` stays within `i32` arithmetic.
pub open spec fn slots_fit(h: Seq<char>) -> bool {
    slots_fit_text(slot_text(h))
}

/// `slots_fit` of a text already prepared as `slot_text` prepares it.
pub open spec fn slots_fit_text(u: Seq<char>) -> bool {
    match slot_frame_text(u) {
        None => true,
        Some((_, t0, t1)) => {
            &&& hm_fits(flex_hm_upper(t0))
            &&& hm_fits(flex_hm_upper(t1))
            &&& slot_start(t0) + 60 <= i32::MAX
        },
    }
}

/// End minute of a slot: the second time token, or start + 60 when it does not parse.
pub open spec fn slot_end(t0: Seq<char>, t1: Seq<char>) -> i32 {
    match hm_minutes(flex_hm_upper(t1)) {
        Some(v) => v,
        None => (slot_start(t0) + 60) as i32,
    }
}

/// The (day, start, end) slots of a timetable entry; the end defaults to start + 60 when
/// the second time does not parse.
pub open spec fn slots_of(h: Seq<char>) -> Seq<(Seq<char>, i32, i32)> {
    slots_of_text(slot_text(h))
}

/// `slots_of` of a text already prepared as `slot_text` prepares it.
pub open spec fn slots_of_text(u: Seq<char>) -> Seq<(Seq<char>, i32, i32)> {
    match slot_frame_text(u) {
        None => Seq::empty(),
        Some((days, t0, t1)) => {
            let st = slot_start(t0);
            let en = slot_end(t0, t1);
            days.map_values(|d: Seq<char>| (d, st, en))
        },
    }
}

/// The start and end minutes of a range without days, such as `"08:00-10:00"`.
pub open spec fn dayless_times(h: Seq<char>) -> Option<(i32, i32)> {
    match slot_frame(h) {
        Some((days, t0, t1)) => if days.len() == 0 {
            Some((slot_start(t0), slot_end(t0, t1)))
        } else {
            None
        },
        None => None,
    }
}

/// The start and end minutes of `h` when it is a range without days.
pub fn dayless_range(h: &Vec<char>) -> (r: Option<(i32, i32)>)
    requires
        slots_fit(h@),
    ensures
        r == dayless_times(h@),
{
    match slot_frame_exec(h) {
        None => None,
        Some((days, t0, t1)) => {
            if days.len() != 0 {
                return None;
            }
            let st = match to_min_upper(&t0) {
                Some(v) => v,
                None => 0,
            };
            let en = match to_min_upper(&t1) {
                Some(v) => v,
                None => st + 60,
            };
            Some((st, en))
        },
    }
}

/// Days and time tokens of an entry, as `slot_frame` describes them.
fn slot_frame_exec(h: &Vec<char>) -> (r: Option<(Vec<Vec<char>>, Vec<char>, Vec<char>)>)
    ensures
        match r {
            Some((d, a, b)) => slot_frame(h@) == Some((d.deep_view(), a@, b@)),
            None => slot_frame(h@) is None,
        },
{
    slot_frame_text_exec(&slot_text_exec(h))
}

/// The text that slot parsing works on (see `slot_text`): `h` trimmed, with `.` read as
/// `:`, in upper case.
pub fn slot_text_exec(h: &Vec<char>) -> (r: Vec<char>)
    ensures
        r@ == slot_text(h@),
{
    let t = trim_chars(h);
    let mut dot: Vec<char> = Vec::new();
    dot.push('.');
    let mut colon: Vec<char> = Vec::new();
    colon.push(':');
    assert(dot@ =~= seq!['.']);
    assert(colon@ =~= seq![':']);
    upper_chars(&replace_chars(&t, &dot, &colon))
}

/// Days and time tokens of a prepared text, as `slot_frame_text` describes them.
fn slot_frame_text_exec(s: &Vec<char>) -> (r: Option<(Vec<Vec<char>>, Vec<char>, Vec<char>)>)
    ensures
        match r {
            Some((d, a, b)) => slot_frame_text(s@) == Some((d.deep_view(), a@, b@)),
            None => slot_frame_text(s@) is None,
        },
{
    let parts = split_words(s);
    let ti = match find_token_with(&parts, '-') {
        None => return None,
        Some(i) => i,
    };
    proof {
        lemma_find_from(parts.deep_view(), '-', 0);
        lemma_chars_deep_view(parts@[ti as int]);
    }
    let tok = &parts[ti];
    let mut prefix: Vec<Vec<char>> = Vec::new();
    let mut actual = slice_chars(tok, 0, tok.len());
    assert(tok@.subrange(0, tok@.len() as int) =~= tok@);
    let ghost pos_s = match first_index(tok@, ':', 0) {
        Some(p) => p,
        None => 0,
    };
    let ghost compact = ti == 0 && tok@.contains(':') && day_like(trim(tok@.subrange(0, pos_s)));
    proof {
        lemma_first_index(tok@, ':', 0);
    }
    if ti == 0 && has_char(tok, ':') {
        let pos = match position_of(tok, ':') {
            Some(p) => p,
            None => 0,
        };
        proof {
            lemma_first_index(tok@, ':', 0);
        }
        assert(pos as int == pos_s);
        let maybe_day = slice_chars(tok, 0, pos);
        let day_tok = trim_chars(&maybe_day);
        if day_like_exec(&day_tok) {
            proof {
                lemma_chars_deep_view(day_tok);
            }
            actual = slice_chars(tok, pos + 1, tok.len());
            prefix.push(day_tok);
        }
    }
    assert(compact ==> prefix.deep_view() =~= seq![trim(tok@.subrange(0, pos_s))]);
    assert(!compact ==> prefix.deep_view() =~= Seq::<Seq<char>>::empty());
    let times = split_chars(&actual, '-');
    if times.len() != 2 {
        return None;
    }
    proof {
        lemma_chars_deep_view(times@[0]);
        lemma_chars_deep_view(times@[1]);
    }
    let ghost mapped = parts.deep_view().subrange(0, ti as int).map_values(|d: Seq<char>| day_code(d));
    let ghost pre0 = prefix.deep_view();
    let mut k: usize = 0;
    while k < ti
        invariant
            k <= ti < parts.len(),
            prefix.deep_view() == pre0 + mapped.subrange(0, k as int),
            mapped == parts.deep_view().subrange(0, ti as int).map_values(|d: Seq<char>| day_code(d)),
        decreases ti - k,
    {
        proof {
            lemma_chars_deep_view(parts@[k as int]);
        }
        let dc = day_code_exec(&parts[k]);
        proof {
            lemma_chars_deep_view(dc);
        }
        let ghost old_dv = prefix.deep_view();
        prefix.push(dc);
        assert(prefix.deep_view() =~= old_dv.push(dc@));
        assert(mapped[k as int] == day_code(parts@[k as int]@));
        assert(mapped.subrange(0, k + 1) =~= mapped.subrange(0, k as int).push(mapped[k as int]));
        k = k + 1;
        assert(prefix.deep_view() =~= pre0 + mapped.subrange(0, k as int));
    }
    assert(mapped.subrange(0, ti as int) =~= mapped);
    let t0 = slice_chars(&times[0], 0, times[0].len());
    let t1 = slice_chars(&times[1], 0, times[1].len());
    assert(times@[0]@.subrange(0, times@[0]@.len() as int) =~= times@[0]@);
    assert(times@[1]@.subrange(0, times@[1]@.len() as int) =~= times@[1]@);
    Some((prefix, t0, t1))
}

/// Parses a timetable entry into (day, start, end) slots, e.g.
/// `"LU MA 08:30-10:00"` gives `[("LU", 510, 600), ("MA", 510, 600)]`.
pub fn parse_slots_chars(h: &Vec<char>) -> (r: Vec<(String, i32, i32)>)
    requires
        slots_fit(h@),
    ensures
        r.deep_view() == slots_of(h@),
{
    parse_slots_text(&slot_text_exec(h))
}

/// Parses a timetable entry already prepared as `slot_text_exec` prepares it (trimmed,
/// `.` read as `:`, in upper case) into (day, start, end) slots.
pub fn parse_slots_text(u: &Vec<char>) -> (r: Vec<(String, i32, i32)>)
    requires
        slots_fit_text(u@),
    ensures
        r.deep_view() == slots_of_text(u@),
{
    match slot_frame_text_exec(u) {
        None => {
            let e: Vec<(String, i32, i32)> = Vec::new();
            assert(e.deep_view() =~= Seq::<(Seq<char>, i32, i32)>::empty());
            e
        },
        Some((days, t0, t1)) => {
            let st = match to_min_upper(&t0) {
                Some(v) => v,
                None => 0,
            };
            let fallback = st + 60;
            let en = match to_min_upper(&t1) {
                Some(v) => v,
                None => fallback,
            };
            let ghost dv = days.deep_view();
            let mut out: Vec<(String, i32, i32)> = Vec::new();
            let mut k: usize = 0;
            while k < days.len()
                invariant
                    k <= days.len(),
                    dv == days.deep_view(),
                    out.deep_view() == dv.subrange(0, k as int).map_values(
                        |d: Seq<char>| (d, st, en),
                    ),
                decreases days.len() - k,
            {
                proof {
                    lemma_chars_deep_view(days@[k as int]);
                }
                let d = string_from_chars(&days[k]);
                let ghost old_dv = out.deep_view();
                out.push((d, st, en));
                assert(out.deep_view() =~= old_dv.push((dv[k as int], st, en)));
                assert(dv.subrange(0, k + 1) =~= dv.subrange(0, k as int).push(dv[k as int]));
                k = k + 1;
                assert(out.deep_view() =~= dv.subrange(0, k as int).map_values(
                    |d: Seq<char>| (d, st, en),
                ));
            }
            assert(dv.subrange(0, days.len() as int) =~= dv);
            out
        },
    }
}

/// Parses a timetable string into (day, start, end) slots.
/// Example: `"LU MA 08:30-10:00"` gives `[("LU", 510, 600), ("MA", 510, 600)]`.
pub fn parse_slots(h: &str) -> (r: Vec<(String, i32, i32)>)
    requires
        slots_fit(h@),
    ensures
        r.deep_view() == slots_of(h@),
{
    parse_slots_chars(&chars_of(h))
}


/// Splitting text with no `d` after a prefix keeps the pieces of the prefix and extends
/// the piece in progress.
proof fn lemma_split_state_append(p: Seq<char>, q: Seq<char>, d: char)
    requires
        !q.contains(d),
    ensures
        split_state(p + q, d) == (split_state(p, d).0, split_state(p, d).1 + q),
    decreases q.len(),
{
    if q.len() == 0 {
        assert(p + q =~= p);
        assert(split_state(p, d).1 + q =~= split_state(p, d).1);
    } else {
        let q0 = q.drop_last();
        assert(!q0.contains(d)) by {
            if q0.contains(d) {
                let k = choose|k: int| 0 <= k < q0.len() && q0[k] == d;
                assert(q[k] == d);
            }
        }
        lemma_split_state_append(p, q0, d);
        assert((p + q).drop_last() =~= p + q0);
        assert((p + q).last() == q.last());
        assert(q.last() != d) by {
            assert(q[q.len() - 1] == q.last());
        }
        assert(split_state(p, d).1 + q0 + seq![q.last()] =~= split_state(p, d).1 + q);
        assert(split_state(p, d).1 + q0.push(q.last()) =~= split_state(p, d).1 + q);
    }
}

/// Digits and `:` are not white space.
proof fn lemma_not_ws(c: char)
    requires
        ('0' <= c <= '9') || c == ':',
    ensures
        !is_ws(c),
{
}

/// A text of two pieces of digits around one `:` reads as the hour and minute they
/// denote, whether or not white space surrounds it.
proof fn lemma_hm_of_digits(a: Seq<char>, b: Seq<char>, pad: bool)
    requires
        a.len() > 0,
        b.len() > 0,
        all_digits(a),
        all_digits(b),
        digits_value(a) <= i32::MAX,
        digits_value(b) <= i32::MAX,
    ensures
        hora_min_hm(if pad { seq![' '] + a + seq![':'] + b + seq![' '] } else { a + seq![':'] + b })
            == Some((digits_value(a) as i32, digits_value(b) as i32)),
{
    let x = a + seq![':'] + b;
    assert(!a.contains(':')) by {
        if a.contains(':') {
            let k = choose|k: int| 0 <= k < a.len() && a[k] == ':';
            assert(is_digit(a[k]));
        }
    }
    assert(!b.contains(':')) by {
        if b.contains(':') {
            let k = choose|k: int| 0 <= k < b.len() && b[k] == ':';
            assert(is_digit(b[k]));
        }
    }
    lemma_split_state_append(Seq::empty(), a, ':');
    assert(Seq::<char>::empty() + a =~= a);
    assert(split_state(Seq::<char>::empty(), ':') == (Seq::<Seq<char>>::empty(), Seq::<char>::empty()));
    assert(split_state(Seq::<char>::empty(), ':').1 + a =~= a);
    let a1 = a + seq![':'];
    assert(a1.drop_last() =~= a);
    assert(split_state(a1, ':') == (seq![a], Seq::<char>::empty()));
    lemma_split_state_append(a1, b, ':');
    assert(Seq::<char>::empty() + b =~= b);
    assert(split_on(x, ':') =~= seq![a, b]);
    // The text has no white space at its ends.
    assert(is_digit(x[0]) && is_digit(x[x.len() - 1])) by {
        assert(x[0] == a[0]);
        assert(x[x.len() - 1] == b[b.len() - 1]);
    }
    lemma_not_ws(x[0]);
    lemma_not_ws(x[x.len() - 1]);
    assert(trim_start(x) == x);
    assert(trim_end(x) == x);
    if pad {
        let y = seq![' '] + a + seq![':'] + b + seq![' '];
        assert(y.drop_first() =~= x + seq![' ']);
        assert(trim_start(y) == trim_start(x + seq![' ']));
        assert((x + seq![' '])[0] == x[0]);
        assert(trim_start(x + seq![' ']) == x + seq![' ']);
        assert((x + seq![' ']).drop_last() =~= x);
        assert(trim_end(x + seq![' ']) == trim_end(x));
        assert(trim(y) == x);
    }
    assert(int_syntax(a) == Some(digits_value(a))) by {
        assert(!(a[0] == '+' || a[0] == '-')) by {
            assert(is_digit(a[0]));
        }
    }
    assert(int_syntax(b) == Some(digits_value(b))) by {
        assert(!(b[0] == '+' || b[0] == '-')) by {
            assert(is_digit(b[0]));
        }
    }
    lemma_digits_value_nonneg(a);
    lemma_digits_value_nonneg(b);
}

/// The two-digit text of a number below 100, with a leading zero below 10.
pub open spec fn two_digits(n: nat) -> Seq<char> {
    seq![digit_char(n / 10), digit_char(n % 10)]
}

proof fn lemma_digit_char(d: nat)
    requires
        d < 10,
    ensures
        is_digit(digit_char(d)),
        digit_char(d) as int - '0' as int == d,
{
}

proof fn lemma_digits_value_one(c: char)
    ensures
        digits_value(seq![c]) == c as int - '0' as int,
{
    let x = seq![c];
    assert(x.drop_last() =~= Seq::<char>::empty());
    assert(digits_value(Seq::<char>::empty()) == 0);
    assert(digits_value(x) == 10 * digits_value(x.drop_last()) + (x.last() as int - '0' as int));
}

proof fn lemma_decimal_digits(n: nat)
    ensures
        decimal(n).len() > 0,
        all_digits(decimal(n)),
        digits_value(decimal(n)) == n,
    decreases n,
{
    if n < 10 {
        lemma_digit_char(n);
        lemma_digits_value_one(digit_char(n));
    } else {
        lemma_decimal_digits(n / 10);
        lemma_digit_char(n % 10);
        let p = decimal(n / 10);
        assert(decimal(n) == p.push(digit_char(n % 10)));
        assert(p.push(digit_char(n % 10)).drop_last() =~= p);
        assert(n == 10 * (n / 10) + n % 10) by (nonlinear_arith)
            requires
                n >= 10,
        ;
        assert(digits_value(decimal(n)) == 10 * digits_value(p) + (digit_char(n % 10) as int - '0' as int));
        assert forall|k: int| 0 <= k < p.len() + 1 implies is_digit(#[trigger] p.push(digit_char(n % 10))[k]) by {
            if k < p.len() {
                assert(p.push(digit_char(n % 10))[k] == p[k]);
            }
        }
    }
}

/// An hour and a minute written with two digits each, `HH:MM`, or without padding
/// and with white space around, ` H:M `, read as `h * 60 + m` minutes.
pub proof fn lemma_hora_a_minutos_written(h: nat, m: nat)
    requires
        h <= 23,
        m <= 59,
    ensures
        hm_minutes(hora_min_hm(two_digits(h) + seq![':'] + two_digits(m))) == Some((h * 60 + m) as i32),
        hm_minutes(hora_min_hm(seq![' '] + decimal(h) + seq![':'] + decimal(m) + seq![' '])) == Some((h * 60 + m) as i32),
{
    lemma_digit_char(h / 10);
    lemma_digit_char(h % 10);
    lemma_digit_char(m / 10);
    lemma_digit_char(m % 10);
    let th = two_digits(h);
    let tm = two_digits(m);
    assert(th.drop_last() =~= seq![digit_char(h / 10)]);
    assert(seq![digit_char(h / 10)].drop_last() =~= Seq::<char>::empty());
    assert(tm.drop_last() =~= seq![digit_char(m / 10)]);
    assert(seq![digit_char(m / 10)].drop_last() =~= Seq::<char>::empty());
    lemma_digits_value_one(digit_char(h / 10));
    lemma_digits_value_one(digit_char(m / 10));
    assert(digits_value(th) == 10 * (h / 10) + h % 10);
    assert(digits_value(tm) == 10 * (m / 10) + m % 10);
    assert(h == 10 * (h / 10) + h % 10) by (nonlinear_arith);
    assert(m == 10 * (m / 10) + m % 10) by (nonlinear_arith);
    assert(all_digits(th));
    assert(all_digits(tm));
    lemma_hm_of_digits(th, tm, false);
    lemma_decimal_digits(h);
    lemma_decimal_digits(m);
    lemma_hm_of_digits(decimal(h), decimal(m), true);
}

/// The number of occurrences of `d` in `s`.
pub open spec fn count_char(s: Seq<char>, d: char) -> nat
    decreases s.len(),
{
    if s.len() == 0 {
        0
    } else {
        count_char(s.drop_last(), d) + if s.last() == d { 1nat } else { 0nat }
    }
}

proof fn lemma_split_count(s: Seq<char>, d: char)
    ensures
        split_state(s, d).0.len() == count_char(s, d),
    decreases s.len(),
{
    if s.len() > 0 {
        lemma_split_count(s.drop_last(), d);
    }
}

/// A time text without exactly one `:` after trimming, such as `0830` or `08:30:00`,
/// reads as no time.
pub proof fn lemma_hora_a_minutos_one_colon(s: Seq<char>)
    requires
        count_char(trim(s), ':') != 1,
    ensures
        hora_min_hm(s) is None,
{
    lemma_split_count(trim(s), ':');
}

} // verus!
