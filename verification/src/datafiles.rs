//! Text helpers for the spreadsheets of the curriculum, the academic offer and the
//! approval rates: header and name normalisation, column letters, course-code
//! clean-up, equivalences and name matching.
use vstd::prelude::*;
use crate::plan_pool::PlanParams;
use crate::text::{alphabetic, alphanumeric, chars_of, chars_eq, is_alphabetic, is_alphanumeric, is_whitespace, is_ws, lower_of, string_from_chars, to_lower, to_upper, trim, trim_chars, upper_of, occurs, occurs_at, contains_seq, contains_sub, find_sub, lit, is_digit, digits_value, all_digits, lemma_digits_value_nonneg};

verus! {

/// Characters of `s` that are not white space.
pub open spec fn drop_ws(s: Seq<char>) -> Seq<char>
    decreases s.len(),
{
    if s.len() == 0 {
        Seq::empty()
    } else if is_ws(s.last()) {
        drop_ws(s.drop_last())
    } else {
        drop_ws(s.drop_last()).push(s.last())
    }
}

/// Header normalisation: lower-cased, white space removed.
pub fn normalize_header(s: &str) -> (r: String)
    ensures
        r@ == drop_ws(lower_of(s@)),
{
    let low = to_lower(&chars_of(s));
    let mut out: Vec<char> = Vec::new();
    let mut i: usize = 0;
    while i < low.len()
        invariant
            i <= low.len(),
            out@ == drop_ws(low@.subrange(0, i as int)),
        decreases low.len() - i,
    {
        assert(low@.subrange(0, i + 1).drop_last() =~= low@.subrange(0, i as int));
        if !is_whitespace(low[i]) {
            out.push(low[i]);
        }
        i = i + 1;
    }
    assert(low@.subrange(0, low.len() as int) =~= low@);
    string_from_chars(&out)
}

/// Whether `c` is an ASCII letter.
pub open spec fn ascii_alpha(c: char) -> bool {
    ('a' <= c <= 'z') || ('A' <= c <= 'Z')
}

/// Position in the alphabet (A = 1) of an ASCII letter, either case.
pub open spec fn letter_value(c: char) -> int {
    if 'a' <= c <= 'z' {
        c as int - 'a' as int + 1
    } else {
        c as int - 'A' as int + 1
    }
}

/// The 1-based column index of spreadsheet column letters (`"A"` = 1, `"AB"` = 28);
/// characters other than ASCII letters are skipped.
pub open spec fn column_value(s: Seq<char>) -> int
    decreases s.len(),
{
    if s.len() == 0 {
        0
    } else if ascii_alpha(s.last()) {
        column_value(s.drop_last()) * 26 + letter_value(s.last())
    } else {
        column_value(s.drop_last())
    }
}

proof fn lemma_column_value_mono(s: Seq<char>, i: int)
    requires
        0 <= i <= s.len(),
    ensures
        0 <= column_value(s.subrange(0, i)) <= column_value(s),
    decreases s.len() - i,
{
    if i < s.len() {
        lemma_column_value_mono(s, i + 1);
        assert(s.subrange(0, i + 1).drop_last() =~= s.subrange(0, i));
    } else {
        assert(s.subrange(0, i) =~= s);
    }
    lemma_column_value_nonneg(s.subrange(0, i));
}

proof fn lemma_column_value_nonneg(s: Seq<char>)
    ensures
        column_value(s) >= 0,
    decreases s.len(),
{
    if s.len() > 0 {
        lemma_column_value_nonneg(s.drop_last());
    }
}

/// Converts column letters such as `"AB"` to a 1-based index (A = 1).
pub fn column_letters_to_index(s: &str) -> (r: usize)
    requires
        column_value(s@) <= usize::MAX,
    ensures
        r == column_value(s@),
{
    let v = chars_of(s);
    let mut acc: usize = 0;
    let mut i: usize = 0;
    while i < v.len()
        invariant
            i <= v.len(),
            v@ == s@,
            column_value(s@) <= usize::MAX,
            acc == column_value(v@.subrange(0, i as int)),
        decreases v.len() - i,
    {
        assert(v@.subrange(0, i + 1).drop_last() =~= v@.subrange(0, i as int));
        proof {
            lemma_column_value_mono(v@, i + 1);
        }
        let ch = v[i];
        if ('a' <= ch && ch <= 'z') || ('A' <= ch && ch <= 'Z') {
            let up: u32 = if 'a' <= ch && ch <= 'z' { ch as u32 - 32 } else { ch as u32 };
            let d: usize = (up - 65) as usize + 1;
            acc = acc * 26 + d;
        }
        i = i + 1;
    }
    assert(v@.subrange(0, v.len() as int) =~= v@);
    acc
}

/// Whether some character of `s` is alphabetic.
pub open spec fn any_alphabetic(s: Seq<char>) -> bool {
    exists|k: int| 0 <= k < s.len() && alphabetic(#[trigger] s[k])
}

/// Whether some character of `s` is an ASCII decimal digit.
pub open spec fn any_digit(s: Seq<char>) -> bool {
    exists|k: int| 0 <= k < s.len() && '0' <= #[trigger] s[k] <= '9'
}

/// Orders a (code, name) pair of cells: when the first cell holds a letter and the
/// second a digit, the cells are swapped so the result is always (ID, name).
pub fn normalize_codigo_nombre(col0: &str, col1: &str) -> (r: (String, String))
    ensures
        if any_alphabetic(col0@) && any_digit(col1@) {
            r.0@ == col1@ && r.1@ == col0@
        } else {
            r.0@ == col0@ && r.1@ == col1@
        },
{
    let a = chars_of(col0);
    let b = chars_of(col1);
    let mut first_has_alpha = false;
    let mut i: usize = 0;
    while i < a.len()
        invariant
            i <= a.len(),
            a@ == col0@,
            first_has_alpha == exists|k: int| 0 <= k < i && alphabetic(#[trigger] a@[k]),
        decreases a.len() - i,
    {
        if is_alphabetic(a[i]) {
            first_has_alpha = true;
        }
        i = i + 1;
    }
    let mut second_has_digit = false;
    let mut j: usize = 0;
    while j < b.len()
        invariant
            j <= b.len(),
            b@ == col1@,
            second_has_digit == exists|k: int| 0 <= k < j && '0' <= #[trigger] b@[k] <= '9',
        decreases b.len() - j,
    {
        if '0' <= b[j] && b[j] <= '9' {
            second_has_digit = true;
        }
        j = j + 1;
    }
    let codigo = string_from_chars(&a);
    let nombre = string_from_chars(&b);
    if first_has_alpha && second_has_digit {
        (nombre, codigo)
    } else {
        (codigo, nombre)
    }
}

/// The base letter of an accented Latin letter (`'Á'` is `'a'`, `'ñ'` is `'n'`); other
/// characters are kept.
pub open spec fn accent_base(c: char) -> char {
    match c {
        'Á' | 'À' | 'Ä' | 'Â' | 'Ã' | 'á' | 'à' | 'ä' | 'â' | 'ã' => 'a',
        'É' | 'È' | 'Ë' | 'Ê' | 'é' | 'è' | 'ë' | 'ê' => 'e',
        'Í' | 'Ì' | 'Ï' | 'Î' | 'í' | 'ì' | 'ï' | 'î' => 'i',
        'Ó' | 'Ò' | 'Ö' | 'Ô' | 'Õ' | 'ó' | 'ò' | 'ö' | 'ô' | 'õ' => 'o',
        'Ú' | 'Ù' | 'Ü' | 'Û' | 'ú' | 'ù' | 'ü' | 'û' => 'u',
        'Ñ' | 'ñ' => 'n',
        'Ç' | 'ç' => 'c',
        other => other,
    }
}

fn accent_base_exec(c: char) -> (r: char)
    ensures
        r == accent_base(c),
{
    match c {
        'Á' | 'À' | 'Ä' | 'Â' | 'Ã' | 'á' | 'à' | 'ä' | 'â' | 'ã' => 'a',
        'É' | 'È' | 'Ë' | 'Ê' | 'é' | 'è' | 'ë' | 'ê' => 'e',
        'Í' | 'Ì' | 'Ï' | 'Î' | 'í' | 'ì' | 'ï' | 'î' => 'i',
        'Ó' | 'Ò' | 'Ö' | 'Ô' | 'Õ' | 'ó' | 'ò' | 'ö' | 'ô' | 'õ' => 'o',
        'Ú' | 'Ù' | 'Ü' | 'Û' | 'ú' | 'ù' | 'ü' | 'û' => 'u',
        'Ñ' | 'ñ' => 'n',
        'Ç' | 'ç' => 'c',
        other => other,
    }
}

/// ASCII lower case of `c` (`char::to_ascii_lowercase`).
pub open spec fn ascii_lower(c: char) -> char {
    if 'A' <= c <= 'Z' {
        ((c as u32) + 32) as char
    } else {
        c
    }
}

/// ASCII upper case of `c` (`char::to_ascii_uppercase`).
pub open spec fn ascii_upper(c: char) -> char {
    if 'a' <= c <= 'z' {
        ((c as u32) - 32) as char
    } else {
        c
    }
}

/// `char::to_ascii_lowercase`.
pub fn to_ascii_lower(c: char) -> (r: char)
    ensures
        r == ascii_lower(c),
{
    if 'A' <= c && c <= 'Z' {
        let b = (c as u8) + 32;
        let r = b as char;
        assert((c as u8) as int == c as u32 as int);
        assert(r as u32 == (c as u32) + 32);
        r
    } else {
        c
    }
}

/// `char::to_ascii_uppercase`.
pub fn to_ascii_upper(c: char) -> (r: char)
    ensures
        r == ascii_upper(c),
{
    if 'a' <= c && c <= 'z' {
        let b = (c as u8) - 32;
        let r = b as char;
        assert((c as u8) as int == c as u32 as int);
        assert(r as u32 == (c as u32) - 32);
        r
    } else {
        c
    }
}

/// Name normalisation before trimming: accents folded, alphanumeric characters kept in
/// ASCII lower case, white space read as a single space character, the rest dropped.
pub open spec fn fold_name(s: Seq<char>) -> Seq<char>
    decreases s.len(),
{
    if s.len() == 0 {
        Seq::empty()
    } else {
        let c = accent_base(s.last());
        if alphanumeric(c) {
            fold_name(s.drop_last()).push(ascii_lower(c))
        } else if is_ws(c) {
            fold_name(s.drop_last()).push(' ')
        } else {
            fold_name(s.drop_last())
        }
    }
}

/// The normalised form under which names of courses are compared.
pub open spec fn norm_name(s: Seq<char>) -> Seq<char> {
    trim(fold_name(s))
}

/// Normalised form of a name, as characters.
pub fn normalize_name_chars(s: &Vec<char>) -> (r: Vec<char>)
    ensures
        r@ == norm_name(s@),
{
    let mut out: Vec<char> = Vec::new();
    let mut i: usize = 0;
    while i < s.len()
        invariant
            i <= s.len(),
            out@ == fold_name(s@.subrange(0, i as int)),
        decreases s.len() - i,
    {
        assert(s@.subrange(0, i + 1).drop_last() =~= s@.subrange(0, i as int));
        let c = accent_base_exec(s[i]);
        if is_alphanumeric(c) {
            out.push(to_ascii_lower(c));
        } else if is_whitespace(c) {
            out.push(' ');
        }
        i = i + 1;
    }
    assert(s@.subrange(0, s.len() as int) =~= s@);
    trim_chars(&out)
}

/// Normalised form of a course name: accents folded, lower case, punctuation dropped,
/// spaces kept and the ends trimmed; `"Mecánica"` and `"MECÁNICA"` agree.
pub fn normalize_name(s: &str) -> (r: String)
    ensures
        r@ == norm_name(s@),
{
    string_from_chars(&normalize_name_chars(&chars_of(s)))
}

/// Index of the first name whose normalised form is `key`.
pub open spec fn first_match(names: Seq<String>, key: Seq<char>, i: int) -> Option<int>
    decreases names.len() - i,
{
    if i < 0 || i >= names.len() {
        None
    } else if norm_name(names[i]@) == key {
        Some(i)
    } else {
        first_match(names, key, i + 1)
    }
}

/// The first of `oferta_names` whose normalised form equals that of `malla_name`.
pub fn find_best_name_match(malla_name: &str, oferta_names: &[String]) -> (r: Option<String>)
    ensures
        match first_match(oferta_names@, norm_name(malla_name@), 0) {
            Some(i) => r is Some && r->0@ == oferta_names@[i]@,
            None => r is None,
        },
{
    let key = normalize_name_chars(&chars_of(malla_name));
    let mut i: usize = 0;
    while i < oferta_names.len()
        invariant
            i <= oferta_names.len(),
            key@ == norm_name(malla_name@),
            first_match(oferta_names@, key@, 0) == first_match(oferta_names@, key@, i as int),
        decreases oferta_names.len() - i,
    {
        let cand = normalize_name_chars(&chars_of(oferta_names[i].as_str()));
        if chars_eq(&cand, &key) {
            return Some(oferta_names[i].clone());
        }
        i = i + 1;
    }
    None
}

/// The value that a map built by inserting `(norm(name), name)` for each name in order
/// holds for `key`: the last name whose normalised form is `key`.
pub open spec fn index_value(names: Seq<String>, key: Seq<char>) -> Option<Seq<char>>
    decreases names.len(),
{
    if names.len() == 0 {
        None
    } else if norm_name(names.last()@) == key {
        Some(names.last()@)
    } else {
        index_value(names.drop_last(), key)
    }
}

/// Value of `key` in an association list.
pub open spec fn assoc_get(m: Seq<(Seq<char>, Seq<char>)>, key: Seq<char>) -> Option<Seq<char>>
    decreases m.len(),
{
    if m.len() == 0 {
        None
    } else if m.last().0 == key {
        Some(m.last().1)
    } else {
        assoc_get(m.drop_last(), key)
    }
}

/// Keys of an association list are pairwise different.
pub open spec fn keys_distinct(m: Seq<(Seq<char>, Seq<char>)>) -> bool {
    forall|a: int, b: int| 0 <= a < m.len() && 0 <= b < m.len() && a != b ==> (#[trigger] m[a]).0 != (#[trigger] m[b]).0
}

proof fn lemma_assoc_get_found(m: Seq<(Seq<char>, Seq<char>)>, k: int)
    requires
        keys_distinct(m),
        0 <= k < m.len(),
    ensures
        assoc_get(m, m[k].0) == Some(m[k].1),
    decreases m.len(),
{
    if k < m.len() - 1 {
        assert(m.last().0 != m[k].0);
        assert(m.drop_last()[k] == m[k]);
        lemma_assoc_get_found(m.drop_last(), k);
    }
}

proof fn lemma_assoc_get_missing(m: Seq<(Seq<char>, Seq<char>)>, key: Seq<char>)
    requires
        forall|a: int| 0 <= a < m.len() ==> (#[trigger] m[a]).0 != key,
    ensures
        assoc_get(m, key) is None,
    decreases m.len(),
{
    if m.len() > 0 {
        assert(m.last() == m[m.len() - 1]);
        assert forall|a: int| 0 <= a < m.drop_last().len() implies (#[trigger] m.drop_last()[a]).0 != key by {
            assert(m.drop_last()[a] == m[a]);
        }
        lemma_assoc_get_missing(m.drop_last(), key);
    }
}

/// Index from normalised name to the name as given; a later name replaces an earlier one
/// with the same normalised form.
pub fn build_normalized_index(names: &[String]) -> (r: Vec<(String, String)>)
    ensures
        keys_distinct(r.deep_view()),
        forall|key: Seq<char>| #[trigger] assoc_get(r.deep_view(), key) == index_value(names@, key),
{
    let mut out: Vec<(String, String)> = Vec::new();
    let mut keys: Vec<Vec<char>> = Vec::new();
    let mut i: usize = 0;
    while i < names.len()
        invariant
            i <= names.len(),
            keys.len() == out.len(),
            forall|a: int| 0 <= a < keys.len() ==> (#[trigger] keys@[a])@ == out.deep_view()[a].0,
            keys_distinct(out.deep_view()),
            forall|key: Seq<char>| #[trigger] assoc_get(out.deep_view(), key) == index_value(names@.subrange(0, i as int), key),
        decreases names.len() - i,
    {
        let ghost pre = names@.subrange(0, i as int);
        assert(names@.subrange(0, i + 1).drop_last() =~= pre);
        let key = normalize_name_chars(&chars_of(names[i].as_str()));
        let ks = string_from_chars(&key);
        let mut found: Option<usize> = None;
        let mut j: usize = 0;
        while j < keys.len()
            invariant_except_break
                found is None,
            invariant
                j <= keys.len(),
                keys.len() == out.len(),
                forall|a: int| 0 <= a < keys.len() ==> (#[trigger] keys@[a])@ == out.deep_view()[a].0,
                forall|a: int| 0 <= a < j ==> (#[trigger] out.deep_view()[a]).0 != key@,
            ensures
                match found {
                    Some(f) => f < out.len() && out.deep_view()[f as int].0 == key@,
                    None => forall|a: int| 0 <= a < out.len() ==> (#[trigger] out.deep_view()[a]).0 != key@,
                },
            decreases keys.len() - j,
        {
            if chars_eq(&keys[j], &key) {
                found = Some(j);
                break;
            }
            j = j + 1;
        }
        let ghost o0 = out.deep_view();
        let ghost name_i: Seq<char> = names@[i as int]@;
        proof {
            assert(norm_name(name_i) == key@);
        }
        match found {
            Some(j) => {
                let v = names[i].clone();
                out.set(j, (ks, v));
                proof {
                    assert(out.deep_view() =~= o0.update(j as int, (key@, name_i)));
                    let nd = out.deep_view();
                    assert(keys_distinct(nd)) by {
                        assert forall|a: int, b: int| 0 <= a < nd.len() && 0 <= b < nd.len() && a != b implies (#[trigger] nd[a]).0 != (#[trigger] nd[b]).0 by {
                            if a != j as int && b != j as int {
                                assert(nd[a] == o0[a] && nd[b] == o0[b]);
                            } else if a == j as int {
                                assert(nd[b] == o0[b]);
                                assert(o0[j as int].0 == key@);
                            } else {
                                assert(nd[a] == o0[a]);
                                assert(o0[j as int].0 == key@);
                            }
                        }
                    }
                    assert forall|key2: Seq<char>| #[trigger] assoc_get(nd, key2) == index_value(
                        names@.subrange(0, i + 1),
                        key2,
                    ) by {
                        assert(index_value(names@.subrange(0, i + 1), key2) == if key@ == key2 {
                            Some(name_i)
                        } else {
                            index_value(pre, key2)
                        });
                        if key2 == key@ {
                            lemma_assoc_get_found(nd, j as int);
                        } else {
                            assert(assoc_get(o0, key2) == index_value(pre, key2));
                            if exists|a: int| 0 <= a < nd.len() && (#[trigger] nd[a]).0 == key2 {
                                let a = choose|a: int| 0 <= a < nd.len() && (#[trigger] nd[a]).0 == key2;
                                assert(a != j as int);
                                assert(nd[a] == o0[a]);
                                lemma_assoc_get_found(nd, a);
                                lemma_assoc_get_found(o0, a);
                            } else {
                                lemma_assoc_get_missing(nd, key2);
                                assert forall|a: int| 0 <= a < o0.len() implies (#[trigger] o0[a]).0 != key2 by {
                                    if a != j as int {
                                        assert(nd[a] == o0[a]);
                                    }
                                }
                                lemma_assoc_get_missing(o0, key2);
                            }
                        }
                    }
                }
            },
            None => {
                let v = names[i].clone();
                out.push((ks, v));
                keys.push(key);
                proof {
                    assert(out.deep_view() =~= o0.push((key@, name_i)));
                    let nd = out.deep_view();
                    assert(nd.drop_last() =~= o0);
                    assert(keys_distinct(nd)) by {
                        assert forall|a: int, b: int| 0 <= a < nd.len() && 0 <= b < nd.len() && a != b implies (#[trigger] nd[a]).0 != (#[trigger] nd[b]).0 by {
                            if a < o0.len() && b < o0.len() {
                                assert(nd[a] == o0[a] && nd[b] == o0[b]);
                            } else if a < o0.len() {
                                assert(nd[a] == o0[a]);
                            } else {
                                assert(nd[b] == o0[b]);
                            }
                        }
                    }
                    assert forall|key2: Seq<char>| #[trigger] assoc_get(nd, key2) == index_value(
                        names@.subrange(0, i + 1),
                        key2,
                    ) by {
                        assert(index_value(names@.subrange(0, i + 1), key2) == if key@ == key2 {
                            Some(name_i)
                        } else {
                            index_value(pre, key2)
                        });
                        assert(assoc_get(o0, key2) == index_value(pre, key2));
                    }
                    assert forall|a: int| 0 <= a < keys.len() implies (#[trigger] keys@[a])@ == out.deep_view()[a].0 by {
                        if a < o0.len() {
                            assert(nd[a] == o0[a]);
                        }
                    }
                }
            },
        }
        i = i + 1;
    }
    assert(names@.subrange(0, names.len() as int) =~= names@);
    out
}


/// The code that `code` is taken as: the equivalent that the equivalence list names
/// for its upper-case form (a later entry overrides an earlier one); a code without an
/// equivalence is left as it is.
pub open spec fn equivalent_code(eq: Seq<(Seq<char>, Seq<char>)>, code: Seq<char>) -> Seq<char> {
    match assoc_get(eq, upper_of(code)) {
        Some(v) => v,
        None => code,
    }
}

/// Looks `key` up in an association list, the last matching entry winning.
fn assoc_lookup(m: &[(String, String)], key: &Vec<char>) -> (r: Option<String>)
    ensures
        match r {
            Some(v) => assoc_get(m.deep_view(), key@) == Some(v@),
            None => assoc_get(m.deep_view(), key@) is None,
        },
{
    let ghost d = m.deep_view();
    let mut j: usize = m.len();
    assert(d.subrange(0, j as int) =~= d);
    while j > 0
        invariant
            j <= m.len(),
            d == m.deep_view(),
            assoc_get(d, key@) == assoc_get(d.subrange(0, j as int), key@),
        decreases j,
    {
        let ghost sub = d.subrange(0, j as int);
        assert(sub.drop_last() =~= d.subrange(0, j - 1));
        assert(sub.last() == d[j - 1]);
        if chars_eq(&chars_of(m[j - 1].0.as_str()), key) {
            return Some(m[j - 1].1.clone());
        }
        j = j - 1;
    }
    None
}

/// Maps the codes of passed courses to the codes of the current curriculum: a code
/// whose upper-case form has an equivalent is replaced by it; any other code is left
/// as it is.
pub fn aplicar_equivalencias(codigos: &[String], equivalencias: &[(String, String)]) -> (r: Vec<String>)
    ensures
        r.len() == codigos.len(),
        forall|k: int| 0 <= k < codigos.len() ==> (#[trigger] r@[k])@ == equivalent_code(equivalencias.deep_view(), codigos@[k]@),
{
    let mut out: Vec<String> = Vec::new();
    let mut i: usize = 0;
    while i < codigos.len()
        invariant
            i <= codigos.len(),
            out.len() == i,
            forall|k: int| 0 <= k < i ==> (#[trigger] out@[k])@ == equivalent_code(equivalencias.deep_view(), codigos@[k]@),
        decreases codigos.len() - i,
    {
        let up = to_upper(&chars_of(codigos[i].as_str()));
        let v = match assoc_lookup(equivalencias, &up) {
            Some(v) => v,
            None => codigos[i].clone(),
        };
        out.push(v);
        i = i + 1;
    }
    out
}

/// The words dropped from a course name before comparing base courses.
pub open spec fn course_suffix_words() -> Seq<Seq<char>> {
    seq![
        "laboratorio"@, "laboratorios"@, "lab"@, "taller"@, "talleres"@, "practica"@,
        "práctica"@, "practicas"@, "prácticas"@,
    ]
}

/// `s` with every word of `words[0..n]` removed, in that order.
pub open spec fn strip_words(s: Seq<char>, words: Seq<Seq<char>>, n: int) -> Seq<char>
    decreases n,
{
    if n <= 0 {
        s
    } else {
        crate::text::replace_all(strip_words(s, words, n - 1), words[n - 1], Seq::empty())
    }
}

/// The base course of a name: lower-cased, the words of laboratories, workshops and
/// practicals removed, then normalised.
pub open spec fn base_key(nombre: Seq<char>) -> Seq<char> {
    norm_name(strip_words(lower_of(nombre), course_suffix_words(), 9))
}

/// Key of the base course of a name (`"Física Laboratorio"` and `"Física"` agree).
pub fn base_course_key(nombre: &str) -> (r: String)
    ensures
        r@ == base_key(nombre@),
{
    let words: Vec<Vec<char>> = vec![
        lit("laboratorio"), lit("laboratorios"), lit("lab"), lit("taller"), lit("talleres"),
        lit("practica"), lit("práctica"), lit("practicas"), lit("prácticas"),
    ];
    assert(words@.map_values(|w: Vec<char>| w@) =~= course_suffix_words());
    let mut s = to_lower(&chars_of(nombre));
    let empty: Vec<char> = Vec::new();
    let mut t: usize = 0;
    while t < words.len()
        invariant
            t <= words.len() == 9,
            empty@ == Seq::<char>::empty(),
            forall|k: int| 0 <= k < 9 ==> (#[trigger] words@[k])@ == course_suffix_words()[k],
            s@ == strip_words(lower_of(nombre@), course_suffix_words(), t as int),
        decreases words.len() - t,
    {
        s = crate::text::replace_chars(&s, &words[t], &empty);
        t = t + 1;
    }
    string_from_chars(&normalize_name_chars(&s))
}

/// Whether a file name is hidden or temporary (starts with `.` or `~`, or ends with `~`).
pub open spec fn hidden_name(n: Seq<char>) -> bool {
    n.len() > 0 && (n[0] == '.' || n[0] == '~' || n.last() == '~')
}

fn hidden_name_exec(n: &Vec<char>) -> (r: bool)
    ensures
        r == hidden_name(n@),
{
    n.len() > 0 && (n[0] == '.' || n[0] == '~' || n[n.len() - 1] == '~')
}

/// Kind of a data file by its name: 1 curriculum, 2 academic offer, 3 approval rates,
/// 0 none of them (hidden and temporary files are none).
pub open spec fn datafile_kind(name: Seq<char>) -> int {
    let low = lower_of(name);
    if hidden_name(name) {
        0
    } else if contains_seq(low, "malla"@) || contains_seq(low, "malla_curricular"@) || occurs(low, "mc"@, 0) {
        1
    } else if contains_seq(low, "oferta"@) || contains_seq(low, "oa"@) {
        2
    } else if contains_seq(low, "porcent"@) || contains_seq(low, "aprob"@) || contains_seq(low, "porcentaje"@) {
        3
    } else if occurs(low, "pa"@, 0) && low.len() > 2 && is_digit(low[2]) {
        3
    } else {
        0
    }
}

fn datafile_kind_exec(name: &str) -> (r: u8)
    ensures
        r == datafile_kind(name@),
{
    let n = chars_of(name);
    if hidden_name_exec(&n) {
        return 0;
    }
    let low = to_lower(&n);
    if contains_sub(&low, &lit("malla")) || contains_sub(&low, &lit("malla_curricular")) || occurs_at(&low, &lit("mc"), 0) {
        1
    } else if contains_sub(&low, &lit("oferta")) || contains_sub(&low, &lit("oa")) {
        2
    } else if contains_sub(&low, &lit("porcent")) || contains_sub(&low, &lit("aprob")) || contains_sub(&low, &lit("porcentaje")) {
        3
    } else if occurs_at(&low, &lit("pa"), 0) && low.len() > 2 && '0' <= low[2] && low[2] <= '9' {
        3
    } else {
        0
    }
}

/// The names of `names` of the given kind, in order.
pub open spec fn names_of_kind(names: Seq<String>, k: int) -> Seq<Seq<char>>
    decreases names.len(),
{
    if names.len() == 0 {
        Seq::empty()
    } else if datafile_kind(names.last()@) == k {
        names_of_kind(names.drop_last(), k).push(names.last()@)
    } else {
        names_of_kind(names.drop_last(), k)
    }
}

/// Sorts the file names of the data directory into curricula, academic offers and
/// approval-rate tables, keeping their order.
pub fn list_datafiles(names: &[String]) -> (r: (Vec<String>, Vec<String>, Vec<String>))
    ensures
        r.0.deep_view() == names_of_kind(names@, 1),
        r.1.deep_view() == names_of_kind(names@, 2),
        r.2.deep_view() == names_of_kind(names@, 3),
{
    let mut mallas: Vec<String> = Vec::new();
    let mut ofertas: Vec<String> = Vec::new();
    let mut porcentajes: Vec<String> = Vec::new();
    let mut i: usize = 0;
    while i < names.len()
        invariant
            i <= names.len(),
            mallas.deep_view() == names_of_kind(names@.subrange(0, i as int), 1),
            ofertas.deep_view() == names_of_kind(names@.subrange(0, i as int), 2),
            porcentajes.deep_view() == names_of_kind(names@.subrange(0, i as int), 3),
        decreases names.len() - i,
    {
        assert(names@.subrange(0, i + 1).drop_last() =~= names@.subrange(0, i as int));
        let k = datafile_kind_exec(names[i].as_str());
        let ghost m0 = mallas.deep_view();
        let ghost o0 = ofertas.deep_view();
        let ghost p0 = porcentajes.deep_view();
        if k == 1 {
            mallas.push(names[i].clone());
            assert(mallas.deep_view() =~= m0.push(names@[i as int]@));
        } else if k == 2 {
            ofertas.push(names[i].clone());
            assert(ofertas.deep_view() =~= o0.push(names@[i as int]@));
        } else if k == 3 {
            porcentajes.push(names[i].clone());
            assert(porcentajes.deep_view() =~= p0.push(names@[i as int]@));
        }
        i = i + 1;
    }
    assert(names@.subrange(0, names.len() as int) =~= names@);
    (mallas, ofertas, porcentajes)
}


/// Whether some keyword, lower-cased, occurs in the lower-cased name.
pub open spec fn kw_match(name: Seq<char>, kws: Seq<&str>) -> bool {
    exists|k: int| 0 <= k < kws.len() && contains_seq(lower_of(name), #[trigger] lower_of(kws[k]@))
}

fn kw_match_exec(name: &Vec<char>, kws: &[&str]) -> (r: bool)
    ensures
        r == kw_match(name@, kws@),
{
    let low = to_lower(name);
    let mut k: usize = 0;
    while k < kws.len()
        invariant
            k <= kws.len(),
            low@ == lower_of(name@),
            forall|j: int| 0 <= j < k ==> !contains_seq(lower_of(name@), #[trigger] lower_of(kws@[j]@)),
        decreases kws.len() - k,
    {
        let kw = to_lower(&chars_of(kws[k]));
        if contains_sub(&low, &kw) {
            return true;
        }
        k = k + 1;
    }
    false
}

/// A data file that the keyword search considers: not hidden, and named by a keyword.
pub open spec fn file_matches(name: Seq<char>, kws: Seq<&str>) -> bool {
    !hidden_name(name) && kw_match(name, kws)
}

/// A matching file that is not a test file (its upper-cased name has no `_TEST`).
pub open spec fn preferred_file(name: Seq<char>, kws: Seq<&str>) -> bool {
    file_matches(name, kws) && !contains_seq(upper_of(name), "_TEST"@)
}

/// Length of the run of ASCII digits at the start of `s`.
pub open spec fn digit_run_len(s: Seq<char>) -> nat
    decreases s.len(),
{
    if s.len() > 0 && is_digit(s[0]) {
        1 + digit_run_len(s.drop_first())
    } else {
        0
    }
}

/// Position of the first occurrence of `pat` in `s` (meaningful when there is one).
pub open spec fn first_occurrence(s: Seq<char>, pat: Seq<char>) -> int {
    choose|p: int| occurs(s, pat, p) && forall|q: int| 0 <= q < p ==> !#[trigger] occurs(s, pat, q)
}

/// The term number of an academic-offer file name: the digits right after the first
/// `OA` of the upper-cased name (`OA20251` gives 20251, that is year 2025, term 1),
/// or 0 when there is no `OA`, no digit after it, or the number exceeds `u32`.
pub open spec fn oa_key(name: Seq<char>) -> int {
    let u = upper_of(name);
    if contains_seq(u, "OA"@) {
        let p = first_occurrence(u, "OA"@);
        let after = u.subrange(p + 2, u.len() as int);
        let k = digit_run_len(after);
        if k > 0 && digits_value(after.subrange(0, k as int)) <= u32::MAX {
            digits_value(after.subrange(0, k as int))
        } else {
            0
        }
    } else {
        0
    }
}

fn oa_key_exec(name: &Vec<char>) -> (r: u32)
    ensures
        r == oa_key(name@),
{
    let u = to_upper(name);
    let oa = lit("OA");
    proof {
        reveal_strlit("OA");
    }
    assert(oa@.len() == 2);
    match find_sub(&u, &oa) {
        None => 0,
        Some(p) => {
            assert(occurs(u@, oa@, p as int));
            assert(p + 2 <= u.len());
            proof {
                let f = first_occurrence(u@, "OA"@);
                assert(occurs(u@, "OA"@, f) && forall|q: int| 0 <= q < f ==> !#[trigger] occurs(u@, "OA"@, q));
                if f < p {
                } else if f > p {
                }
                assert(f == p);
            }
            let ghost after = u@.subrange(p + 2, u@.len() as int);
            let start: usize = p + 2;
            let mut j: usize = start;
            let mut acc: u64 = 0;
            let mut over = false;
            assert(after.subrange(0, 0) =~= Seq::<char>::empty());
            assert(after.subrange(0, after.len() as int) =~= after);
            while j < u.len() && '0' <= u[j] && u[j] <= '9'
                invariant
                    start <= j <= u.len(),
                    start == p + 2,
                    after == u@.subrange(start as int, u@.len() as int),
                    all_digits(after.subrange(0, j - start)),
                    digit_run_len(after) == (j - start) + digit_run_len(after.subrange(j - start, after.len() as int)),
                    over ==> digits_value(after.subrange(0, j - start)) > u32::MAX,
                    !over ==> acc == digits_value(after.subrange(0, j - start)) && acc <= u32::MAX,
                decreases u.len() - j,
            {
                let ghost k = j - start;
                let ghost rest = after.subrange(k, after.len() as int);
                assert(rest.drop_first() =~= after.subrange(k + 1, after.len() as int));
                assert(rest[0] == u@[j as int]);
                assert(after.subrange(0, k + 1).drop_last() =~= after.subrange(0, k));
                assert(after.subrange(0, k + 1).last() == u@[j as int]);
                proof {
                    lemma_digits_value_nonneg(after.subrange(0, k));
                }
                let d = (u[j] as u32 - '0' as u32) as u64;
                if !over {
                    let nv = acc * 10 + d;
                    if nv > 0xffff_ffff {
                        over = true;
                    } else {
                        acc = nv;
                    }
                }
                j = j + 1;
            }
            let ghost k = j - start;
            let ghost rest = after.subrange(k, after.len() as int);
            assert(rest.len() == 0 || !is_digit(rest[0]));
            assert(digit_run_len(after) == k);
            if j == start || over {
                0
            } else {
                acc as u32
            }
        },
    }
}

/// Whether term and time `(a1, a2)` come before `(b1, b2)`: a lower term number, or the
/// same term number and an earlier modification.
pub open spec fn term_time_lt(a1: int, a2: int, b1: int, b2: int) -> bool {
    a1 < b1 || (a1 == b1 && a2 < b2)
}

/// Whether file `i` is the first of the preferred files with the greatest term number,
/// the most recently modified among those.
pub open spec fn first_best_term(files: Seq<(String, u128)>, kws: Seq<&str>, i: int) -> bool {
    &&& 0 <= i < files.len()
    &&& preferred_file(files[i].0@, kws)
    &&& forall|j: int| 0 <= j < files.len() && preferred_file(#[trigger] files[j].0@, kws)
        ==> !term_time_lt(oa_key(files[i].0@) as int, files[i].1 as int, oa_key(files[j].0@) as int, files[j].1 as int)
    &&& forall|j: int| 0 <= j < i && preferred_file(#[trigger] files[j].0@, kws)
        ==> term_time_lt(oa_key(files[j].0@) as int, files[j].1 as int, oa_key(files[i].0@) as int, files[i].1 as int)
}

/// Position of the first flagged entry with the greatest pair of keys (compared by the
/// first key, then the second), `None` when none is flagged.
fn first_max_pair(ok: &Vec<bool>, k1: &Vec<u128>, k2: &Vec<u128>) -> (r: Option<usize>)
    requires
        ok.len() == k1.len() && ok.len() == k2.len(),
    ensures
        r is None <==> forall|j: int| 0 <= j < ok.len() ==> !ok@[j],
        r matches Some(b) ==> {
            &&& b < ok.len()
            &&& ok@[b as int]
            &&& forall|j: int| 0 <= j < ok.len() && ok@[j] ==> !term_time_lt(k1@[b as int] as int, k2@[b as int] as int, k1@[j] as int, k2@[j] as int)
            &&& forall|j: int| 0 <= j < b && ok@[j] ==> term_time_lt(k1@[j] as int, k2@[j] as int, k1@[b as int] as int, k2@[b as int] as int)
        },
{
    let mut best: Option<usize> = None;
    let mut i: usize = 0;
    while i < ok.len()
        invariant
            i <= ok.len() == k1.len() == k2.len(),
            best is None <==> forall|j: int| 0 <= j < i ==> !ok@[j],
            best matches Some(b) ==> {
                &&& b < i
                &&& ok@[b as int]
                &&& forall|j: int| 0 <= j < i && ok@[j] ==> !term_time_lt(k1@[b as int] as int, k2@[b as int] as int, k1@[j] as int, k2@[j] as int)
                &&& forall|j: int| 0 <= j < b && ok@[j] ==> term_time_lt(k1@[j] as int, k2@[j] as int, k1@[b as int] as int, k2@[b as int] as int)
            },
        decreases ok.len() - i,
    {
        if ok[i] {
            match best {
                None => {
                    best = Some(i);
                },
                Some(b) => {
                    if k1[i] > k1[b] || (k1[i] == k1[b] && k2[i] > k2[b]) {
                        best = Some(i);
                    }
                },
            }
        }
        i = i + 1;
    }
    best
}

/// Whether file `i` is the first of the matching files with the latest modification time.
pub open spec fn first_most_recent(files: Seq<(String, u128)>, kws: Seq<&str>, i: int) -> bool {
    &&& 0 <= i < files.len()
    &&& file_matches(files[i].0@, kws)
    &&& forall|j: int| 0 <= j < files.len() && file_matches(#[trigger] files[j].0@, kws) ==> files[j].1 <= files[i].1
    &&& forall|j: int| 0 <= j < i && file_matches(#[trigger] files[j].0@, kws) ==> files[j].1 < files[i].1
}

/// Some file of the list is preferred.
pub open spec fn any_preferred(files: Seq<(String, u128)>, kws: Seq<&str>) -> bool {
    exists|j: int| 0 <= j < files.len() && preferred_file(#[trigger] files[j].0@, kws)
}

/// Some file of the list matches.
pub open spec fn any_matching(files: Seq<(String, u128)>, kws: Seq<&str>) -> bool {
    exists|j: int| 0 <= j < files.len() && file_matches(#[trigger] files[j].0@, kws)
}

/// Position of the first flagged entry with the greatest key, `None` when none is flagged.
fn first_max(ok: &Vec<bool>, key: &Vec<u128>) -> (r: Option<usize>)
    requires
        ok.len() == key.len(),
    ensures
        r is None <==> forall|j: int| 0 <= j < ok.len() ==> !ok@[j],
        r matches Some(b) ==> {
            &&& b < ok.len()
            &&& ok@[b as int]
            &&& forall|j: int| 0 <= j < ok.len() && ok@[j] ==> key@[j] <= key@[b as int]
            &&& forall|j: int| 0 <= j < b && ok@[j] ==> key@[j] < key@[b as int]
        },
{
    let mut best: Option<usize> = None;
    let mut i: usize = 0;
    while i < ok.len()
        invariant
            i <= ok.len() == key.len(),
            best is None <==> forall|j: int| 0 <= j < i ==> !ok@[j],
            best matches Some(b) ==> {
                &&& b < i
                &&& ok@[b as int]
                &&& forall|j: int| 0 <= j < i && ok@[j] ==> key@[j] <= key@[b as int]
                &&& forall|j: int| 0 <= j < b && ok@[j] ==> key@[j] < key@[b as int]
            },
        decreases ok.len() - i,
    {
        if ok[i] {
            match best {
                None => {
                    best = Some(i);
                },
                Some(b) => {
                    if key[i] > key[b] {
                        best = Some(i);
                    }
                },
            }
        }
        i = i + 1;
    }
    best
}

/// Picks the data file for a list of keywords among the files of the data directory,
/// given by name and modification time in directory order. Hidden and temporary files
/// are ignored; a file matches when a keyword occurs in its name, both lower-cased.
/// Files that are not `_TEST` files win, the one with the greatest term number after
/// `OA` first, the most recently modified among those (the earliest listed on a tie);
/// when only `_TEST` files match, the most recently modified one (the earliest listed on
/// a tie). `None` when nothing matches.
#[verifier::rlimit(40)]
pub fn latest_file_for_keywords(files: &[(String, u128)], keywords: &[&str]) -> (r: Option<String>)
    ensures
        any_preferred(files@, keywords@) ==> exists|i: int|
            first_best_term(files@, keywords@, i) && (r matches Some(n) && n@ == files@[i].0@),
        !any_preferred(files@, keywords@) && any_matching(files@, keywords@) ==> exists|i: int|
            first_most_recent(files@, keywords@, i) && (r matches Some(n) && n@ == files@[i].0@),
        !any_matching(files@, keywords@) ==> r is None,
{
    let ghost fs = files@;
    let ghost ks = keywords@;
    let mut m: Vec<bool> = Vec::new();
    let mut pr: Vec<bool> = Vec::new();
    let mut times: Vec<u128> = Vec::new();
    let mut terms: Vec<u128> = Vec::new();
    let mut i: usize = 0;
    while i < files.len()
        invariant
            i <= files.len(),
            fs == files@,
            ks == keywords@,
            m.len() == i && pr.len() == i && times.len() == i && terms.len() == i,
            forall|j: int| 0 <= j < i ==> #[trigger] m@[j] == file_matches(fs[j].0@, ks),
            forall|j: int| 0 <= j < i ==> #[trigger] pr@[j] == preferred_file(fs[j].0@, ks),
            forall|j: int| 0 <= j < i ==> #[trigger] times@[j] == fs[j].1,
            forall|j: int| 0 <= j < i ==> #[trigger] terms@[j] == oa_key(fs[j].0@),
        decreases files.len() - i,
    {
        let name = chars_of(files[i].0.as_str());
        let is_m = !hidden_name_exec(&name) && kw_match_exec(&name, keywords);
        let is_p = is_m && !contains_sub(&to_upper(&name), &lit("_TEST"));
        let k = oa_key_exec(&name);
        m.push(is_m);
        pr.push(is_p);
        times.push(files[i].1);
        terms.push(k as u128);
        i = i + 1;
    }
    match first_max_pair(&pr, &terms, &times) {
        Some(b) => {
            proof {
                assert(terms@[b as int] == oa_key(fs[b as int].0@));
                assert(times@[b as int] == fs[b as int].1);
                assert forall|j: int| 0 <= j < fs.len() && preferred_file(#[trigger] fs[j].0@, ks)
                    implies !term_time_lt(oa_key(fs[b as int].0@) as int, fs[b as int].1 as int, oa_key(fs[j].0@) as int, fs[j].1 as int) by {
                    assert(pr@[j] == preferred_file(fs[j].0@, ks));
                    assert(terms@[j] == oa_key(fs[j].0@));
                    assert(times@[j] == fs[j].1);
                }
                assert forall|j: int| 0 <= j < b && preferred_file(#[trigger] fs[j].0@, ks)
                    implies term_time_lt(oa_key(fs[j].0@) as int, fs[j].1 as int, oa_key(fs[b as int].0@) as int, fs[b as int].1 as int) by {
                    assert(pr@[j] == preferred_file(fs[j].0@, ks));
                    assert(terms@[j] == oa_key(fs[j].0@));
                    assert(times@[j] == fs[j].1);
                }
                assert(pr@[b as int] == preferred_file(fs[b as int].0@, ks));
                assert(first_best_term(fs, ks, b as int));
            }
            Some(files[b].0.clone())
        },
        None => {
            assert(!any_preferred(fs, ks)) by {
                assert forall|j: int| 0 <= j < fs.len() implies !preferred_file(#[trigger] fs[j].0@, ks) by {
                    assert(pr@[j] == preferred_file(fs[j].0@, ks));
                }
            }
            match first_max(&m, &times) {
                Some(b) => {
                    proof {
                        assert forall|j: int| 0 <= j < fs.len() && file_matches(#[trigger] fs[j].0@, ks) implies fs[j].1 <= fs[b as int].1 by {
                            assert(m@[j] == file_matches(fs[j].0@, ks));
                            assert(times@[j] == fs[j].1);
                        }
                        assert forall|j: int| 0 <= j < b && file_matches(#[trigger] fs[j].0@, ks) implies fs[j].1 < fs[b as int].1 by {
                            assert(m@[j] == file_matches(fs[j].0@, ks));
                            assert(times@[j] == fs[j].1);
                        }
                        assert(m@[b as int] == file_matches(fs[b as int].0@, ks));
                        assert(times@[b as int] == fs[b as int].1);
                        assert(first_most_recent(fs, ks, b as int));
                    }
                    Some(files[b].0.clone())
                },
                None => {
                    assert(!any_matching(fs, ks)) by {
                        assert forall|j: int| 0 <= j < fs.len() implies !file_matches(#[trigger] fs[j].0@, ks) by {
                            assert(m@[j] == file_matches(fs[j].0@, ks));
                        }
                    }
                    None
                },
            }
        },
    }
}


/// Whether file `i` is the first of the flagged files with the latest modification time.
pub open spec fn first_latest(files: Seq<(String, u128)>, flag: spec_fn(Seq<char>) -> bool, i: int) -> bool {
    &&& 0 <= i < files.len()
    &&& flag(files[i].0@)
    &&& forall|j: int| 0 <= j < files.len() && flag(#[trigger] files[j].0@) ==> files[j].1 <= files[i].1
    &&& forall|j: int| 0 <= j < i && flag(#[trigger] files[j].0@) ==> files[j].1 < files[i].1
}

/// Whether a file name, lower-cased, starts with "pa" and a digit, as the approval-rate
/// files of a term do ("PA2025-1.xlsx").
pub open spec fn pa_like(name: Seq<char>) -> bool {
    let l = lower_of(name);
    l.len() >= 3 && l[0] == 'p' && l[1] == 'a' && is_digit(l[2])
}

/// The decimal digits of `n`.
pub open spec fn decimal(n: nat) -> Seq<char>
    decreases n,
{
    if n < 10 {
        seq![digit_char(n)]
    } else {
        decimal(n / 10).push(digit_char(n % 10))
    }
}

/// The character of a decimal digit.
pub open spec fn digit_char(d: nat) -> char {
    if d == 0 { '0' } else if d == 1 { '1' } else if d == 2 { '2' } else if d == 3 { '3' } else if d == 4 { '4' }
    else if d == 5 { '5' } else if d == 6 { '6' } else if d == 7 { '7' } else if d == 8 { '8' } else { '9' }
}

/// A whole number as `to_string` writes it.
pub open spec fn int_text(y: int) -> Seq<char> {
    if y < 0 { seq!['-'] + decimal((-y) as nat) } else { decimal(y as nat) }
}

/// Whether a file name, lower-cased, names a curriculum ("malla" or "mc") of year `y`.
pub open spec fn malla_of_year(name: Seq<char>, y: int) -> bool {
    let l = lower_of(name);
    (contains_seq(l, "malla"@) || contains_seq(l, "mc"@)) && contains_seq(l, int_text(y))
}

fn digit_exec(d: u64) -> (r: char)
    requires
        d < 10,
    ensures
        r == digit_char(d as nat),
{
    if d == 0 { '0' } else if d == 1 { '1' } else if d == 2 { '2' } else if d == 3 { '3' } else if d == 4 { '4' }
    else if d == 5 { '5' } else if d == 6 { '6' } else if d == 7 { '7' } else if d == 8 { '8' } else { '9' }
}

/// The decimal text of `y`.
pub(crate) fn int_text_exec(y: i32) -> (r: Vec<char>)
    ensures
        r@ == int_text(y as int),
{
    let neg = y < 0;
    let n: u64 = if neg { (-(y as i64)) as u64 } else { y as u64 };
    let ghost n0 = n as nat;
    let mut m: u64 = n;
    let mut out: Vec<char> = Vec::new();
    while m >= 10
        invariant
            decimal(n0) == decimal(m as nat) + out@,
        decreases m,
    {
        let d = digit_exec(m % 10);
        let ghost o = out@;
        out.insert(0, d);
        proof {
            assert(decimal(m as nat) == decimal((m / 10) as nat).push(d));
            assert(decimal((m / 10) as nat) + out@ =~= decimal((m / 10) as nat).push(d) + o);
        }
        m = m / 10;
    }
    let d = digit_exec(m);
    let ghost o = out@;
    out.insert(0, d);
    assert(decimal(m as nat) == seq![d]);
    assert(out@ =~= seq![d] + o);
    assert(decimal(n0) =~= out@);
    if neg {
        out.insert(0, '-');
    }
    out
}

/// Position of the first flagged file with the latest modification time.
fn latest_flagged(files: &[(String, u128)], ok: &Vec<bool>, flag: Ghost<spec_fn(Seq<char>) -> bool>) -> (r: Option<String>)
    requires
        ok.len() == files.len(),
        forall|j: int| 0 <= j < files.len() ==> #[trigger] ok@[j] == flag@(files@[j].0@),
    ensures
        match r {
            Some(n) => exists|i: int| first_latest(files@, flag@, i) && n@ == files@[i].0@,
            None => forall|j: int| 0 <= j < files.len() ==> !flag@(#[trigger] files@[j].0@),
        },
{
    let mut times: Vec<u128> = Vec::new();
    let mut i: usize = 0;
    while i < files.len()
        invariant
            i <= files.len(),
            times.len() == i,
            forall|j: int| 0 <= j < i ==> #[trigger] times@[j] == files@[j].1,
        decreases files.len() - i,
    {
        times.push(files[i].1);
        i = i + 1;
    }
    match first_max(ok, &times) {
        Some(b) => {
            assert forall|j: int| 0 <= j < files.len() && flag@(#[trigger] files@[j].0@) implies files@[j].1 <= files@[b as int].1 by {
                assert(ok@[j]);
            }
            assert forall|j: int| 0 <= j < b && flag@(#[trigger] files@[j].0@) implies files@[j].1 < files@[b as int].1 by {
                assert(ok@[j]);
            }
            assert(first_latest(files@, flag@, b as int));
            Some(files[b].0.clone())
        },
        None => {
            assert forall|j: int| 0 <= j < files.len() implies !flag@(#[trigger] files@[j].0@) by {
                assert(!ok@[j]);
            }
            None
        },
    }
}

/// The latest approval-rate file of a term among `files` (name and modification time):
/// the first, in order, of the names that lower-cased start with "pa" and a digit with
/// the latest time; `None` when no name does.
pub fn latest_pa_file(files: &[(String, u128)]) -> (r: Option<String>)
    ensures
        match r {
            Some(n) => exists|i: int| first_latest(files@, |s: Seq<char>| pa_like(s), i) && n@ == files@[i].0@,
            None => forall|j: int| 0 <= j < files.len() ==> !pa_like(#[trigger] files@[j].0@),
        },
{
    let ghost flag = |s: Seq<char>| pa_like(s);
    let mut ok: Vec<bool> = Vec::new();
    let mut i: usize = 0;
    while i < files.len()
        invariant
            i <= files.len(),
            flag == (|s: Seq<char>| pa_like(s)),
            ok.len() == i,
            forall|j: int| 0 <= j < i ==> #[trigger] ok@[j] == flag(files@[j].0@),
        decreases files.len() - i,
    {
        let l = to_lower(&chars_of(files[i].0.as_str()));
        ok.push(l.len() >= 3 && l[0] == 'p' && l[1] == 'a' && '0' <= l[2] && l[2] <= '9');
        i = i + 1;
    }
    let r = latest_flagged(files, &ok, Ghost(flag));
    r
}

/// The latest curriculum file of year `anio` among `files` (name and modification
/// time): the first, in order, of the names that lower-cased contain "malla" or "mc" and
/// the year's digits with the latest time; `None` when no name does.
pub fn malla_file_for_year(files: &[(String, u128)], anio: i32) -> (r: Option<String>)
    ensures
        match r {
            Some(n) => exists|i: int| first_latest(files@, |s: Seq<char>| malla_of_year(s, anio as int), i)
                && n@ == files@[i].0@,
            None => forall|j: int| 0 <= j < files.len() ==> !malla_of_year(#[trigger] files@[j].0@, anio as int),
        },
{
    let ghost flag = |s: Seq<char>| malla_of_year(s, anio as int);
    let year = int_text_exec(anio);
    let mut ok: Vec<bool> = Vec::new();
    let mut i: usize = 0;
    while i < files.len()
        invariant
            i <= files.len(),
            year@ == int_text(anio as int),
            flag == (|s: Seq<char>| malla_of_year(s, anio as int)),
            ok.len() == i,
            forall|j: int| 0 <= j < i ==> #[trigger] ok@[j] == flag(files@[j].0@),
        decreases files.len() - i,
    {
        let l = to_lower(&chars_of(files[i].0.as_str()));
        ok.push((contains_sub(&l, &lit("malla")) || contains_sub(&l, &lit("mc"))) && contains_sub(&l, &year));
        i = i + 1;
    }
    let r = latest_flagged(files, &ok, Ghost(flag));
    r
}


/// The equivalence a row of the equivalence sheet states: its first two cells, when both
/// hold text or a whole number, upper-cased and trimmed (old code, new code).
pub open spec fn equivalence_of(row: Seq<Option<String>>) -> Option<(Seq<char>, Seq<char>)> {
    if row.len() >= 2 && row[0] is Some && row[1] is Some {
        Some((trim(upper_of(row[0]->0@)), trim(upper_of(row[1]->0@))))
    } else {
        None
    }
}

/// The equivalences of the rows `1..k` of the sheet (the first row is its header), in
/// order; as an association list a later equivalence of a code overrides an earlier one.
pub open spec fn equivalences_upto(rows: Seq<Vec<Option<String>>>, k: int) -> Seq<(Seq<char>, Seq<char>)>
    decreases k,
{
    if k <= 1 || k > rows.len() {
        Seq::empty()
    } else {
        match equivalence_of(rows[k - 1]@) {
            Some(e) => equivalences_upto(rows, k - 1).push(e),
            None => equivalences_upto(rows, k - 1),
        }
    }
}

/// The equivalences of an equivalence sheet, given as rows of cells (`None` for a cell
/// that holds neither text nor a whole number): every row after the header with two
/// such cells gives its old and new code, upper-cased and trimmed.
pub fn equivalencias_de_filas(rows: &Vec<Vec<Option<String>>>) -> (r: Vec<(String, String)>)
    ensures
        r.deep_view() == equivalences_upto(rows@, rows.len() as int),
{
    let mut out: Vec<(String, String)> = Vec::new();
    if rows.len() <= 1 {
        return out;
    }
    let mut k: usize = 1;
    while k < rows.len()
        invariant
            1 <= k <= rows.len(),
            out.deep_view() == equivalences_upto(rows@, k as int),
        decreases rows.len() - k,
    {
        let row = &rows[k];
        if row.len() >= 2 {
            match (&row[0], &row[1]) {
                (Some(a), Some(b)) => {
                    let ka = trim_chars(&to_upper(&chars_of(a.as_str())));
                    let kb = trim_chars(&to_upper(&chars_of(b.as_str())));
                    let ghost o = out.deep_view();
                    let pair = (string_from_chars(&ka), string_from_chars(&kb));
                    let ghost pv = (pair.0@, pair.1@);
                    out.push(pair);
                    assert(out.deep_view() =~= o.push(pv));
                },
                _ => {},
            }
        }
        k = k + 1;
    }
    out
}


/// Whether an entry of the student's lists is taken as a course code: it has an ASCII
/// digit.
pub open spec fn looks_like_code(s: Seq<char>) -> bool {
    exists|i: int| 0 <= i < s.len() && is_digit(#[trigger] s[i])
}

/// The path that `std::path::Path::join` gives for `name` under `base`.
pub uninterp spec fn joined_path(base: Seq<char>, name: Seq<char>) -> Seq<char>;

/// `std::path::Path::new(base).join(name)`, read back as text (lossless, both being
/// UTF-8). Trusted: the result is the named join of its two arguments.
#[verifier::external_body]
fn path_join(base: &str, name: &str) -> (r: String)
    ensures
        r@ == joined_path(base@, name@),
{
    std::path::Path::new(base).join(name).to_string_lossy().into_owned()
}

/// The path of the curriculum that names are resolved against: `malla` joined to the
/// base directory when one is given, else `malla` itself.
pub open spec fn malla_path_of(base_dir: Option<Seq<char>>, malla: Seq<char>) -> Seq<char> {
    match base_dir {
        Some(b) => joined_path(b, malla),
        None => malla,
    }
}

/// Whether entry `out` is what `entry` resolves to against the curriculum at `path`: a
/// code stays as it is; a name is replaced by the code the resolver gives for it and
/// that path, if any.
pub open spec fn resolved_as<F: Fn(String, String) -> Option<String>>(resolver: F, path: String, entry: String, out: String) -> bool {
    if looks_like_code(entry@) {
        out@ == entry@
    } else {
        exists|v: Option<String>| #[trigger] resolver.ensures((path, entry), v) && out@ == match v {
            Some(a) => a@,
            None => entry@,
        }
    }
}

/// The entries of a list resolved one by one against the curriculum at `path`.
fn resolve_list<F: Fn(String, String) -> Option<String>>(entries: &Vec<String>, path: &String, resolver: &F) -> (r: Vec<String>)
    requires
        forall|p: String, s: String| #[trigger] resolver.requires((p, s)),
    ensures
        r.len() == entries.len(),
        forall|k: int| 0 <= k < r.len() ==> #[trigger] resolved_as(*resolver, *path, entries@[k], r@[k]),
{
    let mut out: Vec<String> = Vec::new();
    let mut k: usize = 0;
    while k < entries.len()
        invariant
            k <= entries.len(),
            forall|p: String, s: String| #[trigger] resolver.requires((p, s)),
            out.len() == k,
            forall|q: int| 0 <= q < k ==> #[trigger] resolved_as(*resolver, *path, entries@[q], out@[q]),
        decreases entries.len() - k,
    {
        let e = &entries[k];
        let cs = chars_of(e.as_str());
        let mut code = false;
        let mut i: usize = 0;
        while i < cs.len()
            invariant
                i <= cs.len(),
                cs@ == e@,
                code == exists|j: int| 0 <= j < i && is_digit(#[trigger] cs@[j]),
            decreases cs.len() - i,
        {
            if '0' <= cs[i] && cs[i] <= '9' {
                code = true;
            }
            i = i + 1;
        }
        let r = if code {
            e.clone()
        } else {
            let v = resolver(path.clone(), e.clone());
            match v {
                Some(a) => a,
                None => e.clone(),
            }
        };
        out.push(r);
        k = k + 1;
    }
    out
}

/// The student's passed and favoured courses with names resolved to course codes: an
/// entry with a digit is taken as a code and kept; any other is replaced by the code
/// the resolver finds for it in the curriculum `malla` (joined to `base_dir` when one
/// is given), or kept when it finds none.
pub fn resolve_ramos_with_resolver<F: Fn(String, String) -> Option<String>>(
    params: PlanParams,
    malla: &str,
    base_dir: Option<&str>,
    resolver: &F,
) -> (r: PlanParams)
    requires
        forall|p: String, s: String| #[trigger] resolver.requires((p, s)),
    ensures
        exists|path: String| path@ == malla_path_of(match base_dir { Some(b) => Some(b@), None => None }, malla@) && {
            &&& r.ramos_pasados.len() == params.ramos_pasados.len()
            &&& forall|k: int| 0 <= k < r.ramos_pasados.len() ==> #[trigger] resolved_as(*resolver, path,
                params.ramos_pasados@[k], r.ramos_pasados@[k])
            &&& r.ramos_prioritarios.len() == params.ramos_prioritarios.len()
            &&& forall|k: int| 0 <= k < r.ramos_prioritarios.len() ==> #[trigger] resolved_as(*resolver, path,
                params.ramos_prioritarios@[k], r.ramos_prioritarios@[k])
        },
        r.optimizations == params.optimizations,
        r.filtros == params.filtros,
{
    let path = match base_dir {
        Some(b) => path_join(b, malla),
        None => malla.to_string(),
    };
    let pasados = resolve_list(&params.ramos_pasados, &path, resolver);
    let prioritarios = resolve_list(&params.ramos_prioritarios, &path, resolver);
    PlanParams { ramos_pasados: pasados, ramos_prioritarios: prioritarios, optimizations: params.optimizations, filtros: params.filtros }
}

} // verus!
