//! Maximum-weight clique planning over course sections: the compatibility graph of
//! the sections, their priorities, the best clique, and an example run on a small
//! built-in curriculum.
use vstd::prelude::*;
use crate::models::{RamoDisponible, Seccion};
use crate::selector::same_section;
use crate::scoring::{compute_priority, lemma_share_entry_symmetric, priority, sections_conflict, share_entry};
use crate::bitset::{bit, bs_has, lemma_set_bit};
use crate::clique_bk::{adj, bk_find_max_weight_clique, is_clique_result, irreflexive};
use crate::text::{chars_of, chars_eq, char_utf8_len, lit, string_from_chars, to_upper, upper_of, utf8_len};

verus! {

/// The first seven bytes of a code, as characters (the whole code when shorter).
pub open spec fn prefix7(s: Seq<char>) -> Seq<char> {
    if utf8_len(s) <= 7 {
        s
    } else {
        s.take(choose|k: int| 0 <= k <= s.len() && utf8_len(s.take(k)) == 7)
    }
}

/// Whether the seventh byte of a code ends a character (or the code is shorter).
pub open spec fn cut7_ok(s: Seq<char>) -> bool {
    utf8_len(s) <= 7 || exists|k: int| 0 <= k <= s.len() && utf8_len(s.take(k)) == 7
}

/// Whether two sections may be taken together: different course boxes, different
/// seven-byte code prefixes, and no shared timetable entry.
pub open spec fn compatible(a: Seccion, b: Seccion) -> bool {
    &&& a.codigo_box@ != b.codigo_box@
    &&& prefix7(a.codigo@) != prefix7(b.codigo@)
    &&& !share_entry(a.horario@, b.horario@)
}

proof fn lemma_utf8_take(s: Seq<char>, k: int)
    requires
        0 <= k < s.len(),
    ensures
        utf8_len(s.take(k + 1)) == utf8_len(s.take(k)) + char_utf8_len(s[k]),
{
    assert(s.take(k + 1).drop_last() =~= s.take(k));
}

proof fn lemma_utf8_take_mono(s: Seq<char>, a: int, b: int)
    requires
        0 <= a <= b <= s.len(),
    ensures
        utf8_len(s.take(a)) + (b - a) <= utf8_len(s.take(b)),
    decreases b - a,
{
    if a < b {
        lemma_utf8_take_mono(s, a, b - 1);
        lemma_utf8_take(s, b - 1);
    }
}

/// The seven-byte prefix of a code, `None` when the seventh byte falls inside a
/// character.
pub(crate) fn prefix7_opt(s: &str) -> (r: Option<Vec<char>>)
    ensures
        match r {
            Some(p) => cut7_ok(s@) && p@ == prefix7(s@),
            None => !cut7_ok(s@),
        },
{
    let v = chars_of(s);
    let mut k: usize = 0;
    let mut bytes: usize = 0;
    assert(v@.take(0) =~= Seq::<char>::empty());
    while k < v.len() && bytes < 7
        invariant
            k <= v.len(),
            v@ == s@,
            bytes == utf8_len(v@.take(k as int)),
            bytes <= 10,
            k > 0 ==> utf8_len(v@.take(k - 1)) < 7,
        decreases v.len() - k,
    {
        proof {
            lemma_utf8_take(v@, k as int);
        }
        let c = v[k] as u32;
        let w: usize = if c < 0x80 { 1 } else if c < 0x800 { 2 } else if c < 0x10000 { 3 } else { 4 };
        bytes = bytes + w;
        k = k + 1;
    }
    proof {
        assert(v@.take(v.len() as int) =~= v@);
        lemma_utf8_take_mono(v@, k as int, v.len() as int);
        if bytes < 7 {
            assert(k == v.len());
        } else if utf8_len(s@) <= 7 {
            assert(k == v.len());
        } else if cut7_ok(s@) {
            let j = choose|j: int| 0 <= j <= s@.len() && utf8_len(s@.take(j)) == 7;
            if j < k {
                lemma_utf8_take_mono(v@, j, k - 1);
                assert(false);
            } else if j > k {
                lemma_utf8_take_mono(v@, k as int, j);
                assert(false);
            }
            assert(j == k);
        }
    }
    if bytes > 7 {
        proof {
            if cut7_ok(s@) {
                assert(utf8_len(s@) > 7) by {
                    lemma_utf8_take_mono(v@, k as int, v.len() as int);
                }
                let j = choose|j: int| 0 <= j <= s@.len() && utf8_len(s@.take(j)) == 7;
                if j < k {
                    lemma_utf8_take_mono(v@, j, k - 1);
                } else {
                    lemma_utf8_take_mono(v@, k as int, j);
                }
            }
        }
        return None;
    }
    let mut out: Vec<char> = Vec::new();
    let mut i: usize = 0;
    while i < k
        invariant
            i <= k <= v.len(),
            out@ == v@.take(i as int),
        decreases k - i,
    {
        out.push(v[i]);
        i = i + 1;
        assert(out@ =~= v@.take(i as int));
    }
    Some(out)
}


/// Compatibility of two sections is symmetric.
pub proof fn lemma_compatible_symmetric(a: Seccion, b: Seccion)
    ensures
        compatible(a, b) == compatible(b, a),
{
    lemma_share_entry_symmetric(a.horario@, b.horario@);
}

/// Number of 64-bit words of a bitset over `n` vertices.
pub open spec fn words_for(n: int) -> int {
    if n == 0 {
        0
    } else {
        (n - 1) / 64 + 1
    }
}

/// The compatibility graph of sections whose codes all cut at the seventh byte: row
/// `i` has bit `j` set when `i != j` and the two sections are compatible.
fn compat_graph(secs: &[Seccion], prefixes: &Vec<Vec<char>>) -> (r: Vec<Vec<u64>>)
    requires
        secs.len() <= u32::MAX,
        prefixes.len() == secs.len(),
        forall|k: int| 0 <= k < secs.len() ==> (#[trigger] prefixes@[k])@ == prefix7(secs@[k].codigo@),
    ensures
        r.len() == secs.len(),
        forall|i: int| 0 <= i < r.len() ==> (#[trigger] r@[i]).len() == words_for(secs.len() as int),
        forall|i: int, j: int| 0 <= i < secs.len() && 0 <= j < secs.len() ==> (#[trigger] adj(r@, i, j) <==> i != j && compatible(
            secs@[i],
            secs@[j],
        )),
{
    let n = secs.len();
    let words: usize = if n == 0 { 0 } else { (n - 1) / 64 + 1 };
    let mut rows: Vec<Vec<u64>> = Vec::new();
    let mut i: usize = 0;
    while i < n
        invariant
            i <= n == secs.len() <= u32::MAX,
            words == words_for(n as int),
            prefixes.len() == secs.len(),
            forall|k: int| 0 <= k < secs.len() ==> (#[trigger] prefixes@[k])@ == prefix7(secs@[k].codigo@),
            rows.len() == i,
            forall|a: int| 0 <= a < i ==> (#[trigger] rows@[a]).len() == words,
            forall|a: int, b: int| 0 <= a < i && 0 <= b < n ==> (bs_has(#[trigger] rows@[a]@, b) <==> a != b && compatible(
                secs@[a],
                #[trigger] secs@[b],
            )),
        decreases n - i,
    {
        let mut row: Vec<u64> = Vec::new();
        let mut w: usize = 0;
        while w < words
            invariant
                w <= words,
                row.len() == w,
                forall|x: int| 0 <= x < w ==> #[trigger] row@[x] == 0u64,
            decreases words - w,
        {
            row.push(0u64);
            w = w + 1;
        }
        let box_i = chars_of(secs[i].codigo_box.as_str());
        assert forall|b: int| 0 <= b < n implies !#[trigger] bs_has(row@, b) by {
            if bs_has(row@, b) {
                assert(b < words * 64);
                assert(row@[b / 64] == 0u64);
                lemma_bit_zero((b % 64) as u64);
            }
        }
        let mut j: usize = 0;
        while j < n
            invariant
                i < n == secs.len() <= u32::MAX,
                j <= n,
                words == words_for(n as int),
                row.len() == words,
                box_i@ == secs@[i as int].codigo_box@,
                prefixes.len() == secs.len(),
                forall|k: int| 0 <= k < secs.len() ==> (#[trigger] prefixes@[k])@ == prefix7(secs@[k].codigo@),
                forall|b: int| 0 <= b < j ==> (bs_has(row@, b) <==> i != b && compatible(secs@[i as int], #[trigger] secs@[b])),
                forall|b: int| j <= b < n ==> !#[trigger] bs_has(row@, b),
            decreases n - j,
        {
            let ok = i != j && !chars_eq(&box_i, &chars_of(secs[j].codigo_box.as_str()))
                && !chars_eq(&prefixes[i], &prefixes[j]) && !sections_conflict(&secs[i], &secs[j]);
            if ok {
                let wi = j / 64;
                let bi = (j % 64) as u64;
                let ghost old_row = row@;
                assert(wi < words) by (nonlinear_arith)
                    requires wi == j / 64, j < n, words == (if n == 0 { 0 } else { (n - 1) / 64 + 1 });
                row.set(wi, row[wi] | (1u64 << bi));
                assert forall|b: int| 0 <= b < n implies (#[trigger] bs_has(row@, b) <==> (bs_has(old_row, b) || b == j)) by {
                    if b / 64 == wi as int {
                        lemma_set_bit(old_row[wi as int], bi, (b % 64) as u64);
                        assert(b == j <==> b % 64 == bi as int) by (nonlinear_arith)
                            requires b / 64 == j / 64, bi == j % 64, 0 <= b, 0 <= j;
                    } else {
                        assert(b != j);
                        assert(row@[b / 64] == old_row[b / 64]);
                    }
                    assert(b < words * 64) by (nonlinear_arith)
                        requires b < n, words == (if n == 0 { 0 } else { (n - 1) / 64 + 1 }), 0 <= b;
                }
            }
            j = j + 1;
        }
        let ghost r0 = rows@;
        rows.push(row);
        assert forall|a: int, b: int| 0 <= a < i + 1 && 0 <= b < n implies (bs_has(#[trigger] rows@[a]@, b) <==> a != b && compatible(
            secs@[a],
            #[trigger] secs@[b],
        )) by {
            if a == i as int {
                assert(rows@[a] == row);
            } else {
                assert(rows@[a] == r0[a]);
            }
        }
        i = i + 1;
    }
    assert forall|a: int, b: int| 0 <= a < n && 0 <= b < n implies (#[trigger] adj(rows@, a, b) <==> a != b && compatible(
        secs@[a],
        secs@[b],
    )) by {
        assert(i == n);
        assert(0 <= a < i);
        let ra = rows@[a]@;
        let sb = secs@[b];
        assert(bs_has(ra, b) <==> a != b && compatible(secs@[a], sb));
    }
    rows
}

proof fn lemma_bit_zero(k: u64)
    requires
        k < 64,
    ensures
        !bit(0u64, k),
{
    assert((0u64 >> k) & 1u64 != 1u64) by (bit_vector)
        requires
            k < 64,
    ;
}

/// Index of the first course whose upper-cased code is `code`.
pub open spec fn first_code_match(ramos: Seq<RamoDisponible>, code: Seq<char>, i: int) -> Option<int>
    decreases ramos.len() - i,
{
    if i < 0 || i >= ramos.len() {
        None
    } else if upper_of(ramos[i].codigo@) == code {
        Some(i)
    } else {
        first_code_match(ramos, code, i + 1)
    }
}

/// The weight of a section in the clique search: the priority of the section within
/// the first course with the same upper-cased code, 0 when there is none.
pub open spec fn weight_of(ramos: Seq<RamoDisponible>, sec: Seccion) -> int {
    match first_code_match(ramos, upper_of(sec.codigo@), 0) {
        Some(k) => priority(ramos[k], sec.seccion@),
        None => 0,
    }
}

proof fn lemma_priority_range(r: RamoDisponible, s: Seq<char>)
    ensures
        0 <= priority(r, s) <= 10_106_099,
{
}

proof fn lemma_first_code_match(ramos: Seq<RamoDisponible>, code: Seq<char>, i: int, j: int)
    requires
        0 <= i <= j <= ramos.len(),
        forall|k: int| i <= k < j ==> upper_of((#[trigger] ramos[k]).codigo@) != code,
    ensures
        first_code_match(ramos, code, i) == first_code_match(ramos, code, j),
    decreases j - i,
{
    if i < j {
        lemma_first_code_match(ramos, code, i + 1, j);
    }
}

/// The weight of every section.
fn section_weights(secs: &[Seccion], ramos: &[RamoDisponible]) -> (r: Vec<i32>)
    ensures
        r.len() == secs.len(),
        forall|i: int| 0 <= i < secs.len() ==> #[trigger] r@[i] == weight_of(ramos@, secs@[i]),
{
    let mut codes: Vec<Vec<char>> = Vec::new();
    let mut k: usize = 0;
    while k < ramos.len()
        invariant
            k <= ramos.len(),
            codes.len() == k,
            forall|x: int| 0 <= x < k ==> (#[trigger] codes@[x])@ == upper_of(ramos@[x].codigo@),
        decreases ramos.len() - k,
    {
        codes.push(to_upper(&chars_of(ramos[k].codigo.as_str())));
        k = k + 1;
    }
    let mut out: Vec<i32> = Vec::new();
    let mut i: usize = 0;
    while i < secs.len()
        invariant
            i <= secs.len(),
            codes.len() == ramos.len(),
            forall|x: int| 0 <= x < ramos.len() ==> (#[trigger] codes@[x])@ == upper_of(ramos@[x].codigo@),
            out.len() == i,
            forall|x: int| 0 <= x < i ==> #[trigger] out@[x] == weight_of(ramos@, secs@[x]),
        decreases secs.len() - i,
    {
        let c = to_upper(&chars_of(secs[i].codigo.as_str()));
        let mut k: usize = 0;
        while k < codes.len() && !chars_eq(&codes[k], &c)
            invariant
                k <= codes.len() == ramos.len(),
                forall|x: int| 0 <= x < ramos.len() ==> (#[trigger] codes@[x])@ == upper_of(ramos@[x].codigo@),
                forall|x: int| 0 <= x < k ==> upper_of((#[trigger] ramos@[x]).codigo@) != c@,
            decreases codes.len() - k,
        {
            k = k + 1;
        }
        proof {
            lemma_first_code_match(ramos@, c@, 0, k as int);
        }
        let w: i32 = if k < codes.len() {
            proof {
                lemma_priority_range(ramos@[k as int], secs@[i as int].seccion@);
            }
            compute_priority(&ramos[k], &secs[i]) as i32
        } else {
            0
        };
        out.push(w);
        i = i + 1;
    }
    out
}

/// `r` lists, with their weights, the sections at the distinct positions `idx`, which
/// are pairwise compatible.
pub open spec fn plan_of(secs: Seq<Seccion>, ramos: Seq<RamoDisponible>, idx: Seq<usize>, r: Seq<(Seccion, i32)>) -> bool {
    &&& idx.len() == r.len()
    &&& idx.no_duplicates()
    &&& forall|a: int| 0 <= a < idx.len() ==> #[trigger] idx[a] < secs.len()
    &&& forall|a: int| 0 <= a < r.len() ==> same_section((#[trigger] r[a]).0, secs[idx[a] as int]) && r[a].1 == weight_of(ramos, secs[idx[a] as int])
    &&& forall|a: int, b: int| 0 <= a < idx.len() && 0 <= b < idx.len() && a != b ==> compatible(
        secs[#[trigger] idx[a] as int],
        secs[#[trigger] idx[b] as int],
    )
}

/// `r` is a plan of at most `max` sections of `secs`.
pub open spec fn is_plan(secs: Seq<Seccion>, ramos: Seq<RamoDisponible>, max: int, r: Seq<(Seccion, i32)>) -> bool {
    r.len() <= max && exists|idx: Seq<usize>| #[trigger] plan_of(secs, ramos, idx, r)
}

/// Whether every code cuts at its seventh byte.
pub open spec fn codes_cut_ok(secs: Seq<Seccion>) -> bool {
    forall|k: int| 0 <= k < secs.len() ==> cut7_ok((#[trigger] secs[k]).codigo@)
}

/// Plans a timetable: the sections of a clique of the compatibility graph with at most
/// `max_size` sections, found by a maximum-weight search within `budget_ms`
/// milliseconds; each section comes with its weight. `None` when a code cannot be cut
/// at its seventh byte.
pub fn clique_plan(secs: &[Seccion], ramos: &[RamoDisponible], max_size: usize, budget_ms: u128) -> (r: Option<Vec<(Seccion, i32)>>)
    requires
        secs.len() < 0x1000_0000,
    ensures
        r is None <==> !codes_cut_ok(secs@),
        r matches Some(v) ==> is_plan(secs@, ramos@, max_size as int, v@),
{
    let mut prefixes: Vec<Vec<char>> = Vec::new();
    let mut k: usize = 0;
    while k < secs.len()
        invariant
            k <= secs.len(),
            prefixes.len() == k,
            forall|x: int| 0 <= x < k ==> cut7_ok((#[trigger] secs@[x]).codigo@),
            forall|x: int| 0 <= x < k ==> (#[trigger] prefixes@[x])@ == prefix7(secs@[x].codigo@),
        decreases secs.len() - k,
    {
        match prefix7_opt(secs[k].codigo.as_str()) {
            Some(p) => prefixes.push(p),
            None => {
                return None;
            },
        }
        k = k + 1;
    }
    let neigh = compat_graph(secs, &prefixes);
    let weights = section_weights(secs, ramos);
    proof {
        assert forall|i: int| 0 <= i < neigh.len() implies #[trigger] weights@[i] > i32::MIN by {
            let w = weight_of(ramos@, secs@[i]);
            match first_code_match(ramos@, upper_of(secs@[i].codigo@), 0) {
                Some(k) => { lemma_priority_range(ramos@[k], secs@[i].seccion@); },
                None => {},
            }
        }
        assert forall|v: int| 0 <= v < neigh.len() implies !adj(neigh@, v, v) by {
            assert(adj(neigh@, v, v) <==> v != v && compatible(secs@[v], secs@[v]));
        }
        assert(irreflexive(neigh@));
    }
    let idx = bk_find_max_weight_clique(&neigh, &weights, max_size, budget_ms);
    let mut out: Vec<(Seccion, i32)> = Vec::new();
    let mut a: usize = 0;
    while a < idx.len()
        invariant
            a <= idx.len(),
            is_clique_result(neigh@, neigh.len() as int, max_size as int, idx@),
            neigh.len() == secs.len() && weights.len() == secs.len(),
            forall|i: int| 0 <= i < secs.len() ==> #[trigger] weights@[i] == weight_of(ramos@, secs@[i]),
            out.len() == a,
            forall|x: int| 0 <= x < a ==> same_section((#[trigger] out@[x]).0, secs@[idx@[x] as int]) && out@[x].1 == weight_of(
                ramos@,
                secs@[idx@[x] as int],
            ),
        decreases idx.len() - a,
    {
        let v = idx[a];
        out.push((secs[v].duplicate(), weights[v]));
        a = a + 1;
    }
    proof {
        assert forall|x: int, y: int| 0 <= x < idx.len() && 0 <= y < idx.len() && x != y implies compatible(
            secs@[#[trigger] idx@[x] as int],
            secs@[#[trigger] idx@[y] as int],
        ) by {
            let (u, w) = (idx@[x] as int, idx@[y] as int);
            lemma_compatible_symmetric(secs@[u], secs@[w]);
            assert(adj(neigh@, u, w) || adj(neigh@, w, u));
        }
        assert(plan_of(secs@, ramos@, idx@, out@));
    }
    assert(out.len() <= max_size);
    assert(is_plan(secs@, ramos@, max_size as int, out@));
    Some(out)
}

/// A string of the characters of a literal.
fn text(s: &str) -> (r: String)
    ensures
        r@ == s@,
{
    string_from_chars(&lit(s))
}

/// A course of the built-in example curriculum.
fn example_course(id: i32, nombre: &str, codigo: &str, holgura: i32, numb_correlativo: i32, critico: bool) -> (r: (String, RamoDisponible))
    ensures
        r.0@ == codigo@,
        r.1.id == id && r.1.nombre@ == nombre@ && r.1.codigo@ == codigo@ && r.1.holgura == holgura,
        r.1.numb_correlativo == numb_correlativo && r.1.critico == critico,
        r.1.requisitos_ids@.len() == 0 && !r.1.electivo && r.1.semestre is None,
{
    (text(codigo), RamoDisponible {
        id,
        nombre: text(nombre),
        codigo: text(codigo),
        holgura,
        numb_correlativo,
        critico,
        requisitos_ids: Vec::new(),
        electivo: false,
        semestre: None,
    })
}

/// The built-in example curriculum: four courses keyed by their codes.
pub fn fallback_ramos() -> (r: Vec<(String, RamoDisponible)>)
    ensures
        r.len() == 4,
        r@[0].0@ == "CIT3313"@ && r@[0].1.nombre@ == "Algoritmos y Programación"@ && r@[0].1.holgura == 0
            && r@[0].1.numb_correlativo == 53 && r@[0].1.critico,
        r@[1].0@ == "CIT3211"@ && r@[1].1.nombre@ == "Bases de Datos"@ && r@[1].1.holgura == 0
            && r@[1].1.numb_correlativo == 52 && r@[1].1.critico,
        r@[2].0@ == "CIT3413"@ && r@[2].1.nombre@ == "Redes de Computadores"@ && r@[2].1.holgura == 2
            && r@[2].1.numb_correlativo == 54 && !r@[2].1.critico,
        r@[3].0@ == "CFG-1"@ && r@[3].1.nombre@ == "Curso de Formación General"@ && r@[3].1.holgura == 3
            && r@[3].1.numb_correlativo == 10 && !r@[3].1.critico,
        forall|k: int| 0 <= k < 4 ==> (#[trigger] r@[k]).1.codigo@ == r@[k].0@,
{
    let mut r: Vec<(String, RamoDisponible)> = Vec::new();
    r.push(example_course(1, "Algoritmos y Programación", "CIT3313", 0, 53, true));
    r.push(example_course(2, "Bases de Datos", "CIT3211", 0, 52, true));
    r.push(example_course(3, "Redes de Computadores", "CIT3413", 2, 54, false));
    r.push(example_course(4, "Curso de Formación General", "CFG-1", 3, 10, false));
    r
}

/// The digit character of `n` (1 or 2).
pub open spec fn digit_of(n: int) -> char {
    if n == 1 {
        '1'
    } else {
        '2'
    }
}

/// Two simulated sections for every course, numbered 1 and 2: code `<key>-SEC<n>`,
/// the course key as box, the course name, teacher `Profesor <n>`, and the single
/// entry `08:00-10:00`.
pub fn simulated_sections(ramos: &Vec<(String, RamoDisponible)>) -> (r: Vec<Seccion>)
    requires
        2 * ramos.len() <= usize::MAX,
    ensures
        r.len() == 2 * ramos.len(),
        forall|k: int, t: int| 0 <= k < ramos.len() && 0 <= t < 2 ==> {
            let s = #[trigger] r@[2 * k + t];
            &&& s.codigo@ == ramos@[k].0@ + "-SEC"@ + seq![digit_of(t + 1)]
            &&& s.codigo_box@ == ramos@[k].0@
            &&& s.nombre@ == ramos@[k].1.nombre@
            &&& s.seccion@ == seq![digit_of(t + 1)]
            &&& s.profesor@ == "Profesor "@ + seq![digit_of(t + 1)]
            &&& s.horario@.len() == 1 && s.horario@[0]@ == "08:00-10:00"@
        },
{
    let mut out: Vec<Seccion> = Vec::new();
    let mut k: usize = 0;
    while k < ramos.len()
        invariant
            k <= ramos.len(),
            2 * ramos.len() <= usize::MAX,
            out.len() == 2 * k,
            forall|k2: int, t: int| 0 <= k2 < k && 0 <= t < 2 ==> {
                let s = #[trigger] out@[2 * k2 + t];
                &&& s.codigo@ == ramos@[k2].0@ + "-SEC"@ + seq![digit_of(t + 1)]
                &&& s.codigo_box@ == ramos@[k2].0@
                &&& s.nombre@ == ramos@[k2].1.nombre@
                &&& s.seccion@ == seq![digit_of(t + 1)]
                &&& s.profesor@ == "Profesor "@ + seq![digit_of(t + 1)]
                &&& s.horario@.len() == 1 && s.horario@[0]@ == "08:00-10:00"@
            },
        decreases ramos.len() - k,
    {
        let mut t: usize = 0;
        while t < 2
            invariant
                k < ramos.len(),
                t <= 2,
                out.len() == 2 * k + t,
                forall|k2: int, t2: int| 0 <= k2 < k && 0 <= t2 < 2 ==> {
                    let s = #[trigger] out@[2 * k2 + t2];
                    &&& s.codigo@ == ramos@[k2].0@ + "-SEC"@ + seq![digit_of(t2 + 1)]
                    &&& s.codigo_box@ == ramos@[k2].0@
                    &&& s.nombre@ == ramos@[k2].1.nombre@
                    &&& s.seccion@ == seq![digit_of(t2 + 1)]
                    &&& s.profesor@ == "Profesor "@ + seq![digit_of(t2 + 1)]
                    &&& s.horario@.len() == 1 && s.horario@[0]@ == "08:00-10:00"@
                },
                forall|t2: int| 0 <= t2 < t ==> {
                    let s = #[trigger] out@[2 * k + t2];
                    &&& s.codigo@ == ramos@[k as int].0@ + "-SEC"@ + seq![digit_of(t2 + 1)]
                    &&& s.codigo_box@ == ramos@[k as int].0@
                    &&& s.nombre@ == ramos@[k as int].1.nombre@
                    &&& s.seccion@ == seq![digit_of(t2 + 1)]
                    &&& s.profesor@ == "Profesor "@ + seq![digit_of(t2 + 1)]
                    &&& s.horario@.len() == 1 && s.horario@[0]@ == "08:00-10:00"@
                },
            decreases 2 - t,
        {
            let d: char = if t == 0 { '1' } else { '2' };
            let mut code = chars_of(ramos[k].0.as_str());
            let suffix = lit("-SEC");
            let mut i: usize = 0;
            let ghost c0 = code@;
            while i < suffix.len()
                invariant
                    i <= suffix.len(),
                    code@ == c0 + suffix@.subrange(0, i as int),
                decreases suffix.len() - i,
            {
                code.push(suffix[i]);
                i = i + 1;
                assert(code@ =~= c0 + suffix@.subrange(0, i as int));
            }
            assert(suffix@.subrange(0, suffix.len() as int) =~= suffix@);
            code.push(d);
            let mut prof = lit("Profesor ");
            prof.push(d);
            let mut horario: Vec<String> = Vec::new();
            horario.push(text("08:00-10:00"));
            let sec = Seccion {
                codigo: string_from_chars(&code),
                nombre: ramos[k].1.nombre.clone(),
                seccion: string_from_chars(&vec![d]),
                horario,
                profesor: string_from_chars(&prof),
                codigo_box: ramos[k].0.clone(),
            };
            assert(sec.codigo@ =~= ramos@[k as int].0@ + "-SEC"@ + seq![digit_of(t + 1)]);
            assert(sec.seccion@ =~= seq![digit_of(t + 1)]);
            assert(sec.profesor@ =~= "Profesor "@ + seq![digit_of(t + 1)]);
            let ghost o0 = out@;
            out.push(sec);
            assert forall|k2: int, t2: int| 0 <= k2 < k && 0 <= t2 < 2 implies {
                let s = #[trigger] out@[2 * k2 + t2];
                &&& s.codigo@ == ramos@[k2].0@ + "-SEC"@ + seq![digit_of(t2 + 1)]
                &&& s.codigo_box@ == ramos@[k2].0@
                &&& s.nombre@ == ramos@[k2].1.nombre@
                &&& s.seccion@ == seq![digit_of(t2 + 1)]
                &&& s.profesor@ == "Profesor "@ + seq![digit_of(t2 + 1)]
                &&& s.horario@.len() == 1 && s.horario@[0]@ == "08:00-10:00"@
            } by {
                assert(out@[2 * k2 + t2] == o0[2 * k2 + t2]);
            }
            assert forall|t2: int| 0 <= t2 < t + 1 implies {
                let s = #[trigger] out@[2 * k + t2];
                &&& s.codigo@ == ramos@[k as int].0@ + "-SEC"@ + seq![digit_of(t2 + 1)]
                &&& s.codigo_box@ == ramos@[k as int].0@
                &&& s.nombre@ == ramos@[k as int].1.nombre@
                &&& s.seccion@ == seq![digit_of(t2 + 1)]
                &&& s.profesor@ == "Profesor "@ + seq![digit_of(t2 + 1)]
                &&& s.horario@.len() == 1 && s.horario@[0]@ == "08:00-10:00"@
            } by {
                if t2 < t {
                    assert(out@[2 * k + t2] == o0[2 * k + t2]);
                }
            }
            t = t + 1;
        }
        k = k + 1;
    }
    out
}

/// Runs the clique planner on the built-in example curriculum with two simulated
/// sections per course, choosing at most six sections within one second; the chosen
/// sections are pairwise compatible. Every simulated section meets at 08:00-10:00, so
/// at most one section is chosen: a section of one of the example courses (none when
/// the second runs out before a clique is scored).
pub fn run_clique_example() -> (r: Vec<(Seccion, i32)>)
    ensures
        r.len() <= 1,
        r.len() == 1 ==> r@[0].0.horario@.len() == 1 && r@[0].0.horario@[0]@ == "08:00-10:00"@ && {
            let b = r@[0].0.codigo_box@;
            b == "CIT3313"@ || b == "CIT3211"@ || b == "CIT3413"@ || b == "CFG-1"@
        },
{
    let pairs = fallback_ramos();
    let secs = simulated_sections(&pairs);
    proof {
        assert forall|x: int| 0 <= x < secs.len() implies {
            &&& (#[trigger] secs@[x]).horario@.len() == 1
            &&& secs@[x].horario@[0]@ == "08:00-10:00"@
            &&& {
                let b = secs@[x].codigo_box@;
                b == "CIT3313"@ || b == "CIT3211"@ || b == "CIT3413"@ || b == "CFG-1"@
            }
        } by {
            let k = x / 2;
            let t = x % 2;
            assert(x == 2 * k + t);
            assert(secs@[2 * k + t].codigo_box@ == pairs@[k].0@);
        }
    }
    let mut ramos: Vec<RamoDisponible> = Vec::new();
    let mut k: usize = 0;
    while k < pairs.len()
        invariant
            k <= pairs.len(),
        decreases pairs.len() - k,
    {
        ramos.push(pairs[k].1.clone());
        k = k + 1;
    }
    match clique_plan(&secs, &ramos, 6, 1000) {
        Some(v) => {
            proof {
                let idx = choose|idx: Seq<usize>| #[trigger] plan_of(secs@, ramos@, idx, v@);
                if v.len() >= 2 {
                    let (x, y) = (secs@[idx[0] as int], secs@[idx[1] as int]);
                    assert(compatible(x, y));
                    assert(x.horario@[0]@ == y.horario@[0]@);
                    assert(share_entry(x.horario@, y.horario@));
                }
                if v.len() == 1 {
                    assert(same_section(v@[0].0, secs@[idx[0] as int]));
                }
            }
            v
        },
        None => Vec::new(),
    }
}
} // verus!
