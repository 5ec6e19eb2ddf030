# quickshift

A course-timetable planner for university students, verified with Verus.

From a curriculum (courses, prerequisites, semesters), the academic offer of the term
(sections with their timetables) and the courses a student has passed, the library
proposes timetables of compatible sections, scored by how urgent each course is on
the critical path of the curriculum and by the student's wishes.

## Layout

- `src/` — the verified library.
  - Text and timetables: `text`, `horario`, `conflict`, `scoring`, `plan_score`.
  - Reading sheets (rows of cell texts): `malla` (curriculum), `oferta_filas` (academic
    offer), `malla_electivos` (the curriculum with its electives and
    sequence links), `prereqs` (prerequisite tables), `porcentajes` (approval-rate sheet),
    `datafiles` (names, keys, file choice), `merge` (join of the three).
  - Curriculum analysis: `pert`, `critical` (critical path and slack), `courses`,
    `disponibles`.
  - Planning: `plan_pool` (the sections a plan draws from), `clique` (greedy
    multi-seed search), `clique_all` (CFG-seeded and enumerated timetables),
    `exhaustive` (depth-first clique search on the compatibility graph),
    `clique_bk`, `bitset` (Bron–Kerbosch), `selector`, `filters`, `ruta` (choice of
    the final timetables), `rutacritica` (the planner on a small built-in curriculum).
- `tests/` — executable tests of the library.
- `app/` — a command-line front end: reads the workbooks, calls the library and
  prints JSON. Floating-point work (cell formatting, approval rates, path scores)
  happens there.
