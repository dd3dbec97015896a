# team_solver

Assigns students to project teams from a CSV table of ranked preferences.

`src/` is the verified library: reading the table (`csv_parser`, over the
`csv` crate), reading students from records (`solver`), the
assignment (`assignment`, with `solver::solve` as the entry point: of the
groupings that keep every team within the size bounds and every pitcher on
their project, it takes one with as few students as possible outside their
choices, and answers nothing only where no such grouping exists), the
integer parts of the optimal model (`lp_model`), and the proved properties of
every answer (`laws`).

`app/` is the browser page (yew): file upload, column mapping, and the
linear-programming model built with `good_lp`, whose weights are
floating-point numbers.
