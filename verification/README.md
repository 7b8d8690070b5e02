# querypath_fmt

Formatting of directory-scan results as tree views, verified with Verus.

- `src/` — the library. Every function carries a contract over a mathematical
  model (`Seq<char>` for text, spec functions for the layout), and the
  library's laws are proved as public proof functions:
  - `fmt_node` builds the tree of a scan (`law_insert_path`: what a recording
    gives back);
  - `sort` orders entries (`law_sort_level_permutation`,
    `law_sort_level_in_order`, `law_sort_level_idempotent`,
    `law_sort_level_stable`, `law_sort_order_antisymmetric`,
    `law_sort_order_transitive`, `law_compare_strings_total_preorder`,
    `law_groups_in_order`, ...);
  - `fmt_render` draws the columns (`law_render_lines_align`: every line of a
    rendering has one width), and `querypath_fmt` puts scan, sorting and
    rendering together (`law_format_lines_align`); a formatter from
    `QueryPathFmt::new()` keeps the name order of the tree until
    `.sorting(..)` gives it a sorting;
  - `numeration` (`law_cells_align`), `stats_weight`, `stats_temporal` and
    `temporal` (`law_dates_valid`, `law_next_day`: the dates run through the
    Gregorian calendar day by day) format the numbers, sizes and times;
    `tree` and `paths_tree` draw plain trees.
- `tests/` — tests on concrete values.
- `app/` — the glue that turns the results of a `querypath` scan into the
  library's `ScanResults`.
