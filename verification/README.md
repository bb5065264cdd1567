# gscale-erp-read-rs

A read-only ERP catalog service (items, item details, warehouse stock)
over an ERPNext/MariaDB database, with its logic verified by Verus.

- `src/` is the verified library:
  - `text`: character-level primitives (trimming, word splitting,
    substring search, replacement) and the few standard-library calls they
    rest on;
  - `search`: normalisation of search text, Uzbek transliteration, spelling
    variants and the expansion of a query into search terms;
  - `scoring`: Levenshtein distance, subsequence matching, fuzzy field
    scores and the ranking of items;
  - `store`: catalog records, the SQL queries with their bound values, and
    the shaping of the rows the database returns;
  - `httpapi`: query parameters and error answers;
  - `appconfig`: configuration from the bench site settings and the
    environment.
- `app/` is the server: environment and file reading, the HTTP routes and
  the MySQL pool.
