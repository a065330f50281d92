# motorsport_telemetry

DuckDB table functions over motorsport telemetry: Pi/Cosworth PDS, MoTeC LD, Racelogic VBO and
AiM MP4 recordings. Channels are listed with their units and native clocks, samples are handed
out exactly as they were recorded, and a wide table puts channels side by side on one clock.

- `src/` is the library, verified with Verus: the PDS reader, channel maps, channel filters,
  the selection and portioning of samples, resampling, sessions, column comments, projections
  for export, named arguments and the cells of every result table. It works on plain values.
  A floating-point number is its bit pattern, so that nothing in the library calculates with
  one.
- `app/` connects the library to DuckDB, to the file system and to the crates that read and
  write the other formats, and does the floating-point arithmetic.
- `tests/` runs the library on concrete recordings and tables.

Proof functions whose names begin with `law_` state what holds of the library as a whole.
