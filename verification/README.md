# rs-pmtxt2merged

Merges two scrapes of the Prometheus text format, a state and the next one,
and writes the merged counters and gauges back in the text format.

- `src/` is the verified library: the scrape model (`scrape`, `strmap`),
  the merge (`merge`), the conversion to metric families (`conv`, `ser`),
  read access to a parsed scrape (`parse`) and byte-wise text comparison
  (`text`). Readings are held as the bit patterns of their `f64` values; the
  sum of two counter readings is computed by a function that the caller hands
  to the merge.
- `app/` is the program around it: reading the files named by
  `ENV_STATE_MET_TXT_FILENAME` and `ENV_NEXT_MET_TXT_FILENAME`, parsing them
  with `prometheus-parse`, adding counter readings as `f64`, and encoding the
  families with `prometheus`'s text encoder to the standard output.
