# china_operator_ip

Classifies the IPv4 and IPv6 prefixes seen in BGP RIB dumps by origin AS and
by the shared upstream ASes of their paths, and prints the address ranges of
the requested ASes. Registration data can fill in space that no route
announces; any announcement takes precedence over it.

The library in `src/` is verified with Verus; `app/` is the command-line
program around it (argument parsing, reading files and MRT dumps, the cache
file, printing).

## Library layout

- `asn`: ASNs, the ASN country table, the trusted domestic transit policy and
  the foreign-upstream filter.
- `path`: AS-path normalisation, common suffixes, and the attribution of a
  prefix to the upstreams of its common suffix (up to the first operator).
- `net`, `subnets`: address families and CIDR blocks modelled over the
  integers; conversion of intervals to CIDR blocks and prefix text (ipnet).
- `ranges`, `prefixes`, `points`: sets of addresses (iprange), prefix tables
  with longest-prefix match (prefix-trie, vec-collections), ordered split
  points.
- `table`: the per-family table the classifier fills, its invariant, merging,
  shared-upstream attribution, and the slicing of the address space into
  per-ASN ranges.
- `dual`: both families side by side: address sets, per-ASN ranges, tables.
- `classifier`: what each RIB entry contributes, combining RIB files, the
  classification and its queries, and its plain-value form.
- `fallback`: lists of fallback prefixes.
- `failure`: failures to read a list, with their I/O kind or invalid data.
- `cache`: cache keys and cache file names.
- `text`, `order`: text handling and sorting.

## What is proved

Among others:

- Each ASN is given exactly the addresses that lie between split points and
  whose longest matching prefix lists it (`FamilyTable::into_ranges`).
- The final result is `classified ∪ (fallback − announced)`
  (`Classification::result`); default routes are not announced space.
- Attribution walks the common suffix from the origin and stops after the
  first operator (`law_attribution_stops_at_first_operator`).
- Common suffixes are commutative and associative, do not depend on the
  order of the paths (`law_suffix_ignores_order`), and capped suffixes of
  groups compose to the capped suffix of all paths
  (`law_capped_suffixes_compose`); merging per-file tables gives the tables
  of reading all routes at once (`law_files_merge_to_all`).
- The printed lines are the stored networks of each family, each once,
  IPv4 first, in increasing order (`IpRanges::lines`).
- A classification restored from its stored form answers as the original
  (`law_parts_roundtrip`); the operator fingerprint input does not depend on
  the order of the operator set (`law_operator_input_ignores_order`).
