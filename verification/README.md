# ipmap

Verified building blocks of an IP geolocation tool, written in Verus.

- `address`: IPv4 (`u32`) and IPv6 (`u128`) addresses as strings of bits
  and of nibbles; masking.
- `tree_bitmap`: a prefix tree over nibble strings, storing a value per
  prefix.
- `table`: `IpLookupTable`, a map from IP prefixes to values with exact,
  longest and all-prefix lookups, iteration, and equality that ignores the
  order of insertion.
- `allocator`: `BucketVec` and `Allocator`, bucketed storage for small
  arrays that move between size classes as they grow and shrink.
- `database`: ranges of addresses stored as the CIDR blocks that cover them
  (computed by `ipnet`), mapped to packed coordinates; storing the rows of
  a city CSV database; single and combined (IPv4 and IPv6) databases.
- `compact`: a compact city database of numbered address ranges (kept in
  a `rangemap` map) with small coordinates, the first location of each
  coordinate and a table of names that starts with the empty one.
- `parse`: bytes as UTF-8 text, and addresses and decimal numbers from
  text.
- `detect`, `progress`, `trace`: deciding the format of a CSV database,
  when to report download progress, how far a traceroute has got, and
  folding neighbouring traceroute hops at one location.
- `capture`: grouping captured connections by the coordinate of their
  address, and the coordinates whose connections started or ended, each
  once.
- `traffic`: per-connection byte counts over all time and over a sliding
  window.
- `locations`: country codes, a dictionary of names stored once each
  (`indexmap`, with `heck` for title case), and the store of the location
  of each coordinate.
- `dbset`, `sources`, `ipdb`: loaded databases and the one selected, where
  databases come from, and location records.

`app/` holds what the library leaves to its callers: reading files, the
clock, and the floating-point arithmetic on coordinates and rates.
