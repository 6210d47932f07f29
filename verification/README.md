# bus_spotting

Joins a transit agency's schedule (GTFS), vehicle positions (AVL) and ticketing taps (BIL)
into a model of each day: which vehicle served which scheduled trip, and who boarded where.

The library in `src/` is verified with Verus; every public function states what it computes
in its `ensures` clause, over spec functions on plain values.

- `feed`, `stops`, `routes`, `trips`, `stop_times`, `calendar`, `assembly`, `variants`: reading
  the GTFS tables and assembling routes, their variants and the stops each variant visits.
- `gtfs`: queries on the schedule (variants by date or description).
- `ticketing`: reading taps and splitting each card's taps into journeys.
- `model`, `vehicle_to_routes`, `to_trips`, `boarding`: the daily model, the routes each
  vehicle served, the trips inferred from its passes near stops, and the boarding events
  matching taps to vehicles.
- `segment`, `supply_demand`, `multiday`, `paths`: statistics and summaries.
- `time`, `dates`, `ids`, `text`, `sort`, `format`, `timetable`: the building blocks.

`app/` is the command-line program around the library: it reads the archive, parses the CSV
files, does the floating-point geometry (projections, trajectories, distances) and prints the
results. `tests/` exercises the library on small hand-made feeds.
