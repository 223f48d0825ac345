# rust_qsim — verified core

The parts of a distributed traffic simulation that decide things, written in Verus and proved
against their contracts:

- `network`, `network_converter`, `graph`, `path`, `dijkstra`, `landmarks`: the road network, its
  conversion into forward and backward graphs in compressed sparse row form (per mode), lookups
  between ids and indices, the extraction of a link path from the parents that a search left
  behind, and the choice of landmarks for the landmark-based search.
- `trip_structure`, `prepare_for_sim`, `routing`: trips of a plan between main activities, the
  main mode of a trip, the checks that decide whether a trip can be simulated as it is or must be
  routed anew, the leg that drives a found path, and marking a routed trip with its mode.
- `selectors`: choosing and removing plans by score.
- `travel_times`: travel-time bins, their consolidation, the pairing of link enters and leaves,
  and the hand-over of the partitions' travel times once an iteration is complete.
- `occupancy`, `mapping`, `homesending`, `backpacking`, `state_machine_buffer`, `scoring`: the
  bookkeeping of the distributed scoring — who sits in which vehicle, where each event goes, when
  buffered events are released (in time order, once every partition has passed the watermark),
  how a person's events are handed on in the order of the partitions visited, how the plan that
  a person experienced is rebuilt from its events (`experienced_plans`), what a partition
  does when a person or vehicle leaves or enters it, which backpacks go home at the end, how the
  events sent on are numbered and watermarks passed on (`mapping_broker`), and when every other
  partition, or every pair of partition and collector, has finished (`finish_barrier`).

`app/` holds what works on floating-point numbers (the shortest-path search, travel-time means and
interpolation), the travel-time store shared between threads, and error types for callers.
