# saba

Saba allocates network bandwidth among applications by how sensitive each one is to
bandwidth. A profiler turns measured runs into sensitivity models; a controller clusters
registered applications into priority levels, maps the levels onto a switch's queues and
computes bandwidth weights; applications register and open connections through a
connection manager.

## Layout

- `src/` is the verified library (Verus). It holds the logic that works on integers,
  strings and collections, each public function with a contract:
  - `topology`, `graph`, `node`, `switch`, `text`: the topology description formats (the
    current one and the first generation's), their parsers, and breadth-first path search
    with a proof that the path found is the first shortest one in breadth-first order and
    that `None` means no path exists;
  - `registry`, `connection`, `protocol`: which applications may register, their priority
    levels and connections, request actions and error statuses, with laws relating the
    operations (register/deregister round trips, idempotence, dropped connections);
  - `clustering`, `order`: the bookkeeping of clustering and queue mapping (grouping by
    nearest centroid, empty-cluster rebalancing, name and priority order, merging groups of
    priority levels, queue numbering);
  - `client`: the connection manager's state machine;
  - `profiler`, `record`, `profile`, `model`: the profiling job queue, runs grouped by
    application, and the integer decisions around sensitivity models;
  - `controller_config`, `profiler_config`, `first_profiler_config`, `settings`: which
    source each setting comes from (defaults, configuration file, command line).
- `tests/` exercises the library on concrete values.
- `app/` is the ordinary Rust around the library: the programs (controller, profiler,
  interface, connection manager), file and network I/O, the gRPC services, and the
  floating-point parts (model fitting, k-means distances, the allocator).
