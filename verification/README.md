# tonks

A parallel system scheduler for `legion` worlds. Systems declare the
resources and components they read and write; the builder packs them into
stages in which no two systems conflict, and the scheduler dispatches stages,
one-shot systems and event-handler pipelines so that no two running tasks hold
conflicting access to a resource.

## Layout

- `src/` is the verified core, checked by Verus:
  - `ids`, `mappings`: consecutive IDs for types;
  - `resources`: resource slots indexed by ID;
  - `system`, `event`, `query`: what systems and handlers declare, event
    triggers, component access of a prepared world;
  - `builder`, `layout`: packing systems into conflict-free stages and laying
    out the scheduler's tables;
  - `scheduler`: obtaining and releasing resources, the task queue, and the
    state transitions of a dispatch;
  - `holding`: laws relating the held counts and marks to the group of
    running tasks, which never conflict;
  - `atomic_bit_set`: a bit set of atomic words;
  - `collections`: the outside collections the core uses, and the trusted
    wrappers through which it calls them.
- `app/` is the runtime around the core: global ID allocation, typed
  resources, system and handler traits, `legion` queries, and the dispatch
  loop that runs tasks on the `rayon` thread pool.
- `tests/` exercises the core on concrete scenarios.
