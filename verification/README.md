# ringbuf

A single-producer single-consumer FIFO ring buffer whose behaviour is proved
with Verus.

- `src/` is the verified library: index arithmetic (`raw`), storage runs
  (`storage`), the ring buffer (`rb`, generic over its position cells in
  `index`), its ends (`direct`, `frozen`, `cached`, `iter`), a producer and a
  consumer that share one ring buffer side by side (`local`), the traits the
  ends share (`observer`, `producer`, `consumer`, `ring_buffer`, `cache`,
  `based`), standalone counters (`counter`), `transfer` and the error kinds
  (`error`).
- `tests/` exercises the library on concrete values.
- `app/` shares a ring buffer between a producer and a consumer (`Rc`/`Arc`)
  and connects byte ring buffers to `std::io`.
