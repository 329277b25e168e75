# snaprs

Receiver-side logic of a UDP-fed software-defined radio, verified with Verus.

- `src/payload.rs`: the packet format (counter + 4096 signed 8-bit samples),
  reading a packet from a datagram, sample/byte conversions.
- `src/sdr.rs`: the table of output sample rates, decimation factors and
  filter tables.
- `src/pipeline.rs`: the packet sequencer that turns the received packets
  into a gap-free stream with stand-ins for lost packets, and the command
  handling of the down-converter stage, and the sample budget of a capture.
- `src/cuwf.rs`: the shape of a waterfall computation and its output length.
- `app/`: threads, sockets, channels, buffer pools, the GPU engines and the
  command-line tools, all unverified.
