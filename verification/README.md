# deejx (verified core)

deejx is a hardware volume mixer: a board reads slider positions and sends them over
serial; a driver on the PC turns slider moves into volume changes on the sound server.

Layout:

- `src/` — the library, verified with Verus:
  - `packet.rs`: the serial packet format (`build` on the board side, `PacketDecoder`
    on the driver side) and its laws: packets read back exactly, streams of packets,
    resynchronisation after noise, dropped packets on a bad checksum.
  - `sliders.rs`: which sliders of a packet are passed on and what each asks for.
  - `audio.rs`: volume commands, the `AudioControl` trait, the Unix controller that
    queues commands, and how applications are picked by name.
  - `config.rs`: the profile and how changes on disk are taken over.
  - `adc.rs`: how the board turns a burst of ADC samples into one reading.
- `app/` — the driver program: serial port, profile files and watcher, PulseAudio calls
  and the floating-point volume scaling.
- `tests/` — tests of the library.
