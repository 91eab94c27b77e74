# previz_receiver

The verified core of the Napa previz volume receiver: a loopback Art-Net
sidecar that reassembles a voxel volume from ArtDmx universes, latches it on
ArtSync, and publishes it to a shared-memory region read by Unreal Engine.

- `src/` is the library, verified with Verus:
  - `artnet` decodes ArtDmx/ArtSync datagrams;
  - `decimal` parses unsigned decimal text as `str::parse` does;
  - `config` resolves the sender's configuration (geometry strings, ports,
    z-layers, cube offsets);
  - `volume` maps universes to voxels and decides what each datagram does;
  - `shmem` lays out the shared region and runs the seqlock protocol on a
    byte buffer;
  - `cli` reads the command line and resolves the config path.
- `app/` is the program: JSON reading with serde, UDP sockets, threads, and the
  `shm_open`/`mmap` region driven with atomics.
- `tests/` exercises the library on concrete values.
