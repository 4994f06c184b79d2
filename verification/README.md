# rustscan (verified core)

The configuration and probe-database logic of a port scanner, written in
Verus and proved against its contracts.

- `src/input.rs`: port lists such as `80,443,1-1000`, the scan options and
  how the configuration file is merged into them.
- `src/port_strategy.rs`: the order in which ports are scanned.
- `src/payload.rs`: decoding of the quoted payloads of the UDP probe database.
- `src/database.rs`: reading the UDP probe database and the probes of each port.
- `src/ports.rs`, `src/text.rs`: port sets and character-level helpers.
- `app/`: the command line (clap), the TOML configuration file, the user's
  directories, and writing the generated probe table.
- `tests/`: runtime tests of the library.
