# net_ifaces

A small desktop panel that lists the network interfaces of a Linux machine,
switches them up and down through `sudo ip link set`, and shows the details of
one interface.

- `src/` is the verified library (Verus). It reads the output of `ip -br link`
  (`link`), of `ip -d link show`, `ip addr show` and `ip -s link show`
  (`detail`), formats byte counts (`numfmt`), chooses the interface language
  (`lang`) and takes the decisions of the list (`control`). `text` models lines,
  words and trimming over `Seq<char>`.
- `app/` is the program: the egui window, the threads, the `ip` and `sudo`
  processes, the environment and sysfs lookups.
- `tests/` runs the library on concrete inputs.
