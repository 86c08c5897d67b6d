# muster_net

The scan engine of a local network scanner: what a machine's interfaces,
routes and neighbours say about the network it is on, which addresses answer,
which ports are open, and what the devices call themselves.

## Layout

* `src/` is the library, written in Verus. Every wire format (DNS, NetBIOS
  node status, DHCP offers, ICMP echo), every text the operating system hands
  over (`/proc/net/*`, `resolv.conf`, lease files, addresses and prefixes),
  and every decision (what to probe next at an address, what a sweep or a
  port scan reports, which device kind a set of clues points to) is a
  function with a contract, and Verus proves the code meets it. The laws
  that relate functions (a text reads back as what was written, a query
  parses back as what was asked, the sweep never leaves its prefix, silence
  is never reported as a closed port) are public proof functions beside the
  functions they speak of.
* `tests/` runs the library on concrete values.
* `app/` is the part that talks to an operating system: sockets, files,
  `getifaddrs` and the IP Helper API, worker threads, and the token bucket
  that paces probes. It reads and sends, and hands the library plain values.
