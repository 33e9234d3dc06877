# bandix_plus

A traffic monitor for routers: it counts the traffic of interfaces and devices,
follows DNS queries and connections, keeps hours of traffic in ring files, and
limits rates by a policy.

`src/` is the library, written in Verus. It holds what the monitor decides and
computes, and each function states what it does:

- packets and counters: `packet`, `counting`, `keys`, `limits`
- snapshots of traffic: `monitor`, `collect`, `rows`, `offload`, `runtime`,
  `snapshot`, `recent`, `history`, `days`, `bucket`, `series`, `usage`
- storage: `ring`, `ringfile`, `persistence`, `store`
- DNS: `dnsmsg`, `dns`, `dnsrec`, `dnsreport`, `dnsstore`, `capture`, `tally`
- connections: `netlink`, `conntrack`
- rate limits: `policy`, `schedule`, `desired`
- the system around it: `topology`, `interfaces`, `system`, `hosts`, `firewall`,
  `attach`, `options`, `access`, `api`
- notations and collections: `text`, `number`, `mac`, `ip`, `cidr`, `json`,
  `clock`, `sort`, `table`, `deviceset`

Functions named `law_...` state what holds across functions, such as that what was
appended to a ring file is read back from it.

`app/` is the program around the library: files, sockets, the kernel's maps, the web
server, and rates, which are floating-point numbers. `tests/` runs the library on
concrete values.
