# dnschecker

The logic of a DNS server checker, verified with Verus: it reads lists of DNS
server definitions (`udp://`, `tcp://`, `dot://`/`tls://`, `https://`/`doh://` or a
bare host, each with optional bootstrap addresses), the settings of a check, and
turns lookup outcomes into results.

- `src/text.rs`: character classes, trimming, splitting, decimal numbers, joins.
- `src/addr.rs`: IP addresses as plain values; the standard parsers behind wrappers.
- `src/span.rs`: a bound on the nanoseconds a duration text can add up to.
- `src/config.rs`: expected answers, matching, concurrency, timeout, record type,
  bootstrap addresses.
- `src/server.rs`: endpoints and server definitions, one per line.
- `src/check.rs`: the outcome of one check and the summary of a batch.
- `src/lookup.rs`: addresses to try, the failover over them, transports, answers,
  failure messages.
- `src/service.rs`: the requests, parsed in order.
- `src/laws.rs`: properties across functions.
- `app/`: the asynchronous lookups through Hickory and the serialized results.
