# relay

A small tool that shares a directory and measures bandwidth over the local network.

    relay <port> [root_path]

With a directory, `/` leads to a page that lists it, and its files can be browsed and
downloaded. Without one, there is only a page that measures speed. At the start the
addresses at which the server can be reached are printed, IPv6 first.

`root_path` must be an existing directory. A request whose path starts at the root of the
file system, or climbs to a parent directory anywhere, is answered with 404. On Windows that
holds with backslashes too, and of a path that goes to a drive.

There is no encryption: share nothing private outside a network that you trust.

## Layout

- `src/` is the library, verified with Verus: almost everything that is decided or computed.
  - `text`, `lists`, `order`, `number`: searching, replacing, splitting and comparing text; facts
    about filtered sequences; the order of keys; numbers as text.
  - `html`, `template`, `parts`, `listing`: escaping, the template language, what templates are
    rendered to, and the pages made with it.
  - `path`, `request`: the paths that requests name, and the steps from a request to its answer.
  - `address`, `urls`, `inet6`, `interfaces`: which of the machine's addresses to announce, and
    how they are written.
  - `speedtest`: the random data by which a client measures its bandwidth.
  - `cli`: the command line.
- `app/` is the program around it: the web server, the file system, and the system's lists of
  network interfaces.
- `tests/` runs the library.

What the library promises stands in the `ensures` of its functions and in its public proof
functions, whose names start with `law_`. What it believes of other crates and of the standard
library is marked with `assume_specification` and `external_body`.
