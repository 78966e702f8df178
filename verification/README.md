# dows (DNS over WebSocket proxy)

dows accepts DNS over WebSocket connections and proxies them to DNS servers over
TCP. The decisions of the proxy are a library that is verified with
[Verus](https://github.com/verus-lang/verus); the program around it does the input
and output.

## Protocol

DNS over WebSocket is a transport for DNS messages. The proxy uses the last
segment (as in RFC 3986) of the WebSocket path as the target endpoint. The
target endpoint is encoded like an authority without userinfo (as in RFC 3986,
Section 3). Each DNS message (as in RFC 1035, Section 4.1) is the payload of a
WebSocket binary data message (as in RFC 6455).

## Usage

The only command line argument is the optional listener address. To restrict the
allowed upstreams and origins, `DOWS_ALLOWED_UPSTREAMS` and
`DOWS_ALLOWED_ORIGINS` must be set to comma-separated lists of allowed values.
Alternatively, both of these variables can be set exactly to `*` (allow any),
which disables the specific check.

## Building

The info page names the version, the repository and the commit, so
`GIT_COMMIT_HASH` has to be set when the program is built, besides
what cargo sets. A program that was built without it does not start.

## Layout

- `src/framing.rs`: DNS over TCP and server-to-client WebSocket framing as
  functions on byte sequences, and their laws
- `src/client.rs`: client-to-server WebSocket framing and what the proxy makes of
  it, and their laws
- `src/translate.rs`: translation between the two, in fixed buffers
- `src/forward.rs`: the two directions of an open connection
- `src/close.rs`: close frames
- `src/text.rs`: lists, blanks and letter case
- `src/http.rs`, `src/accept.rs`, `src/upstream.rs`, `src/policy.rs`,
  `src/handshake.rs`: from the bytes of a request to the answer
- `app/`: the program: sockets, signals and the environment
