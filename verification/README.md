# Porkbun webhook for ExternalDNS

A webhook provider that lets [ExternalDNS](https://github.com/kubernetes-sigs/external-dns)
manage the DNS records of [Porkbun](https://porkbun.com) domains. Its decisions are written
and proved in Verus; the server around them is ordinary Rust.

## Layout

- `src/` is the verified library.
  - `text`, `number`: texts as sequences of characters, numbers in decimal.
  - `error`: failures, whether a retry may help, and how they are answered.
  - `config`: the settings, and the environment that they are read from.
  - `middleware`: what is told of requests in the log.
  - `porkbun`: what is sent to the Porkbun API, and what its replies mean.
  - `webhook::rules`, `webhook::plan`: how names, zones and targets are compared, and the
    mutations that bring the records of a zone in line with an endpoint.
  - `webhook::agenda`, `webhook::apply`: changes as an agenda of tasks, worked off until
    something is needed from outside.
  - `webhook::records`: the records of the managed zones as endpoints.
  - `webhook::laws`, `webhook::conduct`, `webhook::retry`, `webhook::request`: what holds of
    plans that are carried out, of the work on changes whatever the service replies, of
    changes that are asked for again, and of a request from its beginning to its end.
- `app/` is the server: routes, HTTP, environment, log.
- `tests/` runs the library.

## How the library and the server meet

The library does no I/O. Where it needs something it returns an action, such as "list the
records of this zone"; the server performs it and hands back the event that reports what
came of it. Requests for changes go through `ApplyRun`, requests for records through
`Reading`, and the account's domains through `DomainListing`.
