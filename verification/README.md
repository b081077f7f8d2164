# nullnet-grpc

The controller of a network in which hosts offer services and proxies ask for them on behalf of
clients. The controller

- keeps the configuration of the services and their dependency chains,
- records which hosts offer which services,
- sets up the VLANs or VXLANs that connect a client to a service, and the service to its dependencies,
- tears them down when no chain runs over them any more; a network that clients share goes with the
  first of them that leaves.

`src/` is the library, verified with Verus. `app/` is the gRPC server around it.

## Library

| module | what it holds |
| --- | --- |
| `addr`, `text`, `seqs`, `table` | addresses, numerals, sequence combinators, keyed lists |
| `net`, `orchestrator` | the address plan, messages to hosts, network identifiers in use |
| `services` | configuration, replicas, connections, changes and how they are applied |
| `nullnet_grpc_impl` | requests of proxies, triggers of services, lists of offered services |
| `chain_setup` | setting up the networks of a chain, edge by edge |
| `timeout` | connections that have not been used for too long |
| `vxlan`, `vlan`, `graphviz`, `fixtures` | cleaning up, drawing the network, test data paths |
| `*_laws` | what holds of the operations together |

The state is a pair of the services and the orchestrator, `services::world::World`. Every operation has
a specification as a function on that state. Time is a number of nanoseconds that the caller passes in,
and messages to hosts are queued in an outbox that the caller empties.

The calls into other crates stand behind two wrappers: `uuid` for message identifiers and `ipnetwork`
for networks in written form.

## Server

- `NET_TYPE` selects `VLAN` or `VXLAN`, the default.
- `TIMEOUT` is the timeout in seconds of services that declare none, 60 if it is not set; 0 stands for
  no timeout.
- Services are declared in `./services/services.toml`. `proxy_dependencies` is the chain that is set up
  for a client of the service, and each trigger pairs a port with the chain that is set up when the
  service uses it:

```
[[services]]
name = "color.com"
timeout = 0
proxy_dependencies = ["fs.color.com"]

[[services.triggers]]
port = 5555
chain = ["ts.color.com"]

[[services]]
name = "fs.color.com"
```

- The network is drawn to `./graph.dot` every ten seconds.
