[package]
name = "gem"
version = "0.1.0"
edition = "2021"
publish = false

[dependencies]
arcstr = "=1.2.0"
clap = { version = "=4.6.7", features = ["derive"] }
clilog = "=0.2.3"
compact_str = "=0.10.0"
indexmap = "=2.14.2"
itertools = "=0.15.0"
netlistdb = "=0.3.1"
rayon = "=1.12.0"
serde = { version = "1", features = ["derive"] }
serde_bare = "=0.5.0"
sverilogparse = "=0.3.3"
vcd-ng = "=0.2.0"
