[package]
name = "stackscope"
version = "0.1.0"
edition = "2021"
publish = false

[dependencies]
object = "=0.40.0"
gimli = "=0.34.0"
capstone = "=0.14.0"
petgraph = "=0.8.3"
serde = { version = "=1.0.229", features = ["derive"] }
serde_json = "=1.0.154"
clap = { version = "=4.6.7", features = ["derive"] }
thiserror = "=2.0.21"

[dev-dependencies]
object = { version = "=0.40.0", features = ["write"] }
