[package]
name = "ldconfig"
version = "0.1.0"
edition = "2021"
publish = false

[dependencies]
goblin = "=0.10.7"
memmap2 = "=0.9.11"
camino = "=1.2.6"
glob = "=0.3.4"
bpaf = { version = "=0.9.28", features = ["derive"] }
