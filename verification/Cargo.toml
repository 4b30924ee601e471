[package]
name = "transit_csa"
version = "0.1.0"
edition = "2021"
publish = false

[dependencies]
chrono = { version = "0.4", default-features = false, features = ["std", "clock", "serde"] }
csv = "1"
futures = { version = "0.3", default-features = false, features = ["std"] }
rayon = "1"
serde = { version = "1", features = ["derive"] }
tokio = { version = "1", default-features = false, features = ["macros", "rt-multi-thread"] }
