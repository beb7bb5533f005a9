[package]
name = "rando"
version = "0.1.0"
edition = "2021"
publish = false

[dependencies]
rand = "*"
rand_pcg = "*"
rand_seeder = "*"
adjective_adjective_animal = "*"
serde = { version = "*", features = ["derive"] }
serde_json = "*"
