[package]
name = "ser_write"
version = "0.1.0"
edition = "2021"
publish = false

[dependencies]
serde = { version = "=1.0.229", features = ["derive"] }
ryu-js = "=1.0.3"
arrayvec = "=0.7.8"
heapless = "=0.9.3"
smallvec = { version = "=1.16.4", features = ["const_generics"] }
tinyvec = { version = "=1.13.3", features = ["alloc", "rustc_1_55", "rustc_1_57"] }
