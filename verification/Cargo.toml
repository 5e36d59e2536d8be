[package]
name = "convert_world"
version = "0.1.0"
edition = "2021"
publish = false

[dependencies]
fastnbt = "=2.6.3"
fastanvil = "=0.30.0"
bit_field = "=0.10.3"
byteorder = "=1.5.0"
serde = { version = "=1.0.229", features = ["derive"] }
tokio = { version = "=1.54.1", features = ["full"] }
tokio-stream = "=0.1.19"
async-stream = "=0.3.6"
futures-util = "=0.3.34"
async-compression = { version = "=0.4.52", features = ["tokio", "zlib", "gzip"] }
num_enum = "=0.7.6"
num_enum_derive = "=0.7.6"
tikv-jemallocator = "=0.7.0"
