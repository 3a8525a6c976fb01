[package]
name = "mfsk_core"
version = "0.3.0"
edition = "2021"
publish = false

[dependencies]
heapless = "0.8"
num-complex = "0.4"
num-traits = "0.2"
microfft = { version = "0.6", features = ["size-8192"] }
rustfft = "6"
log = "0.4"
anyhow = "1"
embassy-sync = "0.6"
embedded-graphics = "0.8"
mipidsi = "0.8"
display-interface-spi = "0.5"
esp-idf-hal = "*"
esp-idf-svc = "*"
