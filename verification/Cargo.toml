[package]
name = "watermodel"
version = "0.1.0"
edition = "2021"
publish = false

[dependencies]
bincode = "1"
chrono = "0.4"
console_error_panic_hook = "0.1"
gdal = { version = "0.16", features = ["array"] }
geotiff = "0.0.2"
js-sys = "0.3"
ndarray = "0.15"
serde = { version = "1", features = ["derive"] }
serde-wasm-bindgen = "0.6"
serde_json = "1"
thiserror = "1"
wasm-bindgen = "0.2"
wasm-bindgen-futures = "0.4"
web-sys = { version = "0.3", features = ["Blob", "File", "FileReader", "ProgressEvent", "console"] }
wee_alloc = "0.4"
