[package]
name = "skyzen"
version = "0.1.0"
edition = "2021"
publish = false

[dependencies]
async-channel = "=2.5.0"
async-fs = "=2.2.0"
async-io = "=2.6.0"
async-net = "=2.0.0"
base64 = "=0.22.1"
color-eyre = "=0.6.5"
ctrlc = "=3.5.2"
executor-core = "=0.7.1"
flate2 = "=1.1.10"
futures-channel = "=0.3.34"
futures-util = "=0.3.34"
headers = "=0.4.2"
http = "=1.5.0"
http-body-util = "=0.1.5"
http-kit = { version = "=0.4.4", features = ["json", "ws"] }
hyper = { version = "=1.12.0", features = ["server", "http1", "http2"] }
include_dir = "=0.7.4"
itoa = "=1.0.18"
jsonwebtoken = { version = "=10.4.0", features = ["rust_crypto"] }
matchit = "=0.8.6"
mime_guess = "=2.0.5"
serde = { version = "=1.0.229", features = ["derive"] }
serde_html_form = "=0.2.8"
serde_json = { version = "=1.0.154", features = ["preserve_order", "raw_value"] }
smol = "=2.0.2"
tracing = "=0.1.44"
tracing-log = "=0.2.0"
tracing-subscriber = { version = "=0.3.23", features = ["env-filter"] }
utoipa = "=5.5.0"
utoipa-redoc = "=6.0.0"
