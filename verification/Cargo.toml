[package]
name = "mtproj"
version = "0.1.0"
edition = "2021"
publish = false

[dependencies]
base64 = "*"
image = "*"
png = "*"
serde_json = "*"
zip = { version = "*", default-features = false, features = ["deflate"] }
reqwest = { version = "*", default-features = false, features = ["blocking", "json", "rustls-tls"] }
