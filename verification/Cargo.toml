[package]
name = "browser_wpt_results"
version = "0.1.0"
edition = "2021"
publish = false

[dependencies]
chrono = "0.4"
flate2 = "1"
gix = { version = "*", default-features = false, features = ["sha1"] }
percent-encoding = "2"
serde = { version = "1", features = ["derive"] }
serde_json = "1"
ureq = { version = "3", features = ["json"] }
wptreport = "*"
