[package]
name = "hiyori"
version = "0.1.0"
edition = "2021"
publish = false

[dependencies]
epub = "=2.1.5"
cuid2 = "=0.1.6"
xml = "=1.4.0"
actix-web = "=4.15.0"
actix-cors = "*"
actix-multipart = "*"
actix-web-lab = "=0.29.0"
tokio = { version = "*", features = ["macros", "rt-multi-thread"] }
dotenv = "*"
figment = { version = "*", features = ["env"] }
serde = { version = "*", features = ["derive"] }
serde_json = "*"
log = "*"
pretty_env_logger = "*"
lazy_static = "*"
regex = "*"

[dev-dependencies]
zip = "=8.6.0"
