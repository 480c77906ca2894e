[package]
name = "maxtract"
version = "0.1.0"
edition = "2021"
publish = false

[dependencies]
regex = "*"
select = "*"
url = "*"
curl = "*"
serde_json = "*"
