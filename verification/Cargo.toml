[package]
name = "jitsi-jingle-sdp"
version = "0.1.0"
edition = "2021"
publish = false

[dependencies]
clap = { version = "4", features = ["derive"] }
itertools = "0.10"
minidom = "0.15"
sdp = "0.5"
thiserror = "1"
xmltree = "0.10"
xmpp-parsers = "0.19"
