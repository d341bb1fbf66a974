[package]
name = "rslidar"
version = "0.1.0"
edition = "2021"
publish = false

[dependencies]
anyhow = "1"
nalgebra = "0.34"
pcap-file = "2"
zenoh = { version = "1", default-features = false, features = ["transport_tcp", "transport_udp"] }
