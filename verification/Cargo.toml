[package]
name = "pcl_rtf"
version = "0.1.0"
edition = "2021"
publish = false

[dependencies]
either = "=1.19.0"
iter-identify_first_last = { version = "=0.2.3", default-features = false }
itertools = "=0.15.0"
