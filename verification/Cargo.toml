[package]
name = "tohdr"
version = "0.1.0"
edition = "2021"
publish = false

[dependencies]
hpvca = "=0.2.3"
image = { version = "=0.25.10", default-features = false, features = ["tiff", "png", "jpeg"] }
objc2-core-foundation = "*"
objc2-core-graphics = "*"
objc2-image-io = "*"

[dev-dependencies]
ultrahdr-core = { version = "=0.6.0", default-features = false }
