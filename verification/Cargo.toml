[package]
name = "compress_pdf"
version = "0.1.0"
edition = "2021"
publish = false

[dependencies]
anyhow = "=1.0.104"
clap = { version = "=4.6.7", features = ["derive"] }
fast_image_resize = "=6.1.0"
fax = "=0.3.0"
flate2 = "=1.1.10"
hayro = "=0.9.0"
hayro-ccitt = "=0.5.0"
hayro-jbig2 = "=0.4.0"
hayro-jpeg2000 = "=0.5.0"
hayro-syntax = "=0.9.0"
hb-subset = "=0.3.0"
jbig2enc-rust = "=0.6.0"
lopdf = "=0.46.0"
moxcms = "=0.9.1"
mozjpeg = "=0.10.13"
read-fonts = { version = "=0.46.0", features = ["agl"] }
tracing = "=0.1.44"
tracing-subscriber = { version = "=0.3.23", features = ["env-filter"] }
zune-core = "=0.5.3"
zune-jpeg = "=0.5.15"

[dev-dependencies]
hayro-font = "0.3"
